use koharu::inpainting::alpha::{
    binarize_mask, extract_alpha, extract_rgb, restore_alpha_channel,
};
use koharu::inpainting::strategy::{HdStrategy, HdStrategyConfig, InpaintError, InpaintForward};
use koharu::lama::{accepts, image_from_output, Lama, LamaForward, SourceImage};
use koharu::raster::{GrayImage, RgbImage, RgbaImage};

const ALPHA_RING_RADIUS: u8 = 7;

struct Painter([u8; 3]);

impl InpaintForward for Painter {
    fn forward(&self, image: &RgbImage, _mask: &GrayImage) -> Result<RgbImage, InpaintError> {
        let (w, h) = image.dimensions();
        Ok(RgbImage::from_pixel(w, h, self.0))
    }
}

struct Failing;

impl InpaintForward for Failing {
    fn forward(&self, _image: &RgbImage, _mask: &GrayImage) -> Result<RgbImage, InpaintError> {
        Err(InpaintError::Forward("no network".to_string()))
    }
}

/// Noise that no balloon has.
fn noisy(width: u32, height: u32) -> RgbImage {
    RgbImage::from_fn(width, height, |x, y| {
        let v = ((x * 7919 + y * 104729 + x * y) % 256) as u8;
        [v, 255 - v, v / 2]
    })
}

fn marked(width: u32, height: u32, x0: u32, y0: u32, x1: u32, y1: u32) -> GrayImage {
    GrayImage::from_fn(width, height, |x, y| {
        if x0 <= x && x < x1 && y0 <= y && y < y1 {
            255
        } else {
            0
        }
    })
}

#[test]
fn rgba_alpha_restore_uses_surrounding_ring() {
    let image = RgbImage::from_pixel(32, 32, [20, 30, 40]);
    let mut alpha = GrayImage::from_pixel(32, 32, 255);
    let mut mask = GrayImage::new(32, 32);

    for y in 10..22 {
        for x in 10..22 {
            mask.put_pixel(x, y, 255);
        }
    }
    for y in (10 - u32::from(ALPHA_RING_RADIUS))..(22 + u32::from(ALPHA_RING_RADIUS)) {
        for x in (10 - u32::from(ALPHA_RING_RADIUS))..(22 + u32::from(ALPHA_RING_RADIUS)) {
            if x < 32 && y < 32 && mask.get_pixel(x, y) == 0 {
                alpha.put_pixel(x, y, 64);
            }
        }
    }

    let restored = restore_alpha_channel(&image, &alpha, &mask);
    assert_eq!(restored.get_pixel(15, 15)[3], 64);
    assert_eq!(restored.get_pixel(2, 2)[3], 255);
}

#[test]
fn alpha_outside_the_mask_and_colors_are_kept() {
    let image = noisy(20, 20);
    let alpha = GrayImage::from_fn(20, 20, |x, y| (x * 10 + y) as u8);
    let mask = marked(20, 20, 5, 5, 8, 8);
    let restored = restore_alpha_channel(&image, &alpha, &mask);
    for y in 0..20 {
        for x in 0..20 {
            let [r, g, b, a] = restored.get_pixel(x, y);
            assert_eq!([r, g, b], image.get_pixel(x, y));
            if mask.get_pixel(x, y) == 0 {
                assert_eq!(a, alpha.get_pixel(x, y));
            }
        }
    }
}

#[test]
fn a_mask_without_surroundings_keeps_its_alpha() {
    let image = RgbImage::from_pixel(3, 3, [1, 1, 1]);
    let alpha = GrayImage::from_fn(3, 3, |x, y| (x + 3 * y) as u8);
    let mask = GrayImage::from_pixel(3, 3, 255);
    let restored = restore_alpha_channel(&image, &alpha, &mask);
    assert_eq!(extract_alpha(&restored).pixels(), alpha.pixels());
}

#[test]
fn taking_apart_gives_colors_and_alpha() {
    let image = RgbaImage::from_fn(2, 2, |x, y| [x as u8, y as u8, 3, 4 + x as u8]);
    assert_eq!(extract_alpha(&image).pixels(), &vec![4, 5, 4, 5]);
    assert_eq!(extract_rgb(&image).get_pixel(1, 1), [1, 1, 3]);
    let gray = GrayImage::from_vec(3, 1, vec![127, 128, 3]).unwrap();
    assert_eq!(binarize_mask(&gray).pixels(), &vec![0, 255, 0]);
}

#[test]
fn sizes_must_agree() {
    let lama = Lama { model: Painter([0; 3]) };
    let image = SourceImage::Rgb(noisy(10, 20));
    let error = lama.inference(&image, &GrayImage::new(20, 10)).unwrap_err();
    assert!(matches!(
        error,
        InpaintError::SizeMismatch {
            image: (10, 20),
            mask: (20, 10)
        }
    ));
}

#[test]
fn a_dark_mask_changes_nothing() {
    let lama = Lama { model: Painter([0; 3]) };
    for (w, h) in [(20, 13), (900, 30)] {
        let mask = GrayImage::from_pixel(w, h, 127);
        let rgb = noisy(w, h);
        let out = lama.inference(&SourceImage::Rgb(rgb.clone()), &mask).unwrap();
        match out {
            SourceImage::Rgb(out) => assert_eq!(out.pixels(), rgb.pixels()),
            SourceImage::Rgba(_) => panic!("no alpha was given"),
        }
        let rgba = RgbaImage::from_fn(w, h, |x, y| [x as u8, y as u8, 9, (x + y) as u8]);
        let out = lama.inference(&SourceImage::Rgba(rgba.clone()), &mask).unwrap();
        match out {
            SourceImage::Rgba(out) => assert_eq!(out.pixels(), rgba.pixels()),
            SourceImage::Rgb(_) => panic!("alpha was lost"),
        }
    }
}

#[test]
fn the_network_paints_what_is_no_balloon() {
    let lama = Lama { model: Painter([1, 2, 3]) };
    let image = noisy(64, 64);
    let mask = marked(64, 64, 20, 20, 40, 40);
    let rgba = RgbaImage::from_fn(64, 64, |x, y| {
        let [r, g, b] = image.get_pixel(x, y);
        [r, g, b, 80]
    });
    match lama.inference(&SourceImage::Rgba(rgba), &mask).unwrap() {
        SourceImage::Rgba(out) => assert_eq!(out.get_pixel(30, 30), [1, 2, 3, 80]),
        SourceImage::Rgb(_) => panic!("alpha was lost"),
    }
    let error = Lama { model: Failing }
        .inference(&SourceImage::Rgb(image), &mask)
        .unwrap_err();
    assert!(matches!(error, InpaintError::Forward(m) if m == "no network"));
}

#[test]
fn a_flat_balloon_skips_the_network() {
    let lama = Lama { model: Failing };
    let mut image = RgbImage::from_pixel(64, 64, [240, 240, 240]);
    for i in 8..56 {
        for (x, y) in [(i, 8), (i, 39), (8, i.min(39)), (55, i.min(39))] {
            image.put_pixel(x, y, [0, 0, 0]);
        }
    }
    for x in 20..40 {
        image.put_pixel(x, 24, [9, 9, 9]);
    }
    let mask = marked(64, 64, 18, 18, 46, 30);
    let out = LamaForward { lama: &lama }.forward(&image, &mask).unwrap();
    assert_eq!(out.get_pixel(30, 24), [240, 240, 240]);
    assert_eq!(out.get_pixel(2, 2), [240, 240, 240]);
    let blank = LamaForward { lama: &lama }
        .forward(&image, &GrayImage::new(64, 64))
        .unwrap();
    assert_eq!(blank.pixels(), image.pixels());
}

#[test]
fn the_strategy_can_be_chosen() {
    let lama = Lama { model: Painter([7, 7, 7]) };
    let image = noisy(100, 60);
    let mask = marked(100, 60, 30, 20, 60, 40);
    let cfg = HdStrategyConfig {
        strategy: HdStrategy::Resize,
        resize_limit: 50,
        ..HdStrategyConfig::lama_default()
    };
    let out = lama
        .inference_with_config(&SourceImage::Rgb(image.clone()), &mask, &cfg)
        .unwrap();
    assert_eq!(out.dimensions(), (100, 60));
    match out {
        SourceImage::Rgb(out) => {
            assert_eq!(out.get_pixel(10, 10), image.get_pixel(10, 10));
            assert_eq!(out.get_pixel(45, 30), [7, 7, 7]);
        }
        SourceImage::Rgba(_) => panic!("no alpha was given"),
    }
}

#[test]
fn network_output_becomes_an_image() {
    let bytes = vec![1, 2, 3, 4, 5, 6, 7];
    let image = image_from_output(3, 1, 2, &bytes).unwrap();
    assert_eq!(image.dimensions(), (2, 1));
    assert_eq!(image.get_pixel(1, 0), [4, 5, 6]);
    assert!(matches!(
        image_from_output(1, 1, 2, &bytes),
        Err(InpaintError::Channels(1))
    ));
    assert!(matches!(
        image_from_output(3, 2, 2, &bytes),
        Err(InpaintError::Buffer)
    ));
}

#[test]
fn images_that_are_too_large_are_not_accepted() {
    let cfg = HdStrategyConfig {
        crop_margin: u32::MAX,
        ..HdStrategyConfig::lama_default()
    };
    let wide = SourceImage::Rgb(RgbImage::from_pixel(801, 1, [0; 3]));
    assert!(!accepts(&wide, &GrayImage::new(801, 1), &cfg));
    assert!(accepts(&wide, &GrayImage::new(1, 801), &cfg));
    assert!(accepts(&wide, &GrayImage::new(801, 1), &HdStrategyConfig::lama_default()));
    let clear = SourceImage::Rgba(RgbaImage::from_pixel(8, 8, [0; 4]));
    assert!(accepts(&clear, &GrayImage::new(8, 8), &cfg));
}
