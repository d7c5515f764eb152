use koharu::inpainting::geometry::boxes_from_mask;
use koharu::inpainting::strategy::{InpaintError, InpaintForward};
use koharu::lama::{Lama, SourceImage};
use koharu::pipeline::{
    choose_base, choose_mask, clip_mask_to_region, BaseImage, Model, PipelineError, Region,
};
use koharu::raster::{GrayImage, RgbImage, RgbaImage};

struct Painter;

impl InpaintForward for Painter {
    fn forward(&self, image: &RgbImage, _mask: &GrayImage) -> Result<RgbImage, InpaintError> {
        let (w, h) = image.dimensions();
        Ok(RgbImage::from_pixel(w, h, [0, 0, 0]))
    }
}

const REGION: Region = Region {
    x: 2,
    y: 1,
    width: 3,
    height: 2,
};

#[test]
fn clipping_keeps_the_region_only() {
    let mask = GrayImage::from_fn(6, 4, |x, y| (10 + x + 6 * y) as u8);
    let clipped = clip_mask_to_region(&mask, &REGION);
    for y in 0..4 {
        for x in 0..6 {
            let inside = (2..5).contains(&x) && (1..3).contains(&y);
            let expected = if inside { mask.get_pixel(x, y) } else { 0 };
            assert_eq!(clipped.get_pixel(x, y), expected);
        }
    }
    let twice = clip_mask_to_region(&clipped, &REGION);
    assert_eq!(twice.pixels(), clipped.pixels());
}

#[test]
fn regions_may_reach_beyond_the_mask() {
    let mask = GrayImage::from_pixel(3, 3, 255);
    let wide = Region {
        x: 1,
        y: 2,
        width: u32::MAX,
        height: u32::MAX,
    };
    assert_eq!(
        clip_mask_to_region(&mask, &wide).pixels(),
        &vec![0, 0, 0, 0, 0, 0, 0, 255, 255]
    );
    let outside = Region {
        x: 9,
        y: 9,
        width: 1,
        height: 1,
    };
    assert!(clip_mask_to_region(&mask, &outside)
        .pixels()
        .iter()
        .all(|p| *p == 0));
}

#[test]
fn boxes_of_a_clipped_mask_lie_in_the_region() {
    let mask = GrayImage::from_pixel(40, 40, 255);
    let region = Region {
        x: 5,
        y: 6,
        width: 10,
        height: 11,
    };
    let boxes = boxes_from_mask(&clip_mask_to_region(&mask, &region));
    assert_eq!(boxes, vec![[5, 6, 15, 17]]);
}

#[test]
fn a_page_needs_a_segmentation_mask() {
    let error = choose_base(false, None, true).unwrap_err();
    assert_eq!(error, PipelineError::NoSegmentMask);
    assert_eq!(error.message(), "no Segment mask on page");
}

#[test]
fn repairs_start_from_the_inpainted_image() {
    assert_eq!(choose_base(true, None, true), Ok(BaseImage::Source));
    assert_eq!(choose_base(true, None, false), Ok(BaseImage::Source));
    assert_eq!(choose_base(true, Some(REGION), true), Ok(BaseImage::Inpainted));
    assert_eq!(choose_base(true, Some(REGION), false), Ok(BaseImage::Source));
    let mask = GrayImage::from_pixel(6, 4, 255);
    assert_eq!(choose_mask(mask.clone(), None).pixels(), mask.pixels());
    assert_eq!(
        choose_mask(mask.clone(), Some(REGION)).pixels(),
        clip_mask_to_region(&mask, &REGION).pixels()
    );
}

#[test]
fn only_the_region_changes_on_a_large_page() {
    let model = Model(Lama { model: Painter });
    let image = RgbImage::from_fn(1000, 600, |x, y| {
        let v = ((x * 7919 + y * 104729 + x * y) % 256) as u8;
        [v, 255 - v, v / 2]
    });
    let mut mask = GrayImage::new(1000, 600);
    for (x0, y0) in [(100, 100), (800, 400)] {
        for y in y0..y0 + 20 {
            for x in x0..x0 + 20 {
                mask.put_pixel(x, y, 255);
            }
        }
    }
    let region = Region {
        x: 750,
        y: 350,
        width: 200,
        height: 200,
    };
    let source = SourceImage::Rgb(image.clone());
    match model.run(&source, mask, Some(region)).unwrap() {
        SourceImage::Rgb(out) => {
            assert_eq!(out.get_pixel(810, 410), [0, 0, 0]);
            for y in 0..600 {
                for x in 0..1000 {
                    let inside = (750..950).contains(&x) && (350..550).contains(&y);
                    if !inside {
                        assert_eq!(out.get_pixel(x, y), image.get_pixel(x, y));
                    }
                }
            }
        }
        SourceImage::Rgba(_) => panic!("no alpha was given"),
    }
}

#[test]
fn only_the_region_changes_on_a_small_page() {
    let model = Model(Lama { model: Painter });
    let noise = |x: u32, y: u32| ((x * 7919 + y * 104729 + x * y) % 256) as u8;
    let image = RgbaImage::from_fn(60, 50, |x, y| {
        let v = noise(x, y);
        [v, 255 - v, v / 2, 200]
    });
    let mask = GrayImage::from_pixel(60, 50, 255);
    let region = Region {
        x: 20,
        y: 10,
        width: 15,
        height: 25,
    };
    let source = SourceImage::Rgba(image.clone());
    match model.run(&source, mask.clone(), Some(region)).unwrap() {
        SourceImage::Rgba(out) => {
            for y in 0..50 {
                for x in 0..60 {
                    let inside = (20..35).contains(&x) && (10..35).contains(&y);
                    let expected = if inside {
                        [0, 0, 0, 200]
                    } else {
                        image.get_pixel(x, y)
                    };
                    assert_eq!(out.get_pixel(x, y), expected);
                }
            }
        }
        SourceImage::Rgb(_) => panic!("alpha was lost"),
    }
    match model.run(&source, mask, None).unwrap() {
        SourceImage::Rgba(out) => assert_eq!(out.get_pixel(0, 0), [0, 0, 0, 200]),
        SourceImage::Rgb(_) => panic!("alpha was lost"),
    }
}

#[test]
fn a_region_without_marked_pixels_changes_nothing() {
    let model = Model(Lama { model: Painter });
    let image = RgbImage::from_fn(50, 40, |x, y| [x as u8, y as u8, 1]);
    let mut mask = GrayImage::new(50, 40);
    mask.put_pixel(40, 30, 255);
    let region = Region {
        x: 0,
        y: 0,
        width: 20,
        height: 20,
    };
    match model
        .run(&SourceImage::Rgb(image.clone()), mask, Some(region))
        .unwrap()
    {
        SourceImage::Rgb(out) => assert_eq!(out.pixels(), image.pixels()),
        SourceImage::Rgba(_) => panic!("no alpha was given"),
    }
}
