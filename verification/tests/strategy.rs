use koharu::imaging::is_processable;
use koharu::inpainting::geometry::{
    boxes_from_mask, ceil_multiple, crop_box, is_searchable, reflect_index,
};
use koharu::inpainting::scaling::scaled_dims;
use koharu::inpainting::strategy::{
    is_inpaintable, is_paddable, is_resizable, pad_forward, pad_forward_bounded, rebinarize,
    run_inpaint, run_resize, symmetric_pad_gray, symmetric_pad_rgb, HdStrategy,
    HdStrategyConfig, InpaintError, InpaintForward,
};
use koharu::raster::{GrayImage, RgbImage};
use std::cell::RefCell;

fn solid_rgb(w: u32, h: u32, rgb: [u8; 3]) -> RgbImage {
    RgbImage::from_pixel(w, h, rgb)
}

struct IdentityForward;

impl InpaintForward for IdentityForward {
    fn forward(&self, image: &RgbImage, _mask: &GrayImage) -> Result<RgbImage, InpaintError> {
        Ok(image.clone())
    }
}

/// Paints everything in one color and remembers the sizes it saw.
struct PaintForward {
    color: [u8; 3],
    seen: RefCell<Vec<(u32, u32)>>,
}

impl PaintForward {
    fn new(color: [u8; 3]) -> Self {
        PaintForward {
            color,
            seen: RefCell::new(Vec::new()),
        }
    }
}

impl InpaintForward for PaintForward {
    fn forward(&self, image: &RgbImage, mask: &GrayImage) -> Result<RgbImage, InpaintError> {
        let (w, h) = image.dimensions();
        assert_eq!(mask.dimensions(), (w, h));
        self.seen.borrow_mut().push((w, h));
        Ok(RgbImage::from_pixel(w, h, self.color))
    }
}

struct FailingForward;

impl InpaintForward for FailingForward {
    fn forward(&self, _image: &RgbImage, _mask: &GrayImage) -> Result<RgbImage, InpaintError> {
        Err(InpaintError::Forward("out of memory".to_string()))
    }
}

fn mark(mask: &mut GrayImage, x0: u32, y0: u32, x1: u32, y1: u32) {
    for y in y0..y1 {
        for x in x0..x1 {
            mask.put_pixel(x, y, 255);
        }
    }
}

#[test]
fn ceil_multiple_rounds_up() {
    assert_eq!(ceil_multiple(8, 8), 8);
    assert_eq!(ceil_multiple(9, 8), 16);
    assert_eq!(ceil_multiple(0, 8), 0);
}

#[test]
fn ceil_multiple_of_zero_changes_nothing() {
    assert_eq!(ceil_multiple(13, 0), 13);
}

#[test]
fn reflect_index_mirrors_beyond_boundary() {
    assert_eq!(reflect_index(0, 5), 0);
    assert_eq!(reflect_index(4, 5), 4);
    assert_eq!(reflect_index(5, 5), 4);
    assert_eq!(reflect_index(6, 5), 3);
    assert_eq!(reflect_index(9, 5), 0);
}

#[test]
fn reflect_index_mirrors_again_and_again() {
    let line: Vec<u32> = (0..22).map(|i| reflect_index(i, 5)).collect();
    assert_eq!(
        line,
        vec![0, 1, 2, 3, 4, 4, 3, 2, 1, 0, 0, 1, 2, 3, 4, 4, 3, 2, 1, 0, 0, 1]
    );
    assert_eq!(reflect_index(3, 0), 0);
    assert_eq!(reflect_index(u32::MAX, 1), 0);
    assert_eq!(reflect_index(u32::MAX, u32::MAX), u32::MAX - 1);
}

#[test]
fn scaled_dims_preserves_aspect() {
    assert_eq!(scaled_dims(1600, 900, 1280), (1280, 720));
    assert_eq!(scaled_dims(800, 600, 1280), (800, 600));
    assert_eq!(scaled_dims(1000, 2000, 1280), (640, 1280));
}

#[test]
fn scaled_dims_round_like_doubles() {
    for (w, h, limit) in [
        (1601u32, 901u32, 1280u32),
        (3333, 7, 1000),
        (1, 5000, 640),
        (4961, 3508, 1279),
        (1279, 1281, 1280),
        (65535, 43690, 1281),
        (2, 3, 1),
    ] {
        let longer = w.max(h);
        let scale = f64::from(limit) / f64::from(longer);
        let expected = if longer <= limit {
            (w, h)
        } else {
            (
                ((f64::from(w) * scale).round() as u32).max(1),
                ((f64::from(h) * scale).round() as u32).max(1),
            )
        };
        assert_eq!(scaled_dims(w, h, limit), expected);
    }
}

#[test]
fn scaled_sides_are_nearest_and_stay() {
    let mut state: u64 = 7;
    for _ in 0..3000 {
        let mut next = || {
            state = state
                .wrapping_mul(6364136223846793005)
                .wrapping_add(1442695040888963407);
            1 + (state >> 33) % 65535
        };
        let (w, h) = (next(), next());
        let l = w.max(h);
        let limit = 1 + next() % l;
        let (nw, nh) = scaled_dims(w as u32, h as u32, limit as u32);
        assert_eq!(scaled_dims(nw, nh, limit as u32), (nw, nh));
        for (side, scaled) in [(w, u64::from(nw)), (h, u64::from(nh))] {
            let exact = (side * limit) as i64;
            assert!(scaled == 1 || 2 * ((scaled * l) as i64 - exact).abs() <= l as i64 || limit >= l);
        }
    }
}

#[test]
fn boxes_from_mask_finds_each_contour() {
    let mut mask = GrayImage::new(100, 100);
    mark(&mut mask, 10, 10, 25, 20);
    mark(&mut mask, 70, 50, 80, 60);
    let boxes = boxes_from_mask(&mask);
    assert_eq!(boxes.len(), 2);
    let mut sorted = boxes;
    sorted.sort_by_key(|b| b[0]);
    assert_eq!(sorted[0], [10, 10, 25, 20]);
    assert_eq!(sorted[1], [70, 50, 80, 60]);
}

#[test]
fn boxes_from_mask_ignores_holes() {
    // Filled rectangle with a hole in the middle.
    let mut mask = GrayImage::new(50, 50);
    mark(&mut mask, 5, 5, 45, 45);
    for y in 20..30 {
        for x in 20..30 {
            mask.put_pixel(x, y, 0);
        }
    }
    let boxes = boxes_from_mask(&mask);
    assert_eq!(boxes.len(), 1, "hole must not produce a second box");
}

#[test]
fn boxes_from_mask_ignores_islands_in_holes() {
    let mask = GrayImage::from_fn(50, 50, |x, y| {
        let inside = |a: u32, b: u32| a <= x && x < b && a <= y && y < b;
        if inside(5, 45) && (!inside(10, 40) || inside(20, 30)) {
            255
        } else {
            0
        }
    });
    assert_eq!(boxes_from_mask(&mask), vec![[5, 5, 45, 45]]);
}

#[test]
fn boxes_from_mask_finds_regions_at_the_edges() {
    let mut mask = GrayImage::new(30, 20);
    mark(&mut mask, 0, 5, 4, 9);
    assert_eq!(boxes_from_mask(&mask), vec![[0, 5, 4, 9]]);
    assert_eq!(
        boxes_from_mask(&GrayImage::from_pixel(30, 20, 255)),
        vec![[0, 0, 30, 20]]
    );
    assert_eq!(
        boxes_from_mask(&GrayImage::from_pixel(1, 1, 255)),
        vec![[0, 0, 1, 1]]
    );
}

/// The boxes of the 8-connected regions, and whether the outside of the mask
/// reaches them.
fn flooded_regions(mask: &GrayImage) -> Vec<([u32; 4], bool)> {
    let (w, h) = (mask.width() as i64, mask.height() as i64);
    let marked = |x: i64, y: i64| {
        0 <= x && x < w && 0 <= y && y < h && mask.get_pixel(x as u32, y as u32) > 0
    };
    let index = |x: i64, y: i64| ((y + 1) * (w + 2) + x + 1) as usize;
    let mut outside = vec![false; ((w + 2) * (h + 2)) as usize];
    let mut stack = vec![(-1, -1)];
    while let Some((x, y)) = stack.pop() {
        if x < -1 || x > w || y < -1 || y > h || marked(x, y) || outside[index(x, y)] {
            continue;
        }
        outside[index(x, y)] = true;
        stack.extend([(x - 1, y), (x + 1, y), (x, y - 1), (x, y + 1)]);
    }
    let mut seen = vec![false; outside.len()];
    let mut regions = Vec::new();
    for y in 0..h {
        for x in 0..w {
            if !marked(x, y) || seen[index(x, y)] {
                continue;
            }
            let mut outer = false;
            let mut b = [x, y, x, y];
            let mut stack = vec![(x, y)];
            seen[index(x, y)] = true;
            while let Some((x, y)) = stack.pop() {
                b = [b[0].min(x), b[1].min(y), b[2].max(x), b[3].max(y)];
                for (dx, dy) in [(-1, 0), (1, 0), (0, -1), (0, 1)] {
                    outer = outer || outside[index(x + dx, y + dy)];
                }
                for dy in -1..2 {
                    for dx in -1..2 {
                        let (a, b) = (x + dx, y + dy);
                        if marked(a, b) && !seen[index(a, b)] {
                            seen[index(a, b)] = true;
                            stack.push((a, b));
                        }
                    }
                }
            }
            let b = [b[0] as u32, b[1] as u32, b[2] as u32 + 1, b[3] as u32 + 1];
            regions.push((b, outer));
        }
    }
    regions.sort();
    regions
}

#[test]
fn boxes_from_mask_are_those_of_the_outermost_regions() {
    let mut state: u64 = 11;
    for round in 0..4000u64 {
        let mut next = || {
            state = state
                .wrapping_mul(6364136223846793005)
                .wrapping_add(1442695040888963407);
            state >> 33
        };
        let (w, h) = (1 + (next() % 16) as u32, 1 + (next() % 16) as u32);
        let density = 1 + round % 9;
        let pixels = (0..w * h)
            .map(|_| if next() % 10 < density { 255 } else { 0 })
            .collect();
        let mask = GrayImage::from_vec(w, h, pixels).unwrap();
        let mut boxes = boxes_from_mask(&mask);
        boxes.sort();
        let outermost: Vec<[u32; 4]> = flooded_regions(&mask)
            .into_iter()
            .filter(|(_, outer)| *outer)
            .map(|(b, _)| b)
            .collect();
        assert_eq!(boxes, outermost);
        for y in 0..h {
            for x in 0..w {
                assert!(
                    mask.get_pixel(x, y) == 0
                        || boxes
                            .iter()
                            .any(|b| b[0] <= x && x < b[2] && b[1] <= y && y < b[3])
                );
            }
        }
    }
}

#[test]
fn outer_borders_are_those_of_the_regions_where_the_first_column_is_black() {
    let mut state: u64 = 5;
    for round in 0..4000u64 {
        let mut next = || {
            state = state
                .wrapping_mul(6364136223846793005)
                .wrapping_add(1442695040888963407);
            state >> 33
        };
        let (w, h) = (1 + (next() % 12) as u32, 1 + (next() % 12) as u32);
        let density = 1 + round % 9;
        let pixels: Vec<u8> = (0..w * h)
            .map(|i| if i % w > 0 && next() % 10 < density { 255 } else { 0 })
            .collect();
        let image = image::GrayImage::from_raw(w, h, pixels.clone()).unwrap();
        let contours = imageproc::contours::find_contours::<i32>(&image);
        let mut found: Vec<([u32; 4], bool)> = contours
            .iter()
            .filter(|c| c.border_type == imageproc::contours::BorderType::Outer)
            .map(|c| {
                let x = c.points.iter().map(|p| p.x as u32);
                let y = c.points.iter().map(|p| p.y as u32);
                let (left, top) = (x.clone().min().unwrap(), y.clone().min().unwrap());
                let (right, bottom) = (x.max().unwrap(), y.max().unwrap());
                ([left, top, right + 1, bottom + 1], c.parent.is_none())
            })
            .collect();
        found.sort();
        let mask = GrayImage::from_vec(w, h, pixels).unwrap();
        assert_eq!(found, flooded_regions(&mask));
    }
}

#[test]
fn borders_are_at_most_half_as_many_as_pixels() {
    let count = |w: u32, h: u32, pixels: Vec<u8>| {
        let image = image::GrayImage::from_raw(w, h, pixels).unwrap();
        imageproc::contours::find_contours::<i32>(&image).len()
    };
    let mut state: u64 = 17;
    for round in 0..4000u64 {
        let mut next = || {
            state = state
                .wrapping_mul(6364136223846793005)
                .wrapping_add(1442695040888963407);
            state >> 33
        };
        let (w, h) = (1 + (next() % 12) as u32, 1 + (next() % 12) as u32);
        let density = 1 + round % 9;
        let pixels: Vec<u8> = (0..w * h)
            .map(|_| if next() % 10 < density { 255 } else { 0 })
            .collect();
        assert!(count(w, h, pixels) <= ((w * h + 1) / 2) as usize);
    }
    let checkered: Vec<u8> = (0..40 * 40u32)
        .map(|i| if (i % 40 + i / 40) % 2 == 0 { 255 } else { 0 })
        .collect();
    assert!(count(40, 40, checkered) < 800);
}

#[test]
fn boxes_from_mask_of_a_blank_mask_is_empty() {
    assert!(boxes_from_mask(&GrayImage::new(30, 20)).is_empty());
    assert!(boxes_from_mask(&GrayImage::new(0, 0)).is_empty());
}

#[test]
fn crop_box_expands_by_margin_additively() {
    let img = solid_rgb(200, 200, [255, 255, 255]);
    let mask = GrayImage::new(200, 200);
    let (ci, _cm, [l, t, r, b]) = crop_box(&img, &mask, [80, 80, 120, 120], 20);
    assert_eq!([l, t, r, b], [60, 60, 140, 140]);
    assert_eq!(ci.dimensions(), (80, 80));
}

#[test]
fn crop_box_shifts_inward_at_edges() {
    let img = solid_rgb(100, 100, [255, 255, 255]);
    let mask = GrayImage::new(100, 100);
    // The box touches the left edge, so that the right edge moves outward to
    // keep the full width.
    let (_ci, _cm, [l, t, r, b]) = crop_box(&img, &mask, [0, 40, 20, 60], 10);
    assert_eq!(l, 0);
    assert_eq!(r, 40);
    assert_eq!(t, 30);
    assert_eq!(b, 70);
}

#[test]
fn crop_box_expands_odd_boxes_on_both_sides() {
    let img = solid_rgb(100, 100, [0, 0, 0]);
    let mask = GrayImage::new(100, 100);
    let window = |b, margin| crop_box(&img, &mask, b, margin).2;
    assert_eq!(window([40, 40, 43, 43], 5), [35, 35, 48, 48]);
    assert_eq!(window([40, 40, 43, 43], 0), [40, 40, 43, 43]);
    assert_eq!(window([97, 0, 100, 3], 5), [87, 0, 100, 13]);
    assert_eq!(window([40, 40, 40, 41], 0), [40, 40, 41, 41]);
    assert_eq!(window([10, 10, 11, 11], 60), [0, 0, 100, 100]);
}

#[test]
fn crop_strategy_paints_a_region_at_the_left_edge() {
    let img = solid_rgb(900, 900, [100, 100, 100]);
    let mut mask = GrayImage::new(900, 900);
    mark(&mut mask, 0, 400, 21, 421);
    let cfg = HdStrategyConfig::lama_default();
    let model = PaintForward::new([0, 0, 0]);
    let out = run_inpaint(&model, &img, &mask, &cfg).unwrap();
    // 21 pixels and a margin of 128 on both sides, padded to a multiple of 8.
    assert_eq!(*model.seen.borrow(), vec![(280, 280)]);
    assert_eq!(out.get_pixel(0, 410), [0, 0, 0]);
    assert_eq!(out.get_pixel(276, 410), [0, 0, 0]);
    assert_eq!(out.get_pixel(277, 410), [100, 100, 100]);
}

#[test]
fn crop_box_takes_the_whole_image_when_the_footprint_is_larger() {
    let img = solid_rgb(30, 20, [0, 0, 0]);
    let mask = GrayImage::new(30, 20);
    let (ci, cm, window) = crop_box(&img, &mask, [10, 5, 20, 15], 50);
    assert_eq!(window, [0, 0, 30, 20]);
    assert_eq!(ci.dimensions(), (30, 20));
    assert_eq!(cm.dimensions(), (30, 20));
}

#[test]
fn crop_strategy_skips_when_mask_empty() {
    let img = solid_rgb(900, 900, [50, 60, 70]);
    let mask = GrayImage::new(900, 900);
    let cfg = HdStrategyConfig::lama_default();
    let out = run_inpaint(&IdentityForward, &img, &mask, &cfg).unwrap();
    assert_eq!(out.get_pixel(0, 0), [50, 60, 70]);
}

#[test]
fn crop_strategy_does_not_ask_the_model_about_an_empty_mask() {
    let img = solid_rgb(900, 900, [50, 60, 70]);
    let mask = GrayImage::new(900, 900);
    let cfg = HdStrategyConfig::lama_default();
    let out = run_inpaint(&FailingForward, &img, &mask, &cfg).unwrap();
    assert_eq!(out.pixels(), img.pixels());
}

#[test]
fn resize_strategy_restores_unmasked_pixels() {
    // Small image: even under Resize, unmasked pixels must be identical.
    let mut img = solid_rgb(1600, 1200, [10, 20, 30]);
    // One pixel in the masked area, different value.
    img.put_pixel(500, 500, [200, 200, 200]);
    let mut mask = GrayImage::new(1600, 1200);
    mask.put_pixel(500, 500, 255);

    let cfg = HdStrategyConfig {
        strategy: HdStrategy::Resize,
        resize_limit: 640,
        ..HdStrategyConfig::lama_default()
    };
    let out = run_inpaint(&IdentityForward, &img, &mask, &cfg).unwrap();
    assert_eq!(out.get_pixel(0, 0), [10, 20, 30]);
    assert_eq!(out.get_pixel(1599, 1199), [10, 20, 30]);
}

#[test]
fn resize_strategy_hands_the_model_a_small_image() {
    let img = solid_rgb(1600, 1200, [10, 20, 30]);
    let mut mask = GrayImage::new(1600, 1200);
    mark(&mut mask, 400, 400, 800, 800);
    let cfg = HdStrategyConfig {
        strategy: HdStrategy::Resize,
        resize_limit: 641,
        ..HdStrategyConfig::lama_default()
    };
    let model = PaintForward::new([9, 8, 7]);
    let out = run_inpaint(&model, &img, &mask, &cfg).unwrap();
    // 641 by 481, padded to multiples of 8.
    assert_eq!(*model.seen.borrow(), vec![(648, 488)]);
    assert_eq!(out.dimensions(), (1600, 1200));
    assert_eq!(out.get_pixel(600, 600), [9, 8, 7]);
    assert_eq!(out.get_pixel(399, 600), [10, 20, 30]);
}

#[test]
fn fitting_image_is_not_resampled() {
    struct Invert;
    impl InpaintForward for Invert {
        fn forward(&self, image: &RgbImage, mask: &GrayImage) -> Result<RgbImage, InpaintError> {
            assert_eq!(image.dimensions(), (8, 8));
            assert_eq!(mask.pixels().iter().filter(|p| **p == 255).count(), 4);
            let inverted = image.pixels().iter().map(|p| p.map(|v| 255 - v)).collect();
            Ok(RgbImage::from_vec(8, 8, inverted).unwrap())
        }
    }
    let img = RgbImage::from_fn(8, 8, |x, y| [(31 * x) as u8, (17 * y) as u8, ((x * y) % 7) as u8]);
    let mut mask = GrayImage::new(8, 8);
    mark(&mut mask, 2, 3, 4, 5);
    mask.put_pixel(7, 7, 100);
    let cfg = HdStrategyConfig {
        resize_limit: 8,
        ..HdStrategyConfig::lama_default()
    };
    let out = run_resize(&Invert, &img, &mask, &cfg).unwrap();
    for y in 0..8 {
        for x in 0..8 {
            let own = img.get_pixel(x, y);
            let inside = (2..4).contains(&x) && (3..5).contains(&y);
            let expected = if inside { own.map(|v| 255 - v) } else { own };
            assert_eq!(out.get_pixel(x, y), expected);
        }
    }
}

#[test]
fn resizing_a_mask_blurs_it_and_makes_it_black_and_white_again() {
    struct MaskInspector;
    impl InpaintForward for MaskInspector {
        fn forward(&self, image: &RgbImage, mask: &GrayImage) -> Result<RgbImage, InpaintError> {
            assert!(mask.pixels().iter().all(|p| *p == 0 || *p == 255));
            assert!(mask.pixels().iter().any(|p| *p == 255));
            assert!(mask.pixels().iter().any(|p| *p == 0));
            // A gradient is neither kept nor cut off at its brightest column.
            assert_eq!(mask.get_pixel(0, 0), 0);
            assert_eq!(mask.get_pixel(99, 50), 255);
            Ok(image.clone())
        }
    }
    let img = solid_rgb(400, 400, [1, 2, 3]);
    let mask = GrayImage::from_fn(400, 400, |x, _| (x * 255 / 399) as u8);
    let cfg = HdStrategyConfig::aot_default(100, 0);
    run_inpaint(&MaskInspector, &img, &mask, &cfg).unwrap();
}

#[test]
fn crop_strategy_paste_bounds() {
    // Two masked blobs, two crops, full image untouched outside crops.
    let img = solid_rgb(1200, 1200, [100, 100, 100]);
    let mut mask = GrayImage::new(1200, 1200);
    mark(&mut mask, 100, 100, 120, 120);
    mark(&mut mask, 900, 900, 920, 920);
    let cfg = HdStrategyConfig::lama_default();
    let out = run_inpaint(&IdentityForward, &img, &mask, &cfg).unwrap();
    // The model changes nothing, so output and input are equal everywhere.
    assert_eq!(out.get_pixel(0, 0), [100, 100, 100]);
    assert_eq!(out.get_pixel(500, 500), [100, 100, 100]);
    assert_eq!(out.pixels(), img.pixels());
}

#[test]
fn crop_strategy_changes_the_crops_only() {
    let img = solid_rgb(1200, 1200, [100, 100, 100]);
    let mut mask = GrayImage::new(1200, 1200);
    mark(&mut mask, 500, 500, 520, 520);
    let cfg = HdStrategyConfig::lama_default();
    let model = PaintForward::new([0, 0, 0]);
    let out = run_inpaint(&model, &img, &mask, &cfg).unwrap();
    // 20 pixels and a margin of 128 on both sides, padded to a multiple of 8.
    assert_eq!(*model.seen.borrow(), vec![(280, 280)]);
    assert_eq!(out.get_pixel(372, 372), [0, 0, 0]);
    assert_eq!(out.get_pixel(647, 647), [0, 0, 0]);
    assert_eq!(out.get_pixel(371, 500), [100, 100, 100]);
    assert_eq!(out.get_pixel(500, 648), [100, 100, 100]);
}

#[test]
fn oversized_crop_is_resized() {
    let img = solid_rgb(2000, 900, [100, 100, 100]);
    let mut mask = GrayImage::new(2000, 900);
    mark(&mut mask, 100, 400, 1900, 410);
    let cfg = HdStrategyConfig::lama_default();
    let model = PaintForward::new([5, 5, 5]);
    let out = run_inpaint(&model, &img, &mask, &cfg).unwrap();
    // The crop is 2000 by 266 and becomes 1280 by 170.
    assert_eq!(*model.seen.borrow(), vec![(1280, 176)]);
    assert_eq!(out.get_pixel(1000, 405), [5, 5, 5]);
    assert_eq!(out.get_pixel(1000, 399), [100, 100, 100]);
}

#[test]
fn small_images_are_padded_only() {
    let img = RgbImage::from_fn(13, 9, |x, y| [x as u8, y as u8, 0]);
    let mask = GrayImage::new(13, 9);
    for strategy in [HdStrategy::Original, HdStrategy::Resize, HdStrategy::Crop] {
        let cfg = HdStrategyConfig {
            strategy,
            ..HdStrategyConfig::lama_default()
        };
        let model = PaintForward::new([1, 1, 1]);
        let out = run_inpaint(&model, &img, &mask, &cfg).unwrap();
        assert_eq!(*model.seen.borrow(), vec![(16, 16)]);
        assert_eq!(out.dimensions(), (13, 9));
        let same = run_inpaint(&IdentityForward, &img, &mask, &cfg).unwrap();
        assert_eq!(same.pixels(), img.pixels());
    }
}

#[test]
fn forward_errors_come_out() {
    let img = solid_rgb(1300, 1300, [1, 1, 1]);
    let mut mask = GrayImage::new(1300, 1300);
    mark(&mut mask, 600, 600, 610, 610);
    for strategy in [HdStrategy::Original, HdStrategy::Resize, HdStrategy::Crop] {
        let cfg = HdStrategyConfig {
            strategy,
            ..HdStrategyConfig::lama_default()
        };
        let error = run_inpaint(&FailingForward, &img, &mask, &cfg).unwrap_err();
        assert!(matches!(error, InpaintError::Forward(m) if m == "out of memory"));
    }
    assert!(pad_forward(&FailingForward, &img, &mask, 7).is_err());
    let cfg = HdStrategyConfig::lama_default();
    assert!(pad_forward_bounded(&FailingForward, &img, &mask, &cfg).is_err());
}

#[test]
fn padding_mirrors_and_is_undone_by_cropping() {
    let img = RgbImage::from_fn(3, 2, |x, y| [x as u8, y as u8, 0]);
    let wide = symmetric_pad_rgb(&img, 5, 4);
    let row: Vec<u8> = (0..5).map(|x| wide.get_pixel(x, 0)[0]).collect();
    let column: Vec<u8> = (0..4).map(|y| wide.get_pixel(0, y)[1]).collect();
    assert_eq!(row, vec![0, 1, 2, 2, 1]);
    assert_eq!(column, vec![0, 1, 1, 0]);
    assert_eq!(wide.crop(0, 0, 3, 2).pixels(), img.pixels());
    let gray = GrayImage::from_vec(2, 1, vec![4, 5]).unwrap();
    assert_eq!(symmetric_pad_gray(&gray, 4, 1).pixels(), &vec![4, 5, 5, 4]);
    assert_eq!(
        symmetric_pad_gray(&gray, 8, 1).pixels(),
        &vec![4, 5, 5, 4, 4, 5, 5, 4]
    );
    let (a, b) = ([1, 1, 1], [2, 2, 2]);
    let narrow = RgbImage::from_vec(2, 1, vec![a, b]).unwrap();
    assert_eq!(
        symmetric_pad_rgb(&narrow, 8, 1).pixels(),
        &vec![a, b, b, a, a, b, b, a]
    );
}

#[test]
fn rebinarize_splits_at_middle_gray() {
    let mask = GrayImage::from_vec(4, 1, vec![0, 127, 128, 255]).unwrap();
    let once = rebinarize(&mask);
    assert_eq!(once.pixels(), &vec![0, 0, 255, 255]);
    assert_eq!(rebinarize(&once).pixels(), once.pixels());
}

#[test]
fn defaults_are_tuned_for_manga() {
    let lama = HdStrategyConfig::lama_default();
    assert_eq!(lama.strategy, HdStrategy::Crop);
    assert_eq!(lama.crop_trigger_size, 800);
    assert_eq!(lama.crop_margin, 128);
    assert_eq!(lama.resize_limit, 1280);
    assert_eq!(lama.pad_mod, 8);
    let aot = HdStrategyConfig::aot_default(1024, 8);
    assert_eq!(aot.strategy, HdStrategy::Resize);
    assert_eq!(aot.resize_limit, 1024);
    assert_eq!(aot.crop_trigger_size, 800);
}

#[test]
fn sizes_beyond_the_limits_are_told_apart() {
    assert!(is_paddable(1300, 1300, 8));
    assert!(is_paddable(u32::MAX, 1, 0));
    assert!(!is_paddable(u32::MAX, 1, 8));
    assert!(is_resizable(0x80_0000, 3, 8));
    assert!(!is_resizable(0x80_0001, 3, 8));
    assert!(is_processable(0x7fff_ffc0, 2));
    assert!(!is_processable(0x7fff_ffc1, 1));
    assert!(is_processable(0x1_0000, 0xffff));
    assert!(is_processable(0xffff, 0x1_0001));
    assert!(!is_processable(0x1_0000, 0x1_0000));
    assert!(is_searchable(0x7fff_ffbe, 0));
    assert!(!is_searchable(0x7fff_ffbf, 0));
    assert!(is_searchable(0xfffe, 0xfffd));
    assert!(!is_searchable(0xfffe, 0xfffe));
    assert!(!is_searchable(u32::MAX, 0));
    let cfg = HdStrategyConfig::lama_default();
    assert!(is_inpaintable(0, 0, &cfg));
    assert!(is_inpaintable(4961, 7016, &cfg));
    assert!(is_inpaintable(0x1_0000, 0x8000, &cfg));
    assert!(!is_inpaintable(0x1_0000, 0x1_0000, &cfg));
    let original = HdStrategyConfig {
        strategy: HdStrategy::Original,
        ..cfg
    };
    assert!(!is_inpaintable(u32::MAX, 1, &original));
}

#[test]
fn empty_images_come_back_empty() {
    let img = RgbImage::from_vec(0, 900, vec![]).unwrap();
    let mask = GrayImage::new(0, 900);
    for strategy in [HdStrategy::Original, HdStrategy::Resize, HdStrategy::Crop] {
        let cfg = HdStrategyConfig {
            strategy,
            resize_limit: 100,
            ..HdStrategyConfig::lama_default()
        };
        let out = run_inpaint(&IdentityForward, &img, &mask, &cfg).unwrap();
        assert_eq!(out.dimensions(), (0, 900));
    }
}
