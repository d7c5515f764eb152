use image::{Luma, Rgb};
use imageproc::drawing::draw_hollow_rect_mut;
use imageproc::rect::Rect;
use koharu::inpainting::balloon::{
    balloon_from_edges, count_nonzero, count_overlap, draw_binary_border, extract_balloon_mask,
    fill_balloon, non_zero_bbox, subtract_binary_mask, try_fill_balloon, BalloonMasks,
};
use koharu::inpainting::polygon::{contour_polygon, polygon_area, polygon_bbox};
use koharu::inpainting::statistics::{
    color_stddev, median_channel, median_rgb, select, stddev3, Deviation,
};
use koharu::raster::{GrayImage, RgbImage};

fn plain(image: &image::RgbImage) -> RgbImage {
    let pixels = image.pixels().map(|p| p.0).collect();
    RgbImage::from_vec(image.width(), image.height(), pixels).unwrap()
}

fn plain_gray(image: &image::GrayImage) -> GrayImage {
    GrayImage::from_vec(image.width(), image.height(), image.clone().into_raw()).unwrap()
}

fn marked(width: u32, height: u32, x0: u32, y0: u32, x1: u32, y1: u32) -> GrayImage {
    GrayImage::from_fn(width, height, |x, y| {
        if x0 <= x && x < x1 && y0 <= y && y < y1 {
            255
        } else {
            0
        }
    })
}

fn value(d: koharu::binary64::Double) -> f64 {
    let (significand, exponent) = d.parts();
    significand as f64 * 2f64.powi(exponent)
}

#[test]
fn extract_balloon_mask_prefers_smallest_covering_contour() {
    let mut image = image::RgbImage::from_pixel(80, 80, Rgb([255, 255, 255]));
    draw_hollow_rect_mut(&mut image, Rect::at(4, 4).of_size(72, 72), Rgb([0, 0, 0]));
    draw_hollow_rect_mut(&mut image, Rect::at(20, 20).of_size(28, 20), Rgb([0, 0, 0]));

    let mut mask = GrayImage::new(80, 80);
    for y in 24..36 {
        for x in 24..44 {
            mask.put_pixel(x, y, 255);
        }
    }

    let masks = extract_balloon_mask(&plain(&image), &mask).expect("balloon should be detected");
    let balloon_pixels = count_nonzero(&masks.balloon_mask);

    assert!(
        balloon_pixels < 900,
        "expected inner contour fill, got {balloon_pixels}"
    );
    assert!(
        balloon_pixels > 250,
        "expected meaningful bubble area, got {balloon_pixels}"
    );
}

#[test]
fn simple_balloon_chooses_fill_but_textured_balloon_does_not() {
    let mut flat = image::RgbImage::from_pixel(64, 64, Rgb([240, 240, 240]));
    draw_hollow_rect_mut(&mut flat, Rect::at(8, 8).of_size(48, 32), Rgb([0, 0, 0]));

    let mut mask = GrayImage::new(64, 64);
    for y in 18..30 {
        for x in 18..46 {
            mask.put_pixel(x, y, 255);
        }
    }

    assert!(try_fill_balloon(&plain(&flat), &mask).is_some());

    let mut textured = flat.clone();
    for y in 9..39 {
        for x in 9..55 {
            let noise = ((x + y) % 23) as u8;
            textured.put_pixel(
                x,
                y,
                Rgb([200 + noise, 210 + (noise / 2), 220 - (noise / 3)]),
            );
        }
    }

    assert!(try_fill_balloon(&plain(&textured), &mask).is_none());
}

#[test]
fn filling_paints_the_text_and_nothing_else() {
    let mut image = image::RgbImage::from_pixel(64, 64, Rgb([240, 230, 220]));
    draw_hollow_rect_mut(&mut image, Rect::at(8, 8).of_size(48, 32), Rgb([0, 0, 0]));
    for x in 20..40 {
        image.put_pixel(x, 24, Rgb([10, 10, 10]));
    }
    // A speck of the background that is not the median color.
    image.put_pixel(14, 14, Rgb([238, 230, 220]));
    let mask = marked(64, 64, 18, 18, 46, 30);
    let image = plain(&image);
    let masks = extract_balloon_mask(&image, &mask).unwrap();
    assert_eq!(masks.balloon_mask.get_pixel(14, 14), 255);
    let out = try_fill_balloon(&image, &mask).unwrap();
    for y in 0..64 {
        for x in 0..64 {
            let balloon = masks.balloon_mask.get_pixel(x, y);
            assert!(balloon == 0 || balloon == 255);
            if mask.get_pixel(x, y) > 0 {
                assert_eq!(balloon, 255);
                assert_eq!(masks.non_text_mask.get_pixel(x, y), 0);
                assert_eq!(out.get_pixel(x, y), [240, 230, 220]);
            } else {
                assert_eq!(masks.non_text_mask.get_pixel(x, y), balloon);
                assert_eq!(out.get_pixel(x, y), image.get_pixel(x, y));
            }
        }
    }
    assert_eq!(count_overlap(&masks.balloon_mask, &mask), count_nonzero(&mask));
}

#[test]
fn nothing_is_extracted_without_text_or_for_another_size() {
    let image = RgbImage::from_pixel(40, 30, [255, 255, 255]);
    assert!(extract_balloon_mask(&image, &GrayImage::new(40, 30)).is_none());
    let other = marked(30, 40, 5, 5, 10, 10);
    assert!(extract_balloon_mask(&image, &other).is_none());
    assert!(try_fill_balloon(&image, &other).is_none());
    assert!(balloon_from_edges(&GrayImage::new(40, 30), &GrayImage::new(40, 30)).is_none());
}

#[test]
fn the_frame_of_the_image_is_the_last_balloon() {
    let image = RgbImage::from_pixel(40, 30, [255, 255, 255]);
    let mask = marked(40, 30, 10, 10, 20, 20);
    let masks = balloon_from_edges(&GrayImage::new(40, 30), &mask).unwrap();
    assert_eq!(masks.balloon_mask.get_pixel(1, 1), 255);
    assert_eq!(masks.balloon_mask.get_pixel(38, 28), 255);
    assert_eq!(masks.non_text_mask.get_pixel(15, 15), 0);
    let out = try_fill_balloon(&image, &mask).unwrap();
    assert_eq!(out.pixels(), image.pixels());
}

#[test]
fn edges_are_those_of_the_blurred_luminance() {
    // Green weighs most, so the inner rectangle is 76 darker. Its outline is
    // an edge of the image, but too weak once the image is blurred.
    let image = image::RgbImage::from_fn(60, 60, |x, y| {
        let inner = (12..48).contains(&x) && (12..48).contains(&y);
        Rgb([200, if inner { 94 } else { 200 }, 200])
    });
    let mask = marked(60, 60, 22, 22, 36, 34);
    let gray = image::DynamicImage::ImageRgb8(image.clone()).to_luma8();
    let blurred = imageproc::filter::gaussian_blur_f32(&gray, 1.0);
    let edges = imageproc::edges::canny(&blurred, 70.0, 140.0);
    let sharp = imageproc::edges::canny(&gray, 70.0, 140.0);
    assert!(edges.pixels().all(|p| p.0[0] == 0));
    let found = extract_balloon_mask(&plain(&image), &mask).unwrap();
    let expected = balloon_from_edges(&plain_gray(&edges), &mask).unwrap();
    assert_eq!(found.balloon_mask.pixels(), expected.balloon_mask.pixels());
    assert_eq!(found.non_text_mask.pixels(), expected.non_text_mask.pixels());
    let unlike = balloon_from_edges(&plain_gray(&sharp), &mask).unwrap();
    assert!(count_nonzero(&unlike.balloon_mask) < count_nonzero(&found.balloon_mask));
    let unlike = balloon_from_edges(&plain_gray(&blurred), &mask).unwrap();
    assert!(count_nonzero(&unlike.balloon_mask) < count_nonzero(&found.balloon_mask));
}

#[test]
fn a_balloon_is_a_filled_polygon_inside_widened_edges() {
    let mut edges = image::GrayImage::new(50, 50);
    draw_hollow_rect_mut(&mut edges, Rect::at(10, 10).of_size(30, 30), Luma([255u8]));
    let mask = marked(50, 50, 20, 20, 30, 30);
    let masks = balloon_from_edges(&plain_gray(&edges), &mask).unwrap();
    // The edge is three pixels wide after widening, so the contour inside
    // runs along column 11 and row 11, and cuts the four corners.
    assert_eq!(masks.balloon_mask.get_pixel(11, 25), 255);
    assert_eq!(masks.balloon_mask.get_pixel(10, 25), 0);
    assert_eq!(masks.balloon_mask.get_pixel(38, 25), 255);
    assert_eq!(masks.balloon_mask.get_pixel(39, 25), 0);
    assert_eq!(count_nonzero(&masks.balloon_mask), 28 * 28 - 4);
    assert_eq!(count_nonzero(&masks.non_text_mask), 28 * 28 - 104);
}

#[test]
fn one_color_is_filled_with_itself() {
    let image = RgbImage::from_pixel(4, 4, [1, 2, 3]);
    let masks = BalloonMasks {
        balloon_mask: GrayImage::from_pixel(4, 4, 255),
        non_text_mask: marked(4, 4, 0, 0, 4, 1),
    };
    let out = fill_balloon(&image, &masks).unwrap();
    assert_eq!(out.pixels(), image.pixels());
}

#[test]
fn a_background_without_pixels_is_not_filled() {
    let image = RgbImage::from_pixel(4, 4, [1, 2, 3]);
    let masks = BalloonMasks {
        balloon_mask: GrayImage::from_pixel(4, 4, 255),
        non_text_mask: GrayImage::new(4, 4),
    };
    assert!(fill_balloon(&image, &masks).is_none());
}

#[test]
fn the_threshold_drops_where_channels_differ() {
    let masks = || BalloonMasks {
        balloon_mask: GrayImage::from_pixel(2, 1, 255),
        non_text_mask: GrayImage::from_pixel(2, 1, 255),
    };
    // Two values that are 2d apart deviate by d from their median.
    let gray = |d: u8| RgbImage::from_vec(2, 1, vec![[100; 3], [100 + 2 * d; 3]]).unwrap();
    assert!(fill_balloon(&gray(9), &masks()).is_some());
    assert!(fill_balloon(&gray(10), &masks()).is_none());
    let red =
        |d: u8| RgbImage::from_vec(2, 1, vec![[100, 5, 5], [100 + 2 * d, 5, 5]]).unwrap();
    assert!(fill_balloon(&red(6), &masks()).is_some());
    assert!(fill_balloon(&red(7), &masks()).is_none());
    // The median of an even number of values is their middle, rounded down.
    let odd = RgbImage::from_vec(3, 1, vec![[10, 0, 255], [13, 1, 255], [90; 3]]).unwrap();
    let masks = BalloonMasks {
        balloon_mask: GrayImage::from_pixel(3, 1, 255),
        non_text_mask: GrayImage::from_vec(3, 1, vec![255, 255, 0]).unwrap(),
    };
    assert_eq!(
        fill_balloon(&odd, &masks).unwrap().pixels(),
        &vec![[10, 0, 255], [13, 1, 255], [11, 0, 255]]
    );
}

#[test]
fn the_border_is_painted_white() {
    let mut image = GrayImage::from_pixel(4, 3, 7);
    draw_binary_border(&mut image);
    assert_eq!(
        image.pixels(),
        &vec![255, 255, 255, 255, 255, 7, 7, 255, 255, 255, 255, 255]
    );
    let mut empty = GrayImage::new(0, 5);
    draw_binary_border(&mut empty);
    assert_eq!(empty.dimensions(), (0, 5));
}

#[test]
fn subtracting_makes_marked_pixels_black() {
    let mut image = GrayImage::from_vec(3, 1, vec![9, 9, 9]).unwrap();
    let mask = GrayImage::from_vec(3, 1, vec![0, 1, 255]).unwrap();
    subtract_binary_mask(&mut image, &mask);
    assert_eq!(image.pixels(), &vec![9, 0, 0]);
}

#[test]
fn bounding_boxes_are_tight() {
    let mask = marked(20, 10, 3, 2, 9, 7);
    assert_eq!(non_zero_bbox(&mask), Some([3, 2, 9, 7]));
    assert_eq!(non_zero_bbox(&GrayImage::new(20, 10)), None);
    let corner = marked(5, 5, 4, 4, 5, 5);
    assert_eq!(non_zero_bbox(&corner), Some([4, 4, 5, 5]));
}

#[test]
fn counts_look_at_zero_and_not_zero() {
    let left = GrayImage::from_vec(4, 1, vec![0, 1, 2, 0]).unwrap();
    let right = GrayImage::from_vec(4, 1, vec![1, 1, 0, 0]).unwrap();
    assert_eq!(count_nonzero(&left), 2);
    assert_eq!(count_overlap(&left, &right), 1);
}

#[test]
fn polygons_drop_the_repeated_end() {
    let closed = vec![(0, 0), (4, 0), (4, 3), (0, 0)];
    assert_eq!(contour_polygon(&closed), Some(vec![(0, 0), (4, 0), (4, 3)]));
    let open = vec![(0, 0), (4, 0), (4, 3)];
    assert_eq!(contour_polygon(&open), Some(open.clone()));
    assert_eq!(contour_polygon(&vec![(0, 0), (4, 0), (0, 0)]), None);
    assert_eq!(contour_polygon(&vec![(0, 0), (4, 0)]), None);
}

#[test]
fn polygon_boxes_are_half_open() {
    assert_eq!(polygon_bbox(&vec![(3, 4), (1, 9), (2, 2)]), Some([1, 2, 4, 10]));
    assert_eq!(polygon_bbox(&vec![(-3, 4)]), Some([0, 4, (-2i32) as u32, 5]));
    assert_eq!(polygon_bbox(&vec![(-1, -1)]), Some([0, 0, 0, 0]));
    assert_eq!(
        polygon_bbox(&vec![(i32::MAX, i32::MIN)]),
        Some([i32::MAX as u32, 0, i32::MAX as u32, (i32::MIN + 1) as u32])
    );
    assert_eq!(polygon_bbox(&vec![]), None);
}

#[test]
fn polygon_areas_follow_the_shoelace_formula() {
    let triangle = vec![(0, 0), (4, 0), (0, 3)];
    assert_eq!(value(polygon_area(&triangle)), 6.0);
    let odd = vec![(0, 0), (3, 0), (0, 3)];
    assert_eq!(value(polygon_area(&odd)), 4.5);
    let reversed = vec![(0, 3), (3, 0), (0, 0)];
    assert_eq!(value(polygon_area(&reversed)), 4.5);
    let huge = vec![
        (i32::MAX, 5),
        (-7, i32::MAX - 3),
        (i32::MIN, 12),
        (3, i32::MIN),
        (1234567, -7654321),
    ];
    let mut sum = 0.0;
    for i in 0..huge.len() {
        let (p, q) = (huge[i], huge[(i + 1) % huge.len()]);
        sum += f64::from(p.0) * f64::from(q.1) - f64::from(q.0) * f64::from(p.1);
    }
    assert_eq!(value(polygon_area(&huge)), sum.abs() * 0.5);
}

#[test]
fn medians_are_doubled() {
    assert_eq!(median_channel(&vec![]), None);
    assert_eq!(median_channel(&vec![9]), Some(18));
    assert_eq!(median_channel(&vec![9, 1, 4]), Some(8));
    assert_eq!(median_channel(&vec![255, 0, 3, 8]), Some(11));
    assert_eq!(median_channel(&vec![255, 255]), Some(510));
    assert_eq!(select(&vec![7, 0, 255, 7], 0), 0);
    assert_eq!(select(&vec![7, 0, 255, 7], 2), 7);
    assert_eq!(select(&vec![7, 0, 255, 7], 3), 255);
}

#[test]
fn deviations_round_like_doubles() {
    let pixels: Vec<[u8; 3]> = (0..101u32)
        .map(|i| [(i * 37 % 256) as u8, (i * i % 251) as u8, (200 + i % 7) as u8])
        .collect();
    let image = RgbImage::from_vec(101, 1, pixels.clone()).unwrap();
    let mask = GrayImage::from_fn(101, 1, |x, _| if x % 3 == 0 { 0 } else { 9 });
    let median = median_rgb(&image, &mask).unwrap();
    let deviations = color_stddev(&image, &mask, median).map(|d| match d {
        Deviation::Finite(d) => d,
        Deviation::Infinite => panic!("some pixels are marked"),
    });
    let mut expected = [0.0f64; 3];
    for c in 0..3 {
        let mut values: Vec<u8> = pixels
            .iter()
            .enumerate()
            .filter(|(i, _)| i % 3 != 0)
            .map(|(_, p)| p[c])
            .collect();
        values.sort();
        let mid = values.len() / 2;
        let exact = if values.len() % 2 == 0 {
            (f64::from(values[mid - 1]) + f64::from(values[mid])) / 2.0
        } else {
            f64::from(values[mid])
        };
        assert_eq!(f64::from(median[c]) / 2.0, exact);
        let sum: f64 = values.iter().map(|v| (f64::from(*v) - exact).powi(2)).sum();
        expected[c] = (sum / values.len() as f64).sqrt();
        assert_eq!(value(deviations[c]), expected[c]);
    }
    let mean = expected.iter().sum::<f64>() / 3.0;
    let variance = expected
        .iter()
        .map(|v| {
            let diff = v - mean;
            diff * diff
        })
        .sum::<f64>()
        / 3.0;
    assert_eq!(value(stddev3(deviations)), variance.sqrt());
    assert!(median_rgb(&image, &GrayImage::new(101, 1)).is_none());
}

#[test]
fn deviations_of_no_pixels_are_infinite() {
    let image = RgbImage::from_pixel(3, 2, [10, 20, 30]);
    let deviations = color_stddev(&image, &GrayImage::new(3, 2), [0, 0, 0]);
    assert!(deviations.iter().all(|d| matches!(d, Deviation::Infinite)));
    let one = marked(3, 2, 1, 1, 2, 2);
    for (d, expected) in color_stddev(&image, &one, [0, 0, 0]).into_iter().zip([10.0, 20.0, 30.0]) {
        match d {
            Deviation::Finite(d) => assert_eq!(value(d), expected),
            Deviation::Infinite => panic!("a pixel is marked"),
        }
    }
}
