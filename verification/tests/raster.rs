use koharu::raster::{GrayImage, RgbImage};

#[test]
fn pixels_are_kept_in_rows() {
    let mut image = GrayImage::new(3, 2);
    assert_eq!(image.dimensions(), (3, 2));
    image.put_pixel(2, 1, 9);
    assert_eq!(image.get_pixel(2, 1), 9);
    assert_eq!(image.pixels(), &vec![0, 0, 0, 0, 0, 9]);
}

#[test]
fn from_vec_wants_as_many_pixels_as_the_size_calls_for() {
    assert!(GrayImage::from_vec(2, 2, vec![1, 2, 3]).is_none());
    assert!(GrayImage::from_vec(2, 2, vec![1, 2, 3, 4, 5]).is_none());
    let image = GrayImage::from_vec(2, 2, vec![1, 2, 3, 4]).unwrap();
    assert_eq!(image.get_pixel(1, 0), 2);
    assert_eq!(image.get_pixel(0, 1), 3);
}

#[test]
fn crop_stops_at_the_edge() {
    let image = GrayImage::from_vec(3, 2, vec![1, 2, 3, 4, 5, 6]).unwrap();
    let part = image.crop(1, 1, 9, 9);
    assert_eq!(part.dimensions(), (2, 1));
    assert_eq!(part.pixels(), &vec![5, 6]);
    assert_eq!(image.crop(7, 7, 2, 2).dimensions(), (0, 0));
}

#[test]
fn replace_leaves_the_rest_alone() {
    let mut image = GrayImage::from_pixel(4, 3, 7);
    let patch = GrayImage::from_vec(2, 2, vec![1, 2, 3, 4]).unwrap();
    image.replace(&patch, 3, 1);
    assert_eq!(image.pixels(), &vec![7, 7, 7, 7, 7, 7, 7, 1, 7, 7, 7, 3]);
}

#[test]
fn clone_is_equal() {
    let image = RgbImage::from_fn(2, 2, |x, y| [x as u8, y as u8, 5]);
    let copy = image.clone();
    assert_eq!(copy.pixels(), image.pixels());
    assert_eq!(copy.dimensions(), (2, 2));
}
