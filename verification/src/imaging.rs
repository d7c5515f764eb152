//! Image operations of the `image` and `imageproc` crates.
//!
//! Each function hands plain pixels to one operation of those crates and
//! returns plain pixels. What is stated of the operations is believed, not
//! proved.
use crate::raster::{self, GrayImage, Plane, RgbImage};
use vstd::prelude::*;

verus! {

/// Images that the operations of `imageproc` can take. Coordinates fit its
/// signed 32-bit points, also after rounding to single precision and with a
/// filter's window added. It counts pixels in 32 bits, and borders in 31: of a
/// pixel and its left neighbour at most one is the first of a region or of a
/// hole, which keeps their number within that. Its buffers hold four bytes per
/// pixel.
pub open spec fn processable(width: nat, height: nat) -> bool {
    &&& width <= 0x7fff_ffc0
    &&& height <= 0x7fff_ffc0
    &&& width * height <= u32::MAX
    &&& 4 * (width * height) <= isize::MAX
}

/// Whether the operations of `imageproc` can take an image of this size.
pub fn is_processable(width: u32, height: u32) -> (r: bool)
    ensures
        r == processable(width as nat, height as nat),
{
    assert(width * height <= 0xffff_ffff * 0xffff_ffff) by (nonlinear_arith)
        requires
            0 <= width <= 0xffff_ffff,
            0 <= height <= 0xffff_ffff,
    ;
    let count: u64 = (width as u64) * (height as u64);
    width <= 0x7fff_ffc0 && height <= 0x7fff_ffc0 && count <= u32::MAX as u64 && 4 * count
        <= isize::MAX as u64
}

/// A border of a foreground region: whether it is an outer border, the index
/// of the border that directly encloses it in the list of borders, and its
/// points.
#[derive(Debug)]
pub struct Contour {
    pub outer: bool,
    pub parent: Option<usize>,
    pub points: Vec<(i32, i32)>,
}

impl View for Contour {
    type V = (bool, Option<usize>, Seq<(i32, i32)>);

    open spec fn view(&self) -> (bool, Option<usize>, Seq<(i32, i32)>) {
        (self.outer, self.parent, self.points@)
    }
}

/// The contents of a list of contours.
pub open spec fn contour_list(contours: Seq<Contour>) -> Seq<
    (bool, Option<usize>, Seq<(i32, i32)>),
> {
    contours.map_values(|c: Contour| c@)
}

/// Whether `(x, y)` is a pixel of `plane` that is not zero.
pub open spec fn foreground(plane: Plane<u8>, x: int, y: int) -> bool {
    plane.inside(x, y) && plane.at(x, y) > 0
}

/// The borders that `imageproc::contours::find_contours` finds in an image,
/// in its order.
pub uninterp spec fn borders(width: nat, height: nat, pixels: Seq<u8>) -> Seq<
    (bool, Option<usize>, Seq<(i32, i32)>),
>;

/// Whether `(x, y)` lies in the bounding box of the points.
pub open spec fn reach_around(points: Seq<(i32, i32)>, x: int, y: int) -> bool {
    &&& exists|j: int| 0 <= j < points.len() && (#[trigger] points[j]).0 <= x
    &&& exists|j: int| 0 <= j < points.len() && x <= (#[trigger] points[j]).0
    &&& exists|j: int| 0 <= j < points.len() && (#[trigger] points[j]).1 <= y
    &&& exists|j: int| 0 <= j < points.len() && y <= (#[trigger] points[j]).1
}

/// Whether the border is an outer one that no other border encloses.
pub open spec fn outermost(contour: (bool, Option<usize>, Seq<(i32, i32)>)) -> bool {
    contour.0 && contour.1 is None
}

/// Whether `(x, y)` lies in the bounding box of an outermost border.
pub open spec fn enclosed(
    contours: Seq<(bool, Option<usize>, Seq<(i32, i32)>)>,
    x: int,
    y: int,
) -> bool {
    exists|i: int|
        0 <= i < contours.len() && outermost(#[trigger] contours[i]) && reach_around(
            contours[i].2,
            x,
            y,
        )
}

/// Whether two pixels are the same or touch, be it at a corner.
pub open spec fn touching(a: (int, int), b: (int, int)) -> bool {
    -1 <= a.0 - b.0 <= 1 && -1 <= a.1 - b.1 <= 1
}

/// Whether each pixel of the path is not zero and touches the next one.
pub open spec fn is_path(plane: Plane<u8>, path: Seq<(int, int)>) -> bool {
    &&& path.len() > 0
    &&& forall|i: int| 0 <= i < path.len() ==> foreground(plane, (#[trigger] path[i]).0, path[i].1)
    &&& forall|i: int, j: int|
        0 <= i && j == i + 1 && j < path.len() ==> touching(#[trigger] path[i], #[trigger] path[j])
}

/// Whether two non-zero pixels belong to the same 8-connected region.
pub open spec fn connected(plane: Plane<u8>, a: (int, int), b: (int, int)) -> bool {
    exists|path: Seq<(int, int)>| #[trigger]
        is_path(plane, path) && path.first() == a && path.last() == b
}

/// The pixel at which a border starts.
pub open spec fn start(points: Seq<(i32, i32)>) -> (int, int) {
    (points[0].0 as int, points[0].1 as int)
}

/// Whether the points lie in one region, and that region lies in their bounding
/// box.
pub open spec fn outlines(points: Seq<(i32, i32)>, plane: Plane<u8>) -> bool {
    &&& forall|j: int|
        0 <= j < points.len() ==> connected(
            plane,
            start(points),
            ((#[trigger] points[j]).0 as int, points[j].1 as int),
        )
    &&& forall|x: int, y: int|
        connected(plane, start(points), (x, y)) ==> #[trigger] reach_around(points, x, y)
}

/// Whether two places are the same or share a side.
pub open spec fn beside(a: (int, int), b: (int, int)) -> bool {
    a.0 == b.0 && -1 <= a.1 - b.1 <= 1 || a.1 == b.1 && -1 <= a.0 - b.0 <= 1
}

/// Whether no place of the path is a non-zero pixel, and each shares a side
/// with the next one. Places may lie outside the image.
pub open spec fn is_gap(plane: Plane<u8>, path: Seq<(int, int)>) -> bool {
    &&& path.len() > 0
    &&& forall|i: int| 0 <= i < path.len() ==> !foreground(plane, (#[trigger] path[i]).0, path[i].1)
    &&& forall|i: int, j: int|
        0 <= i && j == i + 1 && j < path.len() ==> beside(#[trigger] path[i], #[trigger] path[j])
}

/// Whether a gap leads from `a` out of the image.
pub open spec fn leads_out(plane: Plane<u8>, a: (int, int)) -> bool {
    exists|path: Seq<(int, int)>| #[trigger]
        is_gap(plane, path) && path.first() == a && !plane.inside(path.last().0, path.last().1)
}

/// Whether the region of `a` lies inside no hole: a gap leads from one of its
/// sides out of the image.
pub open spec fn exposed(plane: Plane<u8>, a: (int, int)) -> bool {
    exists|b: (int, int), c: (int, int)| #[trigger]
        connected(plane, a, b) && beside(b, c) && #[trigger] leads_out(plane, c)
}

/// Whether the outer borders outline regions, no two the same one, and those
/// without a parent are the ones of regions inside no hole.
pub open spec fn regions_outlined(
    contours: Seq<(bool, Option<usize>, Seq<(i32, i32)>)>,
    plane: Plane<u8>,
) -> bool {
    &&& forall|i: int|
        0 <= i < contours.len() && contours[i].0 ==> outlines((#[trigger] contours[i]).2, plane)
    &&& forall|i: int, j: int|
        0 <= i < j < contours.len() && contours[i].0 && contours[j].0 ==> !connected(
            plane,
            start((#[trigger] contours[i]).2),
            start((#[trigger] contours[j]).2),
        )
    &&& forall|i: int|
        0 <= i < contours.len() && contours[i].0 ==> (contours[i].1 is None <==> exposed(
            plane,
            start((#[trigger] contours[i]).2),
        ))
}

/// Whether `(x, y)` belongs to the region of an outer border.
pub open spec fn bordered(
    contours: Seq<(bool, Option<usize>, Seq<(i32, i32)>)>,
    plane: Plane<u8>,
    x: int,
    y: int,
) -> bool {
    exists|i: int|
        0 <= i < contours.len() && contours[i].0 && connected(
            plane,
            start((#[trigger] contours[i]).2),
            (x, y),
        )
}

/// Calls `imageproc::contours::find_contours`, which follows the borders of
/// all 8-connected regions of non-zero pixels. Every border has at least one
/// point, and all of its points are non-zero pixels of the image. The search
/// starts no outer border in the first column. Where that column is black,
/// every region has one outer border, which lies in the region and is as wide
/// and as high as it; a region inside a hole of another one has the border of
/// the hole as its parent, and one inside no hole has none. So every non-zero
/// pixel lies in the bounding box of an outermost border.
#[verifier::external_body]
pub(crate) fn find_contours(mask: &GrayImage) -> (contours: Vec<Contour>)
    requires
        processable(mask@.width, mask@.height),
    ensures
        contour_list(contours@) == borders(mask@.width, mask@.height, mask@.pixels),
        forall|i: int| 0 <= i < contours@.len() ==> (#[trigger] contours@[i]).points@.len() > 0,
        forall|i: int, j: int|
            0 <= i < contours@.len() && 0 <= j < contours@[i].points@.len() ==> foreground(
                mask@,
                (#[trigger] contours@[i].points@[j]).0 as int,
                contours@[i].points@[j].1 as int,
            ),
        (forall|y: int| !foreground(mask@, 0, y)) ==> forall|x: int, y: int|
            foreground(mask@, x, y) ==> #[trigger] enclosed(contour_list(contours@), x, y),
        (forall|y: int| !foreground(mask@, 0, y)) ==> regions_outlined(
            contour_list(contours@),
            mask@,
        ),
        (forall|y: int| !foreground(mask@, 0, y)) ==> forall|x: int, y: int|
            foreground(mask@, x, y) ==> #[trigger] bordered(contour_list(contours@), mask@, x, y),
{
    let (width, height) = mask.dimensions();
    let image = image::GrayImage::from_raw(width, height, mask.pixels().clone()).unwrap();
    imageproc::contours::find_contours::<i32>(&image)
        .into_iter()
        .map(|c| Contour {
            outer: c.border_type == imageproc::contours::BorderType::Outer,
            parent: c.parent,
            points: c.points.into_iter().map(|p| (p.x, p.y)).collect(),
        })
        .collect()
}

/// Whether a pixel that is not zero lies within chessboard distance `radius`
/// of `(x, y)`.
pub open spec fn near_foreground(plane: Plane<u8>, radius: int, x: int, y: int) -> bool {
    exists|i: int, j: int|
        #![trigger foreground(plane, i, j)]
        foreground(plane, i, j) && -radius <= i - x <= radius && -radius <= j - y <= radius
}

/// White where a non-zero pixel lies within chessboard distance `radius`, black
/// elsewhere. Distances saturate at the smaller of 255 and the sum of width and
/// height, so a radius that large makes every pixel white.
pub open spec fn dilated(plane: Plane<u8>, radius: int) -> Plane<u8> {
    Plane::tabulate(
        plane.width,
        plane.height,
        |x: int, y: int|
            if radius >= raster::min(255, (plane.width + plane.height) as int) || near_foreground(
                plane,
                radius,
                x,
                y,
            ) {
                255u8
            } else {
                0u8
            },
    )
}

/// Calls `imageproc::morphology::dilate` with the chessboard norm, which makes
/// the image black and white and widens what is not zero by `radius`.
#[verifier::external_body]
pub(crate) fn dilate(image: &GrayImage, radius: u8) -> (widened: GrayImage)
    requires
        processable(image@.width, image@.height),
    ensures
        widened@ == dilated(image@, radius as int),
{
    let (width, height) = image.dimensions();
    let source = image::GrayImage::from_raw(width, height, image.pixels().clone()).unwrap();
    let norm = imageproc::distance_transform::Norm::LInf;
    let widened = imageproc::morphology::dilate(&source, norm, radius);
    GrayImage::from_vec(width, height, widened.into_raw()).unwrap()
}

/// The pixels of a black image of the given size on which
/// `imageproc::drawing::draw_polygon_mut` has drawn a filled polygon.
pub uninterp spec fn polygon_pixels(
    width: nat,
    height: nat,
    polygon: Seq<(i32, i32)>,
    color: u8,
) -> Seq<u8>;

/// Calls `imageproc::drawing::draw_polygon_mut` on a black image with a
/// polygon whose points lie inside the image. Every pixel is then black or of
/// the polygon's color.
#[verifier::external_body]
pub(crate) fn draw_polygon(
    width: u32,
    height: u32,
    polygon: &Vec<(i32, i32)>,
    color: u8,
) -> (drawn: GrayImage)
    requires
        processable(width as nat, height as nat),
        forall|i: int|
            0 <= i < polygon@.len() ==> 0 <= (#[trigger] polygon@[i]).0 < width && 0 <= polygon@[i].1
                < height,
    ensures
        drawn@.width == width,
        drawn@.height == height,
        drawn@.pixels == polygon_pixels(width as nat, height as nat, polygon@, color),
        forall|i: int|
            0 <= i < drawn@.pixels.len() ==> #[trigger] drawn@.pixels[i] == 0 || drawn@.pixels[i]
                == color,
{
    let mut canvas = image::GrayImage::new(width, height);
    let points: Vec<imageproc::point::Point<i32>> = polygon
        .iter()
        .map(|p| imageproc::point::Point::new(p.0, p.1))
        .collect();
    imageproc::drawing::draw_polygon_mut(&mut canvas, &points, image::Luma([color]));
    GrayImage::from_vec(width, height, canvas.into_raw()).unwrap()
}

/// Whether `luma` may come out of `image::DynamicImage::to_luma8` for an 8-bit
/// RGB image.
pub uninterp spec fn luma_of(
    width: nat,
    height: nat,
    pixels: Seq<[u8; 3]>,
    luma: Seq<u8>,
) -> bool;

/// Calls `image::DynamicImage::to_luma8`, which keeps the size and weighs the
/// three channels of each pixel. Whether it fuses the multiplications with the
/// additions depends on the machine.
#[verifier::external_body]
pub(crate) fn to_luma(image: &RgbImage) -> (luma: GrayImage)
    ensures
        luma@.same_size(image@),
        luma_of(image@.width, image@.height, image@.pixels, luma@.pixels),
{
    let (width, height) = image.dimensions();
    let bytes: Vec<u8> = image.pixels().iter().flatten().copied().collect();
    let source = image::RgbImage::from_raw(width, height, bytes).unwrap();
    let luma = image::DynamicImage::ImageRgb8(source).to_luma8();
    GrayImage::from_vec(width, height, luma.into_raw()).unwrap()
}

/// Whether `blurred` may come out of `imageproc::filter::gaussian_blur_f32`
/// with the standard deviation `sigma`.
pub uninterp spec fn blur_of(
    width: nat,
    height: nat,
    pixels: Seq<u8>,
    sigma: u8,
    blurred: Seq<u8>,
) -> bool;

/// Calls `imageproc::filter::gaussian_blur_f32`, which keeps the size. Its
/// window reaches two standard deviations to each side. Its weights are
/// exponentials, whose last bits may differ between machines.
#[verifier::external_body]
pub(crate) fn gaussian_blur(image: &GrayImage, sigma: u8) -> (blurred: GrayImage)
    requires
        0 < sigma <= 8,
        processable(image@.width, image@.height),
    ensures
        blurred@.same_size(image@),
        blur_of(image@.width, image@.height, image@.pixels, sigma, blurred@.pixels),
{
    let (width, height) = image.dimensions();
    let source = image::GrayImage::from_raw(width, height, image.pixels().clone()).unwrap();
    let blurred = imageproc::filter::gaussian_blur_f32(&source, sigma.into());
    GrayImage::from_vec(width, height, blurred.into_raw()).unwrap()
}

/// Whether `edges` may come out of `imageproc::edges::canny` with the given
/// thresholds.
pub uninterp spec fn canny_of(
    width: nat,
    height: nat,
    pixels: Seq<u8>,
    low: u8,
    high: u8,
    edges: Seq<u8>,
) -> bool;

/// Calls `imageproc::edges::canny`: a white pixel for every edge, a black one
/// elsewhere. Its gradients are irrational numbers, whose last bits may differ
/// between machines.
#[verifier::external_body]
pub(crate) fn canny(image: &GrayImage, low: u8, high: u8) -> (edges: GrayImage)
    requires
        0 < low <= high,
        0 < image@.width,
        0 < image@.height,
        processable(image@.width, image@.height),
    ensures
        edges@.same_size(image@),
        canny_of(image@.width, image@.height, image@.pixels, low, high, edges@.pixels),
        forall|i: int|
            0 <= i < edges@.pixels.len() ==> #[trigger] edges@.pixels[i] == 0 || edges@.pixels[i]
                == 255,
{
    let (width, height) = image.dimensions();
    let source = image::GrayImage::from_raw(width, height, image.pixels().clone()).unwrap();
    let edges = imageproc::edges::canny(&source, low.into(), high.into());
    GrayImage::from_vec(width, height, edges.into_raw()).unwrap()
}

/// The resampling filters in use.
#[derive(Debug, Clone, Copy, PartialEq, Eq, Structural)]
pub enum Filter {
    Triangle,
    CatmullRom,
}

/// Sides up to which the pixel centres are exact in the single precision
/// numbers that resampling computes with. Its buffers hold four such numbers,
/// or 16 bytes, per pixel.
pub open spec fn resamplable(width: nat, height: nat) -> bool {
    width <= 0x80_0000 && height <= 0x80_0000
}

/// Whether `resized` may come out of `image::imageops::resize` for an RGB
/// image.
pub uninterp spec fn resize_rgb_of(
    width: nat,
    height: nat,
    pixels: Seq<[u8; 3]>,
    new_width: u32,
    new_height: u32,
    filter: Filter,
    resized: Seq<[u8; 3]>,
) -> bool;

/// Calls `image::imageops::resize` on an RGB image. The result has the new
/// size; where that is the old one, it is a copy.
#[verifier::external_body]
pub(crate) fn resize_rgb(
    image: &RgbImage,
    new_width: u32,
    new_height: u32,
    filter: Filter,
) -> (resized: RgbImage)
    requires
        resamplable(image@.width, image@.height),
        resamplable(new_width as nat, new_height as nat),
        16 * (image@.width * new_height) <= isize::MAX,
        16 * (new_width * new_height) <= isize::MAX,
    ensures
        resized@.width == new_width,
        resized@.height == new_height,
        resize_rgb_of(
            image@.width,
            image@.height,
            image@.pixels,
            new_width,
            new_height,
            filter,
            resized@.pixels,
        ),
        resized@.same_size(image@) ==> resized@ == image@,
{
    let (width, height) = image.dimensions();
    let bytes: Vec<u8> = image.pixels().iter().flatten().copied().collect();
    let source = image::RgbImage::from_raw(width, height, bytes).unwrap();
    let filter = match filter {
        Filter::Triangle => image::imageops::FilterType::Triangle,
        Filter::CatmullRom => image::imageops::FilterType::CatmullRom,
    };
    let resized = image::imageops::resize(&source, new_width, new_height, filter);
    let pixels = resized.pixels().map(|p| p.0).collect();
    RgbImage::from_vec(new_width, new_height, pixels).unwrap()
}

/// Whether `resized` may come out of `image::imageops::resize` for a single
/// channel image.
pub uninterp spec fn resize_gray_of(
    width: nat,
    height: nat,
    pixels: Seq<u8>,
    new_width: u32,
    new_height: u32,
    filter: Filter,
    resized: Seq<u8>,
) -> bool;

/// Calls `image::imageops::resize` on a single channel image. The result has
/// the new size; where that is the old one, it is a copy.
#[verifier::external_body]
pub(crate) fn resize_gray(
    image: &GrayImage,
    new_width: u32,
    new_height: u32,
    filter: Filter,
) -> (resized: GrayImage)
    requires
        resamplable(image@.width, image@.height),
        resamplable(new_width as nat, new_height as nat),
        16 * (image@.width * new_height) <= isize::MAX,
        16 * (new_width * new_height) <= isize::MAX,
    ensures
        resized@.width == new_width,
        resized@.height == new_height,
        resize_gray_of(
            image@.width,
            image@.height,
            image@.pixels,
            new_width,
            new_height,
            filter,
            resized@.pixels,
        ),
        resized@.same_size(image@) ==> resized@ == image@,
{
    let (width, height) = image.dimensions();
    let source = image::GrayImage::from_raw(width, height, image.pixels().clone()).unwrap();
    let filter = match filter {
        Filter::Triangle => image::imageops::FilterType::Triangle,
        Filter::CatmullRom => image::imageops::FilterType::CatmullRom,
    };
    let resized = image::imageops::resize(&source, new_width, new_height, filter);
    GrayImage::from_vec(new_width, new_height, resized.into_raw()).unwrap()
}

} // verus!
