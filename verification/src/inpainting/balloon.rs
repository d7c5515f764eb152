//! Balloon-fill fast path for inpainting.
//!
//! When a mask sits inside a speech bubble with a near-uniform background, the
//! model can be skipped entirely: the masked pixels are filled with the median
//! background color of the balloon. This is purely image processing, so every
//! erase model can use it as a pass before the model.
//!
//! It works best on one bubble at a time, which is what the Crop strategy
//! hands out. On a whole image there is usually no single contour around the
//! mask, and the model is called.
use crate::binary64::{Double, Dyadic};
use crate::imaging::{self, Contour};
use crate::inpainting::geometry::{self, Rect, Xyxy};
use crate::inpainting::polygon;
use crate::inpainting::statistics::{self, Deviation};
use crate::raster::{self, GrayImage, Plane, Raster, RgbImage};
use vstd::prelude::*;

verus! {

/// Gradients below this start no edge and continue none.
pub const BALLOON_CANNY_LOW: u8 = 70;

/// Gradients from this on start an edge.
pub const BALLOON_CANNY_HIGH: u8 = 140;

/// Deviation from which a background of one hue is too busy to be filled.
pub const SIMPLE_BG_THRESHOLD_LOW_VARIANCE: i64 = 10;

/// Deviation from which a background of unevenly busy channels is too busy.
pub const SIMPLE_BG_THRESHOLD_HIGH_VARIANCE: i64 = 7;

/// Spread of the deviations above which the channels are unevenly busy.
pub const SIMPLE_BG_CHANNEL_STD_SWITCH: i64 = 1;

/// The balloon around a text, and the part of it that is not text.
#[derive(Debug)]
pub struct BalloonMasks {
    pub balloon_mask: GrayImage,
    pub non_text_mask: GrayImage,
}

/// The content of the masks that were found, if any.
pub open spec fn masks_seen(masks: Option<BalloonMasks>) -> Option<(Plane<u8>, Plane<u8>)> {
    match masks {
        Some(m) => Some((m.balloon_mask@, m.non_text_mask@)),
        None => None,
    }
}

/// `plane` with a white frame of one pixel.
pub open spec fn bordered(plane: Plane<u8>) -> Plane<u8> {
    Plane::tabulate(
        plane.width,
        plane.height,
        |x: int, y: int|
            if x == 0 || y == 0 || x == plane.width - 1 || y == plane.height - 1 {
                255u8
            } else {
                plane.at(x, y)
            },
    )
}

/// Paints the outermost pixels of the image white.
pub fn draw_binary_border(image: &mut GrayImage)
    ensures
        final(image)@ == bordered(old(image)@),
{
    let (width, height) = image.dimensions();
    let source: &GrayImage = &*image;
    let pixel_at = |x: u32, y: u32| -> (p: u8)
        requires
            x < width,
            y < height,
            width == source@.width,
            height == source@.height,
        ensures
            p == (if x == 0 || y == 0 || x == source@.width - 1 || y == source@.height - 1 {
                255u8
            } else {
                source@.at(x as int, y as int)
            }),
        {
            if x == 0 || y == 0 || x == width - 1 || y == height - 1 {
                255
            } else {
                source.get_pixel(x, y)
            }
        };
    let framed = Raster::from_fn(width, height, pixel_at);
    proof {
        let plane = source@;
        raster::lemma_tabulated(
            framed@,
            |x: int, y: int|
                if x == 0 || y == 0 || x == plane.width - 1 || y == plane.height - 1 {
                    255u8
                } else {
                    plane.at(x, y)
                },
        );
    }
    *image = framed;
}

/// `plane` with every pixel that the mask marks made black.
pub open spec fn subtracted(plane: Plane<u8>, mask: Plane<u8>) -> Plane<u8> {
    Plane::tabulate(
        plane.width,
        plane.height,
        |x: int, y: int|
            if mask.at(x, y) > 0 {
                0u8
            } else {
                plane.at(x, y)
            },
    )
}

/// Makes every pixel black that the mask marks.
pub fn subtract_binary_mask(image: &mut GrayImage, mask: &GrayImage)
    requires
        old(image)@.width <= mask@.width,
        old(image)@.height <= mask@.height,
    ensures
        final(image)@ == subtracted(old(image)@, mask@),
{
    let (width, height) = image.dimensions();
    let source: &GrayImage = &*image;
    let pixel_at = |x: u32, y: u32| -> (p: u8)
        requires
            source@.inside(x as int, y as int),
            mask@.inside(x as int, y as int),
        ensures
            p == (if mask@.at(x as int, y as int) > 0 {
                0u8
            } else {
                source@.at(x as int, y as int)
            }),
        {
            if mask.get_pixel(x, y) > 0 {
                0
            } else {
                source.get_pixel(x, y)
            }
        };
    let rest = Raster::from_fn(width, height, pixel_at);
    proof {
        let plane = source@;
        raster::lemma_tabulated(
            rest@,
            |x: int, y: int|
                if mask@.at(x, y) > 0 {
                    0u8
                } else {
                    plane.at(x, y)
                },
        );
    }
    *image = rest;
}

/// Whether every marked pixel lies in the rectangle.
pub open spec fn contains_marked(b: Rect, mask: Plane<u8>) -> bool {
    forall|x: int, y: int| #[trigger]
        imaging::foreground(mask, x, y) ==> b.0 <= x < b.2 && b.1 <= y < b.3
}

/// Whether the rectangle is the bounding box of the marked pixels: it contains
/// all of them, and one of them touches each of its sides.
pub open spec fn encloses_tightly(b: Rect, mask: Plane<u8>) -> bool {
    &&& contains_marked(b, mask)
    &&& geometry::touches_marked(b, mask)
}

/// Whether the mask marks some pixel.
pub open spec fn marks_any(mask: Plane<u8>) -> bool {
    exists|x: int, y: int| imaging::foreground(mask, x, y)
}

/// The bounding box of the marked pixels; none where no pixel is marked.
pub fn non_zero_bbox(mask: &GrayImage) -> (bbox: Option<Xyxy>)
    ensures
        bbox is Some <==> marks_any(mask@),
        bbox matches Some(b) ==> encloses_tightly(geometry::corners(b), mask@),
{
    let (width, height) = mask.dimensions();
    let mut min_x: u32 = width;
    let mut min_y: u32 = height;
    let mut max_x: u32 = 0;
    let mut max_y: u32 = 0;
    let mut found: bool = false;
    let mut y: u32 = 0;
    while y < height
        invariant
            width == mask@.width,
            height == mask@.height,
            y <= height,
            forall|a: int, b: int|
                b < y && #[trigger] imaging::foreground(mask@, a, b) ==> found && min_x <= a
                    <= max_x && min_y <= b <= max_y,
            found ==> {
                &&& max_x < width
                &&& max_y < height
                &&& geometry::marked_column(mask@, min_x as int)
                &&& geometry::marked_row(mask@, min_y as int)
                &&& geometry::marked_column(mask@, max_x as int)
                &&& geometry::marked_row(mask@, max_y as int)
            },
            !found ==> min_x == width && min_y == height && max_x == 0 && max_y == 0,
        decreases height - y,
    {
        let mut x: u32 = 0;
        while x < width
            invariant
                width == mask@.width,
                height == mask@.height,
                x <= width,
                y < height,
                forall|a: int, b: int|
                    (b < y || b == y && a < x) && #[trigger] imaging::foreground(mask@, a, b)
                        ==> found && min_x <= a <= max_x && min_y <= b <= max_y,
                found ==> {
                    &&& max_x < width
                    &&& max_y < height
                    &&& geometry::marked_column(mask@, min_x as int)
                    &&& geometry::marked_row(mask@, min_y as int)
                    &&& geometry::marked_column(mask@, max_x as int)
                    &&& geometry::marked_row(mask@, max_y as int)
                },
                !found ==> min_x == width && min_y == height && max_x == 0 && max_y == 0,
            decreases width - x,
        {
            if mask.get_pixel(x, y) != 0 {
                assert(imaging::foreground(mask@, x as int, y as int));
                if x < min_x {
                    min_x = x;
                }
                if y < min_y {
                    min_y = y;
                }
                if !found || x > max_x {
                    max_x = x;
                }
                if !found || y > max_y {
                    max_y = y;
                }
                found = true;
            }
            x += 1;
        }
        y += 1;
    }
    if found {
        let bbox: Xyxy = [min_x, min_y, max_x + 1, max_y + 1];
        assert(geometry::corners(bbox).2 - 1 == max_x);
        assert(geometry::corners(bbox).3 - 1 == max_y);
        Some(bbox)
    } else {
        None
    }
}

/// How many of the first `n` pixels are not zero.
pub open spec fn nonzero(pixels: Seq<u8>, n: int) -> nat
    decreases n,
{
    if n <= 0 {
        0
    } else {
        nonzero(pixels, n - 1) + if pixels[n - 1] > 0 {
            1nat
        } else {
            0nat
        }
    }
}

/// How many pixels of the mask are not zero.
pub fn count_nonzero(mask: &GrayImage) -> (count: u32)
    requires
        mask@.pixels.len() <= u32::MAX,
    ensures
        count == nonzero(mask@.pixels, mask@.pixels.len() as int),
{
    let pixels: &Vec<u8> = mask.pixels();
    let mut count: u32 = 0;
    let mut i: usize = 0;
    while i < pixels.len()
        invariant
            i <= pixels@.len() <= u32::MAX,
            count <= i,
            count == nonzero(pixels@, i as int),
        decreases pixels@.len() - i,
    {
        if pixels[i] > 0 {
            count += 1;
        }
        i += 1;
    }
    count
}

/// How many of the first `n` pixels are not zero in both images.
pub open spec fn shared(left: Seq<u8>, right: Seq<u8>, n: int) -> nat
    decreases n,
{
    if n <= 0 {
        0
    } else {
        shared(left, right, n - 1) + if left[n - 1] > 0 && right[n - 1] > 0 {
            1nat
        } else {
            0nat
        }
    }
}

/// How many pixels are not zero in both images. Pixels go in pairs, in
/// row-major order, as far as both images go.
pub fn count_overlap(left: &GrayImage, right: &GrayImage) -> (count: u32)
    requires
        left@.pixels.len() <= u32::MAX,
    ensures
        count == shared(
            left@.pixels,
            right@.pixels,
            raster::min(left@.pixels.len() as int, right@.pixels.len() as int),
        ),
{
    let l: &Vec<u8> = left.pixels();
    let r: &Vec<u8> = right.pixels();
    let mut count: u32 = 0;
    let mut i: usize = 0;
    while i < l.len() && i < r.len()
        invariant
            i <= l@.len() <= u32::MAX,
            i <= r@.len(),
            count <= i,
            count == shared(l@, r@, i as int),
        decreases l@.len() - i,
    {
        if l[i] > 0 && r[i] > 0 {
            count += 1;
        }
        i += 1;
    }
    count
}

/// All of the marked pixels are shared exactly where the other image has none
/// of them black.
proof fn lemma_shared(left: Seq<u8>, right: Seq<u8>, n: int)
    ensures
        shared(left, right, n) <= nonzero(right, n),
        shared(left, right, n) == nonzero(right, n) <==> forall|i: int|
            0 <= i < n && #[trigger] right[i] > 0 ==> left[i] > 0,
    decreases n,
{
    if n > 0 {
        lemma_shared(left, right, n - 1);
    }
}

/// A filled white polygon on a black image.
pub open spec fn drawn(width: nat, height: nat, path: Seq<(i32, i32)>) -> Plane<u8> {
    Plane { width, height, pixels: imaging::polygon_pixels(width, height, path, 255) }
}

/// Whether the polygon goes around all marked pixels: its bounding box
/// contains them, and filling it paints them.
pub open spec fn surrounds(path: Seq<(i32, i32)>, mask: Plane<u8>) -> bool {
    &&& contains_marked(polygon::polygon_box(path), mask)
    &&& forall|x: int, y: int| #[trigger]
        imaging::foreground(mask, x, y) ==> drawn(mask.width, mask.height, path).at(x, y) > 0
}

/// Whether a polygon is smaller than the best one so far.
pub open spec fn improves(path: Seq<(i32, i32)>, best: Option<Seq<(i32, i32)>>) -> bool {
    match best {
        Some(b) => polygon::area(path).less(polygon::area(b)),
        None => true,
    }
}

/// The polygon of the smallest area that goes around all marked pixels; of
/// equally small ones the first.
pub open spec fn smallest_around(
    contours: Seq<(bool, Option<usize>, Seq<(i32, i32)>)>,
    mask: Plane<u8>,
) -> Option<Seq<(i32, i32)>>
    decreases contours.len(),
{
    if contours.len() == 0 {
        None
    } else {
        let best = smallest_around(contours.drop_last(), mask);
        match polygon::open_path(contours.last().2) {
            Some(path) => if surrounds(path, mask) && improves(path, best) {
                Some(path)
            } else {
                best
            },
            None => best,
        }
    }
}

/// A rectangle contains the marked pixels exactly where it contains their
/// bounding box.
proof fn lemma_contains_box(b: Rect, tight: Rect, mask: Plane<u8>)
    requires
        encloses_tightly(tight, mask),
    ensures
        contains_marked(b, mask) <==> b.0 <= tight.0 && b.1 <= tight.1 && tight.2 <= b.2 && tight.3
            <= b.3,
{
    if contains_marked(b, mask) {
        let y0 = choose|y: int| imaging::foreground(mask, tight.0, y);
        assert(imaging::foreground(mask, tight.0, y0));
        let x0 = choose|x: int| imaging::foreground(mask, x, tight.1);
        assert(imaging::foreground(mask, x0, tight.1));
        assert(geometry::marked_column(mask, tight.2 - 1));
        assert(geometry::marked_row(mask, tight.3 - 1));
    }
}

/// A drawing shares all marked pixels exactly where it paints each of them.
proof fn lemma_shares_all(drawing: Plane<u8>, mask: Plane<u8>)
    requires
        drawing.wf(),
        mask.wf(),
        drawing.same_size(mask),
    ensures
        shared(drawing.pixels, mask.pixels, mask.pixels.len() as int) == nonzero(
            mask.pixels,
            mask.pixels.len() as int,
        ) <==> forall|x: int, y: int| #[trigger]
            imaging::foreground(mask, x, y) ==> drawing.at(x, y) > 0,
{
    let n = mask.pixels.len() as int;
    lemma_shared(drawing.pixels, mask.pixels, n);
    if forall|i: int| 0 <= i < n && #[trigger] mask.pixels[i] > 0 ==> drawing.pixels[i] > 0 {
        assert forall|x: int, y: int| #[trigger] imaging::foreground(mask, x, y) implies drawing.at(
            x,
            y,
        ) > 0 by {
            raster::lemma_index(mask.width, mask.height, x, y);
        }
    }
    if forall|x: int, y: int| #[trigger]
        imaging::foreground(mask, x, y) ==> drawing.at(x, y) > 0 {
        assert forall|i: int| 0 <= i < n && #[trigger] mask.pixels[i] > 0 implies drawing.pixels[i]
            > 0 by {
            raster::lemma_position(mask.width, mask.height, i);
            assert(imaging::foreground(mask, i % mask.width as int, i / mask.width as int));
        }
    }
}

/// Whether every pixel is black or white.
pub open spec fn bilevel(plane: Plane<u8>) -> bool {
    forall|i: int|
        0 <= i < plane.pixels.len() ==> #[trigger] plane.pixels[i] == 0 || plane.pixels[i] == 255
}

/// The filled polygon that goes around the marked pixels with the smallest
/// area.
fn find_balloon(contours: &Vec<Contour>, mask: &GrayImage, text_bbox: Xyxy) -> (r: Option<
    GrayImage,
>)
    requires
        imaging::processable(mask@.width, mask@.height),
        encloses_tightly(geometry::corners(text_bbox), mask@),
        forall|i: int, j: int|
            0 <= i < contours@.len() && 0 <= j < contours@[i].points@.len() ==> 0 <= (
            #[trigger] contours@[i].points@[j]).0 < mask@.width && 0 <= contours@[i].points@[j].1
                < mask@.height,
    ensures
        match smallest_around(imaging::contour_list(contours@), mask@) {
            Some(path) => r matches Some(m) && m@ == drawn(mask@.width, mask@.height, path),
            None => r is None,
        },
        r matches Some(m) ==> bilevel(m@),
{
    let (width, height) = mask.dimensions();
    let text_sum: u32 = count_nonzero(mask);
    let ghost list = imaging::contour_list(contours@);
    let ghost mut best: Option<Seq<(i32, i32)>> = None;
    let mut best_mask: Option<GrayImage> = None;
    let mut best_area = Double::from_int(0);
    let mut i: usize = 0;
    assert(list.take(0) =~= Seq::empty());
    while i < contours.len()
        invariant
            i <= contours@.len(),
            width == mask@.width,
            height == mask@.height,
            mask.valid(),
            text_sum == nonzero(mask@.pixels, mask@.pixels.len() as int),
            list == imaging::contour_list(contours@),
            imaging::processable(mask@.width, mask@.height),
            encloses_tightly(geometry::corners(text_bbox), mask@),
            forall|i: int, j: int|
                0 <= i < contours@.len() && 0 <= j < contours@[i].points@.len() ==> 0 <= (
                #[trigger] contours@[i].points@[j]).0 < mask@.width && 0
                    <= contours@[i].points@[j].1 < mask@.height,
            best == smallest_around(list.take(i as int), mask@),
            match best {
                Some(path) => {
                    &&& best_mask matches Some(m) && m@ == drawn(mask@.width, mask@.height, path)
                        && bilevel(m@)
                    &&& best_area@ == polygon::area(path)
                    &&& best_area.within(200)
                },
                None => best_mask is None,
            },
        decreases contours@.len() - i,
    {
        let points: &Vec<(i32, i32)> = &contours[i].points;
        proof {
            assert(list.take(i + 1).drop_last() =~= list.take(i as int));
            assert(list.take(i + 1).last() == contours@[i as int]@);
        }
        i += 1;
        let path = match polygon::contour_polygon(points) {
            Some(path) => path,
            None => continue,
        };
        let bbox: Xyxy = polygon::polygon_bbox(&path)?;
        proof {
            lemma_contains_box(geometry::corners(bbox), geometry::corners(text_bbox), mask@);
        }
        if bbox[0] > text_bbox[0] || bbox[1] > text_bbox[1] || bbox[2] < text_bbox[2] || bbox[3]
            < text_bbox[3] {
            continue;
        }
        assert forall|j: int| 0 <= j < path@.len() implies 0 <= (#[trigger] path@[j]).0 < width && 0
            <= path@[j].1 < height by {
            assert(path@[j] == contours@[i - 1].points@[j]);
        }
        let candidate = imaging::draw_polygon(width, height, &path, 255);
        proof {
            use_type_invariant(&candidate);
            lemma_shares_all(candidate@, mask@);
            lemma_shared(candidate@.pixels, mask@.pixels, mask@.pixels.len() as int);
        }
        if count_overlap(&candidate, mask) < text_sum {
            continue;
        }
        let area = polygon::polygon_area(&path);
        if best_mask.is_none() || area.lt(best_area) {
            best_area = area;
            best_mask = Some(candidate);
            proof {
                best = Some(path@);
            }
        }
    }
    assert(list.take(list.len() as int) =~= list);
    best_mask
}

/// The lines that a balloon may follow: the widened edges and the frame of the
/// image, without the marked pixels.
pub open spec fn outlines(edges: Plane<u8>, mask: Plane<u8>) -> Plane<u8> {
    subtracted(bordered(imaging::dilated(edges, 1)), mask)
}

/// The balloon around the marked pixels, and the part of it that is not
/// marked, given the edges of the image.
pub open spec fn balloon_in(edges: Plane<u8>, mask: Plane<u8>) -> Option<(Plane<u8>, Plane<u8>)> {
    let lines = outlines(edges, mask);
    let contours = imaging::borders(lines.width, lines.height, lines.pixels);
    if !marks_any(mask) {
        None
    } else {
        match smallest_around(contours, mask) {
            Some(path) => {
                let balloon = drawn(mask.width, mask.height, path);
                Some((balloon, subtracted(balloon, mask)))
            },
            None => None,
        }
    }
}

/// Whether the balloon is black or white at `(x, y)`, white under the mask, and
/// the part that is not text is the rest of it.
pub open spec fn separated_at(
    balloon: Plane<u8>,
    non_text: Plane<u8>,
    mask: Plane<u8>,
    x: int,
    y: int,
) -> bool {
    &&& balloon.at(x, y) == 0 || balloon.at(x, y) == 255
    &&& mask.at(x, y) > 0 ==> balloon.at(x, y) == 255 && non_text.at(x, y) == 0
    &&& mask.at(x, y) == 0 ==> non_text.at(x, y) == balloon.at(x, y)
}

/// Whether both masks have the size of the text mask, the balloon is black and
/// white and takes in the marked pixels, and the part that is not text is the
/// rest of it.
pub open spec fn separated(balloon: Plane<u8>, non_text: Plane<u8>, mask: Plane<u8>) -> bool {
    &&& balloon.same_size(mask)
    &&& non_text.same_size(mask)
    &&& forall|x: int, y: int| #[trigger]
        mask.inside(x, y) ==> separated_at(balloon, non_text, mask, x, y)
}

/// The smallest balloon around the marked pixels, given the edges of the
/// image; none where no pixel is marked or no contour goes around them all.
pub fn balloon_from_edges(edges: &GrayImage, mask: &GrayImage) -> (masks: Option<BalloonMasks>)
    requires
        edges@.same_size(mask@),
        imaging::processable(mask@.width, mask@.height),
    ensures
        masks_seen(masks) == balloon_in(edges@, mask@),
        masks matches Some(m) ==> separated(m.balloon_mask@, m.non_text_mask@, mask@),
{
    let text_bbox: Xyxy = non_zero_bbox(mask)?;
    let mut lines = imaging::dilate(edges, 1);
    draw_binary_border(&mut lines);
    subtract_binary_mask(&mut lines, mask);
    let contours = imaging::find_contours(&lines);
    assert forall|i: int, j: int|
        0 <= i < contours@.len() && 0 <= j < contours@[i].points@.len() implies 0 <= (
    #[trigger] contours@[i].points@[j]).0 < mask@.width && 0 <= contours@[i].points@[j].1
        < mask@.height by {
        let p = contours@[i].points@[j];
        assert(imaging::foreground(lines@, p.0 as int, p.1 as int));
    }
    let balloon_mask = find_balloon(&contours, mask, text_bbox)?;
    let mut non_text_mask = balloon_mask.clone();
    subtract_binary_mask(&mut non_text_mask, mask);
    proof {
        use_type_invariant(&balloon_mask);
        assert forall|x: int, y: int| #[trigger] mask@.inside(x, y) implies separated_at(
            balloon_mask@,
            non_text_mask@,
            mask@,
            x,
            y,
        ) by {
            raster::lemma_index(mask@.width, mask@.height, x, y);
            law_balloon_covers_text(edges@, mask@, balloon_mask@, non_text_mask@, x, y);
        }
    }
    Some(BalloonMasks { balloon_mask, non_text_mask })
}

/// Whether `edges` may be found in the image: the edges of its blurred
/// luminance.
pub open spec fn edges_of(image: Plane<[u8; 3]>, edges: Plane<u8>) -> bool {
    &&& edges.wf() && edges.same_size(image)
    &&& exists|luma: Seq<u8>, blurred: Seq<u8>|
        {
            &&& imaging::luma_of(image.width, image.height, image.pixels, luma)
            &&& #[trigger] imaging::blur_of(image.width, image.height, luma, 1, blurred)
            &&& imaging::canny_of(
                image.width,
                image.height,
                blurred,
                BALLOON_CANNY_LOW,
                BALLOON_CANNY_HIGH,
                edges.pixels,
            )
        }
}

/// What may be extracted from an image and a mask.
pub open spec fn extracted(
    image: Plane<[u8; 3]>,
    mask: Plane<u8>,
    masks: Option<(Plane<u8>, Plane<u8>)>,
) -> bool {
    if !image.same_size(mask) || !marks_any(mask) {
        masks is None
    } else {
        exists|edges: Plane<u8>|
            #![trigger edges_of(image, edges)]
            edges_of(image, edges) && masks == balloon_in(edges, mask)
    }
}

/// The smallest balloon around the marked pixels; none where image and mask
/// differ in size, no pixel is marked or no contour goes around them all.
pub fn extract_balloon_mask(image: &RgbImage, mask: &GrayImage) -> (masks: Option<BalloonMasks>)
    requires
        image@.same_size(mask@) ==> imaging::processable(mask@.width, mask@.height),
    ensures
        extracted(image@, mask@, masks_seen(masks)),
        masks matches Some(m) ==> separated(m.balloon_mask@, m.non_text_mask@, mask@),
{
    let (width, height) = image.dimensions();
    if width != mask.width() || height != mask.height() {
        return None;
    }
    if non_zero_bbox(mask).is_none() {
        return None;
    }
    let gray = imaging::to_luma(image);
    let blurred = imaging::gaussian_blur(&gray, 1);
    let edges = imaging::canny(&blurred, BALLOON_CANNY_LOW, BALLOON_CANNY_HIGH);
    proof {
        use_type_invariant(&edges);
        assert(imaging::blur_of(image@.width, image@.height, gray@.pixels, 1, blurred@.pixels));
        assert(edges_of(image@, edges@));
    }
    balloon_from_edges(&edges, mask)
}

/// Whether a background is uniform enough to be filled: no channel deviates
/// from its median by as much as the threshold. The threshold is lower where
/// the deviations of the channels differ much.
pub open spec fn simple(background: Seq<[u8; 3]>) -> bool {
    let r = deviation_of(background, 0);
    let g = deviation_of(background, 1);
    let b = deviation_of(background, 2);
    let uneven = Dyadic::integer(SIMPLE_BG_CHANNEL_STD_SWITCH as int).less(
        statistics::spread3(r, g, b),
    );
    let threshold = Dyadic::integer(
        if uneven {
            SIMPLE_BG_THRESHOLD_HIGH_VARIANCE as int
        } else {
            SIMPLE_BG_THRESHOLD_LOW_VARIANCE as int
        },
    );
    r.less(threshold) && g.less(threshold) && b.less(threshold)
}

/// The deviation of one channel from its median.
pub open spec fn deviation_of(background: Seq<[u8; 3]>, c: int) -> Dyadic {
    let values = statistics::channel(background, c);
    statistics::deviation(values, statistics::doubled_median(values))
}

/// Whether `color` is the median color of the background, fractions dropped.
pub open spec fn median_color(background: Seq<[u8; 3]>, color: [u8; 3]) -> bool {
    forall|c: int|
        0 <= c < 3 ==> #[trigger] color@[c] == statistics::doubled_median(
            statistics::channel(background, c),
        ) / 2
}

/// `image` with the text in the balloon painted in one color: the pixels of the
/// balloon that do not belong to its background.
pub open spec fn filled(
    image: Plane<[u8; 3]>,
    balloon: Plane<u8>,
    non_text: Plane<u8>,
    color: [u8; 3],
) -> Plane<[u8; 3]> {
    Plane::tabulate(
        image.width,
        image.height,
        |x: int, y: int|
            if balloon.at(x, y) > 0 && non_text.at(x, y) == 0 {
                color
            } else {
                image.at(x, y)
            },
    )
}

/// Whether `result` is what comes out for the masks that were found: the text
/// filled with the median color of the background where that is simple,
/// nothing otherwise.
pub open spec fn fill_outcome(
    image: Plane<[u8; 3]>,
    masks: Option<(Plane<u8>, Plane<u8>)>,
    result: Option<Plane<[u8; 3]>>,
) -> bool {
    match masks {
        Some((balloon, non_text)) => {
            let background = statistics::under(image.pixels, non_text.pixels);
            if background.len() > 0 && simple(background) {
                exists|color: [u8; 3]| #[trigger]
                    median_color(background, color) && result == Some(
                        filled(image, balloon, non_text, color),
                    )
            } else {
                result is None
            }
        },
        None => result is None,
    }
}

/// The content of an optional image.
pub open spec fn image_seen(image: Option<RgbImage>) -> Option<Plane<[u8; 3]>> {
    match image {
        Some(i) => Some(i@),
        None => None,
    }
}

fn fill(image: &RgbImage, masks: &BalloonMasks, color: [u8; 3]) -> (out: RgbImage)
    requires
        masks.balloon_mask@.same_size(image@),
        masks.non_text_mask@.same_size(image@),
    ensures
        out@ == filled(image@, masks.balloon_mask@, masks.non_text_mask@, color),
{
    let (width, height) = image.dimensions();
    let balloon: &GrayImage = &masks.balloon_mask;
    let non_text: &GrayImage = &masks.non_text_mask;
    let pixel_at = |x: u32, y: u32| -> (p: [u8; 3])
        requires
            image@.inside(x as int, y as int),
            balloon@.inside(x as int, y as int),
            non_text@.inside(x as int, y as int),
        ensures
            p == (if balloon@.at(x as int, y as int) > 0 && non_text@.at(x as int, y as int) == 0 {
                color
            } else {
                image@.at(x as int, y as int)
            }),
        {
            if balloon.get_pixel(x, y) > 0 && non_text.get_pixel(x, y) == 0 {
                color
            } else {
                image.get_pixel(x, y)
            }
        };
    let out = Raster::from_fn(width, height, pixel_at);
    proof {
        raster::lemma_tabulated(
            out@,
            |x: int, y: int|
                if balloon@.at(x, y) > 0 && non_text@.at(x, y) == 0 {
                    color
                } else {
                    image@.at(x, y)
                },
        );
    }
    out
}

/// Fills the text in the balloon with the median color of the background, if
/// that is simple.
pub fn fill_balloon(image: &RgbImage, masks: &BalloonMasks) -> (result: Option<RgbImage>)
    requires
        masks.balloon_mask@.same_size(image@),
        masks.non_text_mask@.same_size(image@),
        statistics::summable(image@.pixels.len()),
    ensures
        fill_outcome(
            image@,
            Some((masks.balloon_mask@, masks.non_text_mask@)),
            image_seen(result),
        ),
{
    let median: [u16; 3] = statistics::median_rgb(image, &masks.non_text_mask)?;
    let deviations = statistics::color_stddev(image, &masks.non_text_mask, median);
    let ghost background = statistics::under(image@.pixels, masks.non_text_mask@.pixels);
    assert(deviations@[0] is Finite && deviations@[1] is Finite && deviations@[2] is Finite);
    let std_rgb: [Double; 3] = match (deviations[0], deviations[1], deviations[2]) {
        (Deviation::Finite(red), Deviation::Finite(green), Deviation::Finite(blue)) => [
            red,
            green,
            blue,
        ],
        _ => {
            return None;
        },
    };
    assert(std_rgb@[0]@ == deviation_of(background, 0) && std_rgb@[1]@ == deviation_of(
        background,
        1,
    ) && std_rgb@[2]@ == deviation_of(background, 2)) by {
        assert(median@[0] == statistics::doubled_median(statistics::channel(background, 0)));
        assert(median@[1] == statistics::doubled_median(statistics::channel(background, 1)));
        assert(median@[2] == statistics::doubled_median(statistics::channel(background, 2)));
    }
    let uneven: bool = Double::from_int(SIMPLE_BG_CHANNEL_STD_SWITCH).lt(
        statistics::stddev3(std_rgb),
    );
    let threshold = if uneven {
        Double::from_int(SIMPLE_BG_THRESHOLD_HIGH_VARIANCE)
    } else {
        Double::from_int(SIMPLE_BG_THRESHOLD_LOW_VARIANCE)
    };
    if !(std_rgb[0].lt(threshold) && std_rgb[1].lt(threshold) && std_rgb[2].lt(threshold)) {
        return None;
    }
    let color: [u8; 3] = [(median[0] / 2) as u8, (median[1] / 2) as u8, (median[2] / 2) as u8];
    let out = fill(image, masks, color);
    assert(median_color(background, color)) by {
        assert forall|c: int| 0 <= c < 3 implies #[trigger] color@[c]
            == statistics::doubled_median(statistics::channel(background, c)) / 2 by {
            assert(median@[c] == statistics::doubled_median(statistics::channel(background, c)));
        }
    }
    Some(out)
}

/// What may come out of filling the balloon around the marked pixels.
pub open spec fn balloon_outcome(
    image: Plane<[u8; 3]>,
    mask: Plane<u8>,
    result: Option<Plane<[u8; 3]>>,
) -> bool {
    exists|masks: Option<(Plane<u8>, Plane<u8>)>| #[trigger]
        extracted(image, mask, masks) && fill_outcome(image, masks, result)
}

/// Returns an image with the marked pixels painted in the median background
/// color of the balloon around them, if a balloon with a simple background can
/// be identified. `None` means that there is no confident fast path.
pub fn try_fill_balloon(image: &RgbImage, mask: &GrayImage) -> (result: Option<RgbImage>)
    requires
        image@.same_size(mask@) ==> imaging::processable(mask@.width, mask@.height),
    ensures
        balloon_outcome(image@, mask@, image_seen(result)),
        result matches Some(out) ==> {
            &&& image@.same_size(mask@)
            &&& out@.same_size(image@)
            &&& forall|x: int, y: int|
                mask@.inside(x, y) && mask@.at(x, y) == 0 ==> #[trigger] out@.at(x, y)
                    == image@.at(x, y)
        },
{
    let extraction = extract_balloon_mask(image, mask);
    proof {
        use_type_invariant(image);
    }
    match extraction {
        Some(masks) => {
            let result = fill_balloon(image, &masks);
            proof {
                assert(extracted(
                    image@,
                    mask@,
                    Some((masks.balloon_mask@, masks.non_text_mask@)),
                ));
                if let Some(out) = &result {
                    law_text_is_painted(image@, mask@, out@);
                    assert forall|x: int, y: int| mask@.inside(x, y) && mask@.at(
                        x,
                        y,
                    ) == 0 implies #[trigger] out@.at(x, y) == image@.at(x, y) by {
                        law_only_text_is_painted(image@, mask@, out@, x, y);
                    }
                }
            }
            result
        },
        None => {
            assert(extracted(image@, mask@, None));
            None
        },
    }
}

/// Among the contours that go around all marked pixels, one is chosen whose
/// area no other one undercuts.
pub proof fn law_smallest_is_chosen(
    contours: Seq<(bool, Option<usize>, Seq<(i32, i32)>)>,
    mask: Plane<u8>,
    i: int,
    path: Seq<(i32, i32)>,
)
    requires
        0 <= i < contours.len(),
        polygon::open_path(contours[i].2) == Some(path),
        surrounds(path, mask),
    ensures
        smallest_around(contours, mask) matches Some(best) && !polygon::area(path).less(
            polygon::area(best),
        ),
    decreases contours.len(),
{
    let earlier = contours.drop_last();
    if i < earlier.len() {
        law_smallest_is_chosen(earlier, mask, i, path);
        let before = smallest_around(earlier, mask).unwrap();
        let after = smallest_around(contours, mask).unwrap();
        if polygon::area(after).less(polygon::area(before)) {
            crate::binary64::lemma_less_trans(
                polygon::area(path),
                polygon::area(before),
                polygon::area(after),
            );
        }
    }
}

/// What is chosen is the polygon of one of the contours, and goes around all
/// marked pixels.
pub proof fn law_chosen_surrounds(
    contours: Seq<(bool, Option<usize>, Seq<(i32, i32)>)>,
    mask: Plane<u8>,
    path: Seq<(i32, i32)>,
)
    requires
        smallest_around(contours, mask) == Some(path),
    ensures
        surrounds(path, mask),
        exists|i: int|
            0 <= i < contours.len() && polygon::open_path((#[trigger] contours[i]).2) == Some(path),
    decreases contours.len(),
{
    let earlier = contours.drop_last();
    if smallest_around(earlier, mask) == Some(path) {
        law_chosen_surrounds(earlier, mask, path);
        let i = choose|i: int|
            0 <= i < earlier.len() && polygon::open_path((#[trigger] earlier[i]).2) == Some(path);
        assert(contours[i] == earlier[i]);
    } else {
        assert(contours[contours.len() - 1] == contours.last());
    }
}

/// The balloon takes in every marked pixel, and the part that is not text is
/// the rest of it.
pub proof fn law_balloon_covers_text(
    edges: Plane<u8>,
    mask: Plane<u8>,
    balloon: Plane<u8>,
    non_text: Plane<u8>,
    x: int,
    y: int,
)
    requires
        balloon_in(edges, mask) == Some((balloon, non_text)),
        mask.inside(x, y),
    ensures
        balloon.same_size(mask),
        non_text.same_size(mask),
        mask.at(x, y) > 0 ==> balloon.at(x, y) > 0 && non_text.at(x, y) == 0,
        mask.at(x, y) == 0 ==> non_text.at(x, y) == balloon.at(x, y),
{
    broadcast use raster::lemma_tabulate;

    let lines = outlines(edges, mask);
    let contours = imaging::borders(lines.width, lines.height, lines.pixels);
    let path = smallest_around(contours, mask).unwrap();
    law_chosen_surrounds(contours, mask, path);
    if mask.at(x, y) > 0 {
        assert(imaging::foreground(mask, x, y));
    }
}

/// Filling changes no pixel outside the balloon, and none of its background.
pub proof fn law_fill_keeps_background(
    image: Plane<[u8; 3]>,
    balloon: Plane<u8>,
    non_text: Plane<u8>,
    out: Plane<[u8; 3]>,
    x: int,
    y: int,
)
    requires
        fill_outcome(image, Some((balloon, non_text)), Some(out)),
        image.inside(x, y),
        balloon.at(x, y) == 0 || non_text.at(x, y) > 0,
    ensures
        out.same_size(image),
        out.at(x, y) == image.at(x, y),
{
    broadcast use raster::lemma_tabulate;

}

/// Whether every marked pixel has the given color.
pub open spec fn painted(out: Plane<[u8; 3]>, mask: Plane<u8>, color: [u8; 3]) -> bool {
    forall|x: int, y: int| #[trigger]
        imaging::foreground(mask, x, y) ==> out.at(x, y) == color
}

/// Where text is filled, all marked pixels get the median color of the
/// background of a balloon that was extracted.
pub proof fn law_text_is_painted(image: Plane<[u8; 3]>, mask: Plane<u8>, out: Plane<[u8; 3]>)
    requires
        balloon_outcome(image, mask, Some(out)),
    ensures
        image.same_size(mask),
        out.same_size(image),
        exists|balloon: Plane<u8>, non_text: Plane<u8>, color: [u8; 3]|
            {
                &&& #[trigger] extracted(image, mask, Some((balloon, non_text)))
                &&& #[trigger] median_color(
                    statistics::under(image.pixels, non_text.pixels),
                    color,
                )
                &&& painted(out, mask, color)
            },
{
    broadcast use raster::lemma_tabulate;

    let masks = choose|masks: Option<(Plane<u8>, Plane<u8>)>| #[trigger]
        extracted(image, mask, masks) && fill_outcome(image, masks, Some(out));
    let (balloon, non_text) = masks.unwrap();
    let edges = choose|edges: Plane<u8>|
        #![trigger edges_of(image, edges)]
        edges_of(image, edges) && masks == balloon_in(edges, mask);
    let background = statistics::under(image.pixels, non_text.pixels);
    let color = choose|color: [u8; 3]| #[trigger]
        median_color(background, color) && out == filled(image, balloon, non_text, color);
    assert forall|x: int, y: int| #[trigger] imaging::foreground(mask, x, y) implies out.at(x, y)
        == color by {
        law_balloon_covers_text(edges, mask, balloon, non_text, x, y);
    }
    assert(painted(out, mask, color));
    assert(extracted(image, mask, Some((balloon, non_text))));
}

/// Where text is filled, every pixel that is not marked stays as it was.
pub proof fn law_only_text_is_painted(
    image: Plane<[u8; 3]>,
    mask: Plane<u8>,
    out: Plane<[u8; 3]>,
    x: int,
    y: int,
)
    requires
        balloon_outcome(image, mask, Some(out)),
        mask.inside(x, y),
        mask.at(x, y) == 0,
    ensures
        out.at(x, y) == image.at(x, y),
{
    let masks = choose|masks: Option<(Plane<u8>, Plane<u8>)>| #[trigger]
        extracted(image, mask, masks) && fill_outcome(image, masks, Some(out));
    let (balloon, non_text) = masks.unwrap();
    let edges = choose|edges: Plane<u8>|
        #![trigger edges_of(image, edges)]
        edges_of(image, edges) && masks == balloon_in(edges, mask);
    law_balloon_covers_text(edges, mask, balloon, non_text, x, y);
    law_fill_keeps_background(image, balloon, non_text, out, x, y);
}

/// A background of one color is always filled, with that color.
pub proof fn law_uniform_background_is_filled(
    image: Plane<[u8; 3]>,
    balloon: Plane<u8>,
    non_text: Plane<u8>,
    color: [u8; 3],
    result: Option<Plane<[u8; 3]>>,
)
    requires
        ({
            let background = statistics::under(image.pixels, non_text.pixels);
            &&& background.len() > 0
            &&& forall|i: int| 0 <= i < background.len() ==> #[trigger] background[i] == color
        }),
        fill_outcome(image, Some((balloon, non_text)), result),
    ensures
        result == Some(filled(image, balloon, non_text, color)),
{
    let background = statistics::under(image.pixels, non_text.pixels);
    assert forall|c: int| 0 <= c < 3 implies #[trigger] statistics::doubled_median(
        statistics::channel(background, c),
    ) == 2 * color@[c] && deviation_of(background, c) == Dyadic::integer(0) by {
        statistics::lemma_constant(statistics::channel(background, c), color@[c]);
    }
    assert(statistics::doubled_median(statistics::channel(background, 0)) == 2 * color@[0]);
    assert(statistics::doubled_median(statistics::channel(background, 1)) == 2 * color@[1]);
    assert(statistics::doubled_median(statistics::channel(background, 2)) == 2 * color@[2]);
    statistics::lemma_zero();
    assert(simple(background));
    let c = choose|c: [u8; 3]| #[trigger]
        median_color(background, c) && result == Some(filled(image, balloon, non_text, c));
    assert(c =~= color);
}

} // verus!
