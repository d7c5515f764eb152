//! Rectangles around masked regions, and the arithmetic of padding.
use crate::imaging::{self, Contour};
use crate::raster::{self, GrayImage, Plane, Raster, RgbImage};
use vstd::prelude::*;

verus! {

/// `[x1, y1, x2, y2]` half-open rectangle: `x1`, `y1` inclusive, `x2`, `y2`
/// exclusive.
pub type Xyxy = [u32; 4];

/// The corners `(x1, y1, x2, y2)` of a rectangle.
pub type Rect = (int, int, int, int);

/// The corners of a box.
pub open spec fn corners(b: Xyxy) -> Rect {
    (b@[0] as int, b@[1] as int, b@[2] as int, b@[3] as int)
}

/// The smallest multiple of `m` that is not below `v`; `v` itself where `m` is
/// zero.
pub open spec fn next_multiple(v: int, m: int) -> int {
    if m == 0 {
        v
    } else {
        (v + m - 1) / m * m
    }
}

/// The next multiple of `m` is a multiple, lies above `v` by less than `m`,
/// and grows with `v`.
pub proof fn lemma_next_multiple(v: int, m: int)
    requires
        v >= 0,
        m > 0,
    ensures
        next_multiple(v, m) % m == 0,
        v <= next_multiple(v, m) < v + m,
        forall|u: int| 0 <= u <= v ==> #[trigger] next_multiple(u, m) <= next_multiple(v, m),
{
    let q = (v + m - 1) / m;
    vstd::arithmetic::div_mod::lemma_fundamental_div_mod(v + m - 1, m);
    vstd::arithmetic::mul::lemma_mul_is_commutative(m, q);
    vstd::arithmetic::div_mod::lemma_mod_multiples_basic(q, m);
    assert forall|u: int| 0 <= u <= v implies #[trigger] next_multiple(u, m) <= next_multiple(
        v,
        m,
    ) by {
        vstd::arithmetic::div_mod::lemma_div_is_ordered(u + m - 1, v + m - 1, m);
        vstd::arithmetic::mul::lemma_mul_inequality((u + m - 1) / m, q, m);
    }
}

/// Rounds `v` up to a multiple of `m`.
pub fn ceil_multiple(v: u32, m: u32) -> (r: u32)
    requires
        next_multiple(v as int, m as int) <= u32::MAX,
    ensures
        r == next_multiple(v as int, m as int),
{
    if m == 0 {
        return v;
    }
    let r: u32 = v % m;
    proof {
        let q = v as int / m as int;
        vstd::arithmetic::div_mod::lemma_fundamental_div_mod(v as int, m as int);
        vstd::arithmetic::mul::lemma_mul_is_commutative(m as int, q);
        lemma_next_multiple(v as int, m as int);
        if r == 0 {
            assert(v + m - 1 == q * m + (m - 1));
            vstd::arithmetic::div_mod::lemma_fundamental_div_mod_converse(
                v + m - 1,
                m as int,
                q,
                m - 1,
            );
        } else {
            assert((q + 1) * m == q * m + m) by (nonlinear_arith);
            vstd::arithmetic::div_mod::lemma_fundamental_div_mod_converse(
                v + m - 1,
                m as int,
                q + 1,
                r - 1,
            );
        }
    }
    if r == 0 {
        v
    } else {
        v + (m - r)
    }
}

/// The source index of index `i` when a line of `len` pixels is continued by
/// its mirror image, that by the line again, and so on.
pub open spec fn reflected(i: int, len: int) -> int {
    if len == 0 {
        0
    } else {
        let p = i % (2 * len);
        if p < len {
            p
        } else {
            2 * len - 1 - p
        }
    }
}

/// Reflect index for symmetric padding.
pub fn reflect_index(i: u32, len: u32) -> (r: u32)
    ensures
        r == reflected(i as int, len as int),
        len > 0 ==> r < len,
        i < len ==> r == i,
{
    if len == 0 {
        return 0;
    }
    proof {
        vstd::arithmetic::div_mod::lemma_mod_bound(i as int, 2 * len as int);
        if i < len {
            vstd::arithmetic::div_mod::lemma_small_mod(i as nat, (2 * len) as nat);
        }
    }
    let period: u64 = 2 * len as u64;
    let p: u64 = i as u64 % period;
    if p < len as u64 {
        p as u32
    } else {
        (period - 1 - p) as u32
    }
}

/// A line starts with itself, and each pixel of its continuation comes from
/// the line. One length further on, the line is read in the other direction.
pub proof fn law_reflection(i: int, len: int)
    requires
        i >= 0,
        len > 0,
    ensures
        0 <= reflected(i, len) < len,
        i < len ==> reflected(i, len) == i,
        len <= i < 2 * len ==> reflected(i, len) == 2 * len - 1 - i,
        reflected(i + len, len) == len - 1 - reflected(i, len),
        reflected(i + 2 * len, len) == reflected(i, len),
{
    let n = 2 * len;
    let p = i % n;
    let q = i / n;
    vstd::arithmetic::div_mod::lemma_fundamental_div_mod(i, n);
    vstd::arithmetic::div_mod::lemma_mod_bound(i, n);
    vstd::arithmetic::div_mod::lemma_mod_add_multiples_vanish(i, n);
    if i < n {
        vstd::arithmetic::div_mod::lemma_small_mod(i as nat, n as nat);
    }
    if p < len {
        vstd::arithmetic::mul::lemma_mul_is_commutative(n, q);
        vstd::arithmetic::div_mod::lemma_fundamental_div_mod_converse(i + len, n, q, p + len);
    } else {
        assert((q + 1) * n == n * q + n) by (nonlinear_arith);
        vstd::arithmetic::div_mod::lemma_fundamental_div_mod_converse(i + len, n, q + 1, p - len);
    }
}

/// The interval that a crop takes on one axis of length `side`: the box
/// `[lo, hi)` with the margin on both ends, shifted inward where it would leave
/// the axis, and the whole axis where it is longer. It has at least one pixel
/// where the axis has one.
pub open spec fn crop_interval(lo: int, hi: int, margin: int, side: int) -> (int, int) {
    let length = raster::min(hi - lo + 2 * margin, side);
    let start = raster::max(0, raster::min(lo - margin, side - length));
    (start, raster::min(side, raster::max(start + length, start + 1)))
}

/// The rectangle that a crop takes of an image of the given size.
pub open spec fn crop_window(b: Rect, margin: int, width: int, height: int) -> Rect {
    let (l, r) = crop_interval(b.0, b.2, margin, width);
    let (t, bt) = crop_interval(b.1, b.3, margin, height);
    (l, t, r, bt)
}

/// Boxes and margins whose sums stay in 32 bits.
pub open spec fn croppable(b: Rect, margin: int) -> bool {
    &&& b.0 <= b.2
    &&& b.1 <= b.3
    &&& b.0 + b.2 <= u32::MAX
    &&& b.1 + b.3 <= u32::MAX
    &&& b.2 - b.0 + 2 * margin <= u32::MAX
    &&& b.3 - b.1 + 2 * margin <= u32::MAX
}

fn crop_axis(lo: u32, hi: u32, margin: u32, side: u32) -> (r: (u32, u32))
    requires
        lo <= hi,
        lo + hi <= u32::MAX,
        hi - lo + 2 * margin <= u32::MAX,
    ensures
        (r.0 as int, r.1 as int) == crop_interval(lo as int, hi as int, margin as int, side as int),
        r.0 <= r.1 <= side,
{
    let side_i: i64 = side as i64;
    let footprint: i64 = (hi - lo) as i64 + 2 * margin as i64;
    let length: i64 = if footprint < side_i {
        footprint
    } else {
        side_i
    };
    let desired: i64 = lo as i64 - margin as i64;
    let start: i64 = if desired < side_i - length {
        desired
    } else {
        side_i - length
    };
    let l: u32 = if start < 0 {
        0
    } else {
        start as u32
    };
    let r: u32 = if length < 1 {
        l + 1
    } else {
        l + length as u32
    };
    let r: u32 = if r < side {
        r
    } else {
        side
    };
    (l, r)
}

/// Expand `box_xyxy` by `margin` pixels on each side, clamped to the image.
/// When the expanded rectangle would leave the image at one edge, it is
/// shifted inward so that the whole footprint still fits when possible.
/// Returns the crops of image and mask, and the rectangle.
pub fn crop_box(image: &RgbImage, mask: &GrayImage, box_xyxy: Xyxy, margin: u32) -> (r: (
    RgbImage,
    GrayImage,
    Xyxy,
))
    requires
        croppable(corners(box_xyxy), margin as int),
    ensures
        ({
            let (l, t, right, bottom) = crop_window(
                corners(box_xyxy),
                margin as int,
                image@.width as int,
                image@.height as int,
            );
            &&& r.0@ == image@.crop(l, t, right - l, bottom - t)
            &&& r.1@ == mask@.crop(l, t, right - l, bottom - t)
            &&& corners(r.2) == (l, t, right, bottom)
            &&& 0 <= l <= right <= image@.width
            &&& 0 <= t <= bottom <= image@.height
        }),
{
    let (width, height) = image.dimensions();
    let (l, r) = crop_axis(box_xyxy[0], box_xyxy[2], margin, width);
    let (t, b) = crop_axis(box_xyxy[1], box_xyxy[3], margin, height);
    let crop_img = image.crop(l, t, r - l, b - t);
    let crop_mask = mask.crop(l, t, r - l, b - t);
    (crop_img, crop_mask, [l, t, r, b])
}

/// The crop takes in the box with its margin on both ends, as far as the image
/// reaches.
pub proof fn law_crop_takes_in_margin(lo: int, hi: int, margin: int, side: int)
    requires
        0 <= lo <= hi <= side,
        margin >= 0,
    ensures
        ({
            let (start, end) = crop_interval(lo, hi, margin, side);
            &&& 0 <= start <= raster::max(0, lo - margin)
            &&& raster::min(side, hi + margin) <= end <= side
        }),
{
}

/// A box that with its margin lies inside the image is expanded by exactly the
/// margin on each side.
pub proof fn law_crop_expands_by_margin(lo: int, hi: int, margin: int, side: int)
    requires
        margin <= lo <= hi <= side - margin,
        margin >= 0,
        hi - lo + 2 * margin > 0,
    ensures
        crop_interval(lo, hi, margin, side) == (lo - margin, hi + margin),
{
}

/// A box lies inside its crop.
pub proof fn law_crop_contains_box(b: Rect, margin: int, width: int, height: int)
    requires
        0 <= b.0 <= b.2 <= width,
        0 <= b.1 <= b.3 <= height,
        margin >= 0,
    ensures
        ({
            let (l, t, r, bt) = crop_window(b, margin, width, height);
            &&& 0 <= l <= b.0 && b.2 <= r <= width
            &&& 0 <= t <= b.1 && b.3 <= bt <= height
        }),
{
    law_crop_takes_in_margin(b.0, b.2, margin, width);
    law_crop_takes_in_margin(b.1, b.3, margin, height);
}

/// A footprint that fits on the axis keeps its full length, also where it had
/// to be shifted inward; one that does not fit takes the whole axis.
pub proof fn law_crop_keeps_footprint(lo: int, hi: int, margin: int, side: int)
    requires
        0 <= lo <= hi <= side,
        margin >= 0,
        hi - lo + 2 * margin > 0,
    ensures
        ({
            let (start, end) = crop_interval(lo, hi, margin, side);
            end - start == raster::min(hi - lo + 2 * margin, side)
        }),
{
}

/// The column numbers of a list of points.
pub open spec fn columns(points: Seq<(i32, i32)>) -> Seq<int> {
    points.map_values(|p: (i32, i32)| p.0 as int)
}

/// The row numbers of a list of points.
pub open spec fn rows(points: Seq<(i32, i32)>) -> Seq<int> {
    points.map_values(|p: (i32, i32)| p.1 as int)
}

/// The smallest and largest column and row of a list of points, as
/// `(min_x, min_y, max_x, max_y)`.
pub fn extent(points: &Vec<(i32, i32)>) -> (r: (i32, i32, i32, i32))
    requires
        points@.len() > 0,
    ensures
        r.0 == columns(points@).min(),
        r.1 == rows(points@).min(),
        r.2 == columns(points@).max(),
        r.3 == rows(points@).max(),
{
    let mut min_x: i32 = points[0].0;
    let mut min_y: i32 = points[0].1;
    let mut max_x: i32 = points[0].0;
    let mut max_y: i32 = points[0].1;
    let ghost xs = columns(points@);
    let ghost ys = rows(points@);
    assert(xs[0] == min_x && ys[0] == min_y);
    let mut i: usize = 1;
    while i < points.len()
        invariant
            1 <= i <= points@.len(),
            xs == columns(points@),
            ys == rows(points@),
            xs.contains(min_x as int),
            xs.contains(max_x as int),
            ys.contains(min_y as int),
            ys.contains(max_y as int),
            forall|j: int| 0 <= j < i ==> min_x <= #[trigger] xs[j] <= max_x,
            forall|j: int| 0 <= j < i ==> min_y <= #[trigger] ys[j] <= max_y,
        decreases points@.len() - i,
    {
        let p: (i32, i32) = points[i];
        assert(xs[i as int] == p.0 && ys[i as int] == p.1);
        if p.0 < min_x {
            min_x = p.0;
        }
        if p.1 < min_y {
            min_y = p.1;
        }
        if p.0 > max_x {
            max_x = p.0;
        }
        if p.1 > max_y {
            max_y = p.1;
        }
        i += 1;
    }
    proof {
        xs.min_ensures();
        xs.max_ensures();
        ys.min_ensures();
        ys.max_ensures();
    }
    (min_x, min_y, max_x, max_y)
}

/// The part `[lo, hi]` of an axis of length `side`, half-open.
pub open spec fn clipped(lo: int, hi: int, side: int) -> (int, int) {
    (
        raster::min(raster::max(lo, 0), side),
        raster::min(raster::max(raster::min(hi + 1, i32::MAX as int), 0), side),
    )
}

/// The bounding box of a contour, clipped to an image of the given size.
pub open spec fn bounding_box(points: Seq<(i32, i32)>, width: int, height: int) -> Rect {
    let (x1, x2) = clipped(columns(points).min(), columns(points).max(), width);
    let (y1, y2) = clipped(rows(points).min(), rows(points).max(), height);
    (x1, y1, x2, y2)
}

/// Whether a contour gets a box: an outermost border whose box is not empty.
pub open spec fn boxed(
    contour: (bool, Option<usize>, Seq<(i32, i32)>),
    width: int,
    height: int,
) -> bool {
    let (x1, y1, x2, y2) = bounding_box(contour.2, width, height);
    imaging::outermost(contour) && contour.2.len() > 0 && x1 < x2 && y1 < y2
}

/// The boxes of a list of contours, in their order.
pub open spec fn boxes_of(
    contours: Seq<(bool, Option<usize>, Seq<(i32, i32)>)>,
    width: int,
    height: int,
) -> Seq<Rect>
    decreases contours.len(),
{
    if contours.len() == 0 {
        Seq::empty()
    } else {
        let earlier = boxes_of(contours.drop_last(), width, height);
        if boxed(contours.last(), width, height) {
            earlier.push(bounding_box(contours.last().2, width, height))
        } else {
            earlier
        }
    }
}

/// The corners of a list of boxes.
pub open spec fn rects(boxes: Seq<Xyxy>) -> Seq<Rect> {
    boxes.map_values(|b: Xyxy| corners(b))
}

fn clip_axis(lo: i32, hi: i32, side: u32) -> (r: (u32, u32))
    ensures
        (r.0 as int, r.1 as int) == clipped(lo as int, hi as int, side as int),
{
    let start: u32 = if lo < 0 {
        0
    } else {
        lo as u32
    };
    let end_i: i32 = if hi < i32::MAX {
        hi + 1
    } else {
        i32::MAX
    };
    let end: u32 = if end_i < 0 {
        0
    } else {
        end_i as u32
    };
    (
        if start < side {
            start
        } else {
            side
        },
        if end < side {
            end
        } else {
            side
        },
    )
}

/// The boxes of the outermost contours, clipped to an image of the given size.
/// Borders of holes, and of regions inside holes, are discarded.
pub fn boxes_from_contours(contours: &Vec<Contour>, width: u32, height: u32) -> (boxes: Vec<Xyxy>)
    ensures
        rects(boxes@) == boxes_of(
            imaging::contour_list(contours@),
            width as int,
            height as int,
        ),
{
    let mut boxes: Vec<Xyxy> = Vec::new();
    let ghost list = imaging::contour_list(contours@);
    let mut i: usize = 0;
    assert(list.take(0) =~= Seq::empty());
    assert(rects(boxes@) =~= Seq::empty());
    while i < contours.len()
        invariant
            i <= contours@.len(),
            list == imaging::contour_list(contours@),
            rects(boxes@) == boxes_of(list.take(i as int), width as int, height as int),
        decreases contours@.len() - i,
    {
        let contour: &Contour = &contours[i];
        assert(list.take(i + 1).drop_last() =~= list.take(i as int));
        assert(list.take(i + 1).last() == contour@);
        if contour.outer && contour.parent.is_none() && contour.points.len() > 0 {
            let (min_x, min_y, max_x, max_y) = extent(&contour.points);
            let (x1, x2) = clip_axis(min_x, max_x, width);
            let (y1, y2) = clip_axis(min_y, max_y, height);
            if x2 > x1 && y2 > y1 {
                let b: Xyxy = [x1, y1, x2, y2];
                let ghost before = boxes@;
                boxes.push(b);
                assert(rects(boxes@) =~= rects(before).push(corners(b)));
            }
        }
        i += 1;
    }
    assert(list.take(list.len() as int) =~= list);
    boxes
}

/// The mask with a black frame of one pixel.
pub open spec fn framed(mask: Plane<u8>) -> Plane<u8> {
    Plane::tabulate(
        mask.width + 2,
        mask.height + 2,
        |x: int, y: int|
            if mask.inside(x - 1, y - 1) {
                mask.at(x - 1, y - 1)
            } else {
                0u8
            },
    )
}

/// Points of a framed mask as points of the mask.
pub open spec fn moved(points: Seq<(i32, i32)>) -> Seq<(i32, i32)> {
    points.map_values(|p: (i32, i32)| ((p.0 - 1) as i32, (p.1 - 1) as i32))
}

/// Contours of a framed mask as contours of the mask.
pub open spec fn unframed(contours: Seq<(bool, Option<usize>, Seq<(i32, i32)>)>) -> Seq<
    (bool, Option<usize>, Seq<(i32, i32)>),
> {
    contours.map_values(
        |c: (bool, Option<usize>, Seq<(i32, i32)>)| (c.0, c.1, moved(c.2)),
    )
}

/// The borders of the regions of a mask. They are searched in the framed mask,
/// so that regions at its edges have theirs too.
pub open spec fn mask_borders(mask: Plane<u8>) -> Seq<(bool, Option<usize>, Seq<(i32, i32)>)> {
    let wide = framed(mask);
    unframed(imaging::borders(wide.width, wide.height, wide.pixels))
}

/// The boxes of the borders that are found in a mask.
pub open spec fn mask_boxes(mask: Plane<u8>) -> Seq<Rect> {
    boxes_of(mask_borders(mask), mask.width as int, mask.height as int)
}

/// Masks that can be searched for boxes.
pub open spec fn searchable(width: nat, height: nat) -> bool {
    imaging::processable(width + 2, height + 2)
}

/// Whether a mask of this size can be searched for boxes.
pub fn is_searchable(width: u32, height: u32) -> (r: bool)
    ensures
        r == searchable(width as nat, height as nat),
{
    width < 0x7fff_ffff && height < 0x7fff_ffff && imaging::is_processable(width + 2, height + 2)
}

fn frame(mask: &GrayImage) -> (wide: GrayImage)
    requires
        searchable(mask@.width, mask@.height),
    ensures
        wide@ == framed(mask@),
{
    let (width, height) = mask.dimensions();
    let pixel_at = |x: u32, y: u32| -> (p: u8)
        ensures
            p == (if mask@.inside(x - 1, y - 1) {
                mask@.at(x - 1, y - 1)
            } else {
                0u8
            }),
        {
            if 0 < x && x - 1 < width && 0 < y && y - 1 < height {
                mask.get_pixel(x - 1, y - 1)
            } else {
                0
            }
        };
    let wide = Raster::from_fn(width + 2, height + 2, pixel_at);
    proof {
        raster::lemma_tabulated(
            wide@,
            |x: int, y: int|
                if mask@.inside(x - 1, y - 1) {
                    mask@.at(x - 1, y - 1)
                } else {
                    0u8
                },
        );
    }
    wide
}

fn move_points(points: &Vec<(i32, i32)>) -> (r: Vec<(i32, i32)>)
    requires
        forall|j: int|
            0 <= j < points@.len() ==> 0 <= (#[trigger] points@[j]).0 && 0 <= points@[j].1,
    ensures
        r@ == moved(points@),
{
    let mut r: Vec<(i32, i32)> = Vec::new();
    let mut i: usize = 0;
    while i < points.len()
        invariant
            i <= points@.len(),
            forall|j: int|
                0 <= j < points@.len() ==> 0 <= (#[trigger] points@[j]).0 && 0 <= points@[j].1,
            r@ == moved(points@).take(i as int),
        decreases points@.len() - i,
    {
        let p: (i32, i32) = points[i];
        r.push((p.0 - 1, p.1 - 1));
        i += 1;
    }
    r
}

fn unframe(contours: &Vec<Contour>) -> (r: Vec<Contour>)
    requires
        forall|i: int, j: int|
            0 <= i < contours@.len() && 0 <= j < contours@[i].points@.len() ==> 0 <= (
            #[trigger] contours@[i].points@[j]).0 && 0 <= contours@[i].points@[j].1,
    ensures
        imaging::contour_list(r@) == unframed(imaging::contour_list(contours@)),
{
    let mut r: Vec<Contour> = Vec::new();
    let ghost list = unframed(imaging::contour_list(contours@));
    let mut i: usize = 0;
    while i < contours.len()
        invariant
            i <= contours@.len(),
            forall|i: int, j: int|
                0 <= i < contours@.len() && 0 <= j < contours@[i].points@.len() ==> 0 <= (
                #[trigger] contours@[i].points@[j]).0 && 0 <= contours@[i].points@[j].1,
            list == unframed(imaging::contour_list(contours@)),
            imaging::contour_list(r@) == list.take(i as int),
        decreases contours@.len() - i,
    {
        let c: &Contour = &contours[i];
        let ghost before = r@;
        assert forall|j: int| 0 <= j < c.points@.len() implies 0 <= (#[trigger] c.points@[j]).0 && 0
            <= c.points@[j].1 by {
            assert(c.points@[j] == contours@[i as int].points@[j]);
        }
        r.push(Contour { outer: c.outer, parent: c.parent, points: move_points(&c.points) });
        assert(imaging::contour_list(r@) =~= imaging::contour_list(before).push(list[i as int]));
        i += 1;
    }
    assert(list.take(list.len() as int) =~= list);
    r
}

/// Whether column `x` holds a marked pixel.
pub open spec fn marked_column(mask: Plane<u8>, x: int) -> bool {
    exists|y: int| imaging::foreground(mask, x, y)
}

/// Whether row `y` holds a marked pixel.
pub open spec fn marked_row(mask: Plane<u8>, y: int) -> bool {
    exists|x: int| imaging::foreground(mask, x, y)
}

/// Whether a marked pixel lies in the first and in the last column and row of
/// the rectangle.
pub open spec fn touches_marked(b: Rect, mask: Plane<u8>) -> bool {
    &&& marked_column(mask, b.0)
    &&& marked_row(mask, b.1)
    &&& marked_column(mask, b.2 - 1)
    &&& marked_row(mask, b.3 - 1)
}

/// Whether the region that `seed` belongs to has a pixel in column `x`.
pub open spec fn reaches_column(mask: Plane<u8>, seed: (int, int), x: int) -> bool {
    exists|y: int| imaging::connected(mask, seed, (x, y))
}

/// Whether the region that `seed` belongs to has a pixel in row `y`.
pub open spec fn reaches_row(mask: Plane<u8>, seed: (int, int), y: int) -> bool {
    exists|x: int| imaging::connected(mask, seed, (x, y))
}

/// Whether the rectangle is the bounding box of the region that `seed` belongs
/// to: the region lies in it, and reaches its first and its last column and
/// row.
pub open spec fn bounds_region(b: Rect, mask: Plane<u8>, seed: (int, int)) -> bool {
    &&& forall|x: int, y: int| #[trigger]
        imaging::connected(mask, seed, (x, y)) ==> in_window(b, x, y)
    &&& reaches_column(mask, seed, b.0)
    &&& reaches_row(mask, seed, b.1)
    &&& reaches_column(mask, seed, b.2 - 1)
    &&& reaches_row(mask, seed, b.3 - 1)
}

/// Whether `p` belongs to the region of one of the seeds.
pub open spec fn seeded(mask: Plane<u8>, seeds: Seq<(int, int)>, p: (int, int)) -> bool {
    exists|i: int| 0 <= i < seeds.len() && imaging::connected(mask, #[trigger] seeds[i], p)
}

/// Whether each box is the bounding box of the region of its seed, no two seeds
/// belong to the same region, and the regions of the seeds are those that lie
/// inside no hole.
pub open spec fn one_box_each(
    boxes: Seq<Rect>,
    mask: Plane<u8>,
    seeds: Seq<(int, int)>,
) -> bool {
    &&& one_seed_each(boxes, mask, seeds)
    &&& forall|x: int, y: int| #[trigger]
        seeded(mask, seeds, (x, y)) <==> imaging::exposed(mask, (x, y))
}

/// Whether each box is the bounding box of the region of its seed, and no two
/// seeds belong to the same region.
pub open spec fn one_seed_each(
    boxes: Seq<Rect>,
    mask: Plane<u8>,
    seeds: Seq<(int, int)>,
) -> bool {
    &&& seeds.len() == boxes.len()
    &&& forall|i: int|
        0 <= i < boxes.len() ==> bounds_region(#[trigger] boxes[i], mask, seeds[i])
    &&& forall|i: int, j: int|
        0 <= i < j < seeds.len() ==> !imaging::connected(
            mask,
            #[trigger] seeds[i],
            #[trigger] seeds[j],
        )
}

/// What is connected to a pixel is marked.
proof fn lemma_connected_marked(mask: Plane<u8>, a: (int, int), b: (int, int))
    requires
        imaging::connected(mask, a, b),
    ensures
        imaging::foreground(mask, b.0, b.1),
{
    let path = choose|path: Seq<(int, int)>| #[trigger]
        imaging::is_path(mask, path) && path.first() == a && path.last() == b;
    assert(path[path.len() - 1] == b);
}

/// A bounding box of a region touches marked pixels.
proof fn lemma_region_touches(b: Rect, mask: Plane<u8>, seed: (int, int))
    requires
        bounds_region(b, mask, seed),
    ensures
        touches_marked(b, mask),
{
    assert forall|x: int, y: int| #[trigger] imaging::connected(mask, seed, (x, y)) implies imaging::foreground(
        mask,
        x,
        y,
    ) by {
        lemma_connected_marked(mask, seed, (x, y));
    }
}

/// The box of the outer border of a region is the bounding box of the region.
proof fn lemma_box_bounds(points: Seq<(i32, i32)>, mask: Plane<u8>)
    requires
        points.len() > 0,
        mask.width < i32::MAX,
        mask.height < i32::MAX,
        imaging::outlines(points, mask),
    ensures
        bounds_region(
            bounding_box(points, mask.width as int, mask.height as int),
            mask,
            imaging::start(points),
        ),
{
    let seed = imaging::start(points);
    let xs = columns(points);
    let ys = rows(points);
    xs.min_ensures();
    xs.max_ensures();
    ys.min_ensures();
    ys.max_ensures();
    let l = choose|j: int| 0 <= j < xs.len() && xs[j] == xs.min();
    let r = choose|j: int| 0 <= j < xs.len() && xs[j] == xs.max();
    let t = choose|j: int| 0 <= j < ys.len() && ys[j] == ys.min();
    let d = choose|j: int| 0 <= j < ys.len() && ys[j] == ys.max();
    lemma_connected_marked(mask, seed, (points[l].0 as int, points[l].1 as int));
    lemma_connected_marked(mask, seed, (points[r].0 as int, points[r].1 as int));
    lemma_connected_marked(mask, seed, (points[t].0 as int, points[t].1 as int));
    lemma_connected_marked(mask, seed, (points[d].0 as int, points[d].1 as int));
    let b = bounding_box(points, mask.width as int, mask.height as int);
    assert(b == (xs.min(), ys.min(), xs.max() + 1, ys.max() + 1));
    assert forall|x: int, y: int| #[trigger] imaging::connected(mask, seed, (x, y)) implies in_window(
        b,
        x,
        y,
    ) by {
        assert(imaging::reach_around(points, x, y));
        let i = choose|j: int| 0 <= j < points.len() && (#[trigger] points[j]).0 <= x;
        let j = choose|j: int| 0 <= j < points.len() && x <= (#[trigger] points[j]).0;
        let k = choose|j: int| 0 <= j < points.len() && (#[trigger] points[j]).1 <= y;
        let n = choose|j: int| 0 <= j < points.len() && y <= (#[trigger] points[j]).1;
        assert(xs[i] == points[i].0 && xs[j] == points[j].0);
        assert(ys[k] == points[k].1 && ys[n] == points[n].1);
    }
}

/// Whether an outermost contour starts at `p`.
spec fn starts_outermost(
    contours: Seq<(bool, Option<usize>, Seq<(i32, i32)>)>,
    p: (int, int),
) -> bool {
    exists|i: int|
        0 <= i < contours.len() && imaging::outermost(#[trigger] contours[i]) && imaging::start(
            contours[i].2,
        ) == p
}

/// The starts of the outermost contours are the seeds of the boxes.
proof fn lemma_one_seed_each(
    contours: Seq<(bool, Option<usize>, Seq<(i32, i32)>)>,
    mask: Plane<u8>,
) -> (seeds: Seq<(int, int)>)
    requires
        mask.width < i32::MAX,
        mask.height < i32::MAX,
        forall|i: int| 0 <= i < contours.len() ==> (#[trigger] contours[i]).2.len() > 0,
        imaging::regions_outlined(contours, mask),
    ensures
        one_seed_each(boxes_of(contours, mask.width as int, mask.height as int), mask, seeds),
        forall|k: int| 0 <= k < seeds.len() ==> starts_outermost(contours, #[trigger] seeds[k]),
        forall|i: int|
            0 <= i < contours.len() && imaging::outermost(#[trigger] contours[i])
                ==> seeds.contains(imaging::start(contours[i].2)),
    decreases contours.len(),
{
    let (w, h) = (mask.width as int, mask.height as int);
    if contours.len() == 0 {
        Seq::empty()
    } else {
        let earlier = contours.drop_last();
        let last = contours.len() - 1;
        let points = contours[last].2;
        let p = imaging::start(points);
        assert forall|i: int, j: int|
            0 <= i < j < earlier.len() && earlier[i].0 && earlier[j].0 implies !imaging::connected(
            mask,
            imaging::start((#[trigger] earlier[i]).2),
            imaging::start((#[trigger] earlier[j]).2),
        ) by {
            assert(earlier[i] == contours[i] && earlier[j] == contours[j]);
        }
        let before = lemma_one_seed_each(earlier, mask);
        assert forall|k: int| 0 <= k < before.len() implies starts_outermost(
            contours,
            #[trigger] before[k],
        ) by {
            let i = choose|i: int|
                0 <= i < earlier.len() && imaging::outermost(#[trigger] earlier[i])
                    && imaging::start(earlier[i].2) == before[k];
            assert(imaging::outermost(contours[i]) && imaging::start(contours[i].2) == before[k]);
        }
        if imaging::outermost(contours[last]) {
            lemma_box_bounds(points, mask);
            let b = bounding_box(points, w, h);
            let y = choose|y: int| imaging::connected(mask, p, (b.0, y));
            assert(in_window(b, b.0, y));
            assert(boxed(contours[last], w, h));
            let seeds = before.push(p);
            assert forall|k: int| 0 <= k < before.len() implies !imaging::connected(
                mask,
                #[trigger] before[k],
                p,
            ) by {
                let i = choose|i: int|
                    0 <= i < earlier.len() && imaging::outermost(#[trigger] earlier[i])
                        && imaging::start(earlier[i].2) == before[k];
                assert(contours[i].0 && i < last);
            }
            assert forall|k: int| 0 <= k < seeds.len() implies starts_outermost(
                contours,
                #[trigger] seeds[k],
            ) by {
                if k < before.len() {
                    assert(seeds[k] == before[k]);
                }
            }
            let boxes = boxes_of(contours, w, h);
            assert forall|i: int, j: int| 0 <= i < j < seeds.len() implies !imaging::connected(
                mask,
                #[trigger] seeds[i],
                #[trigger] seeds[j],
            ) by {
                if j < before.len() {
                    assert(!imaging::connected(mask, before[i], before[j]));
                } else {
                    assert(!imaging::connected(mask, before[i], p));
                }
            }
            assert forall|i: int| 0 <= i < boxes.len() implies bounds_region(
                #[trigger] boxes[i],
                mask,
                seeds[i],
            ) by {
                if i < before.len() {
                    assert(boxes[i] == boxes_of(earlier, w, h)[i]);
                }
            }
            assert forall|i: int|
                0 <= i < contours.len() && imaging::outermost(
                    #[trigger] contours[i],
                ) implies seeds.contains(imaging::start(contours[i].2)) by {
                if i < last {
                    assert(earlier[i] == contours[i]);
                    let k = choose|k: int|
                        0 <= k < before.len() && before[k] == imaging::start(earlier[i].2);
                    assert(seeds[k] == imaging::start(contours[i].2));
                } else {
                    assert(seeds[before.len() as int] == p);
                }
            }
            seeds
        } else {
            assert forall|i: int|
                0 <= i < contours.len() && imaging::outermost(
                    #[trigger] contours[i],
                ) implies before.contains(imaging::start(contours[i].2)) by {
                assert(earlier[i] == contours[i]);
            }
            before
        }
    }
}

/// Being connected has no direction.
proof fn lemma_connected_back(mask: Plane<u8>, a: (int, int), b: (int, int))
    requires
        imaging::connected(mask, a, b),
    ensures
        imaging::connected(mask, b, a),
{
    let path = choose|path: Seq<(int, int)>| #[trigger]
        imaging::is_path(mask, path) && path.first() == a && path.last() == b;
    let n = path.len();
    let back = Seq::new(n, |i: int| path[n - 1 - i]);
    assert forall|i: int| 0 <= i < back.len() implies imaging::foreground(
        mask,
        (#[trigger] back[i]).0,
        back[i].1,
    ) by {
        assert(back[i] == path[n - 1 - i]);
    }
    assert forall|i: int, j: int| 0 <= i && j == i + 1 && j < back.len() implies imaging::touching(
        #[trigger] back[i],
        #[trigger] back[j],
    ) by {
        assert(imaging::touching(path[n - 1 - j], path[n - 1 - i]));
    }
    assert(imaging::is_path(mask, back));
}

/// Two pixels that are connected to a third are connected.
proof fn lemma_connected_through(mask: Plane<u8>, a: (int, int), b: (int, int), c: (int, int))
    requires
        imaging::connected(mask, a, b),
        imaging::connected(mask, b, c),
    ensures
        imaging::connected(mask, a, c),
{
    let there = choose|path: Seq<(int, int)>| #[trigger]
        imaging::is_path(mask, path) && path.first() == a && path.last() == b;
    let on = choose|path: Seq<(int, int)>| #[trigger]
        imaging::is_path(mask, path) && path.first() == b && path.last() == c;
    let path = there + on;
    let n = there.len();
    assert forall|i: int| 0 <= i < path.len() implies imaging::foreground(
        mask,
        (#[trigger] path[i]).0,
        path[i].1,
    ) by {
        if i < n {
            assert(path[i] == there[i]);
        } else {
            assert(path[i] == on[i - n]);
        }
    }
    assert forall|i: int, j: int| 0 <= i && j == i + 1 && j < path.len() implies imaging::touching(
        #[trigger] path[i],
        #[trigger] path[j],
    ) by {
        if j < n {
            assert(imaging::touching(there[i], there[j]));
        } else if i >= n {
            assert(imaging::touching(on[i - n], on[j - n]));
        } else {
            assert(path[i] == there.last() && path[j] == on.first());
        }
    }
    assert(imaging::is_path(mask, path));
    assert(path.last() == on.last());
}

/// All pixels of a region lie inside a hole, or none does.
proof fn lemma_exposed_together(mask: Plane<u8>, a: (int, int), b: (int, int))
    requires
        imaging::connected(mask, a, b),
        imaging::exposed(mask, b),
    ensures
        imaging::exposed(mask, a),
{
    let (c, d) = choose|c: (int, int), d: (int, int)| #[trigger]
        imaging::connected(mask, b, c) && imaging::beside(c, d) && #[trigger] imaging::leads_out(
            mask,
            d,
        );
    lemma_connected_through(mask, a, b, c);
}

/// The regions of the seeds are those inside no hole.
proof fn lemma_seeds_exposed(
    contours: Seq<(bool, Option<usize>, Seq<(i32, i32)>)>,
    mask: Plane<u8>,
    seeds: Seq<(int, int)>,
)
    requires
        imaging::regions_outlined(contours, mask),
        forall|x: int, y: int|
            imaging::foreground(mask, x, y) ==> #[trigger] imaging::bordered(contours, mask, x, y),
        forall|k: int| 0 <= k < seeds.len() ==> starts_outermost(contours, #[trigger] seeds[k]),
        forall|i: int|
            0 <= i < contours.len() && imaging::outermost(#[trigger] contours[i])
                ==> seeds.contains(imaging::start(contours[i].2)),
    ensures
        forall|x: int, y: int| #[trigger]
            seeded(mask, seeds, (x, y)) <==> imaging::exposed(mask, (x, y)),
{
    assert forall|x: int, y: int| #[trigger] seeded(mask, seeds, (x, y)) <==> imaging::exposed(
        mask,
        (x, y),
    ) by {
        let p = (x, y);
        if seeded(mask, seeds, p) {
            let k = choose|k: int|
                0 <= k < seeds.len() && imaging::connected(mask, #[trigger] seeds[k], p);
            let i = choose|i: int|
                0 <= i < contours.len() && imaging::outermost(#[trigger] contours[i])
                    && imaging::start(contours[i].2) == seeds[k];
            assert(imaging::exposed(mask, seeds[k]));
            lemma_connected_back(mask, seeds[k], p);
            lemma_exposed_together(mask, p, seeds[k]);
        }
        if imaging::exposed(mask, p) {
            let (c, d) = choose|c: (int, int), d: (int, int)| #[trigger]
                imaging::connected(mask, p, c) && imaging::beside(c, d)
                    && #[trigger] imaging::leads_out(mask, d);
            lemma_connected_back(mask, p, c);
            lemma_connected_marked(mask, c, p);
            assert(imaging::bordered(contours, mask, x, y));
            let i = choose|i: int|
                0 <= i < contours.len() && contours[i].0 && imaging::connected(
                    mask,
                    imaging::start((#[trigger] contours[i]).2),
                    p,
                );
            let s = imaging::start(contours[i].2);
            lemma_exposed_together(mask, s, p);
            assert(imaging::outermost(contours[i]));
            let k = choose|k: int| 0 <= k < seeds.len() && seeds[k] == s;
            assert(imaging::connected(mask, seeds[k], p));
        }
    }
}

/// What is connected stays connected where all marked pixels are moved by the
/// same step.
proof fn lemma_connected_moved(
    from: Plane<u8>,
    to: Plane<u8>,
    step: int,
    a: (int, int),
    b: (int, int),
)
    requires
        forall|x: int, y: int| #[trigger]
            imaging::foreground(from, x, y) ==> imaging::foreground(to, x + step, y + step),
        imaging::connected(from, a, b),
    ensures
        imaging::connected(to, (a.0 + step, a.1 + step), (b.0 + step, b.1 + step)),
{
    let path = choose|path: Seq<(int, int)>| #[trigger]
        imaging::is_path(from, path) && path.first() == a && path.last() == b;
    let other = path.map_values(|p: (int, int)| (p.0 + step, p.1 + step));
    assert forall|i: int| 0 <= i < other.len() implies imaging::foreground(
        to,
        (#[trigger] other[i]).0,
        other[i].1,
    ) by {
        assert(imaging::foreground(from, path[i].0, path[i].1));
    }
    assert forall|i: int, j: int| 0 <= i && j == i + 1 && j < other.len() implies imaging::touching(
        #[trigger] other[i],
        #[trigger] other[j],
    ) by {
        assert(imaging::touching(path[i], path[j]));
    }
    assert(imaging::is_path(to, other));
}

/// A gap leads out of the mask where one leads out of the framed mask.
proof fn lemma_leads_out_moved(mask: Plane<u8>, wide: Plane<u8>, a: (int, int))
    requires
        wide == framed(mask),
    ensures
        imaging::leads_out(wide, (a.0 + 1, a.1 + 1)) <==> imaging::leads_out(mask, a),
{
    broadcast use raster::lemma_tabulate;

    let near = (a.0 + 1, a.1 + 1);
    if imaging::leads_out(wide, near) {
        let path = choose|path: Seq<(int, int)>| #[trigger]
            imaging::is_gap(wide, path) && path.first() == near && !wide.inside(
                path.last().0,
                path.last().1,
            );
        let other = path.map_values(|p: (int, int)| (p.0 - 1, p.1 - 1));
        assert forall|i: int| 0 <= i < other.len() implies !imaging::foreground(
            mask,
            (#[trigger] other[i]).0,
            other[i].1,
        ) by {
            assert(!imaging::foreground(wide, path[i].0, path[i].1));
        }
        assert forall|i: int, j: int| 0 <= i && j == i + 1 && j < other.len() implies imaging::beside(
            #[trigger] other[i],
            #[trigger] other[j],
        ) by {
            assert(imaging::beside(path[i], path[j]));
        }
        assert(imaging::is_gap(mask, other));
        assert(other.last() == (path.last().0 - 1, path.last().1 - 1));
        assert(other.first() == a);
    }
    if imaging::leads_out(mask, a) {
        let path = choose|path: Seq<(int, int)>| #[trigger]
            imaging::is_gap(mask, path) && path.first() == a && !mask.inside(
                path.last().0,
                path.last().1,
            );
        let n = path.len();
        let end = path.last();
        let beyond = (
            if end.0 < 0 {
                end.0
            } else if end.0 >= mask.width {
                end.0 + 2
            } else {
                end.0 + 1
            },
            if 0 <= end.0 < mask.width && end.1 < 0 {
                end.1
            } else if 0 <= end.0 < mask.width && end.1 >= mask.height {
                end.1 + 2
            } else {
                end.1 + 1
            },
        );
        let other = path.map_values(|p: (int, int)| (p.0 + 1, p.1 + 1)).push(beyond);
        assert forall|i: int| 0 <= i < other.len() implies !imaging::foreground(
            wide,
            (#[trigger] other[i]).0,
            other[i].1,
        ) by {
            if i < n {
                assert(!imaging::foreground(mask, path[i].0, path[i].1));
            }
        }
        assert forall|i: int, j: int| 0 <= i && j == i + 1 && j < other.len() implies imaging::beside(
            #[trigger] other[i],
            #[trigger] other[j],
        ) by {
            if j < n {
                assert(imaging::beside(path[i], path[j]));
            } else {
                assert(path[i] == end);
            }
        }
        assert(imaging::is_gap(wide, other));
        assert(other.last() == beyond);
        assert(other.first() == near);
    }
}

/// A region of the mask lies inside a hole where it does in the framed mask.
proof fn lemma_exposed_moved(mask: Plane<u8>, wide: Plane<u8>, a: (int, int))
    requires
        wide == framed(mask),
    ensures
        imaging::exposed(wide, (a.0 + 1, a.1 + 1)) <==> imaging::exposed(mask, a),
{
    lemma_frame_shift(mask);
    let near = (a.0 + 1, a.1 + 1);
    if imaging::exposed(wide, near) {
        let (b, c) = choose|b: (int, int), c: (int, int)| #[trigger]
            imaging::connected(wide, near, b) && imaging::beside(b, c)
                && #[trigger] imaging::leads_out(wide, c);
        let (d, e) = ((b.0 - 1, b.1 - 1), (c.0 - 1, c.1 - 1));
        lemma_connected_moved(wide, mask, -1, near, b);
        lemma_leads_out_moved(mask, wide, e);
        assert(imaging::connected(mask, a, d) && imaging::beside(d, e));
    }
    if imaging::exposed(mask, a) {
        let (b, c) = choose|b: (int, int), c: (int, int)| #[trigger]
            imaging::connected(mask, a, b) && imaging::beside(b, c)
                && #[trigger] imaging::leads_out(mask, c);
        let (d, e) = ((b.0 + 1, b.1 + 1), (c.0 + 1, c.1 + 1));
        lemma_connected_moved(mask, wide, 1, a, b);
        lemma_leads_out_moved(mask, wide, c);
        assert(imaging::connected(wide, near, d) && imaging::beside(d, e));
    }
}

/// The marked pixels of a framed mask are those of the mask, moved.
proof fn lemma_frame_shift(mask: Plane<u8>)
    ensures
        forall|x: int, y: int| #[trigger]
            imaging::foreground(framed(mask), x, y) ==> imaging::foreground(mask, x + -1, y + -1),
        forall|x: int, y: int| #[trigger]
            imaging::foreground(mask, x, y) ==> imaging::foreground(framed(mask), x + 1, y + 1),
{
    broadcast use raster::lemma_tabulate;

}

/// The outer contours of the framed mask outline its regions; moved, they
/// outline those of the mask.
proof fn lemma_framed_regions(
    mask: Plane<u8>,
    wide: Plane<u8>,
    found: Seq<(bool, Option<usize>, Seq<(i32, i32)>)>,
)
    requires
        wide == framed(mask),
        forall|i: int| 0 <= i < found.len() ==> (#[trigger] found[i]).2.len() > 0,
        forall|i: int, j: int|
            0 <= i < found.len() && 0 <= j < found[i].2.len() ==> 0 <= (#[trigger] found[i].2[j]).0
                && 0 <= found[i].2[j].1,
        imaging::regions_outlined(found, wide),
    ensures
        imaging::regions_outlined(unframed(found), mask),
{
    lemma_frame_shift(mask);
    let list = unframed(found);
    assert forall|i: int| 0 <= i < list.len() implies imaging::start((#[trigger] list[i]).2) == (
        imaging::start(found[i].2).0 - 1,
        imaging::start(found[i].2).1 - 1,
    ) by {
        assert(found[i].2.len() > 0);
        assert(0 <= found[i].2[0].0);
        assert(list[i].2 == moved(found[i].2));
    }
    assert forall|i: int| 0 <= i < list.len() && list[i].0 implies imaging::outlines(
        (#[trigger] list[i]).2,
        mask,
    ) by {
        let points = found[i].2;
        let other = list[i].2;
        let seed = imaging::start(points);
        assert(other == moved(points));
        assert(imaging::outlines(points, wide));
        assert forall|j: int| 0 <= j < other.len() implies imaging::connected(
            mask,
            imaging::start(other),
            ((#[trigger] other[j]).0 as int, other[j].1 as int),
        ) by {
            let p = (points[j].0 as int, points[j].1 as int);
            assert(found[i].2[j] == points[j]);
            lemma_connected_moved(wide, mask, -1, seed, p);
        }
        assert forall|x: int, y: int|
            imaging::connected(mask, imaging::start(other), (x, y)) implies
            #[trigger] imaging::reach_around(other, x, y) by {
            lemma_connected_moved(mask, wide, 1, imaging::start(other), (x, y));
            assert(imaging::reach_around(points, x + 1, y + 1));
            lemma_reach_moved(points, x, y);
        }
    }
    assert forall|i: int, j: int| 0 <= i < j < list.len() && list[i].0 && list[j].0 implies !imaging::connected(
        mask,
        imaging::start((#[trigger] list[i]).2),
        imaging::start((#[trigger] list[j]).2),
    ) by {
        let a = imaging::start(found[i].2);
        let b = imaging::start(found[j].2);
        if imaging::connected(mask, imaging::start(list[i].2), imaging::start(list[j].2)) {
            lemma_connected_moved(
                mask,
                wide,
                1,
                imaging::start(list[i].2),
                imaging::start(list[j].2),
            );
        }
    }
    assert forall|i: int| 0 <= i < list.len() && list[i].0 implies (list[i].1 is None
        <==> imaging::exposed(mask, imaging::start((#[trigger] list[i]).2))) by {
        assert(found[i].0);
        lemma_exposed_moved(mask, wide, imaging::start(list[i].2));
    }
}

/// Points and a pixel in their bounding box, moved out of the frame together.
proof fn lemma_reach_moved(points: Seq<(i32, i32)>, x: int, y: int)
    requires
        imaging::reach_around(points, x + 1, y + 1),
        forall|j: int| 0 <= j < points.len() ==> 0 <= (#[trigger] points[j]).0 && 0 <= points[j].1,
    ensures
        imaging::reach_around(moved(points), x, y),
{
    let l = choose|j: int| 0 <= j < points.len() && (#[trigger] points[j]).0 <= x + 1;
    let r = choose|j: int| 0 <= j < points.len() && x + 1 <= (#[trigger] points[j]).0;
    let t = choose|j: int| 0 <= j < points.len() && (#[trigger] points[j]).1 <= y + 1;
    let b = choose|j: int| 0 <= j < points.len() && y + 1 <= (#[trigger] points[j]).1;
    let other = moved(points);
    assert(other[l].0 <= x && x <= other[r].0);
    assert(other[t].1 <= y && y <= other[b].1);
}

/// Whether all points of the contours are marked pixels.
spec fn along_marked(
    contours: Seq<(bool, Option<usize>, Seq<(i32, i32)>)>,
    mask: Plane<u8>,
) -> bool {
    forall|i: int, j: int|
        0 <= i < contours.len() && 0 <= j < contours[i].2.len() ==> imaging::foreground(
            mask,
            (#[trigger] contours[i].2[j]).0 as int,
            contours[i].2[j].1 as int,
        )
}

/// Whether `(x, y)` lies in the rectangle.
pub open spec fn in_window(b: Rect, x: int, y: int) -> bool {
    b.0 <= x < b.2 && b.1 <= y < b.3
}

/// Whether `(x, y)` lies in one of the boxes.
pub open spec fn in_some_box(boxes: Seq<Rect>, x: int, y: int) -> bool {
    exists|i: int| 0 <= i < boxes.len() && in_window(#[trigger] boxes[i], x, y)
}

/// What lies in the bounding box of an outermost contour lies in one of the
/// boxes.
proof fn lemma_boxes_cover(
    contours: Seq<(bool, Option<usize>, Seq<(i32, i32)>)>,
    width: int,
    height: int,
    i: int,
    x: int,
    y: int,
)
    requires
        0 <= x < width < i32::MAX,
        0 <= y < height < i32::MAX,
        0 <= i < contours.len(),
        imaging::outermost(contours[i]),
        imaging::reach_around(contours[i].2, x, y),
    ensures
        in_some_box(boxes_of(contours, width, height), x, y),
    decreases contours.len(),
{
    let earlier = contours.drop_last();
    let before = boxes_of(earlier, width, height);
    let after = boxes_of(contours, width, height);
    if i < earlier.len() {
        lemma_boxes_cover(earlier, width, height, i, x, y);
        let k = choose|k: int| 0 <= k < before.len() && in_window(#[trigger] before[k], x, y);
        assert(after[k] == before[k]);
    } else {
        let points = contours[i].2;
        let xs = columns(points);
        let ys = rows(points);
        xs.min_ensures();
        xs.max_ensures();
        ys.min_ensures();
        ys.max_ensures();
        let l = choose|j: int| 0 <= j < points.len() && (#[trigger] points[j]).0 <= x;
        let r = choose|j: int| 0 <= j < points.len() && x <= (#[trigger] points[j]).0;
        let t = choose|j: int| 0 <= j < points.len() && (#[trigger] points[j]).1 <= y;
        let b = choose|j: int| 0 <= j < points.len() && y <= (#[trigger] points[j]).1;
        assert(xs[l] == points[l].0 && xs[r] == points[r].0);
        assert(ys[t] == points[t].1 && ys[b] == points[b].1);
        assert(in_window(after[before.len() as int], x, y));
    }
}

/// The bounding boxes of the outermost regions of a mask, as `cv2.findContours`
/// with `RETR_EXTERNAL` gives them: one for each region. Holes get no box, and
/// neither do regions inside holes; every marked pixel lies in some box.
pub fn boxes_from_mask(mask: &GrayImage) -> (boxes: Vec<Xyxy>)
    requires
        searchable(mask@.width, mask@.height),
    ensures
        rects(boxes@) == mask_boxes(mask@),
        (forall|x: int, y: int| !imaging::foreground(mask@, x, y)) ==> boxes@.len() == 0,
        exists|seeds: Seq<(int, int)>| #[trigger]
            one_box_each(rects(boxes@), mask@, seeds),
        forall|i: int|
            0 <= i < boxes@.len() ==> touches_marked(corners(#[trigger] boxes@[i]), mask@),
        forall|x: int, y: int|
            imaging::foreground(mask@, x, y) ==> #[trigger] in_some_box(rects(boxes@), x, y),
{
    let wide = frame(mask);
    let found = imaging::find_contours(&wide);
    let (width, height) = mask.dimensions();
    let ghost raw = imaging::contour_list(found@);
    let ghost list = unframed(raw);
    proof {
        broadcast use raster::lemma_tabulate;

        assert forall|i: int, j: int| 0 <= i < found@.len() && 0 <= j < found@[i].points@.len() implies 0
            <= (#[trigger] found@[i].points@[j]).0 && 0 <= found@[i].points@[j].1 by {
            let p = found@[i].points@[j];
            assert(imaging::foreground(wide@, p.0 as int, p.1 as int));
        }
        assert forall|i: int, j: int| 0 <= i < raw.len() && 0 <= j < raw[i].2.len() implies 0 <= (
        #[trigger] raw[i].2[j]).0 && 0 <= raw[i].2[j].1 by {
            assert(raw[i].2[j] == found@[i].points@[j]);
        }
        assert(along_marked(list, mask@)) by {
            assert forall|i: int, j: int| 0 <= i < list.len() && 0 <= j < list[i].2.len() implies imaging::foreground(
                mask@,
                (#[trigger] list[i].2[j]).0 as int,
                list[i].2[j].1 as int,
            ) by {
                let p = found@[i].points@[j];
                assert(imaging::foreground(wide@, p.0 as int, p.1 as int));
                assert(list[i].2[j] == ((p.0 - 1) as i32, (p.1 - 1) as i32));
            }
        }
    }
    let contours = unframe(&found);
    proof {
        if forall|x: int, y: int| !imaging::foreground(mask@, x, y) {
            if found@.len() > 0 {
                assert(found@[0].points@.len() > 0);
                assert(list[0].2.len() > 0);
                let p = list[0].2[0];
                assert(imaging::foreground(mask@, p.0 as int, p.1 as int));
            }
            assert(list =~= Seq::empty());
        }
    }
    let boxes = boxes_from_contours(&contours, width, height);
    assert(boxes@.len() == rects(boxes@).len());
    proof {
        lemma_frame_is_black(mask@);
        assert forall|i: int| 0 <= i < raw.len() implies (#[trigger] raw[i]).2.len() > 0 by {
            assert(found@[i].points@.len() > 0);
        }
        lemma_framed_regions(mask@, wide@, raw);
        lemma_framed_bordered(mask@, wide@, raw);
        assert forall|i: int| 0 <= i < list.len() implies (#[trigger] list[i]).2.len() > 0 by {
            assert(raw[i].2.len() > 0);
        }
        let seeds = lemma_one_seed_each(list, mask@);
        lemma_seeds_exposed(list, mask@, seeds);
        assert(one_box_each(rects(boxes@), mask@, seeds));
        assert forall|i: int| 0 <= i < boxes@.len() implies touches_marked(
            corners(#[trigger] boxes@[i]),
            mask@,
        ) by {
            assert(rects(boxes@)[i] == corners(boxes@[i]));
            lemma_region_touches(corners(boxes@[i]), mask@, seeds[i]);
        }
        assert forall|x: int, y: int| imaging::foreground(
            mask@,
            x,
            y,
        ) implies #[trigger] in_some_box(rects(boxes@), x, y) by {
            lemma_framed_cover(mask@, wide@, raw, x, y);
            let i = choose|i: int|
                0 <= i < list.len() && imaging::outermost(#[trigger] list[i])
                    && imaging::reach_around(list[i].2, x, y);
            lemma_boxes_cover(list, width as int, height as int, i, x, y);
        }
    }
    boxes
}

/// Every marked pixel belongs to the region of an outer contour, given that its
/// place in the framed mask does.
proof fn lemma_framed_bordered(
    mask: Plane<u8>,
    wide: Plane<u8>,
    found: Seq<(bool, Option<usize>, Seq<(i32, i32)>)>,
)
    requires
        wide == framed(mask),
        forall|i: int| 0 <= i < found.len() ==> (#[trigger] found[i]).2.len() > 0,
        forall|i: int, j: int|
            0 <= i < found.len() && 0 <= j < found[i].2.len() ==> 0 <= (#[trigger] found[i].2[j]).0
                && 0 <= found[i].2[j].1,
        forall|x: int, y: int|
            imaging::foreground(wide, x, y) ==> #[trigger] imaging::bordered(found, wide, x, y),
    ensures
        forall|x: int, y: int|
            imaging::foreground(mask, x, y) ==> #[trigger] imaging::bordered(
                unframed(found),
                mask,
                x,
                y,
            ),
{
    lemma_frame_shift(mask);
    let list = unframed(found);
    assert forall|x: int, y: int| imaging::foreground(
        mask,
        x,
        y,
    ) implies #[trigger] imaging::bordered(list, mask, x, y) by {
        assert(imaging::foreground(wide, x + 1, y + 1));
        assert(imaging::bordered(found, wide, x + 1, y + 1));
        let i = choose|i: int|
            0 <= i < found.len() && found[i].0 && imaging::connected(
                wide,
                imaging::start((#[trigger] found[i]).2),
                (x + 1, y + 1),
            );
        assert(found[i].2.len() > 0);
        assert(0 <= found[i].2[0].0);
        assert(list[i].2 == moved(found[i].2));
        lemma_connected_moved(wide, mask, -1, imaging::start(found[i].2), (x + 1, y + 1));
        assert(list[i].0);
    }
}

/// The first column of a framed mask is black.
proof fn lemma_frame_is_black(mask: Plane<u8>)
    ensures
        forall|y: int| !imaging::foreground(framed(mask), 0, y),
{
    broadcast use raster::lemma_tabulate;

    assert forall|y: int| !imaging::foreground(framed(mask), 0, y) by {
        if framed(mask).inside(0, y) {
            assert(framed(mask).at(0, y) == 0);
        }
    }
}

/// A marked pixel lies in the bounding box of an outermost contour of the mask,
/// given that its place in the framed mask does.
proof fn lemma_framed_cover(
    mask: Plane<u8>,
    wide: Plane<u8>,
    found: Seq<(bool, Option<usize>, Seq<(i32, i32)>)>,
    x: int,
    y: int,
)
    requires
        wide == framed(mask),
        imaging::foreground(mask, x, y),
        forall|i: int, j: int|
            0 <= i < found.len() && 0 <= j < found[i].2.len() ==> 0 <= (#[trigger] found[i].2[j]).0
                && 0 <= found[i].2[j].1,
        forall|x: int, y: int|
            imaging::foreground(wide, x, y) ==> #[trigger] imaging::enclosed(found, x, y),
    ensures
        imaging::enclosed(unframed(found), x, y),
{
    broadcast use raster::lemma_tabulate;

    let list = unframed(found);
    assert(imaging::foreground(wide, x + 1, y + 1));
    assert(imaging::enclosed(found, x + 1, y + 1));
    let i = choose|i: int|
        0 <= i < found.len() && imaging::outermost(#[trigger] found[i]) && imaging::reach_around(
            found[i].2,
            x + 1,
            y + 1,
        );
    let points = found[i].2;
    assert forall|j: int| 0 <= j < points.len() implies 0 <= (#[trigger] points[j]).0 && 0
        <= points[j].1 by {
        assert(found[i].2[j] == points[j]);
    }
    lemma_reach_moved(points, x, y);
    assert(list[i].2 == moved(points));
    assert(imaging::outermost(list[i]));
}

/// Every box is a non-empty rectangle inside the image.
pub proof fn law_boxes_inside(
    contours: Seq<(bool, Option<usize>, Seq<(i32, i32)>)>,
    width: int,
    height: int,
    i: int,
)
    requires
        0 <= i < boxes_of(contours, width, height).len(),
        0 <= width,
        0 <= height,
    ensures
        ({
            let b = boxes_of(contours, width, height)[i];
            &&& 0 <= b.0 < b.2 <= width
            &&& 0 <= b.1 < b.3 <= height
        }),
    decreases contours.len(),
{
    let earlier = boxes_of(contours.drop_last(), width, height);
    if i < earlier.len() {
        law_boxes_inside(contours.drop_last(), width, height, i);
    }
}

/// Borders of holes, and of regions inside holes, give no box: dropping them
/// from a list of contours does not change the boxes.
pub proof fn law_inner_borders_ignored(
    contours: Seq<(bool, Option<usize>, Seq<(i32, i32)>)>,
    width: int,
    height: int,
)
    ensures
        boxes_of(
            contours.filter(
                |c: (bool, Option<usize>, Seq<(i32, i32)>)| imaging::outermost(c),
            ),
            width,
            height,
        ) == boxes_of(contours, width, height),
    decreases contours.len(),
{
    reveal(Seq::filter);
    let outer = |c: (bool, Option<usize>, Seq<(i32, i32)>)| imaging::outermost(c);
    if contours.len() > 0 {
        law_inner_borders_ignored(contours.drop_last(), width, height);
        let kept = contours.drop_last().filter(outer);
        if imaging::outermost(contours.last()) {
            assert(contours.filter(outer) == kept.push(contours.last()));
            assert(kept.push(contours.last()).drop_last() =~= kept);
        }
    }
}

/// The box of a contour inside an image holds all of its points, and each of
/// its sides has one.
pub proof fn law_bounding_box_is_tight(points: Seq<(i32, i32)>, width: int, height: int)
    requires
        points.len() > 0,
        width <= i32::MAX,
        height <= i32::MAX,
        forall|i: int|
            0 <= i < points.len() ==> 0 <= (#[trigger] points[i]).0 < width && 0 <= points[i].1
                < height,
    ensures
        ({
            let b = bounding_box(points, width, height);
            &&& forall|i: int|
                0 <= i < points.len() ==> in_window(
                    b,
                    (#[trigger] points[i]).0 as int,
                    points[i].1 as int,
                )
            &&& exists|i: int| 0 <= i < points.len() && (#[trigger] points[i]).0 == b.0
            &&& exists|i: int| 0 <= i < points.len() && (#[trigger] points[i]).1 == b.1
            &&& exists|i: int| 0 <= i < points.len() && (#[trigger] points[i]).0 + 1 == b.2
            &&& exists|i: int| 0 <= i < points.len() && (#[trigger] points[i]).1 + 1 == b.3
        }),
{
    let (xs, ys) = (columns(points), rows(points));
    xs.min_ensures();
    xs.max_ensures();
    ys.min_ensures();
    ys.max_ensures();
    let l = choose|j: int| 0 <= j < xs.len() && xs[j] == xs.min();
    let r = choose|j: int| 0 <= j < xs.len() && xs[j] == xs.max();
    let t = choose|j: int| 0 <= j < ys.len() && ys[j] == ys.min();
    let d = choose|j: int| 0 <= j < ys.len() && ys[j] == ys.max();
    assert(points[l].0 == xs.min() && points[r].0 == xs.max());
    assert(points[t].1 == ys.min() && points[d].1 == ys.max());
    let b = bounding_box(points, width, height);
    assert forall|i: int| 0 <= i < points.len() implies in_window(
        b,
        (#[trigger] points[i]).0 as int,
        points[i].1 as int,
    ) by {
        assert(xs[i] == points[i].0 && ys[i] == points[i].1);
    }
}

/// Every outermost contour inside the image has its box, in the order of the
/// contours, and there are no others.
pub proof fn law_every_outermost_contour_has_its_box(
    contours: Seq<(bool, Option<usize>, Seq<(i32, i32)>)>,
    width: int,
    height: int,
)
    requires
        width <= i32::MAX,
        height <= i32::MAX,
        forall|i: int| 0 <= i < contours.len() ==> (#[trigger] contours[i]).2.len() > 0,
        forall|i: int, j: int|
            0 <= i < contours.len() && 0 <= j < contours[i].2.len() ==> 0 <= (
            #[trigger] contours[i].2[j]).0 < width && 0 <= contours[i].2[j].1 < height,
    ensures
        boxes_of(contours, width, height) == contours.filter(
            |c: (bool, Option<usize>, Seq<(i32, i32)>)| c.0 && c.1 is None,
        ).map_values(
            |c: (bool, Option<usize>, Seq<(i32, i32)>)| bounding_box(c.2, width, height),
        ),
    decreases contours.len(),
{
    reveal(Seq::filter);
    let outer = |c: (bool, Option<usize>, Seq<(i32, i32)>)| c.0 && c.1 is None;
    let to_box = |c: (bool, Option<usize>, Seq<(i32, i32)>)| bounding_box(c.2, width, height);
    if contours.len() > 0 {
        let earlier = contours.drop_last();
        let n = contours.len() - 1;
        assert forall|i: int, j: int|
            0 <= i < earlier.len() && 0 <= j < earlier[i].2.len() implies 0 <= (
        #[trigger] earlier[i].2[j]).0 < width && 0 <= earlier[i].2[j].1 < height by {
            assert(earlier[i].2[j] == contours[i].2[j]);
        }
        law_every_outermost_contour_has_its_box(earlier, width, height);
        let last = contours[n];
        assert forall|j: int| 0 <= j < last.2.len() implies 0 <= (#[trigger] last.2[j]).0 < width
            && 0 <= last.2[j].1 < height by {
            assert(contours[n].2[j] == last.2[j]);
        }
        law_bounding_box_is_tight(last.2, width, height);
        assert(in_window(
            bounding_box(last.2, width, height),
            last.2[0].0 as int,
            last.2[0].1 as int,
        ));
        if outer(last) {
            assert(contours.filter(outer) == earlier.filter(outer).push(last));
            assert(contours.filter(outer).map_values(to_box) =~= earlier.filter(outer).map_values(
                to_box,
            ).push(to_box(last)));
        }
    }
    assert(boxes_of(contours, width, height) =~= contours.filter(outer).map_values(to_box));
}

} // verus!
