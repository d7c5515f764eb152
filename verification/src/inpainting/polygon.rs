//! Polygons along contours.
use crate::binary64::{self, Double, Dyadic};
use crate::inpainting::geometry::{self, Rect, Xyxy};
use crate::raster;
use vstd::prelude::*;

verus! {

/// The corners of a polygon along a contour: the points without a repetition
/// of the first one at the end. Fewer than three corners make no polygon.
pub open spec fn open_path(points: Seq<(i32, i32)>) -> Option<Seq<(i32, i32)>> {
    let path = if points.len() >= 3 && points.first() == points.last() {
        points.drop_last()
    } else {
        points
    };
    if path.len() < 3 {
        None
    } else {
        Some(path)
    }
}

/// The polygon along a contour.
pub fn contour_polygon(points: &Vec<(i32, i32)>) -> (polygon: Option<Vec<(i32, i32)>>)
    ensures
        polygon is Some <==> open_path(points@) is Some,
        polygon matches Some(p) ==> open_path(points@) == Some(p@),
{
    let len: usize = points.len();
    if len < 3 {
        return None;
    }
    let first: (i32, i32) = points[0];
    let last: (i32, i32) = points[len - 1];
    let end: usize = if first.0 == last.0 && first.1 == last.1 {
        len - 1
    } else {
        len
    };
    if end < 3 {
        return None;
    }
    let mut polygon: Vec<(i32, i32)> = Vec::new();
    let mut i: usize = 0;
    while i < end
        invariant
            i <= end <= points@.len(),
            polygon@ == points@.take(i as int),
        decreases end - i,
    {
        polygon.push(points[i]);
        i += 1;
    }
    assert(points@.take(end as int) =~= open_path(points@).unwrap());
    Some(polygon)
}

/// The exclusive end that belongs to the largest coordinate, as an unsigned
/// 32-bit number.
pub open spec fn end_after(last: int) -> int {
    let end = raster::min(last + 1, i32::MAX as int);
    if end < 0 {
        end + 0x1_0000_0000
    } else {
        end
    }
}

/// The bounding box of a polygon.
pub open spec fn polygon_box(points: Seq<(i32, i32)>) -> Rect {
    (
        raster::max(geometry::columns(points).min(), 0),
        raster::max(geometry::rows(points).min(), 0),
        end_after(geometry::columns(points).max()),
        end_after(geometry::rows(points).max()),
    )
}

fn start_at(first: i32) -> (start: u32)
    ensures
        start == raster::max(first as int, 0),
{
    if first < 0 {
        0
    } else {
        first as u32
    }
}

fn end_at(last: i32) -> (end: u32)
    ensures
        end == end_after(last as int),
{
    if last == i32::MAX {
        last as u32
    } else if last < -1 {
        u32::MAX - (-(last + 2)) as u32
    } else {
        (last + 1) as u32
    }
}

/// The bounding box of a polygon; none where it has no point.
pub fn polygon_bbox(points: &Vec<(i32, i32)>) -> (bbox: Option<Xyxy>)
    ensures
        bbox is Some <==> points@.len() > 0,
        bbox matches Some(b) ==> geometry::corners(b) == polygon_box(points@),
{
    if points.len() == 0 {
        return None;
    }
    let (min_x, min_y, max_x, max_y) = geometry::extent(points);
    let bbox: Xyxy = [start_at(min_x), start_at(min_y), end_at(max_x), end_at(max_y)];
    Some(bbox)
}

/// Twice the signed area of the triangle between the origin and an edge, in
/// double precision.
pub open spec fn cross(p: (i32, i32), q: (i32, i32)) -> Dyadic {
    Dyadic::integer(p.0 as int).times(Dyadic::integer(q.1 as int)).minus(
        Dyadic::integer(q.0 as int).times(Dyadic::integer(p.1 as int)),
    )
}

/// The sum of [`cross`] over the first `n` edges of a polygon, added one by
/// one in double precision.
pub open spec fn swept(points: Seq<(i32, i32)>, n: nat) -> Dyadic
    decreases n,
{
    if n == 0 {
        Dyadic::integer(0)
    } else {
        swept(points, (n - 1) as nat).plus(
            cross(points[n - 1], points[n as int % points.len() as int]),
        )
    }
}

/// The area of a polygon by the shoelace formula, in double precision.
pub open spec fn area(points: Seq<(i32, i32)>) -> Dyadic {
    let twice = swept(points, points.len());
    Dyadic { m: binary64::magnitude(twice.m) as int, e: twice.e - 1 }
}

fn edge_term(p: (i32, i32), q: (i32, i32)) -> (term: Double)
    ensures
        term@ == cross(p, q),
        term@.wf(),
        0 <= term@.e <= 54,
{
    let left = Double::from_int(p.0 as i64).mul(Double::from_int(q.1 as i64));
    let right = Double::from_int(q.0 as i64).mul(Double::from_int(p.1 as i64));
    let term = left.sub(right);
    proof {
        use_type_invariant(&term);
    }
    term
}

/// The area of a polygon.
pub fn polygon_area(points: &Vec<(i32, i32)>) -> (r: Double)
    ensures
        r@ == area(points@),
        -1 <= r@.e <= 108,
{
    let mut twice = Double::from_int(0);
    let mut i: usize = 0;
    while i < points.len()
        invariant
            i <= points@.len(),
            twice@ == swept(points@, i as nat),
            twice@.wf(),
            0 <= twice@.e <= 109,
        decreases points@.len() - i,
    {
        let next: usize = if i + 1 == points.len() {
            0
        } else {
            i + 1
        };
        proof {
            if i + 1 < points@.len() {
                vstd::arithmetic::div_mod::lemma_small_mod((i + 1) as nat, points@.len());
            } else {
                vstd::arithmetic::div_mod::lemma_mod_self_0(points@.len() as int);
            }
        }
        let term = edge_term(points[i], points[next]);
        let before = twice;
        twice = before.add(term);
        proof {
            use_type_invariant(&twice);
            if before@.e >= term@.e {
                binary64::lemma_plus(before@, term@);
            } else {
                binary64::lemma_plus(term@, before@);
            }
        }
        i += 1;
    }
    twice.abs().half()
}

/// A contour that ends where it starts and one that does not end there yet have
/// the same polygon. Fewer than three corners make none.
pub proof fn law_closing_does_not_matter(points: Seq<(i32, i32)>)
    requires
        points.len() > 0,
        points.len() == 1 || points.first() != points.last(),
    ensures
        points.len() >= 3 ==> open_path(points) == Some(points),
        points.len() >= 3 ==> open_path(points.push(points.first())) == Some(points),
        points.len() < 3 ==> open_path(points) is None,
        points.len() < 3 ==> open_path(points.push(points.first())) is None,
{
    let closed = points.push(points.first());
    assert(closed.drop_last() =~= points);
    assert(closed.first() == points.first());
}

/// The bounding box of a polygon inside an image holds all of its corners, and
/// each of its sides has one.
pub proof fn law_polygon_box_is_tight(points: Seq<(i32, i32)>)
    requires
        points.len() > 0,
        forall|i: int|
            0 <= i < points.len() ==> 0 <= (#[trigger] points[i]).0 < i32::MAX && 0 <= points[i].1
                < i32::MAX,
    ensures
        ({
            let b = polygon_box(points);
            &&& forall|i: int|
                0 <= i < points.len() ==> b.0 <= (#[trigger] points[i]).0 < b.2 && b.1
                    <= points[i].1 < b.3
            &&& exists|i: int| 0 <= i < points.len() && (#[trigger] points[i]).0 == b.0
            &&& exists|i: int| 0 <= i < points.len() && (#[trigger] points[i]).1 == b.1
            &&& exists|i: int| 0 <= i < points.len() && (#[trigger] points[i]).0 + 1 == b.2
            &&& exists|i: int| 0 <= i < points.len() && (#[trigger] points[i]).1 + 1 == b.3
        }),
{
    let (xs, ys) = (geometry::columns(points), geometry::rows(points));
    xs.min_ensures();
    xs.max_ensures();
    ys.min_ensures();
    ys.max_ensures();
    let l = choose|j: int| 0 <= j < xs.len() && xs[j] == xs.min();
    let r = choose|j: int| 0 <= j < xs.len() && xs[j] == xs.max();
    let t = choose|j: int| 0 <= j < ys.len() && ys[j] == ys.min();
    let d = choose|j: int| 0 <= j < ys.len() && ys[j] == ys.max();
    assert(points[l].0 == xs.min() && points[r].0 == xs.max());
    assert(points[t].1 == ys.min() && points[d].1 == ys.max());
    assert forall|i: int| 0 <= i < points.len() implies polygon_box(points).0 <= (
    #[trigger] points[i]).0 < polygon_box(points).2 && polygon_box(points).1 <= points[i].1
        < polygon_box(points).3 by {
        assert(xs[i] == points[i].0 && ys[i] == points[i].1);
    }
}

/// The index of the corner after corner `i` of a polygon with `len` corners.
pub open spec fn following(i: int, len: int) -> int {
    if i + 1 == len {
        0
    } else {
        i + 1
    }
}

/// Twice the signed area under the first `n` edges of a polygon, in whole
/// numbers.
pub open spec fn shoelace(points: Seq<(i32, i32)>, n: int) -> int
    decreases n,
{
    if n <= 0 {
        0
    } else {
        let p = points[n - 1];
        let q = points[following(n - 1, points.len() as int)];
        shoelace(points, n - 1) + (p.0 * q.1 - q.0 * p.1)
    }
}

/// Polygons whose area needs no rounding.
pub open spec fn small(points: Seq<(i32, i32)>) -> bool {
    &&& 0 < points.len() <= 0x800
    &&& forall|i: int|
        0 <= i < points.len() ==> -0x10_0000 <= (#[trigger] points[i]).0 <= 0x10_0000 && -0x10_0000
            <= points[i].1 <= 0x10_0000
}

/// A small number times a power of two needs no rounding.
proof fn lemma_exact(n: int, e: int)
    requires
        -0x20_0000_0000_0000 < n < 0x20_0000_0000_0000,
    ensures
        Dyadic::rounded(n, e) == (Dyadic { m: n, e }),
{
    let a = binary64::magnitude(n);
    assert(a / 1 == a && a % 1 == 0);
    assert(binary64::nearest_even(a, 1) == a);
}

proof fn lemma_cross_is_exact(p: (i32, i32), q: (i32, i32))
    requires
        -0x10_0000 <= p.0 <= 0x10_0000,
        -0x10_0000 <= p.1 <= 0x10_0000,
        -0x10_0000 <= q.0 <= 0x10_0000,
        -0x10_0000 <= q.1 <= 0x10_0000,
    ensures
        cross(p, q) == Dyadic::integer(p.0 * q.1 - q.0 * p.1),
        -0x200_0000_0000 <= p.0 * q.1 - q.0 * p.1 <= 0x200_0000_0000,
{
    vstd::arithmetic::power2::lemma2_to64();
    let (a, b) = (p.0 * q.1, q.0 * p.1);
    assert(-0x100_0000_0000 <= a <= 0x100_0000_0000) by (nonlinear_arith)
        requires
            a == p.0 * q.1,
            -0x10_0000 <= p.0 <= 0x10_0000,
            -0x10_0000 <= q.1 <= 0x10_0000,
    ;
    assert(-0x100_0000_0000 <= b <= 0x100_0000_0000) by (nonlinear_arith)
        requires
            b == q.0 * p.1,
            -0x10_0000 <= p.1 <= 0x10_0000,
            -0x10_0000 <= q.0 <= 0x10_0000,
    ;
    lemma_exact(a, 0);
    lemma_exact(b, 0);
    assert(a * 1 == a && (-b) * 1 == -b);
    lemma_exact(a - b, 0);
}

proof fn lemma_swept_is_exact(points: Seq<(i32, i32)>, n: int)
    requires
        small(points),
        0 <= n <= points.len(),
    ensures
        swept(points, n as nat) == Dyadic::integer(shoelace(points, n)),
        -0x200_0000_0000 * n <= shoelace(points, n) <= 0x200_0000_0000 * n,
    decreases n,
{
    vstd::arithmetic::power2::lemma2_to64();
    if n > 0 {
        lemma_swept_is_exact(points, n - 1);
        let len = points.len() as int;
        if n < len {
            vstd::arithmetic::div_mod::lemma_small_mod(n as nat, len as nat);
        } else {
            vstd::arithmetic::div_mod::lemma_mod_self_0(len);
        }
        let p = points[n - 1];
        let q = points[following(n - 1, len)];
        lemma_cross_is_exact(p, q);
        let (s, c) = (shoelace(points, n - 1), p.0 * q.1 - q.0 * p.1);
        assert(s * 1 == s && c * 1 == c);
        lemma_exact(s + c, 0);
    }
}

/// The area of a polygon on a page is that of the shoelace formula, without
/// rounding.
pub proof fn law_area_is_exact(points: Seq<(i32, i32)>)
    requires
        small(points),
    ensures
        area(points) == (Dyadic {
            m: binary64::magnitude(shoelace(points, points.len() as int)) as int,
            e: -1,
        }),
{
    lemma_swept_is_exact(points, points.len() as int);
}

/// Whether `b` is the polygon `a`, moved.
pub open spec fn moved(a: Seq<(i32, i32)>, b: Seq<(i32, i32)>, dx: int, dy: int) -> bool {
    &&& a.len() == b.len()
    &&& forall|i: int|
        0 <= i < a.len() ==> (#[trigger] b[i]).0 == a[i].0 + dx && b[i].1 == a[i].1 + dy
}

proof fn lemma_moved_shoelace(
    a: Seq<(i32, i32)>,
    b: Seq<(i32, i32)>,
    dx: int,
    dy: int,
    n: int,
)
    requires
        moved(a, b, dx, dy),
        0 <= n <= a.len(),
        a.len() > 0,
    ensures
        ({
            let end = a[if n == a.len() {
                0
            } else {
                n
            }];
            shoelace(b, n) == shoelace(a, n) + dx * (end.1 - a[0].1) - dy * (end.0 - a[0].0)
        }),
    decreases n,
{
    if n > 0 {
        lemma_moved_shoelace(a, b, dx, dy, n - 1);
        let len = a.len() as int;
        let k = following(n - 1, len);
        let (p, q, o) = (a[n - 1], a[k], a[0]);
        let (r, s) = (b[n - 1], b[k]);
        assert(r.0 * s.1 - s.0 * r.1 == (p.0 * q.1 - q.0 * p.1) + dx * (q.1 - p.1) - dy * (q.0
            - p.0)) by (nonlinear_arith)
            requires
                r.0 == p.0 + dx,
                r.1 == p.1 + dy,
                s.0 == q.0 + dx,
                s.1 == q.1 + dy,
        ;
        assert(dx * (p.1 - o.1) + dx * (q.1 - p.1) == dx * (q.1 - o.1)) by (nonlinear_arith);
        assert(dy * (p.0 - o.0) + dy * (q.0 - p.0) == dy * (q.0 - o.0)) by (nonlinear_arith);
    } else {
        assert(dx * 0 == 0 && dy * 0 == 0);
    }
}

/// Moving a polygon does not change its area.
pub proof fn law_area_of_moved(a: Seq<(i32, i32)>, b: Seq<(i32, i32)>, dx: int, dy: int)
    requires
        small(a),
        small(b),
        moved(a, b, dx, dy),
    ensures
        area(b) == area(a),
{
    law_area_is_exact(a);
    law_area_is_exact(b);
    lemma_moved_shoelace(a, b, dx, dy, a.len() as int);
    assert(dx * 0 == 0 && dy * 0 == 0);
}

/// The area of a rectangle is the product of its sides.
pub proof fn law_area_of_rectangle(points: Seq<(i32, i32)>, x: int, y: int, w: int, h: int)
    requires
        small(points),
        points.len() == 4,
        points[0].0 == x && points[0].1 == y,
        points[1].0 == x + w && points[1].1 == y,
        points[2].0 == x + w && points[2].1 == y + h,
        points[3].0 == x && points[3].1 == y + h,
        0 <= w,
        0 <= h,
    ensures
        area(points) == (Dyadic { m: 2 * (w * h), e: -1 }),
{
    law_area_is_exact(points);
    reveal_with_fuel(shoelace, 5);
    assert(shoelace(points, 4) == 2 * (w * h)) by {
        let (a, b, c, d) = (points[0], points[1], points[2], points[3]);
        assert(shoelace(points, 4) == (a.0 * b.1 - b.0 * a.1) + (b.0 * c.1 - c.0 * b.1) + (c.0
            * d.1 - d.0 * c.1) + (d.0 * a.1 - a.0 * d.1));
        assert((x * y - (x + w) * y) + ((x + w) * (y + h) - (x + w) * y) + ((x + w) * (y + h) - x
            * (y + h)) + (x * y - x * (y + h)) == 2 * (w * h)) by (nonlinear_arith);
    }
    assert(w * h >= 0) by (nonlinear_arith)
        requires
            w >= 0,
            h >= 0,
    ;
}

} // verus!
