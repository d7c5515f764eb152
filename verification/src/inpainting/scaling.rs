//! Image dimensions under a limit on the longer side.
use crate::binary64::{self, Double, Dyadic};
use vstd::arithmetic::power2::*;
use vstd::prelude::*;

verus! {

/// One side of an image scaled by `max_side / longer`. The ratio and the
/// product are double precision numbers, the result is the nearest integer,
/// at least 1.
pub open spec fn scaled_side(side: int, max_side: int, longer: int) -> int {
    let ratio = Dyadic::integer(max_side).over(Dyadic::integer(longer));
    let scaled = Dyadic::integer(side).times(ratio).to_nearest();
    if scaled < 1 {
        1
    } else {
        scaled
    }
}

/// The longer of two sides.
pub open spec fn longer_side(w: int, h: int) -> int {
    if w < h {
        h
    } else {
        w
    }
}

/// The dimensions `(w, h)` scaled down so that the longer side is `max_side`.
pub open spec fn scaled_size(w: int, h: int, max_side: int) -> (int, int) {
    let longer = longer_side(w, h);
    if longer <= max_side {
        (w, h)
    } else {
        (scaled_side(w, max_side, longer), scaled_side(h, max_side, longer))
    }
}

/// The ratio of two 32-bit integers as a double precision number.
proof fn lemma_ratio(m: int, l: int)
    requires
        0 < m < l < 0x1_0000_0000,
    ensures
        ({
            let r = Dyadic::integer(m).over(Dyadic::integer(l));
            let unit = pow2((-r.e) as nat);
            &&& -86 <= r.e <= -52
            &&& 0x10_0000_0000_0000 <= r.m < 0x20_0000_0000_0000
            &&& 2 * (r.m * l) <= 2 * (m * unit) + l
            &&& 2 * (m * unit) <= 2 * (r.m * l) + l
        }),
{
    let a = Dyadic::integer(m).normalized();
    let b = Dyadic::integer(l).normalized();
    binary64::lemma_normalized(Dyadic::integer(m));
    binary64::lemma_normalized(Dyadic::integer(l));
    binary64::lemma_normalized_integer(m);
    binary64::lemma_normalized_integer(l);
    let i = (-a.e) as nat;
    let j = (-b.e) as nat;
    lemma2_to64();
    lemma2_to64_rest();
    let n = (a.m * pow2(54)) as nat;
    let d = b.m as nat;
    let e = a.e - b.e - 54;
    let r = binary64::round_ratio(n, d, e);
    binary64::lemma_round_ratio(n, d, e);
    let t = (r.e - e) as nat;
    let u = d * pow2(t);
    lemma_pow2_pos(t);
    vstd::arithmetic::mul::lemma_mul_strictly_positive(d as int, pow2(t) as int);
    // The quotient lies above 2^53, so at least one halving took place.
    assert(t >= 1) by {
        if t == 0 {
            assert(n >= 0x20_0000_0000_0000 * d);
            assert(u == d) by (nonlinear_arith)
                requires
                    u == d * pow2(t),
                    pow2(t) == 1,
            ;
            assert(2 * (r.m * u) + u < 2 * n) by (nonlinear_arith)
                requires
                    u == d,
                    r.m <= 0x1f_ffff_ffff_ffff,
                    n >= 0x20_0000_0000_0000 * d,
                    d > 0,
            ;
        }
    }
    // The quotient lies below 2^55.
    assert(t <= 3) by {
        if t >= 4 {
            lemma_pow2_adds((t - 4) as nat, 4);
            lemma_pow2_pos((t - 4) as nat);
            assert(2 * n < 2 * (r.m * u) - u) by (nonlinear_arith)
                requires
                    u == d * pow2(t),
                    pow2(t) == pow2((t - 4) as nat) * 16,
                    pow2((t - 4) as nat) >= 1,
                    r.m >= 0x10_0000_0000_0000,
                    n < 0x20_0000_0000_0000 * 0x40_0000_0000_0000,
                    d >= 0x10_0000_0000_0000,
            ;
        }
    }
    let x = (-r.e) as nat;
    assert(x == i - j + 54 - t);
    // m * 2^x * u == n * l
    lemma_pow2_adds(x, t);
    lemma_pow2_adds((x + t) as nat, j);
    lemma_pow2_adds(i, 54);
    let unit = pow2(x);
    assert((m * unit) * u == n * l) by (nonlinear_arith)
        requires
            u == (l * pow2(j)) * pow2(t),
            unit * pow2(t) == pow2((x + t) as nat),
            pow2((x + t) as nat) * pow2(j) == pow2((x + t + j) as nat),
            pow2((x + t + j) as nat) == pow2(i) * pow2(54),
            n == (m * pow2(i)) * pow2(54),
    ;
    assert(2 * (r.m * l) <= 2 * (m * unit) + l) by (nonlinear_arith)
        requires
            (m * unit) * u == n * l,
            2 * (r.m * u) <= 2 * n + u,
            u > 0,
            l > 0,
    ;
    assert(2 * (m * unit) <= 2 * (r.m * l) + l) by (nonlinear_arith)
        requires
            (m * unit) * u == n * l,
            2 * n <= 2 * (r.m * u) + u,
            u > 0,
            l > 0,
    ;
    assert(x >= 52) by {
        if x < 52 {
            if x < 51 {
                lemma_pow2_strictly_increases(x, 51);
            }
            assert(2 * (m * unit) + l < 2 * (r.m * l)) by (nonlinear_arith)
                requires
                    0 < m < l,
                    0 <= unit <= 0x8_0000_0000_0000,
                    r.m >= 0x10_0000_0000_0000,
            ;
        }
    }
}

/// Scaling a side that is not longer than the longer one: the result is within
/// `1/2 + 2^-18` of the exact quotient.
proof fn lemma_scaled_near(side: int, m: int, l: int)
    requires
        0 <= side <= l,
        0 < m < l < 0x1_0000_0000,
    ensures
        ({
            let r = Dyadic::integer(m).over(Dyadic::integer(l));
            let p = Dyadic::integer(side).times(r);
            let n = p.to_nearest();
            &&& -86 <= p.e < 0
            &&& 0 <= p.m < 0x20_0000_0000_0000
            &&& 0 <= n
            &&& 0x80000 * (n * l) <= 0x80000 * (side * m) + 0x40001 * l
            &&& 0x80000 * (side * m) <= 0x80000 * (n * l) + 0x40001 * l
        }),
{
    lemma_ratio(m, l);
    let r = Dyadic::integer(m).over(Dyadic::integer(l));
    let p = Dyadic::integer(side).times(r);
    let q = p.to_nearest();
    let x = (-r.e) as nat;
    let big = pow2(x) as int;
    let product = (side * r.m) as nat;
    assert(0 <= side * r.m < 0x1_0000_0000 * 0x20_0000_0000_0000) by (nonlinear_arith)
        requires
            0 <= side < 0x1_0000_0000,
            0 <= r.m < 0x20_0000_0000_0000,
    ;
    binary64::lemma_round_ratio(product, 1, r.e);
    let t = (p.e - r.e) as nat;
    let u = pow2(t) as int;
    assert(1 * pow2(t) == u);
    lemma2_to64();
    lemma2_to64_rest();
    lemma_pow2_pos(t);
    assert(t <= 33 && u <= 2 * side + 1) by {
        if t > 0 {
            assert(u <= 2 * side) by (nonlinear_arith)
                requires
                    2 * (p.m * u) <= 2 * (side * r.m) + u,
                    p.m >= 0x10_0000_0000_0000,
                    r.m < 0x20_0000_0000_0000,
                    u > 0,
                    side >= 0,
            ;
            if t > 33 {
                lemma_pow2_strictly_increases(33, t);
            }
        }
    }
    let y = (-p.e) as nat;
    let small = pow2(y) as int;
    lemma_pow2_adds(y, t);
    lemma_pow2_pos(y);
    lemma_pow2_pos(x);
    assert(small * u == big);
    assert(big >= 0x10_0000_0000_0000) by {
        if x > 52 {
            lemma_pow2_strictly_increases(52, x);
        }
    }
    let z = 2 * p.m + small;
    let w = 2 * small;
    vstd::arithmetic::div_mod::lemma_fundamental_div_mod(z, w);
    vstd::arithmetic::div_mod::lemma_div_pos_is_pos(z, w);
    vstd::arithmetic::div_mod::lemma_mod_bound(z, w);
    assert(q == z / w);
    // 2 |q * small - p.m| <= small
    assert(2 * (q * small) <= 2 * p.m + small && 2 * p.m <= 2 * (q * small) + small) by (nonlinear_arith)
        requires
            z == w * q + z % w,
            0 <= z % w < w,
            w == 2 * small,
            z == 2 * p.m + small,
    ;
    // The same, scaled by u * l.
    let exact = (side * m) * big;
    let a = (q * l) * big;
    let b = (p.m * u) * l;
    let c = (side * r.m) * l;
    assert(2 * a <= 2 * b + big * l && 2 * b <= 2 * a + big * l) by (nonlinear_arith)
        requires
            a == (q * l) * big,
            b == (p.m * u) * l,
            small * u == big,
            2 * (q * small) <= 2 * p.m + small,
            2 * p.m <= 2 * (q * small) + small,
            u > 0,
            l > 0,
    ;
    assert(2 * b <= 2 * c + u * l && 2 * c <= 2 * b + u * l) by (nonlinear_arith)
        requires
            b == (p.m * u) * l,
            c == (side * r.m) * l,
            2 * (p.m * u) <= 2 * (side * r.m) + u,
            2 * (side * r.m) <= 2 * (p.m * u) + u,
            l > 0,
    ;
    assert(2 * c <= 2 * exact + side * l && 2 * exact <= 2 * c + side * l) by (nonlinear_arith)
        requires
            c == (side * r.m) * l,
            exact == (side * m) * big,
            2 * (r.m * l) <= 2 * (m * big) + l,
            2 * (m * big) <= 2 * (r.m * l) + l,
            side >= 0,
    ;
    let slack = (big + u + side) * l;
    assert(slack == big * l + u * l + side * l) by (nonlinear_arith)
        requires
            slack == (big + u + side) * l,
    ;
    assert(2 * a <= 2 * exact + slack && 2 * exact <= 2 * a + slack);
    // u + side is at most a 2^-18 of the unit.
    assert(0x40000 * slack <= (0x40001 * l) * big) by (nonlinear_arith)
        requires
            slack == (big + u + side) * l,
            0x40000 * (u + side) <= big,
            l > 0,
    ;
    assert(0x80000 * (q * l) <= 0x80000 * (side * m) + 0x40001 * l) by (nonlinear_arith)
        requires
            2 * a <= 2 * exact + slack,
            0x40000 * slack <= (0x40001 * l) * big,
            a == (q * l) * big,
            exact == (side * m) * big,
            big > 0,
    ;
    assert(0x80000 * (side * m) <= 0x80000 * (q * l) + 0x40001 * l) by (nonlinear_arith)
        requires
            2 * exact <= 2 * a + slack,
            0x40000 * slack <= (0x40001 * l) * big,
            a == (q * l) * big,
            exact == (side * m) * big,
            big > 0,
    ;
}

/// Whether `n` is an integer nearest to `side * m / l`, or one.
pub open spec fn nearest_or_one(n: int, side: int, m: int, l: int) -> bool {
    n == 1 || -l <= 2 * (n * l - side * m) <= l
}

/// Bounds that hold of every scaled side.
proof fn lemma_scaled_side(side: int, m: int, l: int)
    requires
        0 <= side <= l,
        0 <= m < l < 0x1_0000_0000,
    ensures
        1 <= scaled_side(side, m, l),
        m > 0 ==> scaled_side(side, m, l) <= m,
        m == 0 ==> scaled_side(side, m, l) == 1,
        m > 0 && side == l ==> scaled_side(side, m, l) == m,
        side > 0 && m > 0 ==> -l < scaled_side(side, m, l) * l - side * m < l,
        side > 0 ==> scaled_side(side, m, l) <= side,
        side == 0 ==> scaled_side(side, m, l) == 1,
        m > 0 && l < 0x4_0000 ==> nearest_or_one(scaled_side(side, m, l), side, m, l),
{
    if m == 0 {
        lemma2_to64();
        assert(side * 0 == 0);
        assert(Dyadic::integer(0).over(Dyadic::integer(l)) == (Dyadic { m: 0, e: 0 }));
        assert(binary64::nearest_even(0, 1) == 0);
        assert(Dyadic::integer(side).times(Dyadic { m: 0, e: 0 }) == (Dyadic { m: 0, e: 0 }));
        assert(0 * pow2(0) == 0);
    } else {
        lemma_scaled_near(side, m, l);
        let n = Dyadic::integer(side).times(
            Dyadic::integer(m).over(Dyadic::integer(l)),
        ).to_nearest();
        assert(side * m <= l * m) by (nonlinear_arith)
            requires
                0 <= side <= l,
                m > 0,
        ;
        assert(n <= m) by (nonlinear_arith)
            requires
                0x80000 * (n * l) <= 0x80000 * (side * m) + 0x40001 * l,
                side * m <= l * m,
                l > 0,
        ;
        assert(side * m <= side * l) by (nonlinear_arith)
            requires
                0 <= side,
                m <= l,
        ;
        assert(n <= side) by (nonlinear_arith)
            requires
                0x80000 * (n * l) <= 0x80000 * (side * m) + 0x40001 * l,
                side * m <= side * l,
                l > 0,
        ;
        if side == l {
            assert(n >= m) by (nonlinear_arith)
                requires
                    0x80000 * (side * m) <= 0x80000 * (n * l) + 0x40001 * l,
                    side == l,
                    l > 0,
            ;
        }
        if side > 0 {
            assert(side * m > 0) by (nonlinear_arith)
                requires
                    side > 0,
                    m > 0,
            ;
            if n < 1 {
                assert(n * l == 0) by (nonlinear_arith)
                    requires
                        n == 0,
                ;
            }
        }
    }
}

/// Scale `(w, h)` so that the longer side is `max_side`, preserving the aspect
/// ratio. Dimensions that already fit are returned unchanged.
pub fn scaled_dims(w: u32, h: u32, max_side: u32) -> (r: (u32, u32))
    ensures
        (r.0 as int, r.1 as int) == scaled_size(w as int, h as int, max_side as int),
        0 < w && 0 < h && 0 < max_side < longer_side(w as int, h as int) ==> ({
            let l = longer_side(w as int, h as int);
            &&& longer_side(r.0 as int, r.1 as int) == max_side
            &&& -l < r.0 * l - w * max_side < l
            &&& -l < r.1 * l - h * max_side < l
            &&& 1 <= r.0 <= w
            &&& 1 <= r.1 <= h
            &&& l < 0x4_0000 ==> nearest_or_one(r.0 as int, w as int, max_side as int, l)
            &&& l < 0x4_0000 ==> nearest_or_one(r.1 as int, h as int, max_side as int, l)
        }),
{
    let longer: u32 = if w < h {
        h
    } else {
        w
    };
    proof {
        if 0 < w && 0 < h && 0 < max_side < longer {
            law_longer_side_becomes_limit(w as int, h as int, max_side as int);
            law_scaling_preserves_aspect(w as int, h as int, max_side as int);
            law_scaling_shrinks(w as int, h as int, max_side as int);
            if longer < 0x4_0000 {
                law_scaling_is_nearest(w as int, h as int, max_side as int);
            }
        }
    }
    if longer <= max_side {
        return (w, h);
    }
    (scale_side(w, max_side, longer), scale_side(h, max_side, longer))
}

fn scale_side(side: u32, max_side: u32, longer: u32) -> (r: u32)
    requires
        side <= longer,
        max_side < longer,
    ensures
        r == scaled_side(side as int, max_side as int, longer as int),
{
    proof {
        lemma_scaled_side(side as int, max_side as int, longer as int);
    }
    if max_side == 0 {
        return 1;
    }
    proof {
        lemma_scaled_near(side as int, max_side as int, longer as int);
        lemma_ratio(max_side as int, longer as int);
    }
    let ratio = Double::from_int(max_side as i64).div(Double::from_int(longer as i64));
    let scaled: u128 = Double::from_int(side as i64).mul(ratio).round();
    if scaled < 1 {
        1
    } else {
        scaled as u32
    }
}

/// Scaled sides are at most as long as they were, except that none vanishes.
pub proof fn lemma_scaled_size(w: int, h: int, max_side: int)
    requires
        0 <= w < 0x1_0000_0000,
        0 <= h < 0x1_0000_0000,
        0 <= max_side,
    ensures
        ({
            let (nw, nh) = scaled_size(w, h, max_side);
            &&& 0 <= nw && (nw <= w || nw == 1)
            &&& 0 <= nh && (nh <= h || nh == 1)
        }),
{
    let l = longer_side(w, h);
    if max_side < l {
        lemma_scaled_side(w, max_side, l);
        lemma_scaled_side(h, max_side, l);
    }
}

/// Scaling makes the longer side exactly `max_side`: an image over the limit
/// ends up at the limit.
pub proof fn law_longer_side_becomes_limit(w: int, h: int, max_side: int)
    requires
        0 <= w < 0x1_0000_0000,
        0 <= h < 0x1_0000_0000,
        0 < max_side < longer_side(w, h),
    ensures
        ({
            let (nw, nh) = scaled_size(w, h, max_side);
            longer_side(nw, nh) == max_side
        }),
{
    let l = longer_side(w, h);
    lemma_scaled_side(w, max_side, l);
    lemma_scaled_side(h, max_side, l);
}

/// Scaling preserves the aspect ratio: each side is less than one pixel away
/// from its exact share of the limit.
pub proof fn law_scaling_preserves_aspect(w: int, h: int, max_side: int)
    requires
        0 < w < 0x1_0000_0000,
        0 < h < 0x1_0000_0000,
        0 < max_side < longer_side(w, h),
    ensures
        ({
            let (nw, nh) = scaled_size(w, h, max_side);
            let l = longer_side(w, h);
            &&& -l < nw * l - w * max_side < l
            &&& -l < nh * l - h * max_side < l
        }),
{
    let l = longer_side(w, h);
    lemma_scaled_side(w, max_side, l);
    lemma_scaled_side(h, max_side, l);
}

/// Each scaled side is an integer nearest to its exact share of the limit, or
/// one. Beyond a quarter of a million pixels the rounding of the ratio may tip
/// a share that lies halfway between two integers.
pub proof fn law_scaling_is_nearest(w: int, h: int, max_side: int)
    requires
        0 <= w,
        0 <= h,
        0 < max_side < longer_side(w, h) < 0x4_0000,
    ensures
        ({
            let (nw, nh) = scaled_size(w, h, max_side);
            let l = longer_side(w, h);
            nearest_or_one(nw, w, max_side, l) && nearest_or_one(nh, h, max_side, l)
        }),
{
    let l = longer_side(w, h);
    lemma_scaled_side(w, max_side, l);
    lemma_scaled_side(h, max_side, l);
}

/// Scaling what was scaled changes nothing.
pub proof fn law_scaling_twice(w: int, h: int, max_side: int)
    requires
        0 <= w < 0x1_0000_0000,
        0 <= h < 0x1_0000_0000,
        0 < max_side,
    ensures
        ({
            let (nw, nh) = scaled_size(w, h, max_side);
            scaled_size(nw, nh, max_side) == (nw, nh)
        }),
{
    if max_side < longer_side(w, h) {
        law_longer_side_becomes_limit(w, h, max_side);
    }
}

/// Scaling never enlarges a side and never makes one vanish.
pub proof fn law_scaling_shrinks(w: int, h: int, max_side: int)
    requires
        0 < w < 0x1_0000_0000,
        0 < h < 0x1_0000_0000,
        0 <= max_side,
    ensures
        ({
            let (nw, nh) = scaled_size(w, h, max_side);
            1 <= nw <= w && 1 <= nh <= h
        }),
{
    let l = longer_side(w, h);
    if max_side < l {
        lemma_scaled_side(w, max_side, l);
        lemma_scaled_side(h, max_side, l);
    }
}

} // verus!
