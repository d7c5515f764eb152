//! Medians and deviations of the colors under a mask.
use crate::binary64::{self, Double, Dyadic};
use crate::raster::{self, GrayImage, RgbImage};
use vstd::prelude::*;

verus! {

/// How many values are smaller than `v`.
pub open spec fn below(values: Seq<u8>, v: int) -> nat
    decreases values.len(),
{
    if values.len() == 0 {
        0
    } else {
        below(values.drop_last(), v) + if values.last() < v {
            1nat
        } else {
            0nat
        }
    }
}

/// Whether `v` stands at index `k` once the values are sorted: at most `k`
/// values are smaller, and more than `k` are not larger.
pub open spec fn stands_at(values: Seq<u8>, k: int, v: u8) -> bool {
    below(values, v as int) <= k < below(values, v + 1)
}

/// The value at index `k` once the values are sorted.
pub open spec fn ranked(values: Seq<u8>, k: int) -> u8 {
    choose|v: u8| stands_at(values, k, v)
}

/// Larger bounds have no fewer values below them; none are below zero, and all
/// are below 256.
proof fn lemma_below(values: Seq<u8>, a: int, b: int)
    requires
        a <= b,
    ensures
        below(values, a) <= below(values, b) <= values.len(),
        a <= 0 ==> below(values, a) == 0,
        b >= 256 ==> below(values, b) == values.len(),
    decreases values.len(),
{
    if values.len() > 0 {
        lemma_below(values.drop_last(), a, b);
    }
}

/// Only one value stands at an index.
proof fn lemma_ranked(values: Seq<u8>, k: int, v: u8)
    requires
        stands_at(values, k, v),
    ensures
        ranked(values, k) == v,
{
    let w = ranked(values, k);
    assert(stands_at(values, k, w));
    if v < w {
        lemma_below(values, v + 1, w as int);
    } else if w < v {
        lemma_below(values, w + 1, v as int);
    }
}

/// How often `v` occurs.
spec fn occurrences(values: Seq<u8>, v: int) -> nat
    decreases values.len(),
{
    if values.len() == 0 {
        0
    } else {
        occurrences(values.drop_last(), v) + if values.last() == v {
            1nat
        } else {
            0nat
        }
    }
}

proof fn lemma_below_step(values: Seq<u8>, v: int)
    ensures
        below(values, v + 1) == below(values, v) + occurrences(values, v),
    decreases values.len(),
{
    if values.len() > 0 {
        lemma_below_step(values.drop_last(), v);
    }
}

proof fn lemma_occurrences_bounded(values: Seq<u8>, v: int)
    ensures
        occurrences(values, v) <= values.len(),
    decreases values.len(),
{
    if values.len() > 0 {
        lemma_occurrences_bounded(values.drop_last(), v);
    }
}

/// How often each of the 256 values occurs.
fn histogram(values: &Vec<u8>) -> (counts: Vec<usize>)
    ensures
        counts@.len() == 256,
        forall|v: int| 0 <= v < 256 ==> #[trigger] counts@[v] == occurrences(values@, v),
{
    let mut counts: Vec<usize> = Vec::new();
    while counts.len() < 256
        invariant
            counts@.len() <= 256,
            forall|v: int| 0 <= v < counts@.len() ==> #[trigger] counts@[v] == 0,
        decreases 256 - counts@.len(),
    {
        counts.push(0);
    }
    let mut i: usize = 0;
    assert(values@.take(0) =~= Seq::empty());
    while i < values.len()
        invariant
            i <= values@.len(),
            counts@.len() == 256,
            forall|v: int|
                0 <= v < 256 ==> #[trigger] counts@[v] == occurrences(values@.take(i as int), v),
        decreases values@.len() - i,
    {
        let value: usize = values[i] as usize;
        proof {
            lemma_occurrences_bounded(values@.take(i as int), value as int);
            assert(values@.take(i + 1).drop_last() =~= values@.take(i as int));
        }
        let count: usize = counts[value];
        counts[value] = count + 1;
        i += 1;
    }
    assert(values@.take(values@.len() as int) =~= values@);
    counts
}

/// The value that stands at index `k` of the sorted values with the given
/// histogram.
fn value_at(counts: &Vec<usize>, values: &Vec<u8>, k: usize) -> (r: u8)
    requires
        k < values@.len(),
        counts@.len() == 256,
        forall|v: int| 0 <= v < 256 ==> #[trigger] counts@[v] == occurrences(values@, v),
    ensures
        r == ranked(values@, k as int),
{
    let mut v: usize = 0;
    let mut before: usize = 0;
    proof {
        lemma_below(values@, 0, 256);
    }
    while v < 255 && counts[v] <= k - before
        invariant
            v <= 255,
            before == below(values@, v as int),
            before <= k < values@.len(),
            below(values@, 256) == values@.len(),
            counts@.len() == 256,
            forall|v: int| 0 <= v < 256 ==> #[trigger] counts@[v] == occurrences(values@, v),
        decreases 255 - v,
    {
        proof {
            lemma_below_step(values@, v as int);
        }
        before = before + counts[v];
        v += 1;
    }
    proof {
        lemma_below_step(values@, v as int);
        lemma_ranked(values@, k as int, v as u8);
    }
    v as u8
}

/// The value at index `k` once the values are sorted.
pub fn select(values: &Vec<u8>, k: usize) -> (r: u8)
    requires
        k < values@.len(),
    ensures
        r == ranked(values@, k as int),
{
    let counts = histogram(values);
    value_at(&counts, values, k)
}

/// Twice the median of the values: the middle one counted twice, or the sum of
/// the two middle ones.
pub open spec fn doubled_median(values: Seq<u8>) -> int {
    let mid = values.len() as int / 2;
    if values.len() % 2 == 0 {
        ranked(values, mid - 1) + ranked(values, mid)
    } else {
        2 * ranked(values, mid)
    }
}

/// Twice the median of the values; none where there is no value.
pub fn median_channel(values: &Vec<u8>) -> (r: Option<u16>)
    ensures
        r is Some <==> values@.len() > 0,
        r matches Some(m) ==> m == doubled_median(values@) && m <= 510,
{
    let len: usize = values.len();
    if len == 0 {
        return None;
    }
    let counts = histogram(values);
    let mid: usize = len / 2;
    let upper: u8 = value_at(&counts, values, mid);
    let lower: u8 = if len % 2 == 0 {
        value_at(&counts, values, mid - 1)
    } else {
        upper
    };
    Some(lower as u16 + upper as u16)
}

/// The pixels among the first `n` that the mask marks.
pub open spec fn marked<P>(pixels: Seq<P>, mask: Seq<u8>, n: int) -> Seq<P>
    decreases n,
{
    if n <= 0 {
        Seq::empty()
    } else if mask[n - 1] == 0 {
        marked(pixels, mask, n - 1)
    } else {
        marked(pixels, mask, n - 1).push(pixels[n - 1])
    }
}

/// The pixels that the mask marks. Pixel and mask go in pairs, in row-major
/// order, as far as both go.
pub open spec fn under<P>(pixels: Seq<P>, mask: Seq<u8>) -> Seq<P> {
    marked(pixels, mask, raster::min(pixels.len() as int, mask.len() as int))
}

/// One channel of a list of pixels.
pub open spec fn channel(pixels: Seq<[u8; 3]>, c: int) -> Seq<u8> {
    pixels.map_values(|p: [u8; 3]| p@[c])
}

/// The pixels that the mask marks, channel by channel.
fn channels_under(image: &RgbImage, mask: &GrayImage) -> (channels: (Vec<u8>, Vec<u8>, Vec<u8>))
    ensures
        channels.0@ == channel(under(image@.pixels, mask@.pixels), 0),
        channels.1@ == channel(under(image@.pixels, mask@.pixels), 1),
        channels.2@ == channel(under(image@.pixels, mask@.pixels), 2),
{
    let pixels: &Vec<[u8; 3]> = image.pixels();
    let marks: &Vec<u8> = mask.pixels();
    let mut red: Vec<u8> = Vec::new();
    let mut green: Vec<u8> = Vec::new();
    let mut blue: Vec<u8> = Vec::new();
    let mut i: usize = 0;
    while i < pixels.len() && i < marks.len()
        invariant
            i <= pixels@.len(),
            i <= marks@.len(),
            red@ == channel(marked(pixels@, marks@, i as int), 0),
            green@ == channel(marked(pixels@, marks@, i as int), 1),
            blue@ == channel(marked(pixels@, marks@, i as int), 2),
        decreases pixels@.len() - i,
    {
        if marks[i] != 0 {
            let pixel: [u8; 3] = pixels[i];
            red.push(pixel[0]);
            green.push(pixel[1]);
            blue.push(pixel[2]);
        }
        i += 1;
    }
    (red, green, blue)
}

/// Twice the median of each channel of the pixels that the mask marks; none
/// where it marks no pixel.
pub fn median_rgb(image: &RgbImage, mask: &GrayImage) -> (r: Option<[u16; 3]>)
    ensures
        r is Some <==> under(image@.pixels, mask@.pixels).len() > 0,
        r matches Some(m) ==> forall|c: int|
            0 <= c < 3 ==> #[trigger] m@[c] == doubled_median(
                channel(under(image@.pixels, mask@.pixels), c),
            ) && m@[c] <= 510,
{
    let (red, green, blue) = channels_under(image, mask);
    let r: u16 = median_channel(&red)?;
    let g: u16 = median_channel(&green)?;
    let b: u16 = median_channel(&blue)?;
    let medians: [u16; 3] = [r, g, b];
    Some(medians)
}

/// The sum of the squares of twice the distances between the values and the
/// number whose double is `m`.
pub open spec fn squares(values: Seq<u8>, m: int) -> int
    decreases values.len(),
{
    if values.len() == 0 {
        0
    } else {
        squares(values.drop_last(), m) + (2 * values.last() - m) * (2 * values.last() - m)
    }
}

/// The root of the mean squared distance between the values and the number
/// whose double is `m`, in double precision. The sum of the squares is a
/// multiple of a quarter and small enough to be exact.
pub open spec fn deviation(values: Seq<u8>, m: int) -> Dyadic {
    Dyadic { m: squares(values, m), e: -2 }.over(Dyadic::integer(values.len() as int)).root()
}

/// Numbers of pixels whose squares can be added up exactly.
pub open spec fn summable(count: nat) -> bool {
    count <= 0x8_0000_0000
}

fn channel_deviation(values: &Vec<u8>, m: u16) -> (r: Double)
    requires
        values@.len() > 0,
        summable(values@.len()),
        m <= 510,
    ensures
        r@ == deviation(values@, m as int),
        r@.m >= 0,
        -150 <= r@.e <= 150,
{
    let mut sum: i64 = 0;
    let mut i: usize = 0;
    assert(values@.take(0) =~= Seq::empty());
    while i < values.len()
        invariant
            i <= values@.len(),
            summable(values@.len()),
            m <= 510,
            sum == squares(values@.take(i as int), m as int),
            0 <= sum <= 260100 * i,
        decreases values@.len() - i,
    {
        let diff: i64 = 2 * (values[i] as i64) - m as i64;
        assert(values@.take(i + 1).drop_last() =~= values@.take(i as int));
        assert(0 <= diff * diff <= 260100) by (nonlinear_arith)
            requires
                -510 <= diff <= 510,
        ;
        sum = sum + diff * diff;
        i += 1;
    }
    assert(values@.take(values@.len() as int) =~= values@);
    let mean = Double::new(sum, -2).div(Double::from_int(values.len() as i64));
    mean.sqrt()
}

/// How far values lie from their median. No values lie infinitely far, so that
/// no limit is met.
#[derive(Debug, Clone, Copy)]
pub enum Deviation {
    Finite(Double),
    Infinite,
}

/// The deviations of the three channels from the given medians, of the pixels
/// that the mask marks. All three are infinite where it marks no pixel.
pub fn color_stddev(image: &RgbImage, mask: &GrayImage, median: [u16; 3]) -> (r: [Deviation; 3])
    requires
        summable(image@.pixels.len()),
        forall|c: int| 0 <= c < 3 ==> #[trigger] median@[c] <= 510,
    ensures
        forall|c: int|
            0 <= c < 3 ==> match #[trigger] r@[c] {
                Deviation::Finite(d) => {
                    &&& under(image@.pixels, mask@.pixels).len() > 0
                    &&& d@ == deviation(
                        channel(under(image@.pixels, mask@.pixels), c),
                        median@[c] as int,
                    )
                    &&& d@.m >= 0
                    &&& -150 <= d@.e <= 150
                },
                Deviation::Infinite => under(image@.pixels, mask@.pixels).len() == 0,
            },
{
    let (red, green, blue) = channels_under(image, mask);
    if red.len() == 0 {
        return [Deviation::Infinite, Deviation::Infinite, Deviation::Infinite];
    }
    proof {
        lemma_marked_len(
            image@.pixels,
            mask@.pixels,
            raster::min(image@.pixels.len() as int, mask@.pixels.len() as int),
        );
    }
    [
        Deviation::Finite(channel_deviation(&red, median[0])),
        Deviation::Finite(channel_deviation(&green, median[1])),
        Deviation::Finite(channel_deviation(&blue, median[2])),
    ]
}

proof fn lemma_marked_len(pixels: Seq<[u8; 3]>, mask: Seq<u8>, n: int)
    requires
        n >= 0,
    ensures
        marked(pixels, mask, n).len() <= n,
    decreases n,
{
    if n > 0 {
        lemma_marked_len(pixels, mask, n - 1);
    }
}

/// A third of the sum of three numbers, in double precision.
pub open spec fn mean3(a: Dyadic, b: Dyadic, c: Dyadic) -> Dyadic {
    a.plus(b).plus(c).over(Dyadic::integer(3))
}

/// The squared distance, in double precision.
pub open spec fn squared_distance(a: Dyadic, b: Dyadic) -> Dyadic {
    a.minus(b).times(a.minus(b))
}

/// The standard deviation of three numbers, in double precision.
pub open spec fn spread3(a: Dyadic, b: Dyadic, c: Dyadic) -> Dyadic {
    let mean = mean3(a, b, c);
    mean3(
        squared_distance(a, mean),
        squared_distance(b, mean),
        squared_distance(c, mean),
    ).root()
}

fn third(a: Double, b: Double, c: Double) -> (r: Double)
    requires
        a@.m >= 0,
        b@.m >= 0,
        c@.m >= 0,
        a.within(650),
        b.within(650),
        c.within(650),
    ensures
        r@ == mean3(a@, b@, c@),
        r@.m >= 0,
        r.within(800),
        a.within(150) && b.within(150) && c.within(150) ==> r.within(280),
{
    a.add(b).add(c).div(Double::from_int(3))
}

fn square_of_distance(a: Double, b: Double) -> (r: Double)
    requires
        a.within(150),
        b.within(280),
    ensures
        r@ == squared_distance(a@, b@),
        r@.m >= 0,
        r.within(650),
{
    let diff = a.sub(b);
    assert(diff@.m * diff@.m >= 0) by (nonlinear_arith);
    diff.mul(diff)
}

/// The standard deviation of three numbers that are not negative.
pub fn stddev3(values: [Double; 3]) -> (r: Double)
    requires
        forall|c: int| 0 <= c < 3 ==> (#[trigger] values@[c])@.m >= 0 && values@[c].within(150),
    ensures
        r@ == spread3(values@[0]@, values@[1]@, values@[2]@),
        r@.m >= 0,
        r.within(500),
{
    let (a, b, c) = (values[0], values[1], values[2]);
    let mean = third(a, b, c);
    let variance = third(
        square_of_distance(a, mean),
        square_of_distance(b, mean),
        square_of_distance(c, mean),
    );
    variance.sqrt()
}

/// Equal values have themselves as their median, and do not deviate from it.
pub proof fn lemma_constant(values: Seq<u8>, v: u8)
    requires
        values.len() > 0,
        forall|i: int| 0 <= i < values.len() ==> #[trigger] values[i] == v,
    ensures
        doubled_median(values) == 2 * v,
        deviation(values, doubled_median(values)) == Dyadic::integer(0),
{
    let mid = values.len() as int / 2;
    law_ranked_of_sorted(values, mid);
    if values.len() % 2 == 0 {
        law_ranked_of_sorted(values, mid - 1);
    }
    lemma_no_squares(values, v);
}

/// Three zeros have no spread, and zero is below every positive integer.
pub proof fn lemma_zero()
    ensures
        spread3(Dyadic::integer(0), Dyadic::integer(0), Dyadic::integer(0)) == Dyadic::integer(0),
        forall|i: int| #[trigger] Dyadic::integer(0).less(Dyadic::integer(i)) == (0 < i),
        forall|i: int| #[trigger] Dyadic::integer(i).less(Dyadic::integer(0)) == (i < 0),
{
    let zero = Dyadic::integer(0);
    vstd::arithmetic::power2::lemma2_to64();
    assert(zero.scaled(0) == 0);
    assert(zero.plus(zero) == zero);
    assert(zero.minus(zero) == zero);
    assert(zero.times(zero) == zero);
    assert forall|i: int| (#[trigger] Dyadic::integer(i)).scaled(0) == i by {
        vstd::arithmetic::mul::lemma_mul_basics(i);
    }
}

proof fn lemma_no_squares(values: Seq<u8>, v: u8)
    requires
        forall|i: int| 0 <= i < values.len() ==> #[trigger] values[i] == v,
    ensures
        squares(values, 2 * v) == 0,
    decreases values.len(),
{
    if values.len() > 0 {
        lemma_no_squares(values.drop_last(), v);
        assert(values.last() == v);
        assert((2 * v - 2 * v) * (2 * v - 2 * v) == 0) by (nonlinear_arith);
    }
}

/// Of sorted values the one at index `k` stands at index `k`.
pub proof fn law_ranked_of_sorted(values: Seq<u8>, k: int)
    requires
        0 <= k < values.len(),
        forall|i: int, j: int| 0 <= i <= j < values.len() ==> values[i] <= values[j],
    ensures
        ranked(values, k) == values[k],
{
    lemma_below_sorted(values, k);
    lemma_ranked(values, k, values[k]);
}

proof fn lemma_below_sorted(values: Seq<u8>, k: int)
    requires
        0 <= k < values.len(),
        forall|i: int, j: int| 0 <= i <= j < values.len() ==> values[i] <= values[j],
    ensures
        stands_at(values, k, values[k]),
    decreases values.len(),
{
    let v = values[k];
    let earlier = values.drop_last();
    if k < earlier.len() {
        lemma_below_sorted(earlier, k);
    } else {
        assert forall|i: int| 0 <= i < values.len() implies values[i] < v + 1 by {}
        lemma_all_below(values, v + 1);
        lemma_below(earlier, v as int, v as int);
    }
}

proof fn lemma_all_below(values: Seq<u8>, v: int)
    requires
        forall|i: int| 0 <= i < values.len() ==> #[trigger] values[i] < v,
    ensures
        below(values, v) == values.len(),
    decreases values.len(),
{
    if values.len() > 0 {
        lemma_all_below(values.drop_last(), v);
    }
}

/// The order of the values does not matter.
pub proof fn law_ranked_of_reordered(a: Seq<u8>, b: Seq<u8>, k: int)
    requires
        a.to_multiset() == b.to_multiset(),
        0 <= k < a.len(),
    ensures
        ranked(a, k) == ranked(b, k),
{
    lemma_below(a, 0, 256);
    lemma_ranked_exists(a, k, 0);
    let v = ranked(a, k);
    lemma_below_reordered(a, b, v as int);
    lemma_below_reordered(a, b, v + 1);
    lemma_ranked(b, k, v);
}

/// Some value stands at every index.
proof fn lemma_ranked_exists(values: Seq<u8>, k: int, from: int)
    requires
        0 <= from < 256,
        below(values, from) <= k < below(values, 256),
    ensures
        stands_at(values, k, ranked(values, k)),
    decreases 256 - from,
{
    if below(values, from + 1) <= k {
        lemma_ranked_exists(values, k, from + 1);
    } else {
        assert(stands_at(values, k, from as u8));
    }
}

proof fn lemma_below_reordered(a: Seq<u8>, b: Seq<u8>, v: int)
    requires
        a.to_multiset() == b.to_multiset(),
    ensures
        below(a, v) == below(b, v),
    decreases a.len(),
{
    broadcast use vstd::seq_lib::group_to_multiset_ensures;

    if a.len() == 0 {
        vstd::seq_lib::to_multiset_len(a);
        vstd::seq_lib::to_multiset_len(b);
    } else {
        let last = a.last();
        assert(a.contains(last));
        assert(a.to_multiset().count(last) > 0);
        assert(b.contains(last));
        let i = choose|i: int| 0 <= i < b.len() && b[i] == last;
        lemma_below_removed(b, i, v);
        assert(a.drop_last() =~= a.remove(a.len() - 1));
        lemma_below_reordered(a.drop_last(), b.remove(i), v);
    }
}

proof fn lemma_below_removed(values: Seq<u8>, i: int, v: int)
    requires
        0 <= i < values.len(),
    ensures
        below(values, v) == below(values.remove(i), v) + if values[i] < v {
            1nat
        } else {
            0nat
        },
    decreases values.len(),
{
    let rest = values.remove(i);
    if i == values.len() - 1 {
        assert(rest =~= values.drop_last());
    } else {
        assert(rest.drop_last() =~= values.drop_last().remove(i));
        lemma_below_removed(values.drop_last(), i, v);
    }
}

/// The squares of twice the distances are not negative, and bounded by those of
/// the largest distance.
pub proof fn lemma_squares_bounded(values: Seq<u8>, m: int)
    requires
        0 <= m <= 510,
    ensures
        0 <= squares(values, m) <= 260100 * values.len(),
    decreases values.len(),
{
    if values.len() > 0 {
        lemma_squares_bounded(values.drop_last(), m);
        let d = 2 * values.last() - m;
        assert(0 <= d * d <= 260100) by (nonlinear_arith)
            requires
                -510 <= d <= 510,
        ;
    }
}

/// A deviation is below a small integer exactly where the mean of the squared
/// distances is below its square: rounding does not change the verdict.
pub proof fn law_deviation_below(values: Seq<u8>, m: int, t: int)
    requires
        0 < values.len() <= 0x8_0000_0000,
        0 <= m <= 510,
        0 < t <= 16,
    ensures
        deviation(values, m).less(Dyadic::integer(t)) <==> squares(values, m) < 4 * ((t * t)
            * values.len()),
{
    lemma_squares_bounded(values, m);
    binary64::lemma_mean_root_below(squares(values, m), values.len() as int, t);
}

/// A deviation lies between two integers where the mean of the squared
/// distances lies between their squares.
pub proof fn lemma_deviation_between(values: Seq<u8>, m: int, lo: int, hi: int)
    requires
        0 < values.len() <= 0x8_0000_0000,
        0 <= m <= 510,
        0 <= lo,
        0 <= hi <= 256,
        4 * ((lo * lo) * values.len()) <= squares(values, m) <= 4 * ((hi * hi) * values.len()),
    ensures
        binary64::between(deviation(values, m), 256 * lo, 256 * hi),
{
    lemma_squares_bounded(values, m);
    vstd::arithmetic::power2::lemma2_to64();
    let s = squares(values, m);
    let n = values.len() as int;
    let x = Dyadic { m: s, e: -2 };
    let (l, h) = (lo * lo, hi * hi);
    assert(0 <= h <= 65536) by (nonlinear_arith)
        requires
            h == hi * hi,
            0 <= hi <= 256,
    ;
    let (low, high) = (256 * (l * n), 256 * (h * n));
    assert(n * (256 * l) == low && n * (256 * h) == high) by (nonlinear_arith)
        requires
            low == 256 * (l * n),
            high == 256 * (h * n),
    ;
    assert(x.wf());
    assert(low * vstd::arithmetic::power2::pow2(2) == 256 * (4 * (l * n)) && high
        * vstd::arithmetic::power2::pow2(2) == 256 * (4 * (h * n))) by (nonlinear_arith)
        requires
            low == 256 * (l * n),
            high == 256 * (h * n),
            vstd::arithmetic::power2::pow2(2) == 4,
    ;
    assert(binary64::between(x, low, high));
    binary64::lemma_over_between(x, n, low, high, 256 * l, 256 * h);
    assert((256 * lo) * (256 * lo) == 256 * (256 * l) && (256 * hi) * (256 * hi) == 256 * (256
        * h)) by (nonlinear_arith)
        requires
            l == lo * lo,
            h == hi * hi,
    ;
    binary64::lemma_root_between(x.over(Dyadic::integer(n)), 256 * l, 256 * h, 256 * lo, 256 * hi);
}

/// Bounds on a number tell its sign.
proof fn lemma_between_sign(d: Dyadic, lo: int, hi: int)
    requires
        binary64::between(d, lo, hi),
    ensures
        lo >= 0 ==> d.m >= 0,
        d.m >= 0 ==> binary64::between(d, raster::max(lo, 0), hi),
        d.m < 0 ==> binary64::between(d, lo, raster::min(hi, 0)),
{
    let p = vstd::arithmetic::power2::pow2((-d.e) as nat);
    vstd::arithmetic::power2::lemma_pow2_pos((-d.e) as nat);
    assert(lo >= 0 ==> lo * p >= 0) by (nonlinear_arith)
        requires
            p > 0,
    ;
    assert(0 * p == 0);
}

/// A squared distance of at most `far`.
proof fn lemma_square_up_to(d: Dyadic, far: int, hi: int)
    requires
        binary64::between(d, -far, far),
        0 <= far,
        far * far <= 256 * hi,
        hi <= 0x100_0000_0000,
    ensures
        binary64::between(d.times(d), 0, hi),
        d.times(d).m >= 0,
{
    lemma_between_sign(d, -far, far);
    binary64::lemma_square_between(d, 0, far, 0, hi);
}

/// The mean of three numbers lies between bounds on all of them.
proof fn lemma_mean_between(a: Dyadic, b: Dyadic, c: Dyadic, lo: int, hi: int)
    requires
        0 <= lo <= hi <= 0x100_0000,
        binary64::between(a, lo, hi),
        binary64::between(b, lo, hi),
        binary64::between(c, lo, hi),
    ensures
        binary64::between(mean3(a, b, c), lo, hi),
        mean3(a, b, c).m >= 0,
{
    binary64::lemma_plus_between(a, b, lo, hi, lo, hi);
    binary64::lemma_plus_between(a.plus(b), c, 2 * lo, 2 * hi, lo, hi);
    lemma_between_sign(a.plus(b).plus(c), 3 * lo, 3 * hi);
    binary64::lemma_over_between(a.plus(b).plus(c), 3, 3 * lo, 3 * hi, lo, hi);
}

/// Three numbers between the same neighbouring integers are spread by at most
/// one.
pub proof fn law_close_numbers_are_even(a: Dyadic, b: Dyadic, c: Dyadic, k: int)
    requires
        0 <= k <= 256,
        binary64::between(a, 256 * k, 256 * (k + 1)),
        binary64::between(b, 256 * k, 256 * (k + 1)),
        binary64::between(c, 256 * k, 256 * (k + 1)),
    ensures
        !Dyadic::integer(1).less(spread3(a, b, c)),
{
    let (lo, hi) = (256 * k, 256 * (k + 1));
    lemma_mean_between(a, b, c, lo, hi);
    let mean = mean3(a, b, c);
    binary64::lemma_minus_between(a, mean, lo, hi, lo, hi);
    binary64::lemma_minus_between(b, mean, lo, hi, lo, hi);
    binary64::lemma_minus_between(c, mean, lo, hi, lo, hi);
    lemma_square_up_to(a.minus(mean), 256, 256);
    lemma_square_up_to(b.minus(mean), 256, 256);
    lemma_square_up_to(c.minus(mean), 256, 256);
    let (x, y, z) = (
        squared_distance(a, mean),
        squared_distance(b, mean),
        squared_distance(c, mean),
    );
    lemma_mean_between(x, y, z, 0, 256);
    let variance = mean3(x, y, z);
    binary64::lemma_root_between(variance, 0, 256, 0, 256);
    let r = variance.root();
    vstd::arithmetic::power2::lemma2_to64();
    assert(r.scaled(r.e) == r.m) by {
        assert(r.m * 1 == r.m);
    }
    assert(Dyadic::integer(1).scaled(r.e) == vstd::arithmetic::power2::pow2((-r.e) as nat)) by {
        assert(1 * vstd::arithmetic::power2::pow2((-r.e) as nat)
            == vstd::arithmetic::power2::pow2((-r.e) as nat));
    }
}

/// The squared distance of `x` and the mean, which lies at least two away.
proof fn lemma_far_from(x: Dyadic, mean: Dyadic, point: int, top: int)
    requires
        2 <= point <= 1024,
        top == 0x1_0000,
        binary64::between(x, 0, top),
        binary64::between(mean, 0, top),
        binary64::between(x, 256 * point, top) && binary64::between(mean, 0, 256 * (point - 2)) || {
            &&& binary64::between(x, 0, 256 * (point - 2))
            &&& binary64::between(mean, 256 * point, top)
        },
    ensures
        binary64::between(squared_distance(x, mean), 1024, 0x100_0000),
{
    let d = x.minus(mean);
    binary64::lemma_minus_between(x, mean, 0, top, 0, top);
    if binary64::between(x, 256 * point, top) && binary64::between(mean, 0, 256 * (point - 2)) {
        binary64::lemma_minus_between(x, mean, 256 * point, top, 0, 256 * (point - 2));
    } else {
        binary64::lemma_minus_between(x, mean, 0, 256 * (point - 2), 256 * point, top);
    }
    binary64::lemma_square_between(d, 512, top, 1024, 0x100_0000);
}

/// Bounds may be loosened.
proof fn lemma_between_looser(d: Dyadic, lo: int, hi: int, l: int, h: int)
    requires
        binary64::between(d, lo, hi),
        l <= lo,
        hi <= h,
    ensures
        binary64::between(d, l, h),
{
    let p = vstd::arithmetic::power2::pow2((-d.e) as nat);
    vstd::arithmetic::power2::lemma_pow2_pos((-d.e) as nat);
    assert(l * p <= lo * p && hi * p <= h * p) by (nonlinear_arith)
        requires
            l <= lo,
            hi <= h,
            p > 0,
    ;
}

/// Three numbers of which two lie at least four apart are spread by more than
/// one.
pub proof fn law_distant_numbers_are_uneven(values: Seq<Dyadic>, i: int, j: int, p: int, q: int)
    requires
        values.len() == 3,
        0 <= i < 3,
        0 <= j < 3,
        0 <= q,
        q + 4 <= p <= 256,
        forall|k: int| 0 <= k < 3 ==> binary64::between(#[trigger] values[k], 0, 0x1_0000),
        binary64::between(values[i], 256 * p, 0x1_0000),
        binary64::between(values[j], 0, 256 * q),
    ensures
        Dyadic::integer(1).less(spread3(values[0], values[1], values[2])),
{
    let top: int = 0x1_0000;
    let mean = mean3(values[0], values[1], values[2]);
    lemma_mean_between(values[0], values[1], values[2], 0, top);
    let f = vstd::arithmetic::power2::pow2((-mean.e) as nat);
    let point = q + 2;
    let lower = 256 * mean.m <= (256 * point) * f;
    let hot = if lower {
        i
    } else {
        j
    };
    if lower {
        lemma_between_looser(mean, 0, 256 * point, 0, 256 * (p - 2));
        lemma_far_from(values[i], mean, p, top);
    } else {
        lemma_far_from(values[j], mean, point, top);
    }
    let far = Seq::new(3, |k: int| squared_distance(values[k], mean));
    assert forall|k: int| 0 <= k < 3 implies binary64::between(
        #[trigger] far[k],
        if k == hot {
            1024int
        } else {
            0int
        },
        0x100_0000,
    ) by {
        let x = values[k];
        binary64::lemma_minus_between(x, mean, 0, top, 0, top);
        lemma_square_up_to(x.minus(mean), top, 0x100_0000);
    }
    let m: int = 0x100_0000;
    let (a, b, c) = (far[0], far[1], far[2]);
    let l0: int = if hot == 0 {
        1024
    } else {
        0
    };
    let l1: int = if hot == 1 {
        1024
    } else {
        0
    };
    let l2: int = if hot == 2 {
        1024
    } else {
        0
    };
    assert(binary64::between(a, l0, m) && binary64::between(b, l1, m) && binary64::between(
        c,
        l2,
        m,
    ));
    binary64::lemma_plus_between(a, b, l0, m, l1, m);
    binary64::lemma_plus_between(a.plus(b), c, l0 + l1, 2 * m, l2, m);
    let sum = a.plus(b).plus(c);
    lemma_between_sign(sum, 1024, 3 * m);
    binary64::lemma_over_between(sum, 3, 1024, 3 * m, 341, m);
    let variance = mean3(a, b, c);
    assert(295 * 295 <= 256 * 341);
    binary64::lemma_root_between(variance, 341, m, 295, 0x1_0000);
    let r = variance.root();
    vstd::arithmetic::power2::lemma2_to64();
    vstd::arithmetic::power2::lemma_pow2_pos((-r.e) as nat);
    assert(r.scaled(r.e) == r.m) by {
        assert(r.m * 1 == r.m);
    }
    assert(Dyadic::integer(1).scaled(r.e) == vstd::arithmetic::power2::pow2((-r.e) as nat)) by {
        assert(1 * vstd::arithmetic::power2::pow2((-r.e) as nat)
            == vstd::arithmetic::power2::pow2((-r.e) as nat));
    }
}

/// Values with light and dark exchanged.
pub open spec fn mirrored(values: Seq<u8>) -> Seq<u8> {
    values.map_values(|v: u8| (255 - v) as u8)
}

proof fn lemma_below_mirrored(values: Seq<u8>, v: int)
    ensures
        below(mirrored(values), v) + below(values, 256 - v) == values.len(),
    decreases values.len(),
{
    if values.len() > 0 {
        lemma_below_mirrored(values.drop_last(), v);
        assert(mirrored(values).drop_last() =~= mirrored(values.drop_last()));
        assert(mirrored(values).last() == 255 - values.last());
    }
}

/// Exchanging light and dark exchanges the ends of the sorted values.
pub proof fn law_ranked_of_mirrored(values: Seq<u8>, k: int)
    requires
        0 <= k < values.len(),
    ensures
        ranked(mirrored(values), k) == 255 - ranked(values, values.len() - 1 - k),
{
    let n = values.len() as int;
    lemma_below(values, 0, 256);
    lemma_ranked_exists(values, n - 1 - k, 0);
    let w = ranked(values, n - 1 - k);
    lemma_below_mirrored(values, 255 - w);
    lemma_below_mirrored(values, 256 - w);
    lemma_ranked(mirrored(values), k, (255 - w) as u8);
}

/// Exchanging light and dark exchanges light and dark in the median: it lies
/// exactly in the middle.
pub proof fn law_median_of_mirrored(values: Seq<u8>)
    requires
        values.len() > 0,
    ensures
        doubled_median(mirrored(values)) == 510 - doubled_median(values),
{
    let mid = values.len() as int / 2;
    law_ranked_of_mirrored(values, mid);
    if values.len() % 2 == 0 {
        law_ranked_of_mirrored(values, mid - 1);
    }
}

proof fn lemma_below_counts(values: Seq<u8>, v: int, pred: spec_fn(u8) -> bool)
    requires
        forall|w: u8| #[trigger] pred(w) ==> w < v,
    ensures
        values.filter(pred).len() <= below(values, v),
    decreases values.len(),
{
    reveal(Seq::filter);
    if values.len() > 0 {
        lemma_below_counts(values.drop_last(), v, pred);
    }
}

proof fn lemma_not_below_counts(values: Seq<u8>, v: int, pred: spec_fn(u8) -> bool)
    requires
        forall|w: u8| #[trigger] pred(w) ==> w >= v,
    ensures
        values.filter(pred).len() + below(values, v) <= values.len(),
    decreases values.len(),
{
    reveal(Seq::filter);
    if values.len() > 0 {
        lemma_not_below_counts(values.drop_last(), v, pred);
    }
}

/// At most half of the values are smaller than the median, and at most half are
/// larger.
pub proof fn law_median_is_in_the_middle(values: Seq<u8>)
    requires
        values.len() > 0,
    ensures
        ({
            let m = doubled_median(values);
            &&& 0 <= m <= 510
            &&& 2 * values.filter(|v: u8| 2 * v < m).len() <= values.len()
            &&& 2 * values.filter(|v: u8| 2 * v > m).len() <= values.len()
        }),
{
    let n = values.len() as int;
    let mid = n / 2;
    let m = doubled_median(values);
    lemma_below(values, 0, 256);
    lemma_ranked_exists(values, mid, 0);
    let upper = ranked(values, mid);
    let lower = if n % 2 == 0 {
        lemma_ranked_exists(values, mid - 1, 0);
        ranked(values, mid - 1)
    } else {
        upper
    };
    if lower > upper {
        lemma_below(values, upper + 1, lower as int);
    }
    assert(lower <= upper && m == lower + upper);
    lemma_below_counts(values, upper as int, |v: u8| 2 * v < m);
    lemma_not_below_counts(values, lower + 1, |v: u8| 2 * v > m);
}

/// The pixels under a mask are exactly those that it marks, in their order:
/// each marked pixel stands behind the ones that are marked before it.
pub proof fn law_under_lists_marked<P>(pixels: Seq<P>, mask: Seq<u8>, i: int)
    requires
        0 <= i < pixels.len(),
        i < mask.len(),
        mask[i] > 0,
    ensures
        ({
            let before = mask.take(i).filter(|m: u8| m > 0).len();
            &&& before < under(pixels, mask).len()
            &&& under(pixels, mask)[before as int] == pixels[i]
        }),
        pixels.len() == mask.len() ==> under(pixels, mask).len() == mask.filter(
            |m: u8| m > 0,
        ).len(),
{
    let n = raster::min(pixels.len() as int, mask.len() as int);
    lemma_marked_counts(pixels, mask, i);
    lemma_marked_counts(pixels, mask, n);
    lemma_marked_prefix(pixels, mask, i + 1, n);
    assert(marked(pixels, mask, i + 1)[marked(pixels, mask, i).len() as int] == pixels[i]);
    assert(mask.take(mask.len() as int) =~= mask);
}

proof fn lemma_marked_counts<P>(pixels: Seq<P>, mask: Seq<u8>, n: int)
    requires
        0 <= n <= mask.len(),
    ensures
        marked(pixels, mask, n).len() == mask.take(n).filter(|m: u8| m > 0).len(),
    decreases n,
{
    reveal(Seq::filter);
    if n > 0 {
        lemma_marked_counts(pixels, mask, n - 1);
        assert(mask.take(n).drop_last() =~= mask.take(n - 1));
    }
}

proof fn lemma_marked_prefix<P>(pixels: Seq<P>, mask: Seq<u8>, k: int, n: int)
    requires
        0 <= k <= n,
    ensures
        marked(pixels, mask, k).len() <= marked(pixels, mask, n).len(),
        forall|j: int|
            0 <= j < marked(pixels, mask, k).len() ==> #[trigger] marked(pixels, mask, n)[j]
                == marked(pixels, mask, k)[j],
    decreases n,
{
    if k < n {
        lemma_marked_prefix(pixels, mask, k, n - 1);
    }
}

/// The squares of twice the distances, added up.
pub open spec fn sum_of_squares(values: Seq<u8>, m: int) -> int {
    values.fold_left(0int, |sum: int, v: u8| sum + (2 * v - m) * (2 * v - m))
}

/// The squares are those of all values.
pub proof fn law_squares_add_up(values: Seq<u8>, m: int)
    ensures
        squares(values, m) == sum_of_squares(values, m),
    decreases values.len(),
{
    reveal_with_fuel(Seq::fold_left, 2);
    if values.len() > 0 {
        law_squares_add_up(values.drop_last(), m);
    }
}

proof fn lemma_below_is_count(values: Seq<u8>, v: int, pred: spec_fn(u8) -> bool)
    requires
        forall|w: u8| #[trigger] pred(w) <==> w < v,
    ensures
        values.filter(pred).len() == below(values, v),
    decreases values.len(),
{
    reveal(Seq::filter);
    if values.len() > 0 {
        lemma_below_is_count(values.drop_last(), v, pred);
    }
}

/// The value at an index of the sorted values has at most that many values
/// below it, and more than that many not above it.
pub proof fn law_ranked_splits(values: Seq<u8>, k: int)
    requires
        0 <= k < values.len(),
    ensures
        ({
            let value = ranked(values, k);
            &&& values.filter(|a: u8| a < value).len() <= k
            &&& k < values.filter(|a: u8| a <= value).len()
        }),
{
    lemma_below(values, 0, 256);
    lemma_ranked_exists(values, k, 0);
    let value = ranked(values, k);
    lemma_below_is_count(values, value as int, |a: u8| a < value);
    lemma_below_is_count(values, value + 1, |a: u8| a <= value);
}

} // verus!
