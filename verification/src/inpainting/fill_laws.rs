//! What the balloon fill promises, told by the colors of the page.
use crate::imaging;
use crate::inpainting::{balloon, polygon, statistics};
use crate::binary64::{self, Dyadic};
use crate::raster::{self, Plane};
use vstd::prelude::*;

verus! {

/// One channel of the background.
pub open spec fn tone(background: Seq<[u8; 3]>, c: int) -> Seq<u8> {
    background.map_values(|p: [u8; 3]| p@[c])
}

/// The sum of the squares of twice the distances between one channel of the
/// background and its median.
pub open spec fn unrest(background: Seq<[u8; 3]>, c: int) -> int {
    statistics::sum_of_squares(
        tone(background, c),
        statistics::doubled_median(tone(background, c)),
    )
}

/// The background of a balloon.
pub open spec fn background_of(image: Plane<[u8; 3]>, non_text: Plane<u8>) -> Seq<[u8; 3]> {
    statistics::under(image.pixels, non_text.pixels)
}

/// Backgrounds whose squares can be added up exactly.
pub open spec fn countable(background: Seq<[u8; 3]>) -> bool {
    0 < background.len() <= 0x8_0000_0000
}

proof fn lemma_tone(background: Seq<[u8; 3]>, c: int)
    requires
        countable(background),
        0 <= c < 3,
    ensures
        tone(background, c) == statistics::channel(background, c),
        unrest(background, c) == statistics::squares(
            statistics::channel(background, c),
            statistics::doubled_median(statistics::channel(background, c)),
        ),
        0 <= unrest(background, c) <= 260100 * background.len(),
        0 <= statistics::doubled_median(statistics::channel(background, c)) <= 510,
{
    let values = statistics::channel(background, c);
    assert(tone(background, c) =~= values);
    let m = statistics::doubled_median(values);
    statistics::law_median_is_in_the_middle(values);
    statistics::law_squares_add_up(values, m);
    statistics::lemma_squares_bounded(values, m);
}

/// A channel deviates by less than a small integer exactly where its unrest is
/// below that of values that far away.
proof fn lemma_channel_below(background: Seq<[u8; 3]>, c: int, t: int)
    requires
        countable(background),
        0 <= c < 3,
        0 < t <= 16,
    ensures
        balloon::deviation_of(background, c).less(Dyadic::integer(t)) <==> unrest(background, c) < 4
            * ((t * t) * background.len()),
{
    lemma_tone(background, c);
    let values = statistics::channel(background, c);
    statistics::law_deviation_below(values, statistics::doubled_median(values), t);
}

/// A background with one channel, whichever it is, that deviates from its
/// median by ten or more in the root mean square is not filled.
pub proof fn law_busy_channel_is_not_filled(
    image: Plane<[u8; 3]>,
    balloon: Plane<u8>,
    non_text: Plane<u8>,
    result: Option<Plane<[u8; 3]>>,
    c: int,
)
    requires
        countable(background_of(image, non_text)),
        balloon::fill_outcome(image, Some((balloon, non_text)), result),
        0 <= c < 3,
        unrest(background_of(image, non_text), c) >= 4 * (100 * background_of(
            image,
            non_text,
        ).len()),
    ensures
        result is None,
{
    let background = background_of(image, non_text);
    lemma_channel_below(background, c, 10);
    lemma_channel_below(background, c, 7);
    assert((10int * 10int) * background.len() == 100 * background.len());
    assert((7int * 7int) * background.len() == 49 * background.len());
}

/// A background of which no channel deviates from its median by seven or more
/// is filled.
pub proof fn law_calm_background_is_filled(
    image: Plane<[u8; 3]>,
    balloon: Plane<u8>,
    non_text: Plane<u8>,
    result: Option<Plane<[u8; 3]>>,
)
    requires
        countable(background_of(image, non_text)),
        balloon::fill_outcome(image, Some((balloon, non_text)), result),
        forall|c: int|
            0 <= c < 3 ==> #[trigger] unrest(background_of(image, non_text), c) < 4 * (49
                * background_of(image, non_text).len()),
    ensures
        result is Some,
{
    let background = background_of(image, non_text);
    assert forall|c: int| 0 <= c < 3 implies #[trigger] balloon::deviation_of(background, c).less(
        Dyadic::integer(7),
    ) && balloon::deviation_of(background, c).less(Dyadic::integer(10)) by {
        assert(unrest(background, c) < 4 * (49 * background.len()));
        lemma_channel_below(background, c, 10);
        lemma_channel_below(background, c, 7);
        assert((10int * 10int) * background.len() == 100 * background.len());
        assert((7int * 7int) * background.len() == 49 * background.len());
    }
    assert(balloon::deviation_of(background, 0).less(Dyadic::integer(7)));
    assert(balloon::deviation_of(background, 1).less(Dyadic::integer(7)));
    assert(balloon::deviation_of(background, 2).less(Dyadic::integer(7)));
    assert(balloon::simple(background));
}

/// Whether a channel deviates from its median by at least `lo` and at most `hi`
/// in the root mean square.
pub open spec fn deviates(background: Seq<[u8; 3]>, c: int, lo: int, hi: int) -> bool {
    4 * ((lo * lo) * background.len()) <= unrest(background, c) <= 4 * ((hi * hi)
        * background.len())
}

proof fn lemma_deviates(background: Seq<[u8; 3]>, c: int, lo: int, hi: int)
    requires
        countable(background),
        0 <= c < 3,
        0 <= lo,
        0 <= hi <= 256,
        deviates(background, c, lo, hi),
    ensures
        binary64::between(balloon::deviation_of(background, c), 256 * lo, 256 * hi),
{
    lemma_tone(background, c);
    let values = statistics::channel(background, c);
    statistics::lemma_deviation_between(values, statistics::doubled_median(values), lo, hi);
}

/// No channel deviates by more than 256.
proof fn lemma_deviates_at_all(background: Seq<[u8; 3]>, c: int)
    requires
        countable(background),
        0 <= c < 3,
    ensures
        deviates(background, c, 0, 256),
{
    lemma_tone(background, c);
    assert((256int * 256int) * background.len() == 65536 * background.len());
    assert((0int * 0int) * background.len() == 0);
}

/// A background whose channels all deviate by between the same neighbouring
/// numbers, below ten, is filled: the channels are evenly busy.
pub proof fn law_evenly_busy_background_is_filled(
    image: Plane<[u8; 3]>,
    balloon: Plane<u8>,
    non_text: Plane<u8>,
    result: Option<Plane<[u8; 3]>>,
    k: int,
)
    requires
        countable(background_of(image, non_text)),
        balloon::fill_outcome(image, Some((balloon, non_text)), result),
        0 <= k <= 9,
        forall|c: int|
            0 <= c < 3 ==> #[trigger] deviates(background_of(image, non_text), c, k, k + 1),
        forall|c: int|
            0 <= c < 3 ==> #[trigger] unrest(background_of(image, non_text), c) < 4 * (100
                * background_of(image, non_text).len()),
    ensures
        result is Some,
{
    let background = background_of(image, non_text);
    assert(deviates(background, 0, k, k + 1));
    assert(deviates(background, 1, k, k + 1));
    assert(deviates(background, 2, k, k + 1));
    lemma_deviates(background, 0, k, k + 1);
    lemma_deviates(background, 1, k, k + 1);
    lemma_deviates(background, 2, k, k + 1);
    let (r, g, b) = (
        balloon::deviation_of(background, 0),
        balloon::deviation_of(background, 1),
        balloon::deviation_of(background, 2),
    );
    statistics::law_close_numbers_are_even(r, g, b, k);
    assert(unrest(background, 0) < 4 * (100 * background.len()));
    assert(unrest(background, 1) < 4 * (100 * background.len()));
    assert(unrest(background, 2) < 4 * (100 * background.len()));
    assert((10int * 10int) * background.len() == 100 * background.len());
    lemma_channel_below(background, 0, 10);
    lemma_channel_below(background, 1, 10);
    lemma_channel_below(background, 2, 10);
    assert(balloon::simple(background));
}

/// A background with a channel that deviates by seven or more is not filled
/// where the deviations of two channels lie at least four apart: the channels
/// are unevenly busy.
pub proof fn law_unevenly_busy_background_is_not_filled(
    image: Plane<[u8; 3]>,
    balloon: Plane<u8>,
    non_text: Plane<u8>,
    result: Option<Plane<[u8; 3]>>,
    busy: int,
    i: int,
    j: int,
    p: int,
    q: int,
)
    requires
        countable(background_of(image, non_text)),
        balloon::fill_outcome(image, Some((balloon, non_text)), result),
        0 <= busy < 3,
        0 <= i < 3,
        0 <= j < 3,
        0 <= q,
        q + 4 <= p <= 256,
        unrest(background_of(image, non_text), busy) >= 4 * (49 * background_of(
            image,
            non_text,
        ).len()),
        deviates(background_of(image, non_text), i, p, 256),
        deviates(background_of(image, non_text), j, 0, q),
    ensures
        result is None,
{
    let background = background_of(image, non_text);
    let values = Seq::new(3, |c: int| balloon::deviation_of(background, c));
    assert forall|c: int| 0 <= c < 3 implies binary64::between(
        #[trigger] values[c],
        0,
        0x1_0000,
    ) by {
        lemma_deviates_at_all(background, c);
        lemma_deviates(background, c, 0, 256);
    }
    lemma_deviates(background, i, p, 256);
    lemma_deviates(background, j, 0, q);
    statistics::law_distant_numbers_are_uneven(values, i, j, p, q);
    lemma_channel_below(background, busy, 7);
    assert((7int * 7int) * background.len() == 49 * background.len());
}

/// Where text is filled, it gets the median color of the background, fractions
/// dropped, and nothing else changes.
pub proof fn law_fill_gives_text_the_median(
    image: Plane<[u8; 3]>,
    balloon: Plane<u8>,
    non_text: Plane<u8>,
    out: Plane<[u8; 3]>,
)
    requires
        balloon::fill_outcome(image, Some((balloon, non_text)), Some(out)),
    ensures
        out.wf(),
        out.same_size(image),
        background_of(image, non_text).len() > 0,
        forall|x: int, y: int, c: int|
            #![trigger out.at(x, y)@[c]]
            image.inside(x, y) && 0 <= c < 3 ==> out.at(x, y)@[c] == (if balloon.at(x, y) > 0
                && non_text.at(x, y) == 0 {
                statistics::doubled_median(tone(background_of(image, non_text), c)) / 2
            } else {
                image.at(x, y)@[c] as int
            }),
{
    broadcast use raster::lemma_tabulate;

    let background = background_of(image, non_text);
    let color = choose|color: [u8; 3]| #[trigger]
        balloon::median_color(background, color) && out == balloon::filled(
            image,
            balloon,
            non_text,
            color,
        );
    assert forall|x: int, y: int, c: int|
        #![trigger out.at(x, y)@[c]]
        image.inside(x, y) && 0 <= c < 3 implies out.at(x, y)@[c] == (if balloon.at(x, y) > 0
        && non_text.at(x, y) == 0 {
        statistics::doubled_median(tone(background, c)) / 2
    } else {
        image.at(x, y)@[c] as int
    }) by {
        assert(tone(background, c) =~= statistics::channel(background, c));
        assert(color@[c] == statistics::doubled_median(statistics::channel(background, c)) / 2);
    }
}

/// Whether an edge lies at `(x, y)` or next to it.
pub open spec fn near_edge(edges: Plane<u8>, x: int, y: int) -> bool {
    exists|i: int, j: int|
        #![trigger edges.at(i, j)]
        x - 1 <= i <= x + 1 && y - 1 <= j <= y + 1 && edges.inside(i, j) && edges.at(i, j) > 0
}

/// The lines that a balloon may follow run along the edges and around the
/// image, and leave the marked pixels out.
pub proof fn law_lines_of_balloons(edges: Plane<u8>, mask: Plane<u8>, x: int, y: int)
    requires
        edges.same_size(mask),
        mask.inside(x, y),
    ensures
        balloon::outlines(edges, mask).same_size(mask),
        balloon::outlines(edges, mask).at(x, y) == (if mask.at(x, y) == 0 && (x == 0 || y == 0 || x
            + 1 == mask.width || y + 1 == mask.height || near_edge(edges, x, y)) {
            255u8
        } else {
            0u8
        }),
{
    broadcast use raster::lemma_tabulate;

    if imaging::near_foreground(edges, 1, x, y) {
        let (i, j) = choose|i: int, j: int|
            #![trigger imaging::foreground(edges, i, j)]
            imaging::foreground(edges, i, j) && -1 <= i - x <= 1 && -1 <= j - y <= 1;
        assert(edges.at(i, j) > 0);
    }
    if near_edge(edges, x, y) {
        let (i, j) = choose|i: int, j: int|
            #![trigger edges.at(i, j)]
            x - 1 <= i <= x + 1 && y - 1 <= j <= y + 1 && edges.inside(i, j) && edges.at(i, j) > 0;
        assert(imaging::foreground(edges, i, j));
    }
    let wide = imaging::dilated(edges, 1);
    assert(wide.at(x, y) == (if near_edge(edges, x, y) {
        255u8
    } else {
        0u8
    }));
}

/// Whether the filled polygon paints all marked pixels and its bounding box
/// holds them.
pub open spec fn takes_in(path: Seq<(i32, i32)>, mask: Plane<u8>) -> bool {
    forall|x: int, y: int| #[trigger]
        imaging::foreground(mask, x, y) ==> {
            &&& imaging::polygon_pixels(mask.width, mask.height, path, 255)[y * mask.width + x] > 0
            &&& polygon::polygon_box(path).0 <= x < polygon::polygon_box(path).2
            &&& polygon::polygon_box(path).1 <= y < polygon::polygon_box(path).3
        }
}

/// Whether polygon `i` of the contours takes in all marked pixels, and none of
/// the others that do is smaller, nor as small and found before.
pub open spec fn is_tightest(
    contours: Seq<(bool, Option<usize>, Seq<(i32, i32)>)>,
    mask: Plane<u8>,
    i: int,
    path: Seq<(i32, i32)>,
) -> bool {
    &&& 0 <= i < contours.len()
    &&& polygon::open_path(contours[i].2) == Some(path)
    &&& takes_in(path, mask)
    &&& forall|j: int, other: Seq<(i32, i32)>|
        #![trigger polygon::open_path(contours[j].2), takes_in(other, mask)]
        0 <= j < contours.len() && polygon::open_path(contours[j].2) == Some(other) && takes_in(
            other,
            mask,
        ) ==> {
            &&& !polygon::area(other).less(polygon::area(path))
            &&& j < i ==> polygon::area(path).less(polygon::area(other))
        }
}

proof fn lemma_takes_in(path: Seq<(i32, i32)>, mask: Plane<u8>)
    ensures
        takes_in(path, mask) <==> balloon::surrounds(path, mask),
{
    if takes_in(path, mask) {
        assert forall|x: int, y: int| #[trigger] imaging::foreground(mask, x, y) implies
            balloon::drawn(mask.width, mask.height, path).at(x, y) > 0 by {
            assert(imaging::polygon_pixels(mask.width, mask.height, path, 255)[y * mask.width + x]
                > 0);
        }
    }
    if balloon::surrounds(path, mask) {
        assert forall|x: int, y: int| #[trigger] imaging::foreground(mask, x, y) implies
            imaging::polygon_pixels(mask.width, mask.height, path, 255)[y * mask.width + x] > 0
            && polygon::polygon_box(path).0 <= x < polygon::polygon_box(path).2
            && polygon::polygon_box(path).1 <= y < polygon::polygon_box(path).3 by {
            assert(balloon::drawn(mask.width, mask.height, path).at(x, y) > 0);
        }
    }
}

/// The balloon is the first of the smallest polygons that take in all marked
/// pixels; there is none only where no polygon does.
pub proof fn law_tightest_polygon_is_chosen(
    contours: Seq<(bool, Option<usize>, Seq<(i32, i32)>)>,
    mask: Plane<u8>,
)
    ensures
        match balloon::smallest_around(contours, mask) {
            Some(path) => exists|i: int| #[trigger] is_tightest(contours, mask, i, path),
            None => forall|j: int, other: Seq<(i32, i32)>|
                #![trigger polygon::open_path(contours[j].2), takes_in(other, mask)]
                0 <= j < contours.len() && polygon::open_path(contours[j].2) == Some(other)
                    ==> !takes_in(other, mask),
        },
    decreases contours.len(),
{
    if contours.len() > 0 {
        let earlier = contours.drop_last();
        let n = contours.len() - 1;
        law_tightest_polygon_is_chosen(earlier, mask);
        let before = balloon::smallest_around(earlier, mask);
        let after = balloon::smallest_around(contours, mask);
        let last = polygon::open_path(contours[n].2);
        if let Some(path) = last {
            lemma_takes_in(path, mask);
        }
        if before is Some {
            let best = before.unwrap();
            let i = choose|i: int| #[trigger] is_tightest(earlier, mask, i, best);
            if after == Some(best) && !(last is Some && balloon::surrounds(last.unwrap(), mask)
                && balloon::improves(last.unwrap(), before)) {
                assert forall|j: int, other: Seq<(i32, i32)>|
                    #![trigger polygon::open_path(contours[j].2), takes_in(other, mask)]
                    0 <= j < contours.len() && polygon::open_path(contours[j].2) == Some(other)
                        && takes_in(other, mask) implies !polygon::area(other).less(
                    polygon::area(best),
                ) && (j < i ==> polygon::area(best).less(polygon::area(other))) by {
                    if j < n {
                        assert(earlier[j] == contours[j]);
                    }
                }
                assert(earlier[i] == contours[i]);
                assert(is_tightest(contours, mask, i, best));
            } else {
                let path = last.unwrap();
                assert forall|j: int, other: Seq<(i32, i32)>|
                    #![trigger polygon::open_path(contours[j].2), takes_in(other, mask)]
                    0 <= j < contours.len() && polygon::open_path(contours[j].2) == Some(other)
                        && takes_in(other, mask) implies !polygon::area(other).less(
                    polygon::area(path),
                ) && (j < n ==> polygon::area(path).less(polygon::area(other))) by {
                    if j < n {
                        assert(earlier[j] == contours[j]);
                        binary64::lemma_less_trans(
                            polygon::area(other),
                            polygon::area(best),
                            polygon::area(path),
                        );
                        binary64::lemma_less_strict(
                            polygon::area(path),
                            polygon::area(best),
                            polygon::area(other),
                        );
                    }
                }
                assert(is_tightest(contours, mask, n, path));
            }
        } else {
            if after is Some {
                let path = last.unwrap();
                assert forall|j: int, other: Seq<(i32, i32)>|
                    #![trigger polygon::open_path(contours[j].2), takes_in(other, mask)]
                    0 <= j < contours.len() && polygon::open_path(contours[j].2) == Some(other)
                        && takes_in(other, mask) implies !polygon::area(other).less(
                    polygon::area(path),
                ) && (j < n ==> polygon::area(path).less(polygon::area(other))) by {
                    if j < n {
                        assert(earlier[j] == contours[j]);
                    }
                }
                assert(is_tightest(contours, mask, n, path));
            } else {
                assert forall|j: int, other: Seq<(i32, i32)>|
                    #![trigger polygon::open_path(contours[j].2), takes_in(other, mask)]
                    0 <= j < contours.len() && polygon::open_path(contours[j].2) == Some(
                        other,
                    ) implies !takes_in(other, mask) by {
                    if j < n {
                        assert(earlier[j] == contours[j]);
                    }
                }
            }
        }
    }
}

/// Whether `edges` are the Canny edges, from 70 and 140 on, of the luminance of
/// the image blurred by one pixel.
pub open spec fn are_edges(
    image: Plane<[u8; 3]>,
    luma: Seq<u8>,
    blurred: Seq<u8>,
    edges: Plane<u8>,
) -> bool {
    &&& edges.wf()
    &&& edges.same_size(image)
    &&& imaging::luma_of(image.width, image.height, image.pixels, luma)
    &&& imaging::blur_of(image.width, image.height, luma, 1, blurred)
    &&& imaging::canny_of(image.width, image.height, blurred, 70, 140, edges.pixels)
}

/// Whether `masks` are what is found for the marked pixels along the edges: the
/// tightest polygon, filled in white, and the same without the marked pixels.
pub open spec fn found_along(
    edges: Plane<u8>,
    mask: Plane<u8>,
    masks: Option<(Plane<u8>, Plane<u8>)>,
) -> bool {
    let lines = balloon::outlines(edges, mask);
    let contours = imaging::borders(lines.width, lines.height, lines.pixels);
    match masks {
        Some((balloon, non_text)) => exists|i: int, path: Seq<(i32, i32)>|
            {
                &&& #[trigger] is_tightest(contours, mask, i, path)
                &&& balloon.same_size(mask)
                &&& balloon.pixels == imaging::polygon_pixels(mask.width, mask.height, path, 255)
                &&& non_text.wf() && non_text.same_size(mask)
                &&& forall|x: int, y: int|
                    mask.inside(x, y) ==> #[trigger] non_text.at(x, y) == (if mask.at(x, y) > 0 {
                        0u8
                    } else {
                        balloon.at(x, y)
                    })
            },
        None => forall|j: int, other: Seq<(i32, i32)>|
            #![trigger polygon::open_path(contours[j].2), takes_in(other, mask)]
            0 <= j < contours.len() && polygon::open_path(contours[j].2) == Some(other)
                ==> !takes_in(other, mask),
    }
}

/// The balloon is found along the edges of the image. Nothing is found where no
/// pixel is marked, or image and mask differ in size.
pub proof fn law_balloon_is_found_along_edges(
    image: Plane<[u8; 3]>,
    mask: Plane<u8>,
    masks: Option<(Plane<u8>, Plane<u8>)>,
)
    requires
        balloon::extracted(image, mask, masks),
    ensures
        image.same_size(mask) && (exists|x: int, y: int| imaging::foreground(mask, x, y))
            ==> exists|luma: Seq<u8>, blurred: Seq<u8>, edges: Plane<u8>|
            #[trigger] are_edges(image, luma, blurred, edges) && found_along(edges, mask, masks),
        !image.same_size(mask) || (forall|x: int, y: int| !imaging::foreground(mask, x, y))
            ==> masks is None,
{
    broadcast use raster::lemma_tabulate;

    if image.same_size(mask) && balloon::marks_any(mask) {
        let edges = choose|edges: Plane<u8>|
            #![trigger balloon::edges_of(image, edges)]
            balloon::edges_of(image, edges) && masks == balloon::balloon_in(edges, mask);
        let (luma, blurred) = choose|luma: Seq<u8>, blurred: Seq<u8>|
            {
                &&& imaging::luma_of(image.width, image.height, image.pixels, luma)
                &&& #[trigger] imaging::blur_of(image.width, image.height, luma, 1, blurred)
                &&& imaging::canny_of(
                    image.width,
                    image.height,
                    blurred,
                    balloon::BALLOON_CANNY_LOW,
                    balloon::BALLOON_CANNY_HIGH,
                    edges.pixels,
                )
            };
        assert(are_edges(image, luma, blurred, edges));
        let lines = balloon::outlines(edges, mask);
        let contours = imaging::borders(lines.width, lines.height, lines.pixels);
        law_tightest_polygon_is_chosen(contours, mask);
        if let Some(path) = balloon::smallest_around(contours, mask) {
            let i = choose|i: int| #[trigger] is_tightest(contours, mask, i, path);
            assert(is_tightest(contours, mask, i, path));
        }
        assert(found_along(edges, mask, masks));
    }
}

/// The balloon found along the edges of the image alone decides whether text is
/// filled, and with which color. Without a balloon nothing is filled.
pub proof fn law_balloon_decides_the_fill(
    image: Plane<[u8; 3]>,
    mask: Plane<u8>,
    result: Option<Plane<[u8; 3]>>,
)
    requires
        balloon::balloon_outcome(image, mask, result),
    ensures
        image.same_size(mask) && (exists|x: int, y: int| imaging::foreground(mask, x, y))
            ==> exists|
            luma: Seq<u8>,
            blurred: Seq<u8>,
            edges: Plane<u8>,
            masks: Option<(Plane<u8>, Plane<u8>)>,
        |
            {
                &&& #[trigger] are_edges(image, luma, blurred, edges)
                &&& #[trigger] found_along(edges, mask, masks)
                &&& match masks {
                    Some((balloon, non_text)) => balloon::fill_outcome(
                        image,
                        Some((balloon, non_text)),
                        result,
                    ),
                    None => result is None,
                }
            },
        !image.same_size(mask) || (forall|x: int, y: int| !imaging::foreground(mask, x, y))
            ==> result is None,
{
    let masks = choose|masks: Option<(Plane<u8>, Plane<u8>)>| #[trigger]
        balloon::extracted(image, mask, masks) && balloon::fill_outcome(image, masks, result);
    law_balloon_is_found_along_edges(image, mask, masks);
}

} // verus!
