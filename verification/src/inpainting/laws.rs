//! What the strategies promise of a page as a whole, told by what the model is
//! asked and by what becomes of its answers.
use crate::imaging::{self, Filter};
use crate::inpainting::geometry::{self, Rect};
use crate::inpainting::strategy::{
    self, HdStrategy, HdStrategyConfig, InpaintError, InpaintForward, Outcome,
};
use crate::inpainting::scaling;
use crate::raster::{self, Plane};
use vstd::prelude::*;

verus! {

/// Whether `side` is the smallest multiple of `pad_mod` that holds `part`
/// pixels, or `part` itself where `pad_mod` is zero.
pub open spec fn padded_side(side: int, part: int, pad_mod: int) -> bool {
    if pad_mod == 0 {
        side == part
    } else {
        side % pad_mod == 0 && part <= side < part + pad_mod
    }
}

/// Whether a line of `len` pixels that is read forth and back, again and again,
/// comes to pixel `source` at step `i`.
pub open spec fn folds_to(i: int, len: int, source: int) -> bool {
    0 <= source < len && exists|k: int|
        i == 2 * len * k + source || i == #[trigger] (2 * len * k) + (2 * len - 1 - source)
}

/// Whether `wide` shows `plane` in its top left corner, continued to the right
/// and to the bottom by its mirror image up to multiples of `pad_mod`.
pub open spec fn extends<P>(wide: Plane<P>, plane: Plane<P>, pad_mod: int) -> bool {
    &&& wide.wf()
    &&& padded_side(wide.width as int, plane.width as int, pad_mod)
    &&& padded_side(wide.height as int, plane.height as int, pad_mod)
    &&& forall|x: int, y: int, i: int, j: int|
        #![trigger wide.at(x, y), plane.at(i, j)]
        wide.inside(x, y) && folds_to(x, plane.width as int, i) && folds_to(
            y,
            plane.height as int,
            j,
        ) ==> wide.at(x, y) == plane.at(i, j)
}

/// Whether `result` is the top left part of what the model put out, or its
/// error.
pub open spec fn cut_from(result: Outcome, out: Outcome, width: nat, height: nat) -> bool {
    match (result, out) {
        (Ok(r), Ok(o)) => {
            &&& r.wf()
            &&& r.width == width
            &&& r.height == height
            &&& forall|x: int, y: int| r.inside(x, y) ==> #[trigger] r.at(x, y) == o.at(x, y)
        },
        (Err(e), Err(f)) => e == f,
        _ => false,
    }
}

/// Whether `result` stems from asking the model about the image under the mask,
/// both continued to multiples of `pad_mod`.
pub open spec fn single_pass<F: InpaintForward>(
    model: &F,
    image: Plane<[u8; 3]>,
    mask: Plane<u8>,
    pad_mod: int,
    result: Outcome,
) -> bool {
    exists|a: Plane<[u8; 3]>, m: Plane<u8>, out: Outcome|
        {
            &&& #[trigger] model.may_return(a, m, out)
            &&& extends(a, image, pad_mod)
            &&& extends(m, mask, pad_mod)
            &&& cut_from(result, out, image.width, image.height)
        }
}

proof fn lemma_padded_side(part: int, pad_mod: int)
    requires
        part >= 0,
        pad_mod >= 0,
    ensures
        padded_side(geometry::next_multiple(part, pad_mod), part, pad_mod),
{
    if pad_mod > 0 {
        geometry::lemma_next_multiple(part, pad_mod);
    }
}

proof fn lemma_folds(i: int, len: int, source: int)
    requires
        i >= 0,
        len > 0,
        folds_to(i, len, source),
    ensures
        geometry::reflected(i, len) == source,
{
    let k = choose|k: int|
        i == 2 * len * k + source || i == #[trigger] (2 * len * k) + (2 * len - 1 - source);
    vstd::arithmetic::mul::lemma_mul_is_commutative(2 * len, k);
    if i == 2 * len * k + source {
        vstd::arithmetic::div_mod::lemma_fundamental_div_mod_converse(i, 2 * len, k, source);
    } else {
        vstd::arithmetic::div_mod::lemma_fundamental_div_mod_converse(
            i,
            2 * len,
            k,
            2 * len - 1 - source,
        );
    }
}

/// A padded image continues the image by its mirror image.
pub proof fn law_padding_mirrors<P>(plane: Plane<P>, pad_mod: int)
    requires
        plane.wf(),
        pad_mod >= 0,
    ensures
        extends(
            strategy::padded(
                plane,
                geometry::next_multiple(plane.width as int, pad_mod) as nat,
                geometry::next_multiple(plane.height as int, pad_mod) as nat,
            ),
            plane,
            pad_mod,
        ),
{
    broadcast use raster::lemma_tabulate;

    lemma_padded_side(plane.width as int, pad_mod);
    lemma_padded_side(plane.height as int, pad_mod);
    let w = geometry::next_multiple(plane.width as int, pad_mod) as nat;
    let h = geometry::next_multiple(plane.height as int, pad_mod) as nat;
    let wide = strategy::padded(plane, w, h);
    assert forall|x: int, y: int, i: int, j: int|
        #![trigger wide.at(x, y), plane.at(i, j)]
        wide.inside(x, y) && folds_to(x, plane.width as int, i) && folds_to(
            y,
            plane.height as int,
            j,
        ) implies wide.at(x, y) == plane.at(i, j) by {
        lemma_folds(x, plane.width as int, i);
        lemma_folds(y, plane.height as int, j);
    }
}

/// An image needs no continuation where its sides are multiples already.
proof fn lemma_extends_itself<P>(plane: Plane<P>, pad_mod: int)
    requires
        plane.wf(),
        pad_mod >= 0,
        geometry::next_multiple(plane.width as int, pad_mod) == plane.width,
        geometry::next_multiple(plane.height as int, pad_mod) == plane.height,
    ensures
        extends(plane, plane, pad_mod),
{
    lemma_padded_side(plane.width as int, pad_mod);
    lemma_padded_side(plane.height as int, pad_mod);
    assert forall|x: int, y: int, i: int, j: int|
        #![trigger plane.at(x, y), plane.at(i, j)]
        plane.inside(x, y) && folds_to(x, plane.width as int, i) && folds_to(
            y,
            plane.height as int,
            j,
        ) implies plane.at(x, y) == plane.at(i, j) by {
        lemma_folds(x, plane.width as int, i);
        lemma_folds(y, plane.height as int, j);
        geometry::law_reflection(x, plane.width as int);
        geometry::law_reflection(y, plane.height as int);
    }
}

/// The padded forward pass asks the model once, about the image and the mask
/// continued by their mirror images, and cuts its answer back.
pub proof fn law_padded_pass<F: InpaintForward>(
    model: &F,
    image: Plane<[u8; 3]>,
    mask: Plane<u8>,
    pad_mod: int,
    result: Outcome,
)
    requires
        image.wf(),
        mask.wf(),
        mask.same_size(image),
        pad_mod >= 0,
        strategy::pad_forward_outcome(model, image, mask, pad_mod, result),
    ensures
        single_pass(model, image, mask, pad_mod, result),
{
    broadcast use raster::lemma_tabulate;

    let w = geometry::next_multiple(image.width as int, pad_mod) as nat;
    let h = geometry::next_multiple(image.height as int, pad_mod) as nat;
    lemma_padded_side(image.width as int, pad_mod);
    lemma_padded_side(image.height as int, pad_mod);
    if w == image.width && h == image.height {
        lemma_extends_itself(image, pad_mod);
        lemma_extends_itself(mask, pad_mod);
        assert(cut_from(result, result, image.width, image.height));
        assert(model.may_return(image, mask, result));
    } else {
        let (a, m) = (strategy::padded(image, w, h), strategy::padded(mask, w, h));
        let out = choose|out: Outcome|
            #![trigger strategy::forward_outcome(model, a, m, out)]
            {
                &&& strategy::forward_outcome(model, a, m, out)
                &&& result == strategy::unpadded(out, image.width as int, image.height as int)
            };
        law_padding_mirrors(image, pad_mod);
        law_padding_mirrors(mask, pad_mod);
        assert(model.may_return(a, m, out));
        assert(cut_from(result, out, image.width, image.height));
    }
}

/// Whether `binary` is white where `gray` is above middle gray, and black
/// elsewhere.
pub open spec fn splits(binary: Plane<u8>, gray: Plane<u8>) -> bool {
    &&& binary.wf()
    &&& binary.same_size(gray)
    &&& forall|x: int, y: int|
        binary.inside(x, y) ==> #[trigger] binary.at(x, y) == (if gray.at(x, y) >= 128 {
            255u8
        } else {
            0u8
        })
}

/// A mask is split at middle gray.
pub proof fn law_binarizing_splits(gray: Plane<u8>)
    ensures
        splits(strategy::binarized(gray), gray),
{
    broadcast use raster::lemma_tabulate;

}

/// Whether a size `(nw, nh)` is that of an image of `w` by `h` pixels whose
/// longer side is brought down to `limit`.
pub open spec fn shrunk_size(nw: int, nh: int, w: int, h: int, limit: int) -> bool {
    &&& 1 <= nw <= limit && 1 <= nh <= limit
    &&& nw == limit || nh == limit
    &&& w >= h ==> nw == limit && -w < nh * w - h * limit < w
    &&& h >= w ==> nh == limit && -h < nw * h - w * limit < h
}

/// Whether `result` stems from one pass on the shrunk image under the shrunk
/// mask, enlarged to the size of the image again; where the mask is dark the
/// image is kept.
pub open spec fn shrunk_pass<F: InpaintForward>(
    model: &F,
    image: Plane<[u8; 3]>,
    mask: Plane<u8>,
    cfg: HdStrategyConfig,
    result: Outcome,
) -> bool {
    exists|
        small: Plane<[u8; 3]>,
        gray: Plane<u8>,
        binary: Plane<u8>,
        out: Outcome,
        full: Plane<[u8; 3]>,
    |
        {
            &&& #[trigger] single_pass(model, small, binary, cfg.pad_mod as int, out)
            &&& #[trigger] splits(binary, gray)
            &&& #[trigger] full.same_size(image)
            &&& small.same_size(gray)
            &&& 0 < image.width && 0 < image.height && 0 < cfg.resize_limit ==> shrunk_size(
                small.width as int,
                small.height as int,
                image.width as int,
                image.height as int,
                cfg.resize_limit as int,
            )
            &&& imaging::resize_rgb_of(
                image.width,
                image.height,
                image.pixels,
                small.width as u32,
                small.height as u32,
                Filter::Triangle,
                small.pixels,
            )
            &&& imaging::resize_gray_of(
                mask.width,
                mask.height,
                mask.pixels,
                small.width as u32,
                small.height as u32,
                Filter::Triangle,
                gray.pixels,
            )
            &&& match (result, out) {
                (Ok(r), Ok(o)) => {
                    &&& r.wf() && r.same_size(image)
                    &&& imaging::resize_rgb_of(
                        o.width,
                        o.height,
                        o.pixels,
                        image.width as u32,
                        image.height as u32,
                        Filter::CatmullRom,
                        full.pixels,
                    )
                    &&& forall|x: int, y: int|
                        r.inside(x, y) ==> #[trigger] r.at(x, y) == (if mask.at(x, y) <= 126 {
                            image.at(x, y)
                        } else {
                            full.at(x, y)
                        })
                },
                (Err(e), Err(f)) => e == f,
                _ => false,
            }
        }
}

/// The Resize strategy asks the model once, about an image whose longer side
/// is the limit.
pub proof fn law_resized_pass<F: InpaintForward>(
    model: &F,
    image: Plane<[u8; 3]>,
    mask: Plane<u8>,
    cfg: HdStrategyConfig,
    result: Outcome,
)
    requires
        image.wf(),
        mask.same_size(image),
        image.width < 0x1_0000_0000,
        image.height < 0x1_0000_0000,
        image.width > cfg.resize_limit || image.height > cfg.resize_limit,
        strategy::resize_outcome(model, image, mask, cfg, result),
    ensures
        shrunk_pass(model, image, mask, cfg, result),
{
    broadcast use raster::lemma_tabulate;

    let (w, h, limit) = (image.width as int, image.height as int, cfg.resize_limit as int);
    let (small, gray, out, full) = choose|
        small: Plane<[u8; 3]>,
        small_mask: Plane<u8>,
        small_out: Outcome,
        full: Plane<[u8; 3]>,
    | #[trigger]
        strategy::resize_steps(
            model,
            image,
            mask,
            cfg,
            small,
            small_mask,
            small_out,
            full,
            result,
        );
    let binary = strategy::binarized(gray);
    law_binarizing_splits(gray);
    law_padded_pass(model, small, binary, cfg.pad_mod as int, out);
    if 0 < w && 0 < h && 0 < limit {
        scaling::law_longer_side_becomes_limit(w, h, limit);
        scaling::law_scaling_preserves_aspect(w, h, limit);
        scaling::law_scaling_shrinks(w, h, limit);
        lemma_shrunk(small.width as int, small.height as int, w, h, limit);
    }
    if let Ok(o) = out {
        assert(full.same_size(image));
    } else {
        let blank = Plane::tabulate(image.width, image.height, |x: int, y: int| image.at(x, y));
        assert(blank.same_size(image));
    }
}

proof fn lemma_shrunk(nw: int, nh: int, w: int, h: int, limit: int)
    requires
        0 < w,
        0 < h,
        0 < limit,
        limit < w || limit < h,
        1 <= nw,
        1 <= nh,
        (nw, nh) == scaling::scaled_size(w, h, limit),
        scaling::longer_side(nw, nh) == limit,
        ({
            let l = scaling::longer_side(w, h);
            -l < nw * l - w * limit < l && -l < nh * l - h * limit < l
        }),
    ensures
        shrunk_size(nw, nh, w, h, limit),
{
    if w >= h {
        assert(nw == limit) by (nonlinear_arith)
            requires
                -w < nw * w - w * limit < w,
                w > 0,
        ;
    }
    if h >= w {
        assert(nh == limit) by (nonlinear_arith)
            requires
                -h < nh * h - h * limit < h,
                h > 0,
        ;
    }
}

/// Whether `result` stems from a pass that keeps within the limit: an image
/// that fits is handed over as it is, a larger one is shrunk.
pub open spec fn bounded_pass<F: InpaintForward>(
    model: &F,
    image: Plane<[u8; 3]>,
    mask: Plane<u8>,
    cfg: HdStrategyConfig,
    result: Outcome,
) -> bool {
    if image.width <= cfg.resize_limit && image.height <= cfg.resize_limit {
        single_pass(model, image, mask, cfg.pad_mod as int, result)
    } else {
        shrunk_pass(model, image, mask, cfg, result)
    }
}

/// A crop is handed over as it is where both of its sides are within the limit,
/// and shrunk where one of them is not.
pub proof fn law_bounded_pass<F: InpaintForward>(
    model: &F,
    image: Plane<[u8; 3]>,
    mask: Plane<u8>,
    cfg: HdStrategyConfig,
    result: Outcome,
)
    requires
        image.wf(),
        mask.wf(),
        mask.same_size(image),
        image.width < 0x1_0000_0000,
        image.height < 0x1_0000_0000,
        strategy::bounded_outcome(model, image, mask, cfg, result),
    ensures
        bounded_pass(model, image, mask, cfg, result),
{
    if image.width <= cfg.resize_limit && image.height <= cfg.resize_limit {
        law_padded_pass(model, image, mask, cfg.pad_mod as int, result);
    } else {
        law_resized_pass(model, image, mask, cfg, result);
    }
}

/// Whether `part` shows the window of `plane`.
pub open spec fn is_window_of<P>(part: Plane<P>, plane: Plane<P>, window: Rect) -> bool {
    &&& part.wf()
    &&& part.width == window.2 - window.0
    &&& part.height == window.3 - window.1
    &&& forall|x: int, y: int|
        part.inside(x, y) ==> #[trigger] part.at(x, y) == plane.at(window.0 + x, window.1 + y)
}

/// Whether the window takes in the box with the margin around it, as far as the
/// image reaches, and is as large as the two together where the image is.
pub open spec fn is_window_around(
    window: Rect,
    b: Rect,
    margin: int,
    width: int,
    height: int,
) -> bool {
    &&& 0 <= window.0 <= b.0 && b.2 <= window.2 <= width
    &&& 0 <= window.1 <= b.1 && b.3 <= window.3 <= height
    &&& window.0 <= b.0 - margin || window.0 == 0
    &&& window.1 <= b.1 - margin || window.1 == 0
    &&& b.2 + margin <= window.2 || window.2 == width
    &&& b.3 + margin <= window.3 || window.3 == height
    &&& window.2 - window.0 == b.2 - b.0 + 2 * margin || window.0 == 0 && window.2 == width
    &&& window.3 - window.1 == b.3 - b.1 + 2 * margin || window.1 == 0 && window.3 == height
    &&& window.2 - window.0 <= b.2 - b.0 + 2 * margin
    &&& window.3 - window.1 <= b.3 - b.1 + 2 * margin
}

/// Whether `result` stems from a pass on the window of image and mask.
pub open spec fn window_pass<F: InpaintForward>(
    model: &F,
    image: Plane<[u8; 3]>,
    mask: Plane<u8>,
    cfg: HdStrategyConfig,
    window: Rect,
    result: Outcome,
) -> bool {
    exists|a: Plane<[u8; 3]>, m: Plane<u8>|
        {
            &&& #[trigger] is_window_of(a, image, window)
            &&& #[trigger] is_window_of(m, mask, window)
            &&& bounded_pass(model, a, m, cfg, result)
        }
}

/// Whether each of the boxes is a rectangle inside an image of this size that
/// is not empty.
pub open spec fn boxes_inside(boxes: Seq<Rect>, width: nat, height: nat) -> bool {
    forall|i: int|
        0 <= i < boxes.len() ==> 0 <= (#[trigger] boxes[i]).0 < boxes[i].2 <= width && 0
            <= boxes[i].1 < boxes[i].3 <= height
}

/// Whether each window is the one around its box.
pub open spec fn windows_around(
    windows: Seq<Rect>,
    boxes: Seq<Rect>,
    margin: int,
    width: int,
    height: int,
) -> bool {
    &&& windows.len() == boxes.len()
    &&& forall|i: int|
        0 <= i < windows.len() ==> is_window_around(
            #[trigger] windows[i],
            boxes[i],
            margin,
            width,
            height,
        )
}

/// Whether each part has the size of its window.
pub open spec fn fit_windows(parts: Seq<Plane<[u8; 3]>>, windows: Seq<Rect>) -> bool {
    forall|i: int|
        0 <= i < parts.len() ==> (#[trigger] parts[i]).width == windows[i].2 - windows[i].0
            && parts[i].height == windows[i].3 - windows[i].1
}

/// Whether `out` shows at `(x, y)` the last of the parts whose window holds that
/// pixel, and the image where no window does.
pub open spec fn shows_last_part(
    out: Plane<[u8; 3]>,
    image: Plane<[u8; 3]>,
    windows: Seq<Rect>,
    parts: Seq<Plane<[u8; 3]>>,
    x: int,
    y: int,
) -> bool {
    &&& forall|i: int|
        0 <= i < parts.len() && geometry::in_window(#[trigger] windows[i], x, y) && (forall|j: int|
            i < j < parts.len() ==> !geometry::in_window(#[trigger] windows[j], x, y))
            ==> out.at(x, y) == parts[i].at(x - windows[i].0, y - windows[i].1)
    &&& (forall|i: int|
        0 <= i < parts.len() ==> !geometry::in_window(#[trigger] windows[i], x, y)) ==> out.at(x, y)
        == image.at(x, y)
}

/// Whether `out` is the image with all parts put into their windows, later ones
/// over earlier ones.
pub open spec fn shows_parts(
    out: Plane<[u8; 3]>,
    image: Plane<[u8; 3]>,
    windows: Seq<Rect>,
    parts: Seq<Plane<[u8; 3]>>,
) -> bool {
    &&& out.wf()
    &&& out.same_size(image)
    &&& forall|x: int, y: int| #[trigger]
        image.inside(x, y) ==> shows_last_part(out, image, windows, parts, x, y)
}

/// Whether the model was asked about each of the windows of image and mask, in
/// their order, and what it made of each was put in its place; or it failed on
/// one of them after it succeeded on all earlier ones.
pub open spec fn every_window_pass<F: InpaintForward>(
    model: &F,
    image: Plane<[u8; 3]>,
    mask: Plane<u8>,
    cfg: HdStrategyConfig,
    windows: Seq<Rect>,
    result: Outcome,
) -> bool {
    exists|parts: Seq<Plane<[u8; 3]>>|
        {
            &&& #[trigger] fit_windows(parts, windows)
            &&& forall|i: int|
                0 <= i < parts.len() ==> window_pass(
                    model,
                    image,
                    mask,
                    cfg,
                    windows[i],
                    Ok(#[trigger] parts[i]),
                )
            &&& match result {
                Ok(out) => {
                    &&& parts.len() == windows.len()
                    &&& shows_parts(out, image, windows, parts)
                },
                Err(e) => {
                    &&& parts.len() < windows.len()
                    &&& window_pass(
                        model,
                        image,
                        mask,
                        cfg,
                        windows[parts.len() as int],
                        Err(e),
                    )
                },
            }
        }
}

/// The windows of the crops around the boxes.
pub open spec fn crop_windows(boxes: Seq<Rect>, margin: int, width: int, height: int) -> Seq<Rect> {
    boxes.map_values(|b: Rect| geometry::crop_window(b, margin, width, height))
}

/// The crop of a box takes in its margin, and is as large as the two together
/// where the image is.
pub proof fn law_crop_is_window_around(b: Rect, margin: int, width: int, height: int)
    requires
        0 <= b.0 < b.2 <= width,
        0 <= b.1 < b.3 <= height,
        margin >= 0,
    ensures
        is_window_around(
            geometry::crop_window(b, margin, width, height),
            b,
            margin,
            width,
            height,
        ),
{
    geometry::law_crop_takes_in_margin(b.0, b.2, margin, width);
    geometry::law_crop_takes_in_margin(b.1, b.3, margin, height);
    geometry::law_crop_keeps_footprint(b.0, b.2, margin, width);
    geometry::law_crop_keeps_footprint(b.1, b.3, margin, height);
}

proof fn lemma_window_pass<F: InpaintForward>(
    model: &F,
    image: Plane<[u8; 3]>,
    mask: Plane<u8>,
    cfg: HdStrategyConfig,
    b: Rect,
    result: Outcome,
)
    requires
        image.wf(),
        mask.wf(),
        mask.same_size(image),
        image.width < 0x1_0000_0000,
        image.height < 0x1_0000_0000,
        0 <= b.0 < b.2 <= image.width,
        0 <= b.1 < b.3 <= image.height,
        strategy::crop_step(model, image, mask, cfg, b, result),
    ensures
        ({
            let window = geometry::crop_window(
                b,
                cfg.crop_margin as int,
                image.width as int,
                image.height as int,
            );
            &&& window_pass(model, image, mask, cfg, window, result)
            &&& result matches Ok(part) ==> part.width == window.2 - window.0 && part.height
                == window.3 - window.1
        }),
{
    broadcast use raster::lemma_tabulate;

    let (w, h) = (image.width as int, image.height as int);
    law_crop_is_window_around(b, cfg.crop_margin as int, w, h);
    let window = geometry::crop_window(b, cfg.crop_margin as int, w, h);
    let (l, t, r, bt) = window;
    let a = image.crop(l, t, r - l, bt - t);
    let m = mask.crop(l, t, r - l, bt - t);
    assert(is_window_of(a, image, window));
    assert(is_window_of(m, mask, window));
    law_bounded_pass(model, a, m, cfg, result);
}

/// One more part put in its place, told for one pixel.
proof fn lemma_last_part(
    before: Plane<[u8; 3]>,
    out: Plane<[u8; 3]>,
    image: Plane<[u8; 3]>,
    windows: Seq<Rect>,
    parts: Seq<Plane<[u8; 3]>>,
    x: int,
    y: int,
)
    requires
        0 < parts.len() <= windows.len(),
        shows_last_part(before, image, windows, parts.drop_last(), x, y),
        geometry::in_window(windows[parts.len() - 1], x, y) ==> out.at(x, y) == parts.last().at(
            x - windows[parts.len() - 1].0,
            y - windows[parts.len() - 1].1,
        ),
        !geometry::in_window(windows[parts.len() - 1], x, y) ==> out.at(x, y) == before.at(x, y),
    ensures
        shows_last_part(out, image, windows, parts, x, y),
{
    let earlier = parts.drop_last();
    let n = parts.len() - 1;
    assert forall|i: int|
        0 <= i < parts.len() && geometry::in_window(#[trigger] windows[i], x, y) && (forall|j: int|
            i < j < parts.len() ==> !geometry::in_window(
                #[trigger] windows[j],
                x,
                y,
            )) implies out.at(x, y) == parts[i].at(x - windows[i].0, y - windows[i].1) by {
        if i < n {
            assert(!geometry::in_window(windows[n], x, y));
            assert(earlier[i] == parts[i]);
        }
    }
    if forall|i: int|
        0 <= i < parts.len() ==> !geometry::in_window(#[trigger] windows[i], x, y) {
        assert(!geometry::in_window(windows[n], x, y));
    }
}

/// The pixels after a part was put in its place.
proof fn lemma_replaced_pixel(
    before: Plane<[u8; 3]>,
    part: Plane<[u8; 3]>,
    window: Rect,
    x: int,
    y: int,
)
    requires
        before.inside(x, y),
        part.width == window.2 - window.0,
        part.height == window.3 - window.1,
    ensures
        before.replaced(part, window.0, window.1).at(x, y) == (if geometry::in_window(
            window,
            x,
            y,
        ) {
            part.at(x - window.0, y - window.1)
        } else {
            before.at(x, y)
        }),
{
    broadcast use raster::lemma_tabulate;

}

proof fn lemma_pasted_parts(
    image: Plane<[u8; 3]>,
    cfg: HdStrategyConfig,
    boxes: Seq<Rect>,
    windows: Seq<Rect>,
    parts: Seq<Plane<[u8; 3]>>,
)
    requires
        image.wf(),
        parts.len() <= boxes.len(),
        windows == crop_windows(
            boxes,
            cfg.crop_margin as int,
            image.width as int,
            image.height as int,
        ),
        fit_windows(parts, windows),
    ensures
        shows_parts(strategy::pasted(image, cfg, boxes, parts), image, windows, parts),
    decreases parts.len(),
{
    let out = strategy::pasted(image, cfg, boxes, parts);
    if parts.len() > 0 {
        let earlier = parts.drop_last();
        let n = parts.len() - 1;
        assert forall|i: int| 0 <= i < earlier.len() implies (#[trigger] earlier[i]).width
            == windows[i].2 - windows[i].0 && earlier[i].height == windows[i].3 - windows[i].1 by {
            assert(earlier[i] == parts[i]);
        }
        lemma_pasted_parts(image, cfg, boxes, windows, earlier);
        let before = strategy::pasted(image, cfg, boxes, earlier);
        assert(parts[n].width == windows[n].2 - windows[n].0);
        assert(out == before.replaced(parts[n], windows[n].0, windows[n].1));
        assert forall|x: int, y: int| #[trigger] image.inside(x, y) implies shows_last_part(
            out,
            image,
            windows,
            parts,
            x,
            y,
        ) by {
            lemma_replaced_pixel(before, parts[n], windows[n], x, y);
            lemma_last_part(before, out, image, windows, parts, x, y);
        }
    }
}

/// The Crop strategy asks the model about the window around every box, and puts
/// each answer in its place.
pub proof fn law_every_box_is_passed<F: InpaintForward>(
    model: &F,
    image: Plane<[u8; 3]>,
    mask: Plane<u8>,
    cfg: HdStrategyConfig,
    boxes: Seq<Rect>,
    result: Outcome,
)
    requires
        image.wf(),
        mask.wf(),
        mask.same_size(image),
        image.width < 0x1_0000_0000,
        image.height < 0x1_0000_0000,
        boxes_inside(boxes, image.width, image.height),
        strategy::crop_outcome(model, image, mask, cfg, boxes, result),
    ensures
        exists|windows: Seq<Rect>|
            {
                &&& #[trigger] windows_around(
                    windows,
                    boxes,
                    cfg.crop_margin as int,
                    image.width as int,
                    image.height as int,
                )
                &&& every_window_pass(model, image, mask, cfg, windows, result)
            },
        every_window_pass(
            model,
            image,
            mask,
            cfg,
            crop_windows(
                boxes,
                cfg.crop_margin as int,
                image.width as int,
                image.height as int,
            ),
            result,
        ),
{
    let (w, h) = (image.width as int, image.height as int);
    let windows = crop_windows(boxes, cfg.crop_margin as int, w, h);
    let parts = choose|parts: Seq<Plane<[u8; 3]>>|
        {
            &&& #[trigger] strategy::crop_parts(model, image, mask, cfg, boxes, parts)
            &&& match result {
                Ok(out) => {
                    &&& parts.len() == boxes.len()
                    &&& out == strategy::pasted(image, cfg, boxes, parts)
                },
                Err(e) => {
                    &&& parts.len() < boxes.len()
                    &&& strategy::crop_step(
                        model,
                        image,
                        mask,
                        cfg,
                        boxes[parts.len() as int],
                        Err(e),
                    )
                },
            }
        };
    assert forall|i: int| 0 <= i < parts.len() implies window_pass(
        model,
        image,
        mask,
        cfg,
        windows[i],
        Ok(#[trigger] parts[i]),
    ) && parts[i].width == windows[i].2 - windows[i].0 && parts[i].height == windows[i].3
        - windows[i].1 by {
        assert(strategy::crop_step(model, image, mask, cfg, boxes[i], Ok(parts[i])));
        lemma_window_pass(model, image, mask, cfg, boxes[i], Ok(parts[i]));
    }
    assert(fit_windows(parts, windows));
    match result {
        Ok(out) => {
            lemma_pasted_parts(image, cfg, boxes, windows, parts);
        },
        Err(e) => {
            lemma_window_pass(model, image, mask, cfg, boxes[parts.len() as int], Err(e));
        },
    }
    assert forall|i: int| 0 <= i < windows.len() implies is_window_around(
        #[trigger] windows[i],
        boxes[i],
        cfg.crop_margin as int,
        w,
        h,
    ) by {
        law_crop_is_window_around(boxes[i], cfg.crop_margin as int, w, h);
    }
    assert(windows_around(windows, boxes, cfg.crop_margin as int, w, h));
}

/// Whether `result` is what a page of this size gets: one pass on all of it
/// where it is small enough for its strategy, one shrunk pass or a pass on each
/// window where it is not.
pub open spec fn page_pass<F: InpaintForward>(
    model: &F,
    image: Plane<[u8; 3]>,
    mask: Plane<u8>,
    cfg: HdStrategyConfig,
    boxes: Seq<Rect>,
    result: Outcome,
) -> bool {
    let whole = single_pass(model, image, mask, cfg.pad_mod as int, result);
    match cfg.strategy {
        HdStrategy::Original => whole,
        HdStrategy::Resize => if image.width <= cfg.resize_limit && image.height
            <= cfg.resize_limit {
            whole
        } else {
            shrunk_pass(model, image, mask, cfg, result)
        },
        HdStrategy::Crop => if image.width <= cfg.crop_trigger_size && image.height
            <= cfg.crop_trigger_size {
            whole
        } else {
            exists|windows: Seq<Rect>|
                {
                    &&& #[trigger] windows_around(
                        windows,
                        boxes,
                        cfg.crop_margin as int,
                        image.width as int,
                        image.height as int,
                    )
                    &&& every_window_pass(model, image, mask, cfg, windows, result)
                }
        },
    }
}

proof fn lemma_boxes_inside(mask: Plane<u8>)
    ensures
        boxes_inside(geometry::mask_boxes(mask), mask.width, mask.height),
{
    let boxes = geometry::mask_boxes(mask);
    assert forall|i: int| 0 <= i < boxes.len() implies 0 <= (#[trigger] boxes[i]).0 < boxes[i].2
        <= mask.width && 0 <= boxes[i].1 < boxes[i].3 <= mask.height by {
        geometry::law_boxes_inside(
            geometry::mask_borders(mask),
            mask.width as int,
            mask.height as int,
            i,
        );
    }
}

/// Both sides of a page decide how it is passed to the model.
pub proof fn law_page_is_passed<F: InpaintForward>(
    model: &F,
    image: Plane<[u8; 3]>,
    mask: Plane<u8>,
    cfg: HdStrategyConfig,
    result: Outcome,
)
    requires
        image.wf(),
        mask.wf(),
        mask.same_size(image),
        image.width < 0x1_0000_0000,
        image.height < 0x1_0000_0000,
        strategy::inpaint_outcome(model, image, mask, cfg, result),
    ensures
        page_pass(model, image, mask, cfg, geometry::mask_boxes(mask), result),
{
    let crops = cfg.strategy is Crop && (image.width > cfg.crop_trigger_size || image.height
        > cfg.crop_trigger_size);
    let shrinks = cfg.strategy is Resize && (image.width > cfg.resize_limit || image.height
        > cfg.resize_limit);
    if crops {
        lemma_boxes_inside(mask);
        law_every_box_is_passed(model, image, mask, cfg, geometry::mask_boxes(mask), result);
    } else if shrinks {
        law_resized_pass(model, image, mask, cfg, result);
    } else {
        law_padded_pass(model, image, mask, cfg.pad_mod as int, result);
    }
}

/// A padded side is what padding makes of it.
proof fn lemma_padded_side_unique(side: int, part: int, pad_mod: int)
    requires
        part >= 0,
        pad_mod >= 0,
        padded_side(side, part, pad_mod),
    ensures
        side == geometry::next_multiple(part, pad_mod),
{
    if pad_mod > 0 {
        let other = geometry::next_multiple(part, pad_mod);
        geometry::lemma_next_multiple(part, pad_mod);
        vstd::arithmetic::div_mod::lemma_fundamental_div_mod(side, pad_mod);
        vstd::arithmetic::div_mod::lemma_fundamental_div_mod(other, pad_mod);
        let (p, q) = (side / pad_mod, other / pad_mod);
        assert(p == q) by (nonlinear_arith)
            requires
                side == pad_mod * p,
                other == pad_mod * q,
                -pad_mod < side - other < pad_mod,
                pad_mod > 0,
        ;
    }
}

/// Whether the model was asked about an image no larger than `bound` on either
/// side, and succeeded or failed as `result` did.
pub open spec fn asked_within<F: InpaintForward>(model: &F, bound: int, result: Outcome) -> bool {
    exists|a: Plane<[u8; 3]>, m: Plane<u8>, out: Outcome|
        {
            &&& #[trigger] model.may_return(a, m, out)
            &&& a.width <= bound && a.height <= bound
            &&& m.same_size(a)
            &&& result is Ok <==> out is Ok
            &&& result matches Err(e) ==> out == Outcome::Err(e)
        }
}

proof fn lemma_single_pass_within<F: InpaintForward>(
    model: &F,
    image: Plane<[u8; 3]>,
    mask: Plane<u8>,
    cfg: HdStrategyConfig,
    bound: int,
    result: Outcome,
)
    requires
        mask.same_size(image),
        image.width <= cfg.resize_limit,
        image.height <= cfg.resize_limit,
        padded_side(bound, cfg.resize_limit as int, cfg.pad_mod as int),
        single_pass(model, image, mask, cfg.pad_mod as int, result),
    ensures
        asked_within(model, bound, result),
{
    let m = cfg.pad_mod as int;
    let (a, b, out) = choose|a: Plane<[u8; 3]>, b: Plane<u8>, out: Outcome|
        {
            &&& #[trigger] model.may_return(a, b, out)
            &&& extends(a, image, m)
            &&& extends(b, mask, m)
            &&& cut_from(result, out, image.width, image.height)
        };
    lemma_padded_side_unique(bound, cfg.resize_limit as int, m);
    lemma_padded_side_unique(a.width as int, image.width as int, m);
    lemma_padded_side_unique(a.height as int, image.height as int, m);
    lemma_padded_side_unique(b.width as int, image.width as int, m);
    lemma_padded_side_unique(b.height as int, image.height as int, m);
    if m > 0 {
        geometry::lemma_next_multiple(cfg.resize_limit as int, m);
    }
}

/// Under a bounded pass the model sees no side above the padded limit.
proof fn lemma_bounded_pass_within<F: InpaintForward>(
    model: &F,
    image: Plane<[u8; 3]>,
    mask: Plane<u8>,
    cfg: HdStrategyConfig,
    bound: int,
    result: Outcome,
)
    requires
        mask.same_size(image),
        0 < image.width,
        0 < image.height,
        0 < cfg.resize_limit,
        padded_side(bound, cfg.resize_limit as int, cfg.pad_mod as int),
        bounded_pass(model, image, mask, cfg, result),
    ensures
        asked_within(model, bound, result),
{
    if image.width <= cfg.resize_limit && image.height <= cfg.resize_limit {
        lemma_single_pass_within(model, image, mask, cfg, bound, result);
    } else {
        let (small, gray, binary, out, full) = choose|
            small: Plane<[u8; 3]>,
            gray: Plane<u8>,
            binary: Plane<u8>,
            out: Outcome,
            full: Plane<[u8; 3]>,
        |
            {
                &&& #[trigger] single_pass(model, small, binary, cfg.pad_mod as int, out)
                &&& #[trigger] splits(binary, gray)
                &&& #[trigger] full.same_size(image)
                &&& small.same_size(gray)
                &&& shrunk_size(
                    small.width as int,
                    small.height as int,
                    image.width as int,
                    image.height as int,
                    cfg.resize_limit as int,
                )
                &&& result is Ok <==> out is Ok
                &&& result matches Err(e) ==> out == Outcome::Err(e)
            };
        lemma_single_pass_within(model, small, binary, cfg, bound, out);
    }
}

/// The limit on the longer side is a hard ceiling under the Resize strategy:
/// whatever the size of the page, and however it is turned, the model is asked
/// about an image of which neither side exceeds the padded limit.
pub proof fn law_resize_limit_is_a_ceiling<F: InpaintForward>(
    model: &F,
    image: Plane<[u8; 3]>,
    mask: Plane<u8>,
    cfg: HdStrategyConfig,
    bound: int,
    result: Outcome,
)
    requires
        image.wf(),
        mask.wf(),
        mask.same_size(image),
        0 < image.width < 0x1_0000_0000,
        0 < image.height < 0x1_0000_0000,
        cfg.strategy is Resize,
        0 < cfg.resize_limit,
        padded_side(bound, cfg.resize_limit as int, cfg.pad_mod as int),
        strategy::inpaint_outcome(model, image, mask, cfg, result),
    ensures
        asked_within(model, bound, result),
{
    law_page_is_passed(model, image, mask, cfg, result);
    lemma_bounded_pass_within(model, image, mask, cfg, bound, result);
}

/// The limit is a hard ceiling inside each crop, too.
pub proof fn law_crops_keep_the_ceiling<F: InpaintForward>(
    model: &F,
    image: Plane<[u8; 3]>,
    mask: Plane<u8>,
    cfg: HdStrategyConfig,
    b: Rect,
    bound: int,
    result: Outcome,
)
    requires
        image.wf(),
        mask.wf(),
        mask.same_size(image),
        0 < image.width < 0x1_0000_0000,
        0 < image.height < 0x1_0000_0000,
        0 <= b.0 < b.2 <= image.width,
        0 <= b.1 < b.3 <= image.height,
        0 < cfg.resize_limit,
        padded_side(bound, cfg.resize_limit as int, cfg.pad_mod as int),
        strategy::crop_step(model, image, mask, cfg, b, result),
    ensures
        asked_within(model, bound, result),
{
    lemma_window_pass(model, image, mask, cfg, b, result);
    let window = geometry::crop_window(
        b,
        cfg.crop_margin as int,
        image.width as int,
        image.height as int,
    );
    law_crop_is_window_around(
        b,
        cfg.crop_margin as int,
        image.width as int,
        image.height as int,
    );
    let (a, m) = choose|a: Plane<[u8; 3]>, m: Plane<u8>|
        {
            &&& #[trigger] is_window_of(a, image, window)
            &&& #[trigger] is_window_of(m, mask, window)
            &&& bounded_pass(model, a, m, cfg, result)
        };
    lemma_bounded_pass_within(model, a, m, cfg, bound, result);
}

/// The last of the windows that hold a pixel.
proof fn lemma_last_window(windows: Seq<Rect>, n: int, x: int, y: int) -> (i: int)
    requires
        0 <= n <= windows.len(),
        exists|i: int| 0 <= i < n && geometry::in_window(#[trigger] windows[i], x, y),
    ensures
        0 <= i < n,
        geometry::in_window(windows[i], x, y),
        forall|j: int| i < j < n ==> !geometry::in_window(#[trigger] windows[j], x, y),
    decreases n,
{
    if geometry::in_window(windows[n - 1], x, y) {
        n - 1
    } else {
        lemma_last_window(windows, n - 1, x, y)
    }
}

/// Whether the pixel at `(x, y)` of `out` was put there by a pass on the window
/// around one of the boxes.
pub open spec fn repainted<F: InpaintForward>(
    model: &F,
    image: Plane<[u8; 3]>,
    mask: Plane<u8>,
    cfg: HdStrategyConfig,
    boxes: Seq<Rect>,
    out: Plane<[u8; 3]>,
    x: int,
    y: int,
) -> bool {
    exists|i: int, window: Rect, part: Plane<[u8; 3]>|
        {
            &&& 0 <= i < boxes.len()
            &&& #[trigger] is_window_around(
                window,
                boxes[i],
                cfg.crop_margin as int,
                image.width as int,
                image.height as int,
            )
            &&& geometry::in_window(window, x, y)
            &&& #[trigger] window_pass(model, image, mask, cfg, window, Ok(part))
            &&& part.width == window.2 - window.0
            &&& part.height == window.3 - window.1
            &&& out.at(x, y) == part.at(x - window.0, y - window.1)
        }
}

/// The Crop strategy erases every marked pixel: each of them comes from a
/// forward pass on the window around one of the boxes of the mask.
pub proof fn law_every_marked_pixel_is_repainted<F: InpaintForward>(
    model: &F,
    image: Plane<[u8; 3]>,
    mask: Plane<u8>,
    cfg: HdStrategyConfig,
    out: Plane<[u8; 3]>,
    x: int,
    y: int,
)
    requires
        image.wf(),
        mask.wf(),
        mask.same_size(image),
        image.width < 0x1_0000_0000,
        image.height < 0x1_0000_0000,
        strategy::crop_outcome(
            model,
            image,
            mask,
            cfg,
            geometry::mask_boxes(mask),
            Ok(out),
        ),
        strategy::crops_cover(mask, cfg),
        imaging::foreground(mask, x, y),
    ensures
        repainted(model, image, mask, cfg, geometry::mask_boxes(mask), out, x, y),
{
    let (w, h) = (image.width as int, image.height as int);
    let boxes = geometry::mask_boxes(mask);
    lemma_boxes_inside(mask);
    law_every_box_is_passed(model, image, mask, cfg, boxes, Ok(out));
    let windows = crop_windows(boxes, cfg.crop_margin as int, w, h);
    let parts = choose|parts: Seq<Plane<[u8; 3]>>|
        {
            &&& #[trigger] fit_windows(parts, windows)
            &&& forall|i: int|
                0 <= i < parts.len() ==> window_pass(
                    model,
                    image,
                    mask,
                    cfg,
                    windows[i],
                    Ok(#[trigger] parts[i]),
                )
            &&& parts.len() == windows.len()
            &&& shows_parts(out, image, windows, parts)
        };
    assert(strategy::in_some_crop(boxes, cfg, w, h, x, y));
    let k = choose|k: int|
        0 <= k < boxes.len() && geometry::in_window(
            geometry::crop_window(#[trigger] boxes[k], cfg.crop_margin as int, w, h),
            x,
            y,
        );
    assert(geometry::in_window(windows[k], x, y));
    let i = lemma_last_window(windows, windows.len() as int, x, y);
    assert(image.inside(x, y));
    assert(shows_last_part(out, image, windows, parts, x, y));
    assert(out.at(x, y) == parts[i].at(x - windows[i].0, y - windows[i].1));
    law_crop_is_window_around(boxes[i], cfg.crop_margin as int, w, h);
    assert(window_pass(model, image, mask, cfg, windows[i], Ok(parts[i])));
}

/// Whether the model always succeeds, and paints everything in one color.
pub open spec fn paints<F: InpaintForward>(model: &F, color: [u8; 3]) -> bool {
    forall|a: Plane<[u8; 3]>, m: Plane<u8>, out: Outcome| #[trigger]
        model.may_return(a, m, out) ==> {
            &&& out matches Ok(o)
            &&& forall|x: int, y: int| a.inside(x, y) ==> #[trigger] o.at(x, y) == color
        }
}

/// A model that paints everything in one color makes a padded pass paint
/// everything in that color.
pub proof fn law_flat_model_paints_everything<F: InpaintForward>(
    model: &F,
    image: Plane<[u8; 3]>,
    mask: Plane<u8>,
    pad_mod: int,
    color: [u8; 3],
    result: Outcome,
)
    requires
        paints(model, color),
        pad_mod >= 0,
        single_pass(model, image, mask, pad_mod, result),
    ensures
        result matches Ok(out) && forall|x: int, y: int|
            image.inside(x, y) ==> #[trigger] out.at(x, y) == color,
{
    let (a, b, out) = choose|a: Plane<[u8; 3]>, b: Plane<u8>, out: Outcome|
        {
            &&& #[trigger] model.may_return(a, b, out)
            &&& extends(a, image, pad_mod)
            &&& extends(b, mask, pad_mod)
            &&& cut_from(result, out, image.width, image.height)
        };
    let r = result->Ok_0;
    assert forall|x: int, y: int| image.inside(x, y) implies #[trigger] r.at(x, y) == color by {
        assert(a.inside(x, y));
        assert(r.inside(x, y));
    }
}

/// A model that paints everything in one color leaves no marked pixel of
/// another color on a page that is cropped, as long as no crop has to be
/// shrunk.
pub proof fn law_flat_model_paints_every_marked_pixel<F: InpaintForward>(
    model: &F,
    image: Plane<[u8; 3]>,
    mask: Plane<u8>,
    cfg: HdStrategyConfig,
    color: [u8; 3],
    out: Plane<[u8; 3]>,
    x: int,
    y: int,
)
    requires
        image.wf(),
        mask.wf(),
        mask.same_size(image),
        image.width < 0x1_0000_0000,
        image.height < 0x1_0000_0000,
        paints(model, color),
        cfg.strategy is Crop,
        image.width > cfg.crop_trigger_size || image.height > cfg.crop_trigger_size,
        forall|i: int|
            0 <= i < geometry::mask_boxes(mask).len() ==> fits(
                #[trigger] geometry::mask_boxes(mask)[i],
                cfg,
            ),
        strategy::inpaint_outcome(model, image, mask, cfg, Ok(out)),
        strategy::crops_cover(mask, cfg),
        imaging::foreground(mask, x, y),
    ensures
        out.at(x, y) == color,
{
    let boxes = geometry::mask_boxes(mask);
    law_every_marked_pixel_is_repainted(model, image, mask, cfg, out, x, y);
    let (i, window, part) = choose|i: int, window: Rect, part: Plane<[u8; 3]>|
        {
            &&& 0 <= i < boxes.len()
            &&& #[trigger] is_window_around(
                window,
                boxes[i],
                cfg.crop_margin as int,
                image.width as int,
                image.height as int,
            )
            &&& geometry::in_window(window, x, y)
            &&& #[trigger] window_pass(model, image, mask, cfg, window, Ok(part))
            &&& part.width == window.2 - window.0
            &&& part.height == window.3 - window.1
            &&& out.at(x, y) == part.at(x - window.0, y - window.1)
        };
    assert(fits(boxes[i], cfg));
    let (a, m) = choose|a: Plane<[u8; 3]>, m: Plane<u8>|
        {
            &&& #[trigger] is_window_of(a, image, window)
            &&& #[trigger] is_window_of(m, mask, window)
            &&& bounded_pass(model, a, m, cfg, Ok(part))
        };
    law_flat_model_paints_everything(model, a, m, cfg.pad_mod as int, color, Ok(part));
    assert(a.inside(x - window.0, y - window.1));
}

/// Whether a box with its margins is within the limit.
pub open spec fn fits(b: Rect, cfg: HdStrategyConfig) -> bool {
    &&& b.2 - b.0 + 2 * cfg.crop_margin <= cfg.resize_limit
    &&& b.3 - b.1 + 2 * cfg.crop_margin <= cfg.resize_limit
}

/// Whether the model always succeeds.
pub open spec fn never_fails<F: InpaintForward>(model: &F) -> bool {
    forall|a: Plane<[u8; 3]>, m: Plane<u8>, out: Outcome| #[trigger]
        model.may_return(a, m, out) ==> out is Ok
}

/// Whether the model always fails with the same error.
pub open spec fn always_fails<F: InpaintForward>(model: &F, e: InpaintError) -> bool {
    forall|a: Plane<[u8; 3]>, m: Plane<u8>, out: Outcome| #[trigger]
        model.may_return(a, m, out) ==> out == Outcome::Err(e)
}

/// A bounded pass succeeds where the model does, and fails with its error.
proof fn lemma_bounded_pass_fails<F: InpaintForward>(
    model: &F,
    image: Plane<[u8; 3]>,
    mask: Plane<u8>,
    cfg: HdStrategyConfig,
    result: Outcome,
    e: InpaintError,
)
    requires
        bounded_pass(model, image, mask, cfg, result) || single_pass(
            model,
            image,
            mask,
            cfg.pad_mod as int,
            result,
        ),
    ensures
        never_fails(model) ==> result is Ok,
        always_fails(model, e) ==> result == Outcome::Err(e),
{
    if single_pass(model, image, mask, cfg.pad_mod as int, result) {
        let (a, b, out) = choose|a: Plane<[u8; 3]>, b: Plane<u8>, out: Outcome|
            {
                &&& #[trigger] model.may_return(a, b, out)
                &&& extends(a, image, cfg.pad_mod as int)
                &&& extends(b, mask, cfg.pad_mod as int)
                &&& cut_from(result, out, image.width, image.height)
            };
    } else {
        let (small, gray, binary, out, full) = choose|
            small: Plane<[u8; 3]>,
            gray: Plane<u8>,
            binary: Plane<u8>,
            out: Outcome,
            full: Plane<[u8; 3]>,
        |
            {
                &&& #[trigger] single_pass(model, small, binary, cfg.pad_mod as int, out)
                &&& #[trigger] splits(binary, gray)
                &&& #[trigger] full.same_size(image)
                &&& result is Ok <==> out is Ok
                &&& result matches Err(f) ==> out == Outcome::Err(f)
            };
        let (a, b, o) = choose|a: Plane<[u8; 3]>, b: Plane<u8>, o: Outcome|
            {
                &&& #[trigger] model.may_return(a, b, o)
                &&& extends(a, small, cfg.pad_mod as int)
                &&& extends(b, binary, cfg.pad_mod as int)
                &&& cut_from(out, o, small.width, small.height)
            };
    }
}

/// A page fails where the model fails, with its error, and succeeds where the
/// model succeeds. A page without boxes that is to be cropped asks nothing of
/// the model and always succeeds.
pub proof fn law_page_fails_with_the_model<F: InpaintForward>(
    model: &F,
    image: Plane<[u8; 3]>,
    mask: Plane<u8>,
    cfg: HdStrategyConfig,
    result: Outcome,
    e: InpaintError,
)
    requires
        image.wf(),
        mask.wf(),
        mask.same_size(image),
        image.width < 0x1_0000_0000,
        image.height < 0x1_0000_0000,
        strategy::inpaint_outcome(model, image, mask, cfg, result),
    ensures
        never_fails(model) ==> result is Ok,
        always_fails(model, e) && (!(cfg.strategy is Crop) || image.width <= cfg.crop_trigger_size
            && image.height <= cfg.crop_trigger_size || geometry::mask_boxes(mask).len() > 0)
            ==> result == Outcome::Err(e),
{
    let boxes = geometry::mask_boxes(mask);
    law_page_is_passed(model, image, mask, cfg, result);
    if cfg.strategy is Crop && !(image.width <= cfg.crop_trigger_size && image.height
        <= cfg.crop_trigger_size) {
        let windows = choose|windows: Seq<Rect>|
            {
                &&& #[trigger] windows_around(
                    windows,
                    boxes,
                    cfg.crop_margin as int,
                    image.width as int,
                    image.height as int,
                )
                &&& every_window_pass(model, image, mask, cfg, windows, result)
            };
        let parts = choose|parts: Seq<Plane<[u8; 3]>>|
            {
                &&& #[trigger] fit_windows(parts, windows)
                &&& forall|i: int|
                    0 <= i < parts.len() ==> window_pass(
                        model,
                        image,
                        mask,
                        cfg,
                        windows[i],
                        Ok(#[trigger] parts[i]),
                    )
                &&& match result {
                    Ok(out) => parts.len() == windows.len(),
                    Err(e) => parts.len() < windows.len() && window_pass(
                        model,
                        image,
                        mask,
                        cfg,
                        windows[parts.len() as int],
                        Err(e),
                    ),
                }
            };
        if parts.len() > 0 {
            lemma_window_pass_fails(model, image, mask, cfg, windows[0], Ok(parts[0]), e);
        }
        if let Err(f) = result {
            lemma_window_pass_fails(
                model,
                image,
                mask,
                cfg,
                windows[parts.len() as int],
                Err(f),
                e,
            );
        }
    } else {
        lemma_bounded_pass_fails(model, image, mask, cfg, result, e);
    }
}

proof fn lemma_window_pass_fails<F: InpaintForward>(
    model: &F,
    image: Plane<[u8; 3]>,
    mask: Plane<u8>,
    cfg: HdStrategyConfig,
    window: Rect,
    result: Outcome,
    e: InpaintError,
)
    requires
        window_pass(model, image, mask, cfg, window, result),
    ensures
        never_fails(model) ==> result is Ok,
        always_fails(model, e) ==> result == Outcome::Err(e),
{
    let (a, m) = choose|a: Plane<[u8; 3]>, m: Plane<u8>|
        {
            &&& #[trigger] is_window_of(a, image, window)
            &&& #[trigger] is_window_of(m, mask, window)
            &&& bounded_pass(model, a, m, cfg, result)
        };
    lemma_bounded_pass_fails(model, a, m, cfg, result, e);
}

/// What comes out of a page is well formed and has its size.
pub proof fn lemma_page_pass_wf<F: InpaintForward>(
    model: &F,
    image: Plane<[u8; 3]>,
    mask: Plane<u8>,
    cfg: HdStrategyConfig,
    out: Plane<[u8; 3]>,
)
    requires
        page_pass(model, image, mask, cfg, geometry::mask_boxes(mask), Ok(out)),
    ensures
        out.wf(),
        out.same_size(image),
{
    if cfg.strategy is Crop && !(image.width <= cfg.crop_trigger_size && image.height
        <= cfg.crop_trigger_size) {
        let windows = choose|windows: Seq<Rect>|
            {
                &&& #[trigger] windows_around(
                    windows,
                    geometry::mask_boxes(mask),
                    cfg.crop_margin as int,
                    image.width as int,
                    image.height as int,
                )
                &&& every_window_pass(model, image, mask, cfg, windows, Ok(out))
            };
        assert(exists|parts: Seq<Plane<[u8; 3]>>|
            #[trigger] fit_windows(parts, windows) && shows_parts(out, image, windows, parts));
    }
}

} // verus!
