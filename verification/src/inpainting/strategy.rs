//! Strategies that keep a forward pass within bounds.
//!
//! [`run_inpaint`] chooses between three strategies based on image size, then
//! delegates the raw forward pass to a model-specific [`InpaintForward`].
//!
//! - **Original**: pad to `pad_mod`, forward, unpad.
//! - **Resize**: downscale so that the longer side is at most `resize_limit`,
//!   pad, forward, unpad, upscale, then restore pixels outside the mask from
//!   the original.
//! - **Crop**: extract one bounding box per outer mask contour, expand by
//!   `crop_margin` on each side, forward each crop independently, paste back.
//!   An oversized crop falls back to the Resize path inside that single crop.
use crate::imaging::{self, Filter};
use crate::inpainting::geometry::{self, Rect, Xyxy};
use crate::inpainting::{laws, scaling};
use crate::raster::{self, GrayImage, Plane, Raster, RgbImage};
use vstd::prelude::*;

verus! {

/// Which preprocessing strategy to apply before the raw forward pass.
#[derive(Debug, Clone, Copy, PartialEq, Eq, Structural)]
pub enum HdStrategy {
    Original,
    Resize,
    Crop,
}

/// Tunable knobs for [`run_inpaint`].
#[derive(Debug, Clone, Copy)]
pub struct HdStrategyConfig {
    pub strategy: HdStrategy,
    /// The Crop strategy only activates when the longer side of the image is
    /// above this. Smaller images fall through to Original.
    pub crop_trigger_size: u32,
    /// Additive margin (pixels) added to each side of a mask bounding box when
    /// cropping. Controls how much context the model sees around the mask.
    pub crop_margin: u32,
    /// Hard ceiling on the longer side of a forward pass. Applied by the
    /// Resize strategy at the top level, and as a nested fallback inside
    /// oversized crops.
    pub resize_limit: u32,
    /// Spatial divisor that the model requires.
    pub pad_mod: u32,
}

/// The configuration that suits pages with many small speech bubbles.
pub open spec fn lama_configuration() -> HdStrategyConfig {
    HdStrategyConfig {
        strategy: HdStrategy::Crop,
        crop_trigger_size: 800,
        crop_margin: 128,
        resize_limit: 1280,
        pad_mod: 8,
    }
}

impl HdStrategyConfig {
    /// Manga-tuned default for Lama: many small speech bubbles give many small
    /// crops.
    pub fn lama_default() -> (cfg: Self)
        ensures
            cfg == lama_configuration(),
    {
        HdStrategyConfig {
            strategy: HdStrategy::Crop,
            crop_trigger_size: 800,
            crop_margin: 128,
            resize_limit: 1280,
            pad_mod: 8,
        }
    }

    /// Default for AoT: whole-image Resize with a fixed upper bound.
    pub fn aot_default(resize_limit: u32, pad_mod: u32) -> (cfg: Self)
        ensures
            cfg == (HdStrategyConfig {
                strategy: HdStrategy::Resize,
                crop_trigger_size: 800,
                crop_margin: 128,
                resize_limit,
                pad_mod,
            }),
    {
        HdStrategyConfig {
            strategy: HdStrategy::Resize,
            crop_trigger_size: 800,
            crop_margin: 128,
            resize_limit,
            pad_mod,
        }
    }
}

/// Why no inpainted image came out.
#[derive(Debug)]
pub enum InpaintError {
    /// Image and mask differ in size; width and height of each.
    SizeMismatch { image: (u32, u32), mask: (u32, u32) },
    /// The forward pass failed.
    Forward(String),
    /// The model put out this many color channels instead of three.
    Channels(usize),
    /// The model put out too few bytes for its dimensions.
    Buffer,
}

/// What comes out of an inpainting step.
pub type Outcome = Result<Plane<[u8; 3]>, InpaintError>;

/// The content of a result.
pub open spec fn seen(result: Result<RgbImage, InpaintError>) -> Outcome {
    match result {
        Ok(image) => Ok(image@),
        Err(e) => Err(e),
    }
}

/// A raw forward pass on a (padded) image and mask, returning an image of the
/// same spatial size. Implementors are free to apply fast paths before the
/// model forward.
pub trait InpaintForward {
    /// The results that the forward pass may have. A model that says nothing
    /// of them may have any.
    open spec fn may_return(&self, image: Plane<[u8; 3]>, mask: Plane<u8>, result: Outcome) -> bool {
        true
    }

    fn forward(&self, image: &RgbImage, mask: &GrayImage) -> (result: Result<
        RgbImage,
        InpaintError,
    >)
        ensures
            self.may_return(image@, mask@, seen(result)),
            result matches Ok(out) ==> out@.same_size(image@),
    ;
}

/// The results that a forward pass may have, given that it keeps the size.
pub open spec fn forward_outcome<F: InpaintForward>(
    model: &F,
    image: Plane<[u8; 3]>,
    mask: Plane<u8>,
    result: Outcome,
) -> bool {
    &&& model.may_return(image, mask, result)
    &&& result matches Ok(out) ==> out.same_size(image) && out.wf()
}

/// `plane` continued to the right and to the bottom by its mirror image.
pub open spec fn padded<P>(plane: Plane<P>, width: nat, height: nat) -> Plane<P> {
    Plane::tabulate(
        width,
        height,
        |x: int, y: int|
            plane.at(
                geometry::reflected(x, plane.width as int),
                geometry::reflected(y, plane.height as int),
            ),
    )
}

/// Symmetric padding at the right and bottom edges.
fn symmetric_pad<P: Copy>(img: &Raster<P>, new_w: u32, new_h: u32) -> (out: Raster<P>)
    requires
        new_w * new_h <= usize::MAX,
        new_w > 0 && new_h > 0 ==> img@.width > 0 && img@.height > 0,
    ensures
        out@ == padded(img@, new_w as nat, new_h as nat),
{
    let (w, h) = img.dimensions();
    let pixel_at = |x: u32, y: u32| -> (p: P)
        requires
            x < new_w,
            y < new_h,
        ensures
            p == img@.at(
                geometry::reflected(x as int, w as int),
                geometry::reflected(y as int, h as int),
            ),
        { img.get_pixel(geometry::reflect_index(x, w), geometry::reflect_index(y, h)) };
    let out = Raster::from_fn(new_w, new_h, pixel_at);
    proof {
        raster::lemma_tabulated(
            out@,
            |x: int, y: int|
                img@.at(
                    geometry::reflected(x, img@.width as int),
                    geometry::reflected(y, img@.height as int),
                ),
        );
    }
    out
}

/// Symmetric padding of an RGB image at the right and bottom edges.
pub fn symmetric_pad_rgb(img: &RgbImage, new_w: u32, new_h: u32) -> (out: RgbImage)
    requires
        new_w * new_h <= usize::MAX,
        new_w > 0 && new_h > 0 ==> img@.width > 0 && img@.height > 0,
    ensures
        out@ == padded(img@, new_w as nat, new_h as nat),
{
    symmetric_pad(img, new_w, new_h)
}

/// Symmetric padding of a single channel image at the right and bottom edges.
pub fn symmetric_pad_gray(img: &GrayImage, new_w: u32, new_h: u32) -> (out: GrayImage)
    requires
        new_w * new_h <= usize::MAX,
        new_w > 0 && new_h > 0 ==> img@.width > 0 && img@.height > 0,
    ensures
        out@ == padded(img@, new_w as nat, new_h as nat),
{
    symmetric_pad(img, new_w, new_h)
}

/// White where the plane is above middle gray, black elsewhere.
pub open spec fn binarized(plane: Plane<u8>) -> Plane<u8> {
    Plane::tabulate(
        plane.width,
        plane.height,
        |x: int, y: int|
            if plane.at(x, y) > 127 {
                255u8
            } else {
                0u8
            },
    )
}

/// Makes every pixel black or white.
pub fn rebinarize(mask: &GrayImage) -> (out: GrayImage)
    ensures
        out@ == binarized(mask@),
{
    let (w, h) = mask.dimensions();
    let pixel_at = |x: u32, y: u32| -> (p: u8)
        requires
            x < w,
            y < h,
        ensures
            p == (if mask@.at(x as int, y as int) > 127 {
                255u8
            } else {
                0u8
            }),
        {
            if mask.get_pixel(x, y) > 127 {
                255
            } else {
                0
            }
        };
    let out = Raster::from_fn(w, h, pixel_at);
    proof {
        raster::lemma_tabulated(
            out@,
            |x: int, y: int|
                if mask@.at(x, y) > 127 {
                    255u8
                } else {
                    0u8
                },
        );
    }
    out
}

/// `full` with every pixel that the mask leaves alone taken from `image`.
pub open spec fn restored(
    full: Plane<[u8; 3]>,
    image: Plane<[u8; 3]>,
    mask: Plane<u8>,
) -> Plane<[u8; 3]> {
    Plane::tabulate(
        image.width,
        image.height,
        |x: int, y: int|
            if mask.at(x, y) < 127 {
                image.at(x, y)
            } else {
                full.at(x, y)
            },
    )
}

/// Takes every pixel outside the mask from the original image.
pub fn restore_unmasked(full: &RgbImage, image: &RgbImage, mask: &GrayImage) -> (out: RgbImage)
    requires
        full@.same_size(image@),
        mask@.same_size(image@),
    ensures
        out@ == restored(full@, image@, mask@),
{
    let (w, h) = image.dimensions();
    let pixel_at = |x: u32, y: u32| -> (p: [u8; 3])
        requires
            x < w,
            y < h,
        ensures
            p == (if mask@.at(x as int, y as int) < 127 {
                image@.at(x as int, y as int)
            } else {
                full@.at(x as int, y as int)
            }),
        {
            if mask.get_pixel(x, y) < 127 {
                image.get_pixel(x, y)
            } else {
                full.get_pixel(x, y)
            }
        };
    let out = Raster::from_fn(w, h, pixel_at);
    proof {
        raster::lemma_tabulated(
            out@,
            |x: int, y: int|
                if mask@.at(x, y) < 127 {
                    image@.at(x, y)
                } else {
                    full@.at(x, y)
                },
        );
    }
    out
}

/// Sizes whose padding to a multiple of `pad_mod` can be represented.
pub open spec fn paddable(width: int, height: int, pad_mod: int) -> bool {
    let w = geometry::next_multiple(width, pad_mod);
    let h = geometry::next_multiple(height, pad_mod);
    w <= u32::MAX && h <= u32::MAX && w * h <= usize::MAX
}

/// The results of padding, forwarding and cropping back to the input size.
pub open spec fn pad_forward_outcome<F: InpaintForward>(
    model: &F,
    image: Plane<[u8; 3]>,
    mask: Plane<u8>,
    pad_mod: int,
    result: Outcome,
) -> bool {
    let w = geometry::next_multiple(image.width as int, pad_mod) as nat;
    let h = geometry::next_multiple(image.height as int, pad_mod) as nat;
    if w == image.width && h == image.height {
        forward_outcome(model, image, mask, result)
    } else {
        exists|out: Outcome|
            #![trigger forward_outcome(model, padded(image, w, h), padded(mask, w, h), out)]
            {
                &&& forward_outcome(model, padded(image, w, h), padded(mask, w, h), out)
                &&& result == unpadded(out, image.width as int, image.height as int)
            }
    }
}

/// A result cut back to the size before padding.
pub open spec fn unpadded(out: Outcome, width: int, height: int) -> Outcome {
    match out {
        Ok(o) => Ok(o.crop(0, 0, width, height)),
        Err(e) => Err(e),
    }
}

/// Pad image and mask to `pad_mod` on the right and bottom with symmetric
/// reflection, forward through the model, then crop the output back to the
/// input size.
pub fn pad_forward<F: InpaintForward>(
    model: &F,
    image: &RgbImage,
    mask: &GrayImage,
    pad_mod: u32,
) -> (result: Result<RgbImage, InpaintError>)
    requires
        mask@.same_size(image@),
        paddable(image@.width as int, image@.height as int, pad_mod as int),
    ensures
        pad_forward_outcome(model, image@, mask@, pad_mod as int, seen(result)),
        result matches Ok(out) ==> out@.same_size(image@),
{
    let (w, h) = image.dimensions();
    let pad_w: u32 = geometry::ceil_multiple(w, pad_mod);
    let pad_h: u32 = geometry::ceil_multiple(h, pad_mod);
    if pad_w == w && pad_h == h {
        let result = model.forward(image, mask);
        proof {
            if let Ok(out) = &result {
                use_type_invariant(out);
            }
        }
        return result;
    }
    proof {
        if pad_mod > 0 {
            lemma_zero_stays_zero(w as int, pad_mod as int);
            lemma_zero_stays_zero(h as int, pad_mod as int);
            geometry::lemma_next_multiple(w as int, pad_mod as int);
            geometry::lemma_next_multiple(h as int, pad_mod as int);
        }
    }
    let pad_img = symmetric_pad_rgb(image, pad_w, pad_h);
    let pad_msk = symmetric_pad_gray(mask, pad_w, pad_h);
    let ghost pw = geometry::next_multiple(image@.width as int, pad_mod as int) as nat;
    let ghost ph = geometry::next_multiple(image@.height as int, pad_mod as int) as nat;
    let padded_out = model.forward(&pad_img, &pad_msk);
    match padded_out {
        Ok(out) => {
            proof {
                use_type_invariant(&out);
            }
            let cropped = out.crop(0, 0, w, h);
            let ghost forwarded: Outcome = Ok(out@);
            assert(forward_outcome(model, padded(image@, pw, ph), padded(mask@, pw, ph), forwarded));
            let result: Result<RgbImage, InpaintError> = Ok(cropped);
            assert(seen(result) == unpadded(forwarded, w as int, h as int));
            result
        },
        Err(e) => {
            assert(forward_outcome(model, padded(image@, pw, ph), padded(mask@, pw, ph), Err(e)));
            Err(e)
        },
    }
}

/// Nothing is padded to nothing.
pub proof fn lemma_zero_stays_zero(v: int, m: int)
    requires
        v >= 0,
        m > 0,
    ensures
        geometry::next_multiple(v, m) > 0 ==> v > 0,
{
    if v == 0 {
        vstd::arithmetic::div_mod::lemma_basic_div(m - 1, m);
    }
}

/// Sizes that the Resize strategy can handle.
pub open spec fn resizable(width: int, height: int, pad_mod: int) -> bool {
    &&& imaging::resamplable(width as nat, height as nat)
    &&& 16 * (raster::max(width, 1) * raster::max(height, 1)) <= isize::MAX
    &&& paddable(raster::max(width, 1), raster::max(height, 1), pad_mod)
}

/// The steps of the Resize strategy: shrink image and mask, forward the small
/// pair, enlarge what comes out, and restore the pixels outside the mask. What
/// has the size wanted already stays as it is.
pub open spec fn resize_steps<F: InpaintForward>(
    model: &F,
    image: Plane<[u8; 3]>,
    mask: Plane<u8>,
    cfg: HdStrategyConfig,
    small: Plane<[u8; 3]>,
    small_mask: Plane<u8>,
    small_out: Outcome,
    full: Plane<[u8; 3]>,
    result: Outcome,
) -> bool {
    let (nw, nh) = scaling::scaled_size(
        image.width as int,
        image.height as int,
        cfg.resize_limit as int,
    );
    &&& small.wf() && small.width == nw && small.height == nh
    &&& imaging::resize_rgb_of(
        image.width,
        image.height,
        image.pixels,
        nw as u32,
        nh as u32,
        Filter::Triangle,
        small.pixels,
    )
    &&& small.same_size(image) ==> small == image
    &&& small_mask.wf() && small_mask.width == nw && small_mask.height == nh
    &&& imaging::resize_gray_of(
        mask.width,
        mask.height,
        mask.pixels,
        nw as u32,
        nh as u32,
        Filter::Triangle,
        small_mask.pixels,
    )
    &&& small_mask.same_size(mask) ==> small_mask == mask
    &&& pad_forward_outcome(model, small, binarized(small_mask), cfg.pad_mod as int, small_out)
    &&& match small_out {
        Ok(out) => {
            &&& full.wf() && full.same_size(image)
            &&& imaging::resize_rgb_of(
                out.width,
                out.height,
                out.pixels,
                image.width as u32,
                image.height as u32,
                Filter::CatmullRom,
                full.pixels,
            )
            &&& full.same_size(out) ==> full == out
            &&& result == Outcome::Ok(restored(full, image, mask))
        },
        Err(e) => result == Outcome::Err(e),
    }
}

/// The results of the Resize strategy.
pub open spec fn resize_outcome<F: InpaintForward>(
    model: &F,
    image: Plane<[u8; 3]>,
    mask: Plane<u8>,
    cfg: HdStrategyConfig,
    result: Outcome,
) -> bool {
    exists|
        small: Plane<[u8; 3]>,
        small_mask: Plane<u8>,
        small_out: Outcome,
        full: Plane<[u8; 3]>,
    | #[trigger]
        resize_steps(model, image, mask, cfg, small, small_mask, small_out, full, result)
}

proof fn lemma_scaled_fits(w: int, h: int, limit: int, pad_mod: int)
    requires
        0 <= w,
        0 <= h,
        0 <= limit,
        0 <= pad_mod,
        resizable(w, h, pad_mod),
    ensures
        ({
            let (nw, nh) = scaling::scaled_size(w, h, limit);
            &&& 0 <= nw && 0 <= nh
            &&& imaging::resamplable(nw as nat, nh as nat)
            &&& 16 * (w * nh) <= isize::MAX
            &&& 16 * (nw * h) <= isize::MAX
            &&& 16 * (nw * nh) <= isize::MAX
            &&& 16 * (w * h) <= isize::MAX
            &&& paddable(nw, nh, pad_mod)
        }),
{
    let (nw, nh) = scaling::scaled_size(w, h, limit);
    let mw = raster::max(w, 1);
    let mh = raster::max(h, 1);
    scaling::lemma_scaled_size(w, h, limit);
    assert(w * nh <= mw * mh && nw * h <= mw * mh && nw * nh <= mw * mh && w * h <= mw * mh)
        by (nonlinear_arith)
        requires
            0 <= w <= mw,
            0 <= h <= mh,
            0 <= nw <= mw,
            0 <= nh <= mh,
    ;
    lemma_paddable_mono(nw, nh, mw, mh, pad_mod);
}

/// A size that fits inside one that can be padded can be padded.
proof fn lemma_paddable_mono(w: int, h: int, mw: int, mh: int, pad_mod: int)
    requires
        0 <= w <= mw,
        0 <= h <= mh,
        0 <= pad_mod,
        paddable(mw, mh, pad_mod),
    ensures
        paddable(w, h, pad_mod),
{
    if pad_mod > 0 {
        geometry::lemma_next_multiple(mw, pad_mod);
        geometry::lemma_next_multiple(mh, pad_mod);
        geometry::lemma_next_multiple(w, pad_mod);
        geometry::lemma_next_multiple(h, pad_mod);
    }
    let a = geometry::next_multiple(w, pad_mod);
    let b = geometry::next_multiple(h, pad_mod);
    let c = geometry::next_multiple(mw, pad_mod);
    let d = geometry::next_multiple(mh, pad_mod);
    assert(a * b <= c * d) by (nonlinear_arith)
        requires
            0 <= a <= c,
            0 <= b <= d,
    ;
}

/// Downscale, forward, upscale, and restore what lies outside the mask.
pub fn run_resize<F: InpaintForward>(
    model: &F,
    image: &RgbImage,
    mask: &GrayImage,
    cfg: &HdStrategyConfig,
) -> (result: Result<RgbImage, InpaintError>)
    requires
        mask@.same_size(image@),
        resizable(image@.width as int, image@.height as int, cfg.pad_mod as int),
    ensures
        resize_outcome(model, image@, mask@, *cfg, seen(result)),
        result matches Ok(out) ==> out@.same_size(image@),
{
    let (w, h) = image.dimensions();
    let (nw, nh) = scaling::scaled_dims(w, h, cfg.resize_limit);
    proof {
        lemma_scaled_fits(w as int, h as int, cfg.resize_limit as int, cfg.pad_mod as int);
    }
    let small_img = imaging::resize_rgb(image, nw, nh, Filter::Triangle);
    let small_raw = imaging::resize_gray(mask, nw, nh, Filter::Triangle);
    let small_mask = rebinarize(&small_raw);
    proof {
        use_type_invariant(&small_img);
        use_type_invariant(&small_raw);
    }
    let small_out = pad_forward(model, &small_img, &small_mask, cfg.pad_mod);
    match small_out {
        Ok(out) => {
            let full_out = imaging::resize_rgb(&out, w, h, Filter::CatmullRom);
            proof {
                use_type_invariant(&full_out);
            }
            let restored_out = restore_unmasked(&full_out, image, mask);
            let result: Result<RgbImage, InpaintError> = Ok(restored_out);
            assert(resize_steps(
                model,
                image@,
                mask@,
                *cfg,
                small_img@,
                small_raw@,
                Ok(out@),
                full_out@,
                seen(result),
            ));
            result
        },
        Err(e) => {
            let result: Result<RgbImage, InpaintError> = Err(e);
            assert(resize_steps(
                model,
                image@,
                mask@,
                *cfg,
                small_img@,
                small_raw@,
                Err(e),
                small_img@,
                seen(result),
            ));
            result
        },
    }
}

/// The results of a forward pass whose longer side is kept within the limit.
pub open spec fn bounded_outcome<F: InpaintForward>(
    model: &F,
    image: Plane<[u8; 3]>,
    mask: Plane<u8>,
    cfg: HdStrategyConfig,
    result: Outcome,
) -> bool {
    if scaling::longer_side(image.width as int, image.height as int) > cfg.resize_limit {
        resize_outcome(model, image, mask, cfg, result)
    } else {
        pad_forward_outcome(model, image, mask, cfg.pad_mod as int, result)
    }
}

/// Sizes that a bounded forward pass can handle.
pub open spec fn boundable(width: int, height: int, cfg: HdStrategyConfig) -> bool {
    if scaling::longer_side(width, height) > cfg.resize_limit {
        resizable(width, height, cfg.pad_mod as int)
    } else {
        paddable(width, height, cfg.pad_mod as int)
    }
}

/// [`pad_forward`] with a nested Resize fallback when the input exceeds
/// `resize_limit`. Used inside the Crop loop.
pub fn pad_forward_bounded<F: InpaintForward>(
    model: &F,
    image: &RgbImage,
    mask: &GrayImage,
    cfg: &HdStrategyConfig,
) -> (result: Result<RgbImage, InpaintError>)
    requires
        mask@.same_size(image@),
        boundable(image@.width as int, image@.height as int, *cfg),
    ensures
        bounded_outcome(model, image@, mask@, *cfg, seen(result)),
        result matches Ok(out) ==> out@.same_size(image@),
{
    let (w, h) = image.dimensions();
    let longer: u32 = if w < h {
        h
    } else {
        w
    };
    if longer > cfg.resize_limit {
        run_resize(model, image, mask, cfg)
    } else {
        pad_forward(model, image, mask, cfg.pad_mod)
    }
}

/// The results of the forward pass on the crop around one box.
pub open spec fn crop_step<F: InpaintForward>(
    model: &F,
    image: Plane<[u8; 3]>,
    mask: Plane<u8>,
    cfg: HdStrategyConfig,
    b: Rect,
    result: Outcome,
) -> bool {
    let (l, t, r, bt) = geometry::crop_window(
        b,
        cfg.crop_margin as int,
        image.width as int,
        image.height as int,
    );
    bounded_outcome(
        model,
        image.crop(l, t, r - l, bt - t),
        mask.crop(l, t, r - l, bt - t),
        cfg,
        result,
    )
}

/// `before` with the forwarded crop around `b` pasted in.
pub open spec fn pasted_over(
    before: Plane<[u8; 3]>,
    part: Plane<[u8; 3]>,
    b: Rect,
    cfg: HdStrategyConfig,
) -> Plane<[u8; 3]> {
    let (l, t, r, bt) = geometry::crop_window(
        b,
        cfg.crop_margin as int,
        before.width as int,
        before.height as int,
    );
    before.replaced(part, l, t)
}

/// Whether `parts` are results of the forward passes on the crops around the
/// first boxes. Every crop is taken from the original image.
pub open spec fn crop_parts<F: InpaintForward>(
    model: &F,
    image: Plane<[u8; 3]>,
    mask: Plane<u8>,
    cfg: HdStrategyConfig,
    boxes: Seq<Rect>,
    parts: Seq<Plane<[u8; 3]>>,
) -> bool {
    &&& parts.len() <= boxes.len()
    &&& forall|i: int|
        0 <= i < parts.len() ==> crop_step(
            model,
            image,
            mask,
            cfg,
            boxes[i],
            Ok(#[trigger] parts[i]),
        )
}

/// The image with the parts pasted in one after the other.
pub open spec fn pasted(
    image: Plane<[u8; 3]>,
    cfg: HdStrategyConfig,
    boxes: Seq<Rect>,
    parts: Seq<Plane<[u8; 3]>>,
) -> Plane<[u8; 3]>
    decreases parts.len(),
{
    if parts.len() == 0 {
        image
    } else {
        pasted_over(
            pasted(image, cfg, boxes, parts.drop_last()),
            parts.last(),
            boxes[parts.len() - 1],
            cfg,
        )
    }
}

/// The results of the Crop strategy for the given boxes: all crops pasted in,
/// or the error of the first one whose forward pass fails.
pub open spec fn crop_outcome<F: InpaintForward>(
    model: &F,
    image: Plane<[u8; 3]>,
    mask: Plane<u8>,
    cfg: HdStrategyConfig,
    boxes: Seq<Rect>,
    result: Outcome,
) -> bool {
    exists|parts: Seq<Plane<[u8; 3]>>|
        {
            &&& #[trigger] crop_parts(model, image, mask, cfg, boxes, parts)
            &&& match result {
                Ok(out) => {
                    &&& parts.len() == boxes.len()
                    &&& out == pasted(image, cfg, boxes, parts)
                },
                Err(e) => {
                    &&& parts.len() < boxes.len()
                    &&& crop_step(model, image, mask, cfg, boxes[parts.len() as int], Err(e))
                },
            }
        }
}

/// Sizes whose crops can all be handled, whatever their boxes.
pub open spec fn croppable_size(width: int, height: int, cfg: HdStrategyConfig) -> bool {
    &&& geometry::searchable(width as nat, height as nat)
    &&& width + 2 * cfg.crop_margin <= u32::MAX
    &&& height + 2 * cfg.crop_margin <= u32::MAX
    &&& paddable(width, height, cfg.pad_mod as int)
    &&& scaling::longer_side(width, height) > cfg.resize_limit ==> resizable(
        width,
        height,
        cfg.pad_mod as int,
    )
}

proof fn lemma_crop_fits(w: int, h: int, cw: int, ch: int, cfg: HdStrategyConfig)
    requires
        0 <= cw <= w,
        0 <= ch <= h,
        croppable_size(w, h, cfg),
    ensures
        boundable(cw, ch, cfg),
{
    let mw = raster::max(w, 1);
    let mh = raster::max(h, 1);
    let cmw = raster::max(cw, 1);
    let cmh = raster::max(ch, 1);
    lemma_paddable_mono(cw, ch, w, h, cfg.pad_mod as int);
    if scaling::longer_side(cw, ch) > cfg.resize_limit {
        lemma_paddable_mono(cmw, cmh, mw, mh, cfg.pad_mod as int);
        assert(cmw * cmh <= mw * mh) by (nonlinear_arith)
            requires
                0 <= cmw <= mw,
                0 <= cmh <= mh,
        ;
    }
}

/// One forward pass per mask contour, pasted back in place.
pub fn run_crop<F: InpaintForward>(
    model: &F,
    image: &RgbImage,
    mask: &GrayImage,
    cfg: &HdStrategyConfig,
) -> (result: Result<RgbImage, InpaintError>)
    requires
        mask@.same_size(image@),
        croppable_size(image@.width as int, image@.height as int, *cfg),
    ensures
        crop_outcome(model, image@, mask@, *cfg, geometry::mask_boxes(mask@), seen(result)),
        (forall|x: int, y: int| !imaging::foreground(mask@, x, y)) ==> (result matches Ok(out)
            && out@ == image@),
        result matches Ok(out) ==> out@.same_size(image@),
        crops_cover(mask@, *cfg),
        exists|seeds: Seq<(int, int)>| #[trigger]
            geometry::one_box_each(geometry::mask_boxes(mask@), mask@, seeds),
{
    let boxes = geometry::boxes_from_mask(mask);
    let (width, height) = image.dimensions();
    proof {
        assert forall|x: int, y: int| imaging::foreground(
            mask@,
            x,
            y,
        ) implies #[trigger] in_some_crop(
            geometry::mask_boxes(mask@),
            *cfg,
            mask@.width as int,
            mask@.height as int,
            x,
            y,
        ) by {
            assert(geometry::in_some_box(geometry::rects(boxes@), x, y));
            law_boxed_pixels_are_cropped(mask@, *cfg, x, y);
        }
    }
    let ghost list = geometry::mask_boxes(mask@);
    assert(list.len() == boxes@.len());
    let mut out = image.clone();
    let ghost mut parts: Seq<Plane<[u8; 3]>> = Seq::empty();
    let mut i: usize = 0;
    while i < boxes.len()
        invariant
            i <= boxes@.len(),
            list == geometry::mask_boxes(mask@),
            list == geometry::rects(boxes@),
            crops_cover(mask@, *cfg),
            exists|seeds: Seq<(int, int)>| #[trigger]
                geometry::one_box_each(geometry::mask_boxes(mask@), mask@, seeds),
            mask@.same_size(image@),
            width == image@.width,
            height == image@.height,
            croppable_size(image@.width as int, image@.height as int, *cfg),
            (forall|x: int, y: int| !imaging::foreground(mask@, x, y)) ==> boxes@.len() == 0,
            out@.same_size(image@),
            parts.len() == i,
            crop_parts(model, image@, mask@, *cfg, list, parts),
            out@ == pasted(image@, *cfg, list, parts),
        decreases boxes@.len() - i,
    {
        let b: Xyxy = boxes[i];
        proof {
            assert(list[i as int] == geometry::corners(b));
            geometry::law_boxes_inside(
                geometry::mask_borders(mask@),
                mask@.width as int,
                mask@.height as int,
                i as int,
            );
        }
        let (crop_img, crop_mask, window) = geometry::crop_box(image, mask, b, cfg.crop_margin);
        proof {
            use_type_invariant(&crop_img);
            let (l, t, r, bt) = geometry::crop_window(
                geometry::corners(b),
                cfg.crop_margin as int,
                width as int,
                height as int,
            );
            lemma_crop_fits(width as int, height as int, r - l, bt - t, *cfg);
        }
        match pad_forward_bounded(model, &crop_img, &crop_mask, cfg) {
            Ok(part) => {
                out.replace(&part, window[0], window[1]);
                proof {
                    let earlier = parts;
                    parts = earlier.push(part@);
                    assert(parts.drop_last() =~= earlier);
                    assert forall|k: int| 0 <= k < parts.len() implies crop_step(
                        model,
                        image@,
                        mask@,
                        *cfg,
                        list[k],
                        Ok(#[trigger] parts[k]),
                    ) by {
                        if k < i {
                            assert(parts[k] == earlier[k]);
                        }
                    }
                }
            },
            Err(e) => {
                let result: Result<RgbImage, InpaintError> = Err(e);
                assert(crop_step(model, image@, mask@, *cfg, list[i as int], seen(result)));
                return result;
            },
        }
        i += 1;
    }
    Ok(out)
}

/// The results of [`run_inpaint`].
pub open spec fn inpaint_outcome<F: InpaintForward>(
    model: &F,
    image: Plane<[u8; 3]>,
    mask: Plane<u8>,
    cfg: HdStrategyConfig,
    result: Outcome,
) -> bool {
    let longer = scaling::longer_side(image.width as int, image.height as int);
    if cfg.strategy is Crop && longer > cfg.crop_trigger_size {
        crop_outcome(model, image, mask, cfg, geometry::mask_boxes(mask), result)
    } else if cfg.strategy is Resize && longer > cfg.resize_limit {
        resize_outcome(model, image, mask, cfg, result)
    } else {
        pad_forward_outcome(model, image, mask, cfg.pad_mod as int, result)
    }
}

/// Sizes that [`run_inpaint`] can handle.
pub open spec fn inpaintable(width: int, height: int, cfg: HdStrategyConfig) -> bool {
    let longer = scaling::longer_side(width, height);
    if cfg.strategy is Crop && longer > cfg.crop_trigger_size {
        croppable_size(width, height, cfg)
    } else if cfg.strategy is Resize && longer > cfg.resize_limit {
        resizable(width, height, cfg.pad_mod as int)
    } else {
        paddable(width, height, cfg.pad_mod as int)
    }
}

/// The next multiple, also where it does not fit in 32 bits.
fn wide_multiple(v: u32, m: u32) -> (r: u64)
    ensures
        r == geometry::next_multiple(v as int, m as int),
        r < 0x2_0000_0000,
{
    if m == 0 {
        return v as u64;
    }
    proof {
        geometry::lemma_next_multiple(v as int, m as int);
    }
    let q: u64 = (v as u64 + m as u64 - 1) / m as u64;
    q * m as u64
}

/// Whether the padding of an image of this size can be represented.
pub fn is_paddable(width: u32, height: u32, pad_mod: u32) -> (r: bool)
    ensures
        r == paddable(width as int, height as int, pad_mod as int),
{
    let w: u64 = wide_multiple(width, pad_mod);
    let h: u64 = wide_multiple(height, pad_mod);
    assert(0 <= w * h <= 0x2_0000_0000 * 0x2_0000_0000) by (nonlinear_arith)
        requires
            0 <= w < 0x2_0000_0000,
            0 <= h < 0x2_0000_0000,
    ;
    w <= u32::MAX as u64 && h <= u32::MAX as u64 && (w as u128) * (h as u128)
        <= usize::MAX as u128
}

/// Whether the Resize strategy can handle an image of this size.
pub fn is_resizable(width: u32, height: u32, pad_mod: u32) -> (r: bool)
    ensures
        r == resizable(width as int, height as int, pad_mod as int),
{
    let w: u32 = if width < 1 {
        1
    } else {
        width
    };
    let h: u32 = if height < 1 {
        1
    } else {
        height
    };
    assert(0 <= w * h <= 0xffff_ffff * 0xffff_ffff) by (nonlinear_arith)
        requires
            0 <= w <= 0xffff_ffff,
            0 <= h <= 0xffff_ffff,
    ;
    width <= 0x80_0000 && height <= 0x80_0000 && 16 * ((w as u128) * (h as u128))
        <= isize::MAX as u128 && is_paddable(w, h, pad_mod)
}

/// Whether [`run_inpaint`] can handle an image of this size.
pub fn is_inpaintable(width: u32, height: u32, cfg: &HdStrategyConfig) -> (r: bool)
    ensures
        r == inpaintable(width as int, height as int, *cfg),
{
    let longer: u32 = if width < height {
        height
    } else {
        width
    };
    match cfg.strategy {
        HdStrategy::Crop if longer > cfg.crop_trigger_size => {
            let margins: u64 = 2 * cfg.crop_margin as u64;
            geometry::is_searchable(width, height) && width as u64 + margins <= u32::MAX as u64
                && height as u64 + margins <= u32::MAX as u64 && is_paddable(
                width,
                height,
                cfg.pad_mod,
            ) && (longer <= cfg.resize_limit || is_resizable(width, height, cfg.pad_mod))
        },
        HdStrategy::Resize if longer > cfg.resize_limit => is_resizable(
            width,
            height,
            cfg.pad_mod,
        ),
        _ => is_paddable(width, height, cfg.pad_mod),
    }
}

/// Hands the page to the strategy that its size calls for.
fn dispatch<F: InpaintForward>(
    model: &F,
    image: &RgbImage,
    mask: &GrayImage,
    cfg: &HdStrategyConfig,
) -> (result: Result<RgbImage, InpaintError>)
    requires
        mask@.same_size(image@),
        inpaintable(image@.width as int, image@.height as int, *cfg),
    ensures
        inpaint_outcome(model, image@, mask@, *cfg, seen(result)),
        result matches Ok(out) ==> out@.same_size(image@),
        cfg.strategy is Crop && scaling::longer_side(image@.width as int, image@.height as int)
            > cfg.crop_trigger_size && (forall|x: int, y: int|
            !imaging::foreground(mask@, x, y)) ==> (result matches Ok(out) && out@ == image@),
        cfg.strategy is Crop && scaling::longer_side(image@.width as int, image@.height as int)
            > cfg.crop_trigger_size ==> crops_cover(mask@, *cfg) && exists|seeds: Seq<(int, int)>|
            #[trigger] geometry::one_box_each(geometry::mask_boxes(mask@), mask@, seeds),
{
    let (w, h) = image.dimensions();
    let max_side: u32 = if w < h {
        h
    } else {
        w
    };
    match cfg.strategy {
        HdStrategy::Crop if max_side > cfg.crop_trigger_size => run_crop(model, image, mask, cfg),
        HdStrategy::Resize if max_side > cfg.resize_limit => run_resize(model, image, mask, cfg),
        _ => pad_forward(model, image, mask, cfg.pad_mod),
    }
}

/// Entry point: dispatch on `cfg.strategy` and return an RGB image with the
/// masked region inpainted. `mask` is expected to be binarized (0 or 255).
pub fn run_inpaint<F: InpaintForward>(
    model: &F,
    image: &RgbImage,
    mask: &GrayImage,
    cfg: &HdStrategyConfig,
) -> (result: Result<RgbImage, InpaintError>)
    requires
        mask@.same_size(image@),
        inpaintable(image@.width as int, image@.height as int, *cfg),
    ensures
        inpaint_outcome(model, image@, mask@, *cfg, seen(result)),
        result matches Ok(out) ==> out@.same_size(image@),
        cfg.strategy is Crop && scaling::longer_side(image@.width as int, image@.height as int)
            > cfg.crop_trigger_size && (forall|x: int, y: int|
            !imaging::foreground(mask@, x, y)) ==> (result matches Ok(out) && out@ == image@),
        cfg.strategy is Crop && scaling::longer_side(image@.width as int, image@.height as int)
            > cfg.crop_trigger_size ==> crops_cover(mask@, *cfg),
        laws::page_pass(
            model,
            image@,
            mask@,
            *cfg,
            geometry::mask_boxes(mask@),
            seen(result),
        ),
        cfg.strategy is Crop && (image@.width > cfg.crop_trigger_size || image@.height
            > cfg.crop_trigger_size) ==> {
            &&& exists|seeds: Seq<(int, int)>| #[trigger]
                geometry::one_box_each(geometry::mask_boxes(mask@), mask@, seeds)
            &&& result matches Ok(out) ==> forall|x: int, y: int|
                imaging::foreground(mask@, x, y) ==> #[trigger] laws::repainted(
                    model,
                    image@,
                    mask@,
                    *cfg,
                    geometry::mask_boxes(mask@),
                    out@,
                    x,
                    y,
                )
        },
{
    let result = dispatch(model, image, mask, cfg);
    proof {
        use_type_invariant(image);
        use_type_invariant(mask);
        laws::law_page_is_passed(model, image@, mask@, *cfg, seen(result));
        if cfg.strategy is Crop && (image@.width > cfg.crop_trigger_size || image@.height
            > cfg.crop_trigger_size) {
            if let Ok(out) = &result {
                assert forall|x: int, y: int| imaging::foreground(
                    mask@,
                    x,
                    y,
                ) implies #[trigger] laws::repainted(
                    model,
                    image@,
                    mask@,
                    *cfg,
                    geometry::mask_boxes(mask@),
                    out@,
                    x,
                    y,
                ) by {
                    laws::law_every_marked_pixel_is_repainted(
                        model,
                        image@,
                        mask@,
                        *cfg,
                        out@,
                        x,
                        y,
                    );
                }
            }
        }
    }
    result
}

/// The Resize strategy leaves every pixel outside the mask as it was.
pub proof fn law_resize_keeps_unmasked<F: InpaintForward>(
    model: &F,
    image: Plane<[u8; 3]>,
    mask: Plane<u8>,
    cfg: HdStrategyConfig,
    out: Plane<[u8; 3]>,
    x: int,
    y: int,
)
    requires
        resize_outcome(model, image, mask, cfg, Ok(out)),
        image.inside(x, y),
        mask.at(x, y) < 127,
    ensures
        out.at(x, y) == image.at(x, y),
{
    broadcast use raster::lemma_tabulate;

}

/// The Resize strategy does not resample an image whose longer side is within
/// the limit: the model gets the image itself under the black and white mask,
/// and its output is used as it is.
pub proof fn law_resize_of_fitting_image<F: InpaintForward>(
    model: &F,
    image: Plane<[u8; 3]>,
    mask: Plane<u8>,
    cfg: HdStrategyConfig,
    result: Outcome,
)
    requires
        mask.same_size(image),
        scaling::longer_side(image.width as int, image.height as int) <= cfg.resize_limit,
        resize_outcome(model, image, mask, cfg, result),
    ensures
        exists|out: Outcome| #[trigger]
            pad_forward_outcome(model, image, binarized(mask), cfg.pad_mod as int, out) && result
                == match out {
                Ok(o) => Outcome::Ok(restored(o, image, mask)),
                Err(e) => Outcome::Err(e),
            },
{
    let (small, small_mask, out, full) = choose|
        small: Plane<[u8; 3]>,
        small_mask: Plane<u8>,
        small_out: Outcome,
        full: Plane<[u8; 3]>,
    | #[trigger]
        resize_steps(model, image, mask, cfg, small, small_mask, small_out, full, result);
    assert(pad_forward_outcome(model, image, binarized(mask), cfg.pad_mod as int, out));
    if let Ok(o) = out {
        lemma_pad_forward_size(model, image, binarized(mask), cfg.pad_mod as int, o);
    }
}

/// Whether `(x, y)` lies in the crop around one of the boxes.
pub open spec fn in_some_crop(
    boxes: Seq<Rect>,
    cfg: HdStrategyConfig,
    width: int,
    height: int,
    x: int,
    y: int,
) -> bool {
    exists|i: int|
        0 <= i < boxes.len() && geometry::in_window(
            geometry::crop_window(#[trigger] boxes[i], cfg.crop_margin as int, width, height),
            x,
            y,
        )
}

/// Whether every marked pixel lies in one of the crops, so that the model gets
/// to see it.
pub open spec fn crops_cover(mask: Plane<u8>, cfg: HdStrategyConfig) -> bool {
    forall|x: int, y: int|
        imaging::foreground(mask, x, y) ==> #[trigger] in_some_crop(
            geometry::mask_boxes(mask),
            cfg,
            mask.width as int,
            mask.height as int,
            x,
            y,
        )
}

/// A pixel in one of the boxes of a mask lies in one of the crops.
pub proof fn law_boxed_pixels_are_cropped(
    mask: Plane<u8>,
    cfg: HdStrategyConfig,
    x: int,
    y: int,
)
    requires
        geometry::in_some_box(geometry::mask_boxes(mask), x, y),
    ensures
        in_some_crop(
            geometry::mask_boxes(mask),
            cfg,
            mask.width as int,
            mask.height as int,
            x,
            y,
        ),
{
    let (w, h) = (mask.width as int, mask.height as int);
    let boxes = geometry::mask_boxes(mask);
    let i = choose|i: int| 0 <= i < boxes.len() && geometry::in_window(#[trigger] boxes[i], x, y);
    geometry::law_boxes_inside(geometry::mask_borders(mask), w, h, i);
    geometry::law_crop_contains_box(boxes[i], cfg.crop_margin as int, w, h);
    assert(geometry::in_window(
        geometry::crop_window(boxes[i], cfg.crop_margin as int, w, h),
        x,
        y,
    ));
}

/// The Crop strategy leaves every pixel outside all crops as it was.
pub proof fn law_crop_keeps_outside<F: InpaintForward>(
    model: &F,
    image: Plane<[u8; 3]>,
    mask: Plane<u8>,
    cfg: HdStrategyConfig,
    boxes: Seq<Rect>,
    out: Plane<[u8; 3]>,
    x: int,
    y: int,
)
    requires
        image.wf(),
        mask.same_size(image),
        crop_outcome(model, image, mask, cfg, boxes, Ok(out)),
        image.inside(x, y),
        !in_some_crop(boxes, cfg, image.width as int, image.height as int, x, y),
    ensures
        out.same_size(image),
        out.at(x, y) == image.at(x, y),
{
    let parts = choose|parts: Seq<Plane<[u8; 3]>>|
        {
            &&& #[trigger] crop_parts(model, image, mask, cfg, boxes, parts)
            &&& parts.len() == boxes.len()
            &&& out == pasted(image, cfg, boxes, parts)
        };
    lemma_pasted_outside(model, image, mask, cfg, boxes, parts, x, y);
}

proof fn lemma_pasted_outside<F: InpaintForward>(
    model: &F,
    image: Plane<[u8; 3]>,
    mask: Plane<u8>,
    cfg: HdStrategyConfig,
    boxes: Seq<Rect>,
    parts: Seq<Plane<[u8; 3]>>,
    x: int,
    y: int,
)
    requires
        image.wf(),
        mask.same_size(image),
        crop_parts(model, image, mask, cfg, boxes, parts),
        image.inside(x, y),
        !in_some_crop(boxes, cfg, image.width as int, image.height as int, x, y),
    ensures
        pasted(image, cfg, boxes, parts).same_size(image),
        pasted(image, cfg, boxes, parts).at(x, y) == image.at(x, y),
    decreases parts.len(),
{
    broadcast use raster::lemma_tabulate;

    if parts.len() > 0 {
        let n = parts.len() - 1;
        let earlier = parts.drop_last();
        assert forall|k: int| 0 <= k < earlier.len() implies crop_step(
            model,
            image,
            mask,
            cfg,
            boxes[k],
            Ok(#[trigger] earlier[k]),
        ) by {
            assert(earlier[k] == parts[k]);
        }
        lemma_pasted_outside(model, image, mask, cfg, boxes, earlier, x, y);
        let (l, t, r, bt) = geometry::crop_window(
            boxes[n],
            cfg.crop_margin as int,
            image.width as int,
            image.height as int,
        );
        assert(crop_step(model, image, mask, cfg, boxes[n], Ok(parts[n])));
        lemma_part_size(
            model,
            image.crop(l, t, r - l, bt - t),
            mask.crop(l, t, r - l, bt - t),
            cfg,
            parts[n],
        );
        assert(!geometry::in_window((l, t, r, bt), x, y));
    }
}

/// A bounded forward pass keeps the size.
proof fn lemma_part_size<F: InpaintForward>(
    model: &F,
    image: Plane<[u8; 3]>,
    mask: Plane<u8>,
    cfg: HdStrategyConfig,
    part: Plane<[u8; 3]>,
)
    requires
        bounded_outcome(model, image, mask, cfg, Ok(part)),
    ensures
        part.same_size(image),
{
    if scaling::longer_side(image.width as int, image.height as int) > cfg.resize_limit {
    } else {
        lemma_pad_forward_size(model, image, mask, cfg.pad_mod as int, part);
    }
}

proof fn lemma_pad_forward_size<F: InpaintForward>(
    model: &F,
    image: Plane<[u8; 3]>,
    mask: Plane<u8>,
    pad_mod: int,
    part: Plane<[u8; 3]>,
)
    requires
        pad_mod >= 0,
        pad_forward_outcome(model, image, mask, pad_mod, Ok(part)),
    ensures
        part.same_size(image),
{
    if pad_mod > 0 {
        geometry::lemma_next_multiple(image.width as int, pad_mod);
        geometry::lemma_next_multiple(image.height as int, pad_mod);
    }
}

/// Cutting a padded image back to its size gives the image again.
pub proof fn law_unpadding_undoes_padding<P>(plane: Plane<P>, width: nat, height: nat)
    requires
        plane.wf(),
        plane.width <= width,
        plane.height <= height,
    ensures
        padded(plane, width, height).crop(0, 0, plane.width as int, plane.height as int) == plane,
{
    broadcast use raster::lemma_tabulate;

    let back = padded(plane, width, height).crop(0, 0, plane.width as int, plane.height as int);
    assert forall|x: int, y: int| back.inside(x, y) implies #[trigger] back.at(x, y) == plane.at(
        x,
        y,
    ) by {
        geometry::law_reflection(x, plane.width as int);
        geometry::law_reflection(y, plane.height as int);
    }
    raster::lemma_planes_equal(back, plane);
}

/// Padding reaches a multiple of the divisor, and adds less than one divisor.
pub proof fn law_padding_reaches_multiple(v: int, pad_mod: int)
    requires
        v >= 0,
        pad_mod > 0,
    ensures
        geometry::next_multiple(v, pad_mod) % pad_mod == 0,
        v <= geometry::next_multiple(v, pad_mod) < v + pad_mod,
{
    geometry::lemma_next_multiple(v, pad_mod);
}

/// The size of what a bounded forward pass hands to the model.
pub open spec fn forwarded_size(w: int, h: int, cfg: HdStrategyConfig) -> (int, int) {
    let (nw, nh) = scaling::scaled_size(w, h, cfg.resize_limit as int);
    (
        geometry::next_multiple(nw, cfg.pad_mod as int),
        geometry::next_multiple(nh, cfg.pad_mod as int),
    )
}

/// What the Resize strategy and the crops hand to the model is not larger than
/// the padded limit, whatever the size of the image. An image within the limit
/// is padded only.
pub proof fn law_forward_is_bounded(w: int, h: int, cfg: HdStrategyConfig)
    requires
        0 < w < 0x1_0000_0000,
        0 < h < 0x1_0000_0000,
        cfg.resize_limit > 0,
    ensures
        ({
            let (fw, fh) = forwarded_size(w, h, cfg);
            let bound = geometry::next_multiple(cfg.resize_limit as int, cfg.pad_mod as int);
            fw <= bound && fh <= bound
        }),
        scaling::longer_side(w, h) <= cfg.resize_limit ==> forwarded_size(w, h, cfg) == (
            geometry::next_multiple(w, cfg.pad_mod as int),
            geometry::next_multiple(h, cfg.pad_mod as int),
        ),
{
    let limit = cfg.resize_limit as int;
    let (nw, nh) = scaling::scaled_size(w, h, limit);
    scaling::law_scaling_shrinks(w, h, limit);
    if limit < scaling::longer_side(w, h) {
        scaling::law_longer_side_becomes_limit(w, h, limit);
    }
    if cfg.pad_mod > 0 {
        geometry::lemma_next_multiple(limit, cfg.pad_mod as int);
    }
}

/// Making a mask black and white twice is the same as once.
pub proof fn law_binarizing_twice(plane: Plane<u8>)
    ensures
        binarized(binarized(plane)) == binarized(plane),
{
    broadcast use raster::lemma_tabulate;

    let once = binarized(plane);
    let twice = binarized(once);
    assert forall|x: int, y: int| twice.inside(x, y) implies #[trigger] twice.at(x, y) == once.at(
        x,
        y,
    ) by {}
    raster::lemma_planes_equal(twice, once);
}

/// Whether the model returns every image as it is.
pub open spec fn is_identity<F: InpaintForward>(model: &F) -> bool {
    forall|image: Plane<[u8; 3]>, mask: Plane<u8>, result: Outcome| #[trigger]
        model.may_return(image, mask, result) ==> result == Outcome::Ok(image)
}

/// A model that changes nothing makes the padded forward pass change nothing.
pub proof fn law_identity_padded<F: InpaintForward>(
    model: &F,
    image: Plane<[u8; 3]>,
    mask: Plane<u8>,
    pad_mod: int,
    result: Outcome,
)
    requires
        image.wf(),
        pad_mod >= 0,
        is_identity(model),
        pad_forward_outcome(model, image, mask, pad_mod, result),
    ensures
        result == Outcome::Ok(image),
{
    if pad_mod > 0 {
        geometry::lemma_next_multiple(image.width as int, pad_mod);
        geometry::lemma_next_multiple(image.height as int, pad_mod);
    }
    let w = geometry::next_multiple(image.width as int, pad_mod) as nat;
    let h = geometry::next_multiple(image.height as int, pad_mod) as nat;
    law_unpadding_undoes_padding(image, w, h);
}

/// A model that changes nothing makes the Crop strategy change nothing, as
/// long as no crop exceeds the resize limit.
pub proof fn law_identity_cropped<F: InpaintForward>(
    model: &F,
    image: Plane<[u8; 3]>,
    mask: Plane<u8>,
    cfg: HdStrategyConfig,
    boxes: Seq<Rect>,
    result: Outcome,
)
    requires
        image.wf(),
        is_identity(model),
        crop_outcome(model, image, mask, cfg, boxes, result),
        forall|i: int|
            0 <= i < boxes.len() ==> ({
                let (l, t, r, bt) = geometry::crop_window(
                    #[trigger] boxes[i],
                    cfg.crop_margin as int,
                    image.width as int,
                    image.height as int,
                );
                &&& 0 <= l <= r <= image.width
                &&& 0 <= t <= bt <= image.height
                &&& scaling::longer_side(r - l, bt - t) <= cfg.resize_limit
            }),
    ensures
        result == Outcome::Ok(image),
{
    let parts = choose|parts: Seq<Plane<[u8; 3]>>|
        {
            &&& #[trigger] crop_parts(model, image, mask, cfg, boxes, parts)
            &&& match result {
                Ok(out) => {
                    &&& parts.len() == boxes.len()
                    &&& out == pasted(image, cfg, boxes, parts)
                },
                Err(e) => {
                    &&& parts.len() < boxes.len()
                    &&& crop_step(model, image, mask, cfg, boxes[parts.len() as int], Err(e))
                },
            }
        };
    match result {
        Ok(out) => {
            lemma_identity_pasted(model, image, mask, cfg, boxes, parts);
        },
        Err(e) => {
            lemma_identity_step(model, image, mask, cfg, boxes[parts.len() as int], result);
        },
    }
}

proof fn lemma_identity_step<F: InpaintForward>(
    model: &F,
    image: Plane<[u8; 3]>,
    mask: Plane<u8>,
    cfg: HdStrategyConfig,
    b: Rect,
    result: Outcome,
)
    requires
        image.wf(),
        is_identity(model),
        crop_step(model, image, mask, cfg, b, result),
        ({
            let (l, t, r, bt) = geometry::crop_window(
                b,
                cfg.crop_margin as int,
                image.width as int,
                image.height as int,
            );
            &&& 0 <= l <= r <= image.width
            &&& 0 <= t <= bt <= image.height
            &&& scaling::longer_side(r - l, bt - t) <= cfg.resize_limit
        }),
    ensures
        ({
            let (l, t, r, bt) = geometry::crop_window(
                b,
                cfg.crop_margin as int,
                image.width as int,
                image.height as int,
            );
            result == Outcome::Ok(image.crop(l, t, r - l, bt - t))
        }),
{
    let (l, t, r, bt) = geometry::crop_window(
        b,
        cfg.crop_margin as int,
        image.width as int,
        image.height as int,
    );
    law_identity_padded(
        model,
        image.crop(l, t, r - l, bt - t),
        mask.crop(l, t, r - l, bt - t),
        cfg.pad_mod as int,
        result,
    );
}

proof fn lemma_identity_pasted<F: InpaintForward>(
    model: &F,
    image: Plane<[u8; 3]>,
    mask: Plane<u8>,
    cfg: HdStrategyConfig,
    boxes: Seq<Rect>,
    parts: Seq<Plane<[u8; 3]>>,
)
    requires
        image.wf(),
        is_identity(model),
        crop_parts(model, image, mask, cfg, boxes, parts),
        forall|i: int|
            0 <= i < boxes.len() ==> ({
                let (l, t, r, bt) = geometry::crop_window(
                    #[trigger] boxes[i],
                    cfg.crop_margin as int,
                    image.width as int,
                    image.height as int,
                );
                &&& 0 <= l <= r <= image.width
                &&& 0 <= t <= bt <= image.height
                &&& scaling::longer_side(r - l, bt - t) <= cfg.resize_limit
            }),
    ensures
        pasted(image, cfg, boxes, parts) == image,
    decreases parts.len(),
{
    broadcast use raster::lemma_tabulate;

    if parts.len() > 0 {
        let n = parts.len() - 1;
        let earlier = parts.drop_last();
        assert forall|k: int| 0 <= k < earlier.len() implies crop_step(
            model,
            image,
            mask,
            cfg,
            boxes[k],
            Ok(#[trigger] earlier[k]),
        ) by {
            assert(earlier[k] == parts[k]);
        }
        lemma_identity_pasted(model, image, mask, cfg, boxes, earlier);
        assert(crop_step(model, image, mask, cfg, boxes[n], Ok(parts[n])));
        lemma_identity_step(model, image, mask, cfg, boxes[n], Ok(parts[n]));
        let (l, t, r, bt) = geometry::crop_window(
            boxes[n],
            cfg.crop_margin as int,
            image.width as int,
            image.height as int,
        );
        let out = image.replaced(parts[n], l, t);
        assert forall|x: int, y: int| out.inside(x, y) implies #[trigger] out.at(x, y) == image.at(
            x,
            y,
        ) by {}
        raster::lemma_planes_equal(out, image);
    }
}

} // verus!
