//! Inpainting of manga pages with a LaMa network.
use crate::imaging;
use crate::inpainting::{alpha, balloon, geometry, laws, scaling};
use crate::inpainting::strategy::{
    self, HdStrategyConfig, InpaintError, InpaintForward, Outcome,
};
use crate::raster::{self, GrayImage, Plane, RgbImage, RgbaImage};
use vstd::prelude::*;

verus! {

/// An image with or without transparency.
#[derive(Debug)]
pub enum SourceImage {
    Rgb(RgbImage),
    Rgba(RgbaImage),
}

/// The content of an image with or without transparency.
pub enum SourcePlane {
    Rgb(Plane<[u8; 3]>),
    Rgba(Plane<[u8; 4]>),
}

impl View for SourceImage {
    type V = SourcePlane;

    open spec fn view(&self) -> SourcePlane {
        match self {
            SourceImage::Rgb(image) => SourcePlane::Rgb(image@),
            SourceImage::Rgba(image) => SourcePlane::Rgba(image@),
        }
    }
}

impl SourcePlane {
    pub open spec fn width(self) -> nat {
        match self {
            SourcePlane::Rgb(plane) => plane.width,
            SourcePlane::Rgba(plane) => plane.width,
        }
    }

    pub open spec fn height(self) -> nat {
        match self {
            SourcePlane::Rgb(plane) => plane.height,
            SourcePlane::Rgba(plane) => plane.height,
        }
    }

    /// Whether both images have the same size and both or neither have
    /// transparency.
    pub open spec fn alike(self, other: SourcePlane) -> bool {
        &&& self.width() == other.width()
        &&& self.height() == other.height()
        &&& self is Rgba <==> other is Rgba
    }

    /// Whether the mask has the size of the image.
    pub open spec fn sized(self, mask: Plane<u8>) -> bool {
        self.width() == mask.width && self.height() == mask.height
    }

    /// Whether `rgb` holds the colors of the image.
    pub open spec fn colors(self, rgb: Plane<[u8; 3]>) -> bool {
        match self {
            SourcePlane::Rgb(plane) => rgb == plane && rgb.wf(),
            SourcePlane::Rgba(plane) => alpha::colors_of(plane, rgb),
        }
    }
}

impl SourceImage {
    /// Width and height.
    pub fn dimensions(&self) -> (dimensions: (u32, u32))
        ensures
            dimensions.0 == self@.width(),
            dimensions.1 == self@.height(),
    {
        match self {
            SourceImage::Rgb(image) => image.dimensions(),
            SourceImage::Rgba(image) => image.dimensions(),
        }
    }
}

/// A LaMa network with the balloon-fill fast path before it.
pub struct Lama<M> {
    /// The network itself.
    pub model: M,
}

/// The forward pass that the strategies use. Applies the balloon-fill fast
/// path crop by crop before falling back to the network, so that speech
/// bubbles with a flat background skip the network entirely.
pub struct LamaForward<'a, M> {
    pub lama: &'a Lama<M>,
}

/// Whether a mask marks no pixel.
pub open spec fn blank(mask: Plane<u8>) -> bool {
    forall|i: int| 0 <= i < mask.pixels.len() ==> #[trigger] mask.pixels[i] == 0
}

fn is_blank(mask: &GrayImage) -> (r: bool)
    ensures
        r == blank(mask@),
{
    let pixels: &Vec<u8> = mask.pixels();
    let mut i: usize = 0;
    while i < pixels.len()
        invariant
            i <= pixels@.len(),
            pixels@ == mask@.pixels,
            forall|j: int| 0 <= j < i ==> #[trigger] pixels@[j] == 0,
        decreases pixels@.len() - i,
    {
        if pixels[i] != 0 {
            return false;
        }
        i += 1;
    }
    true
}

impl<'a, M: InpaintForward> InpaintForward for LamaForward<'a, M> {
    /// A blank mask gives the image back. Otherwise a balloon is filled where
    /// one is found, and the network is asked where none is. The search counts
    /// pixels in 32 bits: an image with more of them goes straight to the
    /// network.
    open spec fn may_return(
        &self,
        image: Plane<[u8; 3]>,
        mask: Plane<u8>,
        result: Outcome,
    ) -> bool {
        if blank(mask) {
            result == Outcome::Ok(image)
        } else if imaging::processable(mask.width, mask.height) {
            exists|found: Option<Plane<[u8; 3]>>| #[trigger]
                balloon::balloon_outcome(image, mask, found) && match found {
                    Some(out) => result == Outcome::Ok(out),
                    None => self.lama.model.may_return(image, mask, result),
                }
        } else {
            self.lama.model.may_return(image, mask, result)
        }
    }

    fn forward(&self, image: &RgbImage, mask: &GrayImage) -> (result: Result<
        RgbImage,
        InpaintError,
    >) {
        if is_blank(mask) {
            return Ok(image.clone());
        }
        let (width, height) = mask.dimensions();
        if imaging::is_processable(width, height) {
            let found = balloon::try_fill_balloon(image, mask);
            let ghost seen = balloon::image_seen(found);
            assert(balloon::balloon_outcome(image@, mask@, seen));
            if let Some(out) = found {
                proof {
                    balloon::law_text_is_painted(image@, mask@, out@);
                }
                return Ok(out);
            }
        }
        self.lama.model.forward(image, mask)
    }
}

/// What may come out of inpainting an image: its colors inpainted under the
/// black and white mask, joined with its transparency where it has one.
pub open spec fn inference_outcome<M: InpaintForward>(
    lama: &Lama<M>,
    image: SourcePlane,
    mask: Plane<u8>,
    cfg: HdStrategyConfig,
    rgb: Plane<[u8; 3]>,
    out: Outcome,
    result: Result<SourcePlane, InpaintError>,
) -> bool {
    let binary = strategy::binarized(mask);
    &&& image.colors(rgb)
    &&& strategy::inpaint_outcome(&LamaForward { lama }, rgb, binary, cfg, out)
    &&& match (out, result) {
        (Ok(colors), Ok(SourcePlane::Rgb(joined))) => image is Rgb && joined == colors,
        (Ok(colors), Ok(SourcePlane::Rgba(joined))) => {
            &&& image matches SourcePlane::Rgba(source)
            &&& alpha::joined(
                colors,
                alpha::restored_alpha(alpha::alpha_of(source), binary),
                joined,
            )
        },
        (Err(e), Err(f)) => e == f,
        _ => false,
    }
}

/// What may come out of inpainting an image. An image and a mask of different
/// sizes are refused.
pub open spec fn inferred<M: InpaintForward>(
    lama: &Lama<M>,
    image: SourcePlane,
    mask: Plane<u8>,
    cfg: HdStrategyConfig,
    result: Result<SourcePlane, InpaintError>,
) -> bool {
    if image.sized(mask) {
        exists|rgb: Plane<[u8; 3]>, out: Outcome| #[trigger]
            inference_outcome(lama, image, mask, cfg, rgb, out, result)
    } else {
        result == Err::<SourcePlane, InpaintError>(
            InpaintError::SizeMismatch {
                image: (image.width() as u32, image.height() as u32),
                mask: (mask.width as u32, mask.height as u32),
            },
        )
    }
}

/// The content of a result.
pub open spec fn source_seen(result: Result<SourceImage, InpaintError>) -> Result<
    SourcePlane,
    InpaintError,
> {
    match result {
        Ok(image) => Ok(image@),
        Err(e) => Err(e),
    }
}

/// Sizes that inpainting can handle.
pub open spec fn inferable(image: SourcePlane, cfg: HdStrategyConfig) -> bool {
    &&& strategy::inpaintable(image.width() as int, image.height() as int, cfg)
    &&& image is Rgba ==> imaging::processable(image.width(), image.height())
}

/// Whether [`Lama::inference_with_config`] takes the image, the mask and the
/// configuration. An image and a mask of different sizes are taken, and
/// refused with an error.
pub fn accepts(image: &SourceImage, mask: &GrayImage, cfg: &HdStrategyConfig) -> (r: bool)
    ensures
        r == (image@.sized(mask@) ==> inferable(image@, *cfg)),
{
    let (width, height) = image.dimensions();
    if width != mask.width() || height != mask.height() {
        return true;
    }
    let plain: bool = match image {
        SourceImage::Rgb(_) => true,
        SourceImage::Rgba(_) => imaging::is_processable(width, height),
    };
    plain && strategy::is_inpaintable(width, height, cfg)
}

/// Whether no pixel of a mask is above middle gray.
pub open spec fn dark(mask: Plane<u8>) -> bool {
    forall|x: int, y: int| #[trigger] mask.inside(x, y) ==> mask.at(x, y) <= 127
}

/// A mask without a pixel above middle gray is blank once it is black and
/// white.
proof fn lemma_dark_is_blank(mask: Plane<u8>)
    requires
        dark(mask),
    ensures
        blank(strategy::binarized(mask)),
        forall|x: int, y: int| #[trigger]
            strategy::binarized(mask).inside(x, y) ==> strategy::binarized(mask).at(x, y) == 0,
{
    broadcast use raster::lemma_tabulate;

    let binary = strategy::binarized(mask);
    assert forall|x: int, y: int| #[trigger] binary.inside(x, y) implies binary.at(x, y) == 0 by {
        assert(mask.inside(x, y));
    }
    assert forall|i: int| 0 <= i < binary.pixels.len() implies #[trigger] binary.pixels[i] == 0 by {
        raster::lemma_position(mask.width, mask.height, i);
        assert(binary.inside(i % mask.width as int, i / mask.width as int));
    }
}

/// A blank mask stays blank when it is padded.
proof fn lemma_padded_blank(mask: Plane<u8>, width: nat, height: nat)
    requires
        mask.wf(),
        blank(mask),
        width > 0 && height > 0 ==> mask.width > 0 && mask.height > 0,
    ensures
        blank(strategy::padded(mask, width, height)),
{
    let wide = strategy::padded(mask, width, height);
    assert forall|i: int| 0 <= i < wide.pixels.len() implies #[trigger] wide.pixels[i] == 0 by {
        raster::lemma_position(width, height, i);
        assert(height > 0);
        let x = geometry::reflected(i % width as int, mask.width as int);
        let y = geometry::reflected(i / width as int, mask.height as int);
        raster::lemma_index(mask.width, mask.height, x, y);
    }
}

/// Under a dark mask the forward pass of the strategies without crops changes
/// nothing.
proof fn lemma_dark<M: InpaintForward>(
    lama: &Lama<M>,
    rgb: Plane<[u8; 3]>,
    mask: Plane<u8>,
    cfg: HdStrategyConfig,
    out: Outcome,
)
    requires
        rgb.wf(),
        mask.same_size(rgb),
        dark(mask),
        strategy::inpaint_outcome(
            &LamaForward { lama },
            rgb,
            strategy::binarized(mask),
            cfg,
            out,
        ),
        !(cfg.strategy is Crop && scaling::longer_side(rgb.width as int, rgb.height as int)
            > cfg.crop_trigger_size),
    ensures
        out is Ok ==> out == Outcome::Ok(rgb),
        !(cfg.strategy is Resize) ==> out is Ok,
{
    broadcast use raster::lemma_tabulate;

    let forward = LamaForward { lama };
    let binary = strategy::binarized(mask);
    lemma_dark_is_blank(mask);
    if cfg.strategy is Resize && scaling::longer_side(rgb.width as int, rgb.height as int)
        > cfg.resize_limit {
        if out is Ok {
            let o = out.unwrap();
            assert forall|x: int, y: int| o.inside(x, y) implies #[trigger] o.at(x, y) == rgb.at(
                x,
                y,
            ) by {
                assert(binary.inside(x, y));
                strategy::law_resize_keeps_unmasked(&forward, rgb, binary, cfg, o, x, y);
            }
            raster::lemma_planes_equal(o, rgb);
        }
    } else {
        let m = cfg.pad_mod as int;
        let w = geometry::next_multiple(rgb.width as int, m) as nat;
        let h = geometry::next_multiple(rgb.height as int, m) as nat;
        if m > 0 {
            geometry::lemma_next_multiple(rgb.width as int, m);
            geometry::lemma_next_multiple(rgb.height as int, m);
            strategy::lemma_zero_stays_zero(rgb.width as int, m);
            strategy::lemma_zero_stays_zero(rgb.height as int, m);
        }
        lemma_padded_blank(binary, w, h);
        strategy::law_unpadding_undoes_padding(rgb, w, h);
    }
}

/// Under a dark mask the forward pass changes nothing, given that the crops
/// of a blank mask change nothing.
proof fn lemma_unchanged<M: InpaintForward>(
    lama: &Lama<M>,
    rgb: Plane<[u8; 3]>,
    mask: Plane<u8>,
    cfg: HdStrategyConfig,
    out: Outcome,
)
    requires
        rgb.wf(),
        mask.same_size(rgb),
        dark(mask),
        strategy::inpaint_outcome(
            &LamaForward { lama },
            rgb,
            strategy::binarized(mask),
            cfg,
            out,
        ),
        cfg.strategy is Crop && scaling::longer_side(rgb.width as int, rgb.height as int)
            > cfg.crop_trigger_size && (forall|x: int, y: int|
            !imaging::foreground(strategy::binarized(mask), x, y)) ==> out == Outcome::Ok(rgb),
    ensures
        out is Ok ==> out == Outcome::Ok(rgb),
        !(cfg.strategy is Resize) ==> out is Ok,
{
    let longer = scaling::longer_side(rgb.width as int, rgb.height as int);
    if cfg.strategy is Crop && longer > cfg.crop_trigger_size {
        lemma_dark_is_blank(mask);
        assert forall|x: int, y: int| !imaging::foreground(strategy::binarized(mask), x, y) by {
            if strategy::binarized(mask).inside(x, y) {
                assert(strategy::binarized(mask).at(x, y) == 0);
            }
        }
    } else {
        lemma_dark(lama, rgb, mask, cfg, out);
    }
}

impl<M: InpaintForward> Lama<M> {
    /// Runs inpainting with the manga-tuned default strategy.
    pub fn inference(&self, image: &SourceImage, mask: &GrayImage) -> (result: Result<
        SourceImage,
        InpaintError,
    >)
        requires
            image@.sized(mask@) ==> inferable(image@, strategy::lama_configuration()),
        ensures
            inferred(self, image@, mask@, strategy::lama_configuration(), source_seen(result)),
            result matches Ok(out) ==> out@.alike(image@),
            image@.sized(mask@) && dark(mask@) ==> source_seen(result) == Ok::<
                SourcePlane,
                InpaintError,
            >(image@),
    {
        self.inference_with_config(image, mask, &HdStrategyConfig::lama_default())
    }

    /// Runs inpainting with the given strategy and limits.
    pub fn inference_with_config(
        &self,
        image: &SourceImage,
        mask: &GrayImage,
        cfg: &HdStrategyConfig,
    ) -> (result: Result<SourceImage, InpaintError>)
        requires
            image@.sized(mask@) ==> inferable(image@, *cfg),
        ensures
            inferred(self, image@, mask@, *cfg, source_seen(result)),
            result matches Ok(out) ==> out@.alike(image@),
            image@.sized(mask@) && dark(mask@) ==> {
                &&& result is Ok ==> source_seen(result) == Ok::<SourcePlane, InpaintError>(image@)
                &&& !(cfg.strategy is Resize) ==> result is Ok
            },
    {
        let (width, height) = image.dimensions();
        let (mask_width, mask_height) = mask.dimensions();
        if width != mask_width || height != mask_height {
            return Err(
                InpaintError::SizeMismatch {
                    image: (width, height),
                    mask: (mask_width, mask_height),
                },
            );
        }
        let binary = alpha::binarize_mask(mask);
        let forward = LamaForward { lama: self };
        match image {
            SourceImage::Rgb(rgb) => {
                let painted = strategy::run_inpaint(&forward, rgb, &binary, cfg);
                proof {
                    use_type_invariant(rgb);
                    if dark(mask@) {
                        lemma_unchanged(self, rgb@, mask@, *cfg, strategy::seen(painted));
                    }
                }
                let ghost out = strategy::seen(painted);
                let result = match painted {
                    Ok(colors) => Ok(SourceImage::Rgb(colors)),
                    Err(e) => Err(e),
                };
                assert(inference_outcome(
                    self,
                    image@,
                    mask@,
                    *cfg,
                    rgb@,
                    out,
                    source_seen(result),
                ));
                result
            },
            SourceImage::Rgba(rgba) => {
                let rgb = alpha::extract_rgb(rgba);
                let painted = strategy::run_inpaint(&forward, &rgb, &binary, cfg);
                let ghost out = strategy::seen(painted);
                proof {
                    use_type_invariant(rgba);
                    if dark(mask@) {
                        lemma_unchanged(self, rgb@, mask@, *cfg, out);
                    }
                }
                let result = match painted {
                    Ok(colors) => {
                        let own = alpha::extract_alpha(rgba);
                        let joined = alpha::restore_alpha_channel(&colors, &own, &binary);
                        proof {
                            if dark(mask@) {
                                lemma_dark_is_blank(mask@);
                                alpha::law_joining_undoes_taking_apart(
                                    rgba@,
                                    rgb@,
                                    binary@,
                                    joined@,
                                );
                            }
                        }
                        Ok(SourceImage::Rgba(joined))
                    },
                    Err(e) => Err(e),
                };
                assert(inference_outcome(
                    self,
                    image@,
                    mask@,
                    *cfg,
                    rgb@,
                    out,
                    source_seen(result),
                ));
                result
            },
        }
    }
}

/// Whether the image has the given bytes, three per pixel in row-major order.
pub open spec fn has_bytes(image: Plane<[u8; 3]>, bytes: Seq<u8>) -> bool {
    forall|i: int, c: int|
        0 <= i < image.pixels.len() && 0 <= c < 3 ==> #[trigger] image.pixels[i]@[c] == bytes[3 * i
            + c]
}

/// The image that a network put out as interleaved bytes. Bytes beyond the
/// last pixel are ignored.
pub fn image_from_output(channels: usize, height: u32, width: u32, bytes: &Vec<u8>) -> (result:
    Result<RgbImage, InpaintError>)
    ensures
        match result {
            Ok(image) => {
                &&& channels == 3
                &&& 3 * (width * height) <= bytes@.len()
                &&& image@.width == width
                &&& image@.height == height
                &&& has_bytes(image@, bytes@)
            },
            Err(InpaintError::Channels(n)) => channels != 3 && n == channels,
            Err(InpaintError::Buffer) => channels == 3 && 3 * (width * height) > bytes@.len(),
            Err(_) => false,
        },
{
    if channels != 3 {
        return Err(InpaintError::Channels(channels));
    }
    assert(width * height <= 0xffff_ffff * 0xffff_ffff) by (nonlinear_arith)
        requires
            0 <= width <= 0xffff_ffff,
            0 <= height <= 0xffff_ffff,
    ;
    let count: u64 = (width as u64) * (height as u64);
    let len: usize = bytes.len();
    if (len / 3) as u64 >= count {
        let mut pixels: Vec<[u8; 3]> = Vec::new();
        let mut i: usize = 0;
        let count: usize = count as usize;
        while i < count
            invariant
                i <= count,
                3 * count <= len == bytes@.len(),
                pixels@.len() == i,
                forall|j: int, c: int|
                    0 <= j < i && 0 <= c < 3 ==> #[trigger] pixels@[j]@[c] == bytes@[3 * j + c],
            decreases count - i,
        {
            let pixel: [u8; 3] = [bytes[3 * i], bytes[3 * i + 1], bytes[3 * i + 2]];
            pixels.push(pixel);
            i += 1;
        }
        match RgbImage::from_vec(width, height, pixels) {
            Some(image) => Ok(image),
            None => Err(InpaintError::Buffer),
        }
    } else {
        Err(InpaintError::Buffer)
    }
}

/// A blank mask leaves the image as it is. Otherwise the network is asked only
/// where the balloon fill gives nothing, and never where it gives something.
pub proof fn law_network_is_asked_last<M: InpaintForward>(
    lama: &Lama<M>,
    image: Plane<[u8; 3]>,
    mask: Plane<u8>,
    result: Outcome,
)
    requires
        (LamaForward { lama }).may_return(image, mask, result),
        mask.wf(),
    ensures
        (forall|x: int, y: int| !imaging::foreground(mask, x, y)) ==> result == Outcome::Ok(image),
        (exists|x: int, y: int| imaging::foreground(mask, x, y)) && mask.width * mask.height
            <= 0x1fff_ffff && mask.width <= 0x7fff_0000 && mask.height <= 0x7fff_0000 ==> {
            ||| result matches Ok(out) && balloon::balloon_outcome(image, mask, Some(out))
            ||| balloon::balloon_outcome(image, mask, None) && lama.model.may_return(
                image,
                mask,
                result,
            )
        },
{
    if forall|x: int, y: int| !imaging::foreground(mask, x, y) {
        assert forall|i: int| 0 <= i < mask.pixels.len() implies #[trigger] mask.pixels[i] == 0 by {
            raster::lemma_position(mask.width, mask.height, i);
            assert(!imaging::foreground(mask, i % mask.width as int, i / mask.width as int));
        }
    }
    if exists|x: int, y: int| imaging::foreground(mask, x, y) {
        let (x, y) = choose|x: int, y: int| imaging::foreground(mask, x, y);
        raster::lemma_index(mask.width, mask.height, x, y);
        assert(mask.pixels[y * mask.width + x] > 0);
        assert(!blank(mask));
    }
}

/// Only whether a mask pixel is above middle gray matters: two masks that agree
/// in that have the same results.
pub proof fn law_only_bright_pixels_are_erased<M: InpaintForward>(
    lama: &Lama<M>,
    image: SourcePlane,
    a: Plane<u8>,
    b: Plane<u8>,
    cfg: HdStrategyConfig,
    result: Result<SourcePlane, InpaintError>,
)
    requires
        a.same_size(b),
        forall|x: int, y: int|
            #![trigger a.at(x, y)]
            a.inside(x, y) ==> (a.at(x, y) >= 128 <==> b.at(x, y) >= 128),
        inferred(lama, image, a, cfg, result),
    ensures
        inferred(lama, image, b, cfg, result),
{
    broadcast use raster::lemma_tabulate;

    let (p, q) = (strategy::binarized(a), strategy::binarized(b));
    assert forall|x: int, y: int| p.inside(x, y) implies #[trigger] p.at(x, y) == q.at(x, y) by {
        assert(a.at(x, y) >= 128 <==> b.at(x, y) >= 128);
    }
    raster::lemma_planes_equal(p, q);
    if image.sized(a) {
        let (rgb, out) = choose|rgb: Plane<[u8; 3]>, out: Outcome| #[trigger]
            inference_outcome(lama, image, a, cfg, rgb, out, result);
        assert(inference_outcome(lama, image, b, cfg, rgb, out, result));
    }
}

/// Whether `rgb` holds red, green and blue of the image.
pub open spec fn has_channels(image: SourcePlane, rgb: Plane<[u8; 3]>) -> bool {
    &&& rgb.wf()
    &&& rgb.width == image.width()
    &&& rgb.height == image.height()
    &&& forall|x: int, y: int, c: int|
        #![trigger rgb.at(x, y)@[c]]
        rgb.inside(x, y) && 0 <= c < 3 ==> rgb.at(x, y)@[c] == match image {
            SourcePlane::Rgb(plane) => plane.at(x, y)@[c],
            SourcePlane::Rgba(plane) => plane.at(x, y)@[c],
        }
}

/// Inpainting hands the colors of the image to the strategy, under the mask
/// made black and white, and gives back the colors that come out. An image with
/// transparency keeps it outside the mask.
pub proof fn law_inference_keeps_channels<M: InpaintForward>(
    lama: &Lama<M>,
    image: SourcePlane,
    mask: Plane<u8>,
    cfg: HdStrategyConfig,
    result: Result<SourcePlane, InpaintError>,
)
    requires
        match image {
            SourcePlane::Rgb(plane) => plane.wf(),
            SourcePlane::Rgba(plane) => plane.wf(),
        },
        image.sized(mask),
        image.width() < 0x1_0000_0000,
        image.height() < 0x1_0000_0000,
        inferred(lama, image, mask, cfg, result),
    ensures
        exists|rgb: Plane<[u8; 3]>, binary: Plane<u8>, out: Outcome|
            {
                &&& #[trigger] has_channels(image, rgb)
                &&& #[trigger] laws::splits(binary, mask)
                &&& #[trigger] laws::page_pass(
                    &LamaForward { lama },
                    rgb,
                    binary,
                    cfg,
                    geometry::mask_boxes(binary),
                    out,
                )
                &&& match (out, result) {
                    (Ok(colors), Ok(r)) => {
                        &&& r is Rgba <==> image is Rgba
                        &&& colors.same_size(rgb) ==> has_channels(r, colors)
                    },
                    (Err(e), Err(f)) => e == f,
                    _ => false,
                }
            },
        image matches SourcePlane::Rgba(source) ==> (result matches Ok(SourcePlane::Rgba(r))
            ==> forall|x: int, y: int|
            source.inside(x, y) && r.inside(x, y) && mask.at(x, y) <= 127 ==> #[trigger] r.at(
                x,
                y,
            )@[3] == source.at(x, y)@[3]),
{
    broadcast use raster::lemma_tabulate;

    let (rgb, out) = choose|rgb: Plane<[u8; 3]>, out: Outcome| #[trigger]
        inference_outcome(lama, image, mask, cfg, rgb, out, result);
    let binary = strategy::binarized(mask);
    laws::law_binarizing_splits(mask);
    assert(has_channels(image, rgb)) by {
        if let SourcePlane::Rgba(source) = image {
            assert forall|x: int, y: int, c: int|
                #![trigger rgb.at(x, y)@[c]]
                rgb.inside(x, y) && 0 <= c < 3 implies rgb.at(x, y)@[c] == source.at(x, y)@[c] by {
                alpha::law_colors_keep_their_channels(source, rgb, x, y, c);
            }
        }
    }
    laws::law_page_is_passed(&LamaForward { lama }, rgb, binary, cfg, out);
    if let (Ok(colors), Ok(r)) = (out, result) {
        if let (SourcePlane::Rgba(joined), SourcePlane::Rgba(source)) = (r, image) {
            let own = alpha::alpha_of(source);
            let restored = alpha::restored_alpha(own, binary);
            if colors.same_size(rgb) {
                laws::lemma_page_pass_wf(&LamaForward { lama }, rgb, binary, cfg, colors);
                assert forall|x: int, y: int, c: int|
                    #![trigger colors.at(x, y)@[c]]
                    colors.inside(x, y) && 0 <= c < 3 implies colors.at(x, y)@[c] == joined.at(
                    x,
                    y,
                )@[c] by {
                    alpha::law_joining_keeps_channels(colors, restored, joined, x, y);
                }
            }
            assert forall|x: int, y: int|
                source.inside(x, y) && joined.inside(x, y) && mask.at(x, y)
                    <= 127 implies #[trigger] joined.at(x, y)@[3] == source.at(x, y)@[3] by {
                assert(alpha::alpha_of(joined).at(x, y) == joined.at(x, y)@[3]);
                assert(binary.inside(x, y));
                alpha::law_alpha_outside_mask_is_kept(own, binary, x, y);
            }
        } else {
            laws::lemma_page_pass_wf(&LamaForward { lama }, rgb, binary, cfg, colors);
        }
    }
}

/// The bytes of a network's output are its pixels, row by row, three to each.
pub proof fn law_bytes_are_interleaved(
    image: Plane<[u8; 3]>,
    bytes: Seq<u8>,
    x: int,
    y: int,
    c: int,
)
    requires
        image.wf(),
        has_bytes(image, bytes),
        image.inside(x, y),
        0 <= c < 3,
    ensures
        image.at(x, y)@[c] == bytes[3 * (y * image.width + x) + c],
{
    raster::lemma_index(image.width, image.height, x, y);
    assert(image.pixels[y * image.width + x]@[c] == bytes[3 * (y * image.width + x) + c]);
}

/// An image and a mask of different sizes are refused with both sizes, each
/// with its width before its height.
pub proof fn law_sizes_are_reported<M: InpaintForward>(
    lama: &Lama<M>,
    image: SourcePlane,
    mask: Plane<u8>,
    cfg: HdStrategyConfig,
    result: Result<SourcePlane, InpaintError>,
)
    requires
        inferred(lama, image, mask, cfg, result),
        image.width() != mask.width || image.height() != mask.height,
        image.width() < 0x1_0000_0000,
        image.height() < 0x1_0000_0000,
        mask.width < 0x1_0000_0000,
        mask.height < 0x1_0000_0000,
    ensures
        result matches Err(InpaintError::SizeMismatch { image: i, mask: m }) && i.0 == image.width()
            && i.1 == image.height() && m.0 == mask.width && m.1 == mask.height,
{
}

} // verus!
