//! The inpainting step of the page pipeline.
//!
//! It reads an image and the segmentation mask of a page, runs the model and
//! writes the inpainted image. The mask alone says which pixels to remove.
//!
//! When a region is given (a repair brush was used), the step works on the
//! inpainted image if there is one, and on the source image otherwise. Mask
//! pixels outside the region are dropped first, and what the model makes of
//! pixels outside the region is dropped afterwards, so that only that region
//! changes.
use crate::imaging;
use crate::inpainting::geometry::{self, Rect};
use crate::inpainting::strategy::{self, InpaintError, InpaintForward};
use crate::lama::{self, Lama, SourceImage, SourcePlane};
use crate::raster::{self, GrayImage, Plane, Raster};
use vstd::prelude::*;

verus! {

/// A rectangle on a page.
#[derive(Debug, Clone, Copy, PartialEq, Eq, Structural)]
pub struct Region {
    pub x: u32,
    pub y: u32,
    pub width: u32,
    pub height: u32,
}

impl Region {
    /// Whether the region holds the pixel `(x, y)`.
    pub open spec fn holds(self, x: int, y: int) -> bool {
        self.x <= x < self.x + self.width && self.y <= y < self.y + self.height
    }
}

/// `mask` with every pixel outside the region made black.
pub open spec fn clipped(mask: Plane<u8>, region: Region) -> Plane<u8> {
    Plane::tabulate(
        mask.width,
        mask.height,
        |x: int, y: int|
            if region.holds(x, y) {
                mask.at(x, y)
            } else {
                0u8
            },
    )
}

/// Zero out every pixel of `mask` that falls outside `region`. The Crop
/// strategy then only finds contours inside the region.
pub fn clip_mask_to_region(mask: &GrayImage, region: &Region) -> (out: GrayImage)
    ensures
        out@ == clipped(mask@, *region),
{
    let (width, height) = mask.dimensions();
    let x1: u32 = region.x.saturating_add(region.width);
    let y1: u32 = region.y.saturating_add(region.height);
    let (x0, y0) = (region.x, region.y);
    let pixel_at = |x: u32, y: u32| -> (p: u8)
        requires
            x < width,
            y < height,
        ensures
            p == (if region.holds(x as int, y as int) {
                mask@.at(x as int, y as int)
            } else {
                0u8
            }),
        {
            if x0 <= x && x < x1 && y0 <= y && y < y1 {
                mask.get_pixel(x, y)
            } else {
                0
            }
        };
    let out = Raster::from_fn(width, height, pixel_at);
    proof {
        let r = *region;
        raster::lemma_tabulated(
            out@,
            |x: int, y: int|
                if r.holds(x, y) {
                    mask@.at(x, y)
                } else {
                    0u8
                },
        );
    }
    out
}

/// The image that the step works on.
#[derive(Debug, Clone, Copy, PartialEq, Eq, Structural)]
pub enum BaseImage {
    Source,
    Inpainted,
}

/// Why the step cannot run.
#[derive(Debug, Clone, Copy, PartialEq, Eq, Structural)]
pub enum PipelineError {
    /// The page has no segmentation mask.
    NoSegmentMask,
}

impl PipelineError {
    /// The error in words.
    pub fn message(&self) -> (text: &'static str)
        ensures
            text@ == "no Segment mask on page"@,
    {
        match self {
            PipelineError::NoSegmentMask => "no Segment mask on page",
        }
    }
}

/// Chooses the image to work on, from what the page has and whether a region
/// was given.
pub fn choose_base(has_mask: bool, region: Option<Region>, has_inpainted: bool) -> (base: Result<
    BaseImage,
    PipelineError,
>)
    ensures
        base == (if !has_mask {
            Err::<BaseImage, PipelineError>(PipelineError::NoSegmentMask)
        } else if region is Some && has_inpainted {
            Ok(BaseImage::Inpainted)
        } else {
            Ok(BaseImage::Source)
        }),
{
    if !has_mask {
        return Err(PipelineError::NoSegmentMask);
    }
    match region {
        Some(_) => if has_inpainted {
            Ok(BaseImage::Inpainted)
        } else {
            Ok(BaseImage::Source)
        },
        None => Ok(BaseImage::Source),
    }
}

/// The mask to work with: the part inside the region, or all of it where no
/// region is given.
pub open spec fn mask_for(mask: Plane<u8>, region: Option<Region>) -> Plane<u8> {
    match region {
        Some(r) => clipped(mask, r),
        None => mask,
    }
}

/// Drops the mask pixels outside the region, if one is given.
pub fn choose_mask(mask: GrayImage, region: Option<Region>) -> (out: GrayImage)
    ensures
        out@ == mask_for(mask@, region),
{
    match region {
        Some(r) => clip_mask_to_region(&mask, &r),
        None => mask,
    }
}

/// `base` with the pixels inside the region taken from `out`.
pub open spec fn composited<P>(base: Plane<P>, out: Plane<P>, region: Region) -> Plane<P> {
    Plane::tabulate(
        base.width,
        base.height,
        |x: int, y: int|
            if region.holds(x, y) {
                out.at(x, y)
            } else {
                base.at(x, y)
            },
    )
}

/// Takes the pixels inside the region from `out`, and all others from `base`.
fn composite<P: Copy>(base: &Raster<P>, out: &Raster<P>, region: &Region) -> (r: Raster<P>)
    requires
        out@.same_size(base@),
    ensures
        r@ == composited(base@, out@, *region),
{
    let (width, height) = base.dimensions();
    let x1: u32 = region.x.saturating_add(region.width);
    let y1: u32 = region.y.saturating_add(region.height);
    let (x0, y0) = (region.x, region.y);
    let pixel_at = |x: u32, y: u32| -> (p: P)
        requires
            base@.inside(x as int, y as int),
            out@.inside(x as int, y as int),
            x < width,
            y < height,
        ensures
            p == (if region.holds(x as int, y as int) {
                out@.at(x as int, y as int)
            } else {
                base@.at(x as int, y as int)
            }),
        {
            if x0 <= x && x < x1 && y0 <= y && y < y1 {
                out.get_pixel(x, y)
            } else {
                base.get_pixel(x, y)
            }
        };
    let r = Raster::from_fn(width, height, pixel_at);
    proof {
        let g = *region;
        raster::lemma_tabulated(
            r@,
            |x: int, y: int|
                if g.holds(x, y) {
                    out@.at(x, y)
                } else {
                    base@.at(x, y)
                },
        );
    }
    r
}

/// What becomes of an image once it was inpainted: the whole result, or the
/// result inside the region and the image outside of it.
pub open spec fn repaired(base: SourcePlane, out: SourcePlane, region: Option<Region>) -> SourcePlane {
    match (region, base, out) {
        (Some(r), SourcePlane::Rgb(b), SourcePlane::Rgb(o)) => SourcePlane::Rgb(
            composited(b, o, r),
        ),
        (Some(r), SourcePlane::Rgba(b), SourcePlane::Rgba(o)) => SourcePlane::Rgba(
            composited(b, o, r),
        ),
        _ => out,
    }
}

/// Restores the image outside the region, if one is given.
pub fn repair(base: &SourceImage, out: SourceImage, region: Option<Region>) -> (r: SourceImage)
    requires
        out@.alike(base@),
    ensures
        r@ == repaired(base@, out@, region),
        r@.alike(base@),
{
    match region {
        Some(g) => match (base, &out) {
            (SourceImage::Rgb(b), SourceImage::Rgb(o)) => SourceImage::Rgb(composite(b, o, &g)),
            (SourceImage::Rgba(b), SourceImage::Rgba(o)) => SourceImage::Rgba(
                composite(b, o, &g),
            ),
            _ => out,
        },
        None => out,
    }
}

/// Whether two images have the same pixel at `(x, y)`.
pub open spec fn same_at(a: SourcePlane, b: SourcePlane, x: int, y: int) -> bool {
    match (a, b) {
        (SourcePlane::Rgb(p), SourcePlane::Rgb(q)) => p.at(x, y) == q.at(x, y),
        (SourcePlane::Rgba(p), SourcePlane::Rgba(q)) => p.at(x, y) == q.at(x, y),
        _ => false,
    }
}

/// Whether two images have the same pixels outside the region.
pub open spec fn same_outside(a: SourcePlane, b: SourcePlane, region: Region) -> bool {
    forall|x: int, y: int|
        0 <= x < b.width() && 0 <= y < b.height() && !region.holds(x, y) ==> #[trigger] same_at(
            a,
            b,
            x,
            y,
        )
}

/// A repair changes no pixel outside its region.
pub proof fn law_repair_keeps_outside(base: SourcePlane, out: SourcePlane, region: Region)
    requires
        out.alike(base),
    ensures
        same_outside(repaired(base, out, Some(region)), base, region),
{
    broadcast use raster::lemma_tabulate;

}

/// A repair that changes nothing inside its region changes nothing.
pub proof fn law_repair_with_itself(base: SourcePlane, region: Option<Region>)
    requires
        match base {
            SourcePlane::Rgb(b) => b.wf(),
            SourcePlane::Rgba(b) => b.wf(),
        },
    ensures
        repaired(base, base, region) == base,
{
    broadcast use raster::lemma_tabulate;

    if let Some(r) = region {
        match base {
            SourcePlane::Rgb(b) => {
                raster::lemma_planes_equal(composited(b, b, r), b);
            },
            SourcePlane::Rgba(b) => {
                raster::lemma_planes_equal(composited(b, b, r), b);
            },
        }
    }
}

/// What may come out of the step: what comes out of inpainting under the mask
/// for the region, restored outside the region.
pub open spec fn step_outcome<M: InpaintForward>(
    lama: &Lama<M>,
    image: SourcePlane,
    mask: Plane<u8>,
    region: Option<Region>,
    result: Result<SourcePlane, InpaintError>,
) -> bool {
    exists|painted: Result<SourcePlane, InpaintError>|
        {
            &&& #[trigger] lama::inferred(
                lama,
                image,
                mask_for(mask, region),
                strategy::lama_configuration(),
                painted,
            )
            &&& match painted {
                Ok(out) => result == Ok::<SourcePlane, InpaintError>(repaired(image, out, region)),
                Err(e) => result == Err::<SourcePlane, InpaintError>(e),
            }
        }
}

/// The inpainter of a page.
pub struct Model<M>(pub Lama<M>);

impl<M: InpaintForward> Model<M> {
    /// Inpaints the image under the segmentation mask. If a region is given,
    /// only that region changes.
    pub fn run(&self, image: &SourceImage, mask: GrayImage, region: Option<Region>) -> (result:
        Result<SourceImage, InpaintError>)
        requires
            image@.sized(mask@) ==> lama::inferable(image@, strategy::lama_configuration()),
        ensures
            step_outcome(&self.0, image@, mask@, region, lama::source_seen(result)),
            result matches Ok(out) ==> out@.alike(image@),
            region matches Some(r) ==> (result matches Ok(out) ==> same_outside(out@, image@, r)),
            image@.sized(mask@) && lama::dark(mask_for(mask@, region)) ==> lama::source_seen(result)
                == Ok::<SourcePlane, InpaintError>(image@),
    {
        let mask = choose_mask(mask, region);
        let painted = self.0.inference(image, &mask);
        proof {
            match image {
                SourceImage::Rgb(b) => {
                    use_type_invariant(b);
                },
                SourceImage::Rgba(b) => {
                    use_type_invariant(b);
                },
            }
            law_repair_with_itself(image@, region);
        }
        let ghost seen = lama::source_seen(painted);
        match painted {
            Ok(out) => {
                let ghost before = out@;
                let result = repair(image, out, region);
                proof {
                    if let Some(r) = region {
                        law_repair_keeps_outside(image@, before, r);
                    }
                    assert(lama::inferred(
                        &self.0,
                        image@,
                        mask@,
                        strategy::lama_configuration(),
                        seen,
                    ));
                }
                Ok(result)
            },
            Err(e) => {
                assert(lama::inferred(
                    &self.0,
                    image@,
                    mask@,
                    strategy::lama_configuration(),
                    seen,
                ));
                Err(e)
            },
        }
    }
}

/// Clipping to the same region twice is the same as once.
pub proof fn law_clipping_twice(mask: Plane<u8>, region: Region)
    ensures
        clipped(clipped(mask, region), region) == clipped(mask, region),
{
    broadcast use raster::lemma_tabulate;

    let once = clipped(mask, region);
    let twice = clipped(once, region);
    assert forall|x: int, y: int| twice.inside(x, y) implies #[trigger] twice.at(x, y) == once.at(
        x,
        y,
    ) by {}
    raster::lemma_planes_equal(twice, once);
}

/// Clipping marks no pixel outside the region, and keeps what lies inside.
pub proof fn law_clipping_keeps_region(mask: Plane<u8>, region: Region, x: int, y: int)
    ensures
        imaging::foreground(clipped(mask, region), x, y) <==> imaging::foreground(mask, x, y)
            && region.holds(x, y),
{
    broadcast use raster::lemma_tabulate;

}

/// Every box that is found in a clipped mask lies inside the region.
pub proof fn law_boxes_of_clipped_mask_inside_region(mask: Plane<u8>, region: Region, b: Rect)
    requires
        geometry::touches_marked(b, clipped(mask, region)),
    ensures
        region.x <= b.0,
        b.2 <= region.x + region.width,
        region.y <= b.1,
        b.3 <= region.y + region.height,
{
    let part = clipped(mask, region);
    assert(geometry::marked_column(part, b.0) && geometry::marked_column(part, b.2 - 1));
    assert(geometry::marked_row(part, b.1) && geometry::marked_row(part, b.3 - 1));
    let y0 = choose|y: int| imaging::foreground(part, b.0, y);
    let y1 = choose|y: int| #[trigger] imaging::foreground(part, (b.2 - 1) as int, y);
    let x0 = choose|x: int| imaging::foreground(part, x, b.1);
    let x1 = choose|x: int| #[trigger] imaging::foreground(part, x, (b.3 - 1) as int);
    law_clipping_keeps_region(mask, region, b.0, y0);
    law_clipping_keeps_region(mask, region, b.2 - 1, y1);
    law_clipping_keeps_region(mask, region, x0, b.1);
    law_clipping_keeps_region(mask, region, x1, b.3 - 1);
}

/// What is left of a mask are the marked pixels from the first to the last
/// column and row of the region.
pub proof fn law_clipping_is_half_open(mask: Plane<u8>, region: Region, x: int, y: int)
    requires
        mask.inside(x, y),
    ensures
        clipped(mask, region).same_size(mask),
        clipped(mask, region).at(x, y) == (if region.x <= x && x - region.x < region.width
            && region.y <= y && y - region.y < region.height {
            mask.at(x, y)
        } else {
            0u8
        }),
{
    broadcast use raster::lemma_tabulate;

}

/// A repair takes the pixels inside its region from what was inpainted. Without
/// a region everything is taken from there.
pub proof fn law_repair_takes_region_from_result(
    base: SourcePlane,
    out: SourcePlane,
    region: Region,
    x: int,
    y: int,
)
    requires
        out.alike(base),
        0 <= x < base.width(),
        0 <= y < base.height(),
    ensures
        repaired(base, out, None) == out,
        region.x <= x && x - region.x < region.width && region.y <= y && y - region.y
            < region.height ==> same_at(repaired(base, out, Some(region)), out, x, y),
        !(region.x <= x && x - region.x < region.width && region.y <= y && y - region.y
            < region.height) ==> same_at(repaired(base, out, Some(region)), base, x, y),
{
    broadcast use raster::lemma_tabulate;

}

/// Mask pixels outside the region do not matter: two masks that agree inside it
/// have the same results.
pub proof fn law_mask_outside_region_does_not_matter<M: InpaintForward>(
    lama: &Lama<M>,
    image: SourcePlane,
    a: Plane<u8>,
    b: Plane<u8>,
    region: Region,
    result: Result<SourcePlane, InpaintError>,
)
    requires
        a.same_size(b),
        forall|x: int, y: int|
            #![trigger a.at(x, y)]
            a.inside(x, y) && region.x <= x && x - region.x < region.width && region.y <= y && y
                - region.y < region.height ==> a.at(x, y) == b.at(x, y),
        step_outcome(lama, image, a, Some(region), result),
    ensures
        step_outcome(lama, image, b, Some(region), result),
{
    broadcast use raster::lemma_tabulate;

    let (p, q) = (clipped(a, region), clipped(b, region));
    assert forall|x: int, y: int| p.inside(x, y) implies #[trigger] p.at(x, y) == q.at(x, y) by {
        law_clipping_is_half_open(a, region, x, y);
        law_clipping_is_half_open(b, region, x, y);
        if region.holds(x, y) {
            assert(a.at(x, y) == b.at(x, y));
        }
    }
    raster::lemma_planes_equal(p, q);
    assert(mask_for(a, Some(region)) == mask_for(b, Some(region)));
}

/// Whether `result` shows `out` inside the region and `image` outside of it, or
/// `out` everywhere where there is no region.
pub open spec fn shows_region(
    result: SourcePlane,
    image: SourcePlane,
    out: SourcePlane,
    region: Option<Region>,
) -> bool {
    match region {
        Some(r) => {
            &&& forall|x: int, y: int|
                0 <= x < image.width() && 0 <= y < image.height() && r.x <= x && x - r.x < r.width
                    && r.y <= y && y - r.y < r.height ==> #[trigger] same_at(result, out, x, y)
            &&& forall|x: int, y: int|
                0 <= x < image.width() && 0 <= y < image.height() && !(r.x <= x && x - r.x
                    < r.width && r.y <= y && y - r.y < r.height) ==> #[trigger] same_at(
                    result,
                    image,
                    x,
                    y,
                )
        },
        None => result == out,
    }
}

/// The step inpaints under the part of the mask inside the region with the
/// default strategy, and shows the result inside the region alone. It fails
/// where inpainting fails.
pub proof fn law_step_shows_region<M: InpaintForward>(
    lama: &Lama<M>,
    image: SourcePlane,
    mask: Plane<u8>,
    region: Option<Region>,
    result: Result<SourcePlane, InpaintError>,
)
    requires
        step_outcome(lama, image, mask, region, result),
    ensures
        exists|painted: Result<SourcePlane, InpaintError>|
            {
                &&& #[trigger] lama::inferred(
                    lama,
                    image,
                    mask_for(mask, region),
                    strategy::lama_configuration(),
                    painted,
                )
                &&& match (painted, result) {
                    (Ok(out), Ok(r)) => out.alike(image) ==> shows_region(r, image, out, region),
                    (Err(e), Err(f)) => e == f,
                    _ => false,
                }
            },
        region is None ==> mask_for(mask, region) == mask,
        strategy::lama_configuration().strategy is Crop,
{
    let painted = choose|painted: Result<SourcePlane, InpaintError>|
        {
            &&& #[trigger] lama::inferred(
                lama,
                image,
                mask_for(mask, region),
                strategy::lama_configuration(),
                painted,
            )
            &&& match painted {
                Ok(out) => result == Ok::<SourcePlane, InpaintError>(repaired(image, out, region)),
                Err(e) => result == Err::<SourcePlane, InpaintError>(e),
            }
        };
    if let Ok(out) = painted {
        if out.alike(image) {
            if let Some(r) = region {
                let end = repaired(image, out, region);
                assert forall|x: int, y: int|
                    0 <= x < image.width() && 0 <= y < image.height() && r.x <= x && x - r.x
                        < r.width && r.y <= y && y - r.y < r.height implies #[trigger] same_at(
                    end,
                    out,
                    x,
                    y,
                ) by {
                    law_repair_takes_region_from_result(image, out, r, x, y);
                }
                assert forall|x: int, y: int|
                    0 <= x < image.width() && 0 <= y < image.height() && !(r.x <= x && x - r.x
                        < r.width && r.y <= y && y - r.y < r.height) implies #[trigger] same_at(
                    end,
                    image,
                    x,
                    y,
                ) by {
                    law_repair_takes_region_from_result(image, out, r, x, y);
                }
            }
        }
    }
}

} // verus!
