//! Transparency around an inpainted region.
//!
//! A model only sees color. The transparency of an image is put aside before
//! the forward pass and joined to the result afterwards.
use crate::imaging;
use crate::inpainting::{balloon, statistics, strategy};
use crate::raster::{self, GrayImage, Plane, Raster, RgbImage, RgbaImage};
use vstd::prelude::*;

verus! {

/// Width of the ring around a mask whose transparency the mask takes over.
pub const ALPHA_RING_RADIUS: u8 = 7;

/// Makes a mask black and white.
pub fn binarize_mask(mask: &GrayImage) -> (binary: GrayImage)
    ensures
        binary@ == strategy::binarized(mask@),
{
    strategy::rebinarize(mask)
}

/// The alpha channel.
pub open spec fn alpha_of(image: Plane<[u8; 4]>) -> Plane<u8> {
    Plane::tabulate(image.width, image.height, |x: int, y: int| image.at(x, y)@[3])
}

/// Takes the alpha channel out of an image.
pub fn extract_alpha(image: &RgbaImage) -> (alpha: GrayImage)
    ensures
        alpha@ == alpha_of(image@),
{
    let (width, height) = image.dimensions();
    let pixel_at = |x: u32, y: u32| -> (p: u8)
        requires
            image@.inside(x as int, y as int),
        ensures
            p == image@.at(x as int, y as int)@[3],
        { image.get_pixel(x, y)[3] };
    let alpha = Raster::from_fn(width, height, pixel_at);
    proof {
        raster::lemma_tabulated(alpha@, |x: int, y: int| image@.at(x, y)@[3]);
    }
    alpha
}

/// Whether a pixel has the given color.
pub open spec fn has_color(pixel: [u8; 3], rgba: [u8; 4]) -> bool {
    pixel@ == rgba@.take(3)
}

/// Whether `rgb` holds the colors of `image`.
pub open spec fn colors_of(image: Plane<[u8; 4]>, rgb: Plane<[u8; 3]>) -> bool {
    &&& rgb.wf()
    &&& rgb.same_size(image)
    &&& forall|x: int, y: int|
        rgb.inside(x, y) ==> has_color(#[trigger] rgb.at(x, y), image.at(x, y))
}

/// Takes the color channels out of an image.
pub fn extract_rgb(image: &RgbaImage) -> (rgb: RgbImage)
    ensures
        colors_of(image@, rgb@),
{
    let (width, height) = image.dimensions();
    let pixel_at = |x: u32, y: u32| -> (p: [u8; 3])
        requires
            image@.inside(x as int, y as int),
        ensures
            has_color(p, image@.at(x as int, y as int)),
        {
            let rgba: [u8; 4] = image.get_pixel(x, y);
            let rgb: [u8; 3] = [rgba[0], rgba[1], rgba[2]];
            assert(rgb@ =~= rgba@.take(3));
            rgb
        };
    let rgb = Raster::from_fn(width, height, pixel_at);
    assert forall|x: int, y: int| rgb@.inside(x, y) implies has_color(
        #[trigger] rgb@.at(x, y),
        image@.at(x, y),
    ) by {
        assert(call_ensures(pixel_at, (x as u32, y as u32), rgb@.at(x, y)));
    }
    rgb
}

/// The pixels outside the mask within reach of it.
pub open spec fn ring(mask: Plane<u8>) -> Plane<u8> {
    balloon::subtracted(imaging::dilated(mask, ALPHA_RING_RADIUS as int), mask)
}

/// The transparency after inpainting: outside the mask as it was, inside the
/// mask the median of the ring around it. Without a ring nothing changes.
pub open spec fn restored_alpha(alpha: Plane<u8>, mask: Plane<u8>) -> Plane<u8> {
    let around = statistics::under(alpha.pixels, ring(mask).pixels);
    Plane::tabulate(
        alpha.width,
        alpha.height,
        |x: int, y: int|
            if mask.at(x, y) > 0 && around.len() > 0 {
                statistics::ranked(around, around.len() as int / 2)
            } else {
                alpha.at(x, y)
            },
    )
}

/// The values that the mask marks.
fn values_under(values: &GrayImage, mask: &GrayImage) -> (marked: Vec<u8>)
    ensures
        marked@ == statistics::under(values@.pixels, mask@.pixels),
{
    let pixels: &Vec<u8> = values.pixels();
    let marks: &Vec<u8> = mask.pixels();
    let mut marked: Vec<u8> = Vec::new();
    let mut i: usize = 0;
    while i < pixels.len() && i < marks.len()
        invariant
            i <= pixels@.len(),
            i <= marks@.len(),
            marked@ == statistics::marked(pixels@, marks@, i as int),
        decreases pixels@.len() - i,
    {
        if marks[i] != 0 {
            marked.push(pixels[i]);
        }
        i += 1;
    }
    marked
}

/// `image` joined with an alpha channel.
pub open spec fn joined(image: Plane<[u8; 3]>, alpha: Plane<u8>, out: Plane<[u8; 4]>) -> bool {
    &&& out.wf()
    &&& out.same_size(image)
    &&& alpha_of(out) == alpha
    &&& forall|x: int, y: int|
        out.inside(x, y) ==> has_color(image.at(x, y), #[trigger] out.at(x, y))
}

/// Joins an inpainted image with the transparency it had before. The masked
/// region takes over the transparency of its surroundings.
pub fn restore_alpha_channel(image: &RgbImage, alpha: &GrayImage, mask: &GrayImage) -> (out:
    RgbaImage)
    requires
        alpha@.same_size(image@),
        mask@.same_size(image@),
        imaging::processable(image@.width, image@.height),
    ensures
        joined(image@, restored_alpha(alpha@, mask@), out@),
{
    let (width, height) = image.dimensions();
    let mut around_mask = imaging::dilate(mask, ALPHA_RING_RADIUS);
    balloon::subtract_binary_mask(&mut around_mask, mask);
    let around = values_under(alpha, &around_mask);
    let surroundings: Option<u8> = if around.len() > 0 {
        Some(statistics::select(&around, around.len() / 2))
    } else {
        None
    };
    let ghost restored = restored_alpha(alpha@, mask@);
    let pixel_at = |x: u32, y: u32| -> (p: [u8; 4])
        requires
            image@.inside(x as int, y as int),
            alpha@.inside(x as int, y as int),
            mask@.inside(x as int, y as int),
        ensures
            has_color(image@.at(x as int, y as int), p),
            p@[3] == (if mask@.at(x as int, y as int) > 0 && surroundings is Some {
                surroundings.unwrap()
            } else {
                alpha@.at(x as int, y as int)
            }),
        {
            let rgb: [u8; 3] = image.get_pixel(x, y);
            let own: u8 = alpha.get_pixel(x, y);
            let a: u8 = match surroundings {
                Some(median) => if mask.get_pixel(x, y) > 0 {
                    median
                } else {
                    own
                },
                None => own,
            };
            let rgba: [u8; 4] = [rgb[0], rgb[1], rgb[2], a];
            assert(rgb@ =~= rgba@.take(3));
            rgba
        };
    let out = Raster::from_fn(width, height, pixel_at);
    proof {
        broadcast use raster::lemma_tabulate;

        assert forall|x: int, y: int| out@.inside(x, y) implies has_color(
            image@.at(x, y),
            #[trigger] out@.at(x, y),
        ) && out@.at(x, y)@[3] == restored.at(x, y) by {
            assert(call_ensures(pixel_at, (x as u32, y as u32), out@.at(x, y)));
        }
        raster::lemma_planes_equal(alpha_of(out@), restored);
    }
    out
}

/// An image without marked pixels comes back as it was taken apart.
pub proof fn law_joining_undoes_taking_apart(
    image: Plane<[u8; 4]>,
    rgb: Plane<[u8; 3]>,
    mask: Plane<u8>,
    out: Plane<[u8; 4]>,
)
    requires
        image.wf(),
        colors_of(image, rgb),
        mask.same_size(image),
        forall|x: int, y: int| #[trigger] mask.inside(x, y) ==> mask.at(x, y) == 0,
        joined(rgb, restored_alpha(alpha_of(image), mask), out),
    ensures
        out == image,
{
    broadcast use raster::lemma_tabulate;

    assert forall|x: int, y: int| out.inside(x, y) implies #[trigger] out.at(x, y) == image.at(
        x,
        y,
    ) by {
        let (a, b) = (out.at(x, y), image.at(x, y));
        assert(mask.inside(x, y));
        assert(rgb.inside(x, y));
        assert(has_color(rgb.at(x, y), a) && has_color(rgb.at(x, y), b));
        assert(alpha_of(out).at(x, y) == a@[3]);
        assert(restored_alpha(alpha_of(image), mask).at(x, y) == b@[3]);
        assert forall|i: int| 0 <= i < 4 implies a@[i] == b@[i] by {
            if i < 3 {
                assert(a@.take(3)[i] == b@.take(3)[i]);
            }
        }
        assert(a =~= b);
    }
    raster::lemma_planes_equal(out, image);
}

/// Transparency changes under the mask only.
pub proof fn law_alpha_outside_mask_is_kept(alpha: Plane<u8>, mask: Plane<u8>, x: int, y: int)
    requires
        alpha.inside(x, y),
        mask.at(x, y) == 0,
    ensures
        restored_alpha(alpha, mask).same_size(alpha),
        restored_alpha(alpha, mask).at(x, y) == alpha.at(x, y),
{
    broadcast use raster::lemma_tabulate;

}

/// A mask in surroundings of one transparency takes that transparency over.
pub proof fn law_mask_takes_over_uniform_ring(
    alpha: Plane<u8>,
    mask: Plane<u8>,
    value: u8,
    x: int,
    y: int,
)
    requires
        alpha.inside(x, y),
        mask.at(x, y) > 0,
        ({
            let around = statistics::under(alpha.pixels, ring(mask).pixels);
            &&& around.len() > 0
            &&& forall|i: int| 0 <= i < around.len() ==> #[trigger] around[i] == value
        }),
    ensures
        restored_alpha(alpha, mask).at(x, y) == value,
{
    broadcast use raster::lemma_tabulate;

    let around = statistics::under(alpha.pixels, ring(mask).pixels);
    statistics::law_ranked_of_sorted(around, around.len() as int / 2);
}

/// The ring around a mask is made of the pixels that are not marked and lie at
/// most seven pixels from a marked one.
pub proof fn law_ring_is_seven_wide(mask: Plane<u8>, x: int, y: int)
    requires
        mask.inside(x, y),
        exists|i: int, j: int| imaging::foreground(mask, i, j),
    ensures
        ring(mask).same_size(mask),
        ring(mask).at(x, y) > 0 <==> mask.at(x, y) == 0 && exists|i: int, j: int|
            #![trigger mask.at(i, j)]
            mask.inside(i, j) && mask.at(i, j) > 0 && x - 7 <= i <= x + 7 && y - 7 <= j <= y + 7,
{
    broadcast use raster::lemma_tabulate;

    let wide = imaging::dilated(mask, 7);
    let near = exists|i: int, j: int|
        #![trigger mask.at(i, j)]
        mask.inside(i, j) && mask.at(i, j) > 0 && x - 7 <= i <= x + 7 && y - 7 <= j <= y + 7;
    if imaging::near_foreground(mask, 7, x, y) {
        let (i, j) = choose|i: int, j: int|
            #![trigger imaging::foreground(mask, i, j)]
            imaging::foreground(mask, i, j) && -7 <= i - x <= 7 && -7 <= j - y <= 7;
        assert(mask.at(i, j) > 0);
        assert(near);
    }
    if near {
        let (i, j) = choose|i: int, j: int|
            #![trigger mask.at(i, j)]
            mask.inside(i, j) && mask.at(i, j) > 0 && x - 7 <= i <= x + 7 && y - 7 <= j <= y + 7;
        assert(imaging::foreground(mask, i, j));
    }
    if mask.width + mask.height <= 7 {
        let (i, j) = choose|i: int, j: int| imaging::foreground(mask, i, j);
        assert(mask.at(i, j) > 0);
        assert(near);
    }
    assert(wide.at(x, y) > 0 <==> near);
}

/// A marked pixel takes over the value that half of the ring lies below: at
/// most half of the ring is more transparent, and less than half is more
/// opaque. Without a ring it keeps its own.
pub proof fn law_mask_takes_over_the_median(alpha: Plane<u8>, mask: Plane<u8>, x: int, y: int)
    requires
        alpha.inside(x, y),
        mask.at(x, y) > 0,
    ensures
        ({
            let around = statistics::under(alpha.pixels, ring(mask).pixels);
            let value = restored_alpha(alpha, mask).at(x, y);
            if around.len() == 0 {
                value == alpha.at(x, y)
            } else {
                &&& 2 * around.filter(|a: u8| a < value).len() <= around.len()
                &&& around.len() < 2 * around.filter(|a: u8| a <= value).len()
            }
        }),
{
    broadcast use raster::lemma_tabulate;

    let around = statistics::under(alpha.pixels, ring(mask).pixels);
    if around.len() > 0 {
        statistics::law_ranked_splits(around, around.len() as int / 2);
    }
}

/// Taking the colors out of an image leaves red, green and blue what they are.
pub proof fn law_colors_keep_their_channels(
    image: Plane<[u8; 4]>,
    rgb: Plane<[u8; 3]>,
    x: int,
    y: int,
    c: int,
)
    requires
        colors_of(image, rgb),
        image.inside(x, y),
        0 <= c < 3,
    ensures
        rgb.same_size(image),
        rgb.at(x, y)@[c] == image.at(x, y)@[c],
{
    assert(rgb.inside(x, y));
    assert(has_color(rgb.at(x, y), image.at(x, y)));
    assert(image.at(x, y)@.take(3)[c] == image.at(x, y)@[c]);
}

/// Joining an image with an alpha channel leaves red, green and blue what they
/// are, and makes the channel the fourth one.
pub proof fn law_joining_keeps_channels(
    image: Plane<[u8; 3]>,
    alpha: Plane<u8>,
    out: Plane<[u8; 4]>,
    x: int,
    y: int,
)
    requires
        joined(image, alpha, out),
        image.inside(x, y),
    ensures
        out.same_size(image),
        out.at(x, y)@[0] == image.at(x, y)@[0],
        out.at(x, y)@[1] == image.at(x, y)@[1],
        out.at(x, y)@[2] == image.at(x, y)@[2],
        out.at(x, y)@[3] == alpha.at(x, y),
{
    broadcast use raster::lemma_tabulate;

    assert(out.inside(x, y));
    assert(has_color(image.at(x, y), out.at(x, y)));
    assert(alpha_of(out).at(x, y) == out.at(x, y)@[3]);
    assert forall|c: int| 0 <= c < 3 implies #[trigger] out.at(x, y)@[c] == image.at(x, y)@[c] by {
        assert(out.at(x, y)@.take(3)[c] == out.at(x, y)@[c]);
    }
}

} // verus!
