//! Rectangular pixel grids.
use vstd::prelude::*;

verus! {

/// The smaller of two integers.
pub open spec fn min(a: int, b: int) -> int {
    if a < b {
        a
    } else {
        b
    }
}

/// The larger of two integers.
pub open spec fn max(a: int, b: int) -> int {
    if a < b {
        b
    } else {
        a
    }
}

/// The mathematical content of an image: `width * height` pixels in row-major
/// order.
#[verifier::ext_equal]
pub struct Plane<P> {
    pub width: nat,
    pub height: nat,
    pub pixels: Seq<P>,
}

impl<P> Plane<P> {
    /// The pixel count matches the dimensions.
    pub open spec fn wf(self) -> bool {
        self.pixels.len() == self.width * self.height
    }

    /// The pixel in column `x` of row `y`.
    pub open spec fn at(self, x: int, y: int) -> P {
        self.pixels[y * self.width + x]
    }

    /// Whether `(x, y)` lies inside the plane.
    pub open spec fn inside(self, x: int, y: int) -> bool {
        0 <= x < self.width && 0 <= y < self.height
    }

    /// The plane whose pixel at `(x, y)` is `f(x, y)`.
    pub open spec fn tabulate(width: nat, height: nat, f: spec_fn(int, int) -> P) -> Self {
        Plane {
            width,
            height,
            pixels: Seq::new(width * height, |i: int| f(i % width as int, i / width as int)),
        }
    }

    /// The part inside the rectangle with the top left corner `(x, y)`, as far
    /// as it lies inside the plane.
    pub open spec fn crop(self, x: int, y: int, width: int, height: int) -> Self {
        let left = min(x, self.width as int);
        let top = min(y, self.height as int);
        Plane::tabulate(
            min(width, self.width - left) as nat,
            min(height, self.height - top) as nat,
            |i: int, j: int| self.at(left + i, top + j),
        )
    }

    /// The pixel at `(i, j)` once `source` is placed at `(x, y)`.
    pub open spec fn replaced_at(self, source: Self, x: int, y: int, i: int, j: int) -> P {
        if source.inside(i - x, j - y) {
            source.at(i - x, j - y)
        } else {
            self.at(i, j)
        }
    }

    /// The plane once `source` is placed on it with its top left corner at
    /// `(x, y)`.
    pub open spec fn replaced(self, source: Self, x: int, y: int) -> Self {
        Plane::tabulate(
            self.width,
            self.height,
            |i: int, j: int| self.replaced_at(source, x, y, i, j),
        )
    }

    /// Whether both planes have the same width and height.
    pub open spec fn same_size<Q>(self, other: Plane<Q>) -> bool {
        self.width == other.width && self.height == other.height
    }
}

/// The index of `(x, y)` is in range, and the row and column are recovered
/// from it by division.
pub proof fn lemma_index(width: nat, height: nat, x: int, y: int)
    requires
        0 <= x < width,
        0 <= y < height,
    ensures
        0 <= y * width + x < width * height,
        (y * width + x) % width as int == x,
        (y * width + x) / width as int == y,
{
    vstd::arithmetic::div_mod::lemma_fundamental_div_mod_converse(
        y * width + x,
        width as int,
        y,
        x,
    );
    assert(y * width + x < width * height) by (nonlinear_arith)
        requires
            0 <= x < width,
            0 <= y < height,
    ;
    assert(0 <= y * width) by (nonlinear_arith)
        requires
            0 <= y,
            0 <= width,
    ;
}

/// Every index below `width * height` is that of exactly one pixel.
pub proof fn lemma_position(width: nat, height: nat, i: int)
    requires
        0 <= i < width * height,
    ensures
        0 < width,
        0 <= i % width as int,
        i % (width as int) < width,
        0 <= i / width as int,
        i / (width as int) < height,
        (i / width as int) * width + i % width as int == i,
{
    assert(0 < width) by (nonlinear_arith)
        requires
            0 <= i < width * height,
    ;
    vstd::arithmetic::div_mod::lemma_fundamental_div_mod(i, width as int);
    vstd::arithmetic::mul::lemma_mul_is_commutative(width as int, i / width as int);
    vstd::arithmetic::div_mod::lemma_div_pos_is_pos(i, width as int);
    assert(i / (width as int) < height) by {
        vstd::arithmetic::mul::lemma_mul_is_commutative(width as int, height as int);
        vstd::arithmetic::div_mod::lemma_multiply_divide_lt(i, width as int, height as int);
    }
}

/// A tabulated plane is well formed and reads back the tabulated function.
pub broadcast proof fn lemma_tabulate<P>(
    width: nat,
    height: nat,
    f: spec_fn(int, int) -> P,
    x: int,
    y: int,
)
    requires
        0 <= x < width,
        0 <= y < height,
    ensures
        (#[trigger] Plane::tabulate(width, height, f).at(x, y)) == f(x, y),
{
    lemma_index(width, height, x, y);
}

/// Two well-formed planes of one size that agree on every pixel are equal.
pub proof fn lemma_planes_equal<P>(a: Plane<P>, b: Plane<P>)
    requires
        a.wf(),
        b.wf(),
        a.same_size(b),
        forall|x: int, y: int| a.inside(x, y) ==> #[trigger] a.at(x, y) == b.at(x, y),
    ensures
        a == b,
{
    assert forall|i: int| 0 <= i < a.pixels.len() implies a.pixels[i] == b.pixels[i] by {
        lemma_position(a.width, a.height, i);
        assert(a.inside(i % a.width as int, i / a.width as int));
        assert(a.at(i % a.width as int, i / a.width as int) == b.at(
            i % a.width as int,
            i / a.width as int,
        ));
    }
    assert(a.pixels =~= b.pixels);
}

/// A plane whose pixels are those of a function is the one tabulated from it.
pub proof fn lemma_tabulated<P>(a: Plane<P>, f: spec_fn(int, int) -> P)
    requires
        a.wf(),
        forall|x: int, y: int| a.inside(x, y) ==> #[trigger] a.at(x, y) == f(x, y),
    ensures
        a == Plane::tabulate(a.width, a.height, f),
{
    broadcast use lemma_tabulate;

    lemma_planes_equal(a, Plane::tabulate(a.width, a.height, f));
}

/// An image with pixels of type `P`.
#[derive(Debug)]
pub struct Raster<P> {
    width: u32,
    height: u32,
    pixels: Vec<P>,
}

/// An 8-bit single channel image.
pub type GrayImage = Raster<u8>;

/// An 8-bit RGB image.
pub type RgbImage = Raster<[u8; 3]>;

/// An 8-bit RGB image with an alpha channel.
pub type RgbaImage = Raster<[u8; 4]>;

impl<P> View for Raster<P> {
    type V = Plane<P>;

    closed spec fn view(&self) -> Plane<P> {
        Plane { width: self.width as nat, height: self.height as nat, pixels: self.pixels@ }
    }
}

impl<P> Raster<P> {
    /// Holds of every image.
    #[verifier::type_invariant]
    pub open spec fn valid(&self) -> bool {
        &&& self@.wf()
        &&& self@.width <= u32::MAX
        &&& self@.height <= u32::MAX
    }

    /// The width in pixels.
    pub fn width(&self) -> (width: u32)
        ensures
            width == self@.width,
    {
        self.width
    }

    /// The height in pixels.
    pub fn height(&self) -> (height: u32)
        ensures
            height == self@.height,
    {
        self.height
    }

    /// Width and height.
    pub fn dimensions(&self) -> (dimensions: (u32, u32))
        ensures
            dimensions.0 == self@.width,
            dimensions.1 == self@.height,
            self.valid(),
            self@.pixels.len() <= usize::MAX,
    {
        proof {
            use_type_invariant(self);
            assert(self.pixels.len() == self@.pixels.len());
        }
        (self.width, self.height)
    }
}

impl<P: Copy> Raster<P> {
    /// The pixel in column `x` of row `y`.
    pub fn get_pixel(&self, x: u32, y: u32) -> (pixel: P)
        requires
            self@.inside(x as int, y as int),
        ensures
            pixel == self@.at(x as int, y as int),
    {
        proof {
            use_type_invariant(self);
            lemma_index(self@.width, self@.height, x as int, y as int);
            assert(self.pixels.len() == self@.pixels.len());
            assert(y * self.width >= 0) by (nonlinear_arith)
                requires
                    y >= 0,
                    self.width >= 0,
            ;
        }
        self.pixels[y as usize * self.width as usize + x as usize]
    }

    /// Replaces the pixel in column `x` of row `y`.
    pub fn put_pixel(&mut self, x: u32, y: u32, pixel: P)
        requires
            old(self)@.inside(x as int, y as int),
        ensures
            final(self)@.same_size(old(self)@),
            final(self)@.pixels == old(self)@.pixels.update(
                y * old(self)@.width + x,
                pixel,
            ),
    {
        proof {
            use_type_invariant(&*self);
            lemma_index(self@.width, self@.height, x as int, y as int);
            assert(self.pixels.len() == self@.pixels.len());
            assert(y * self.width >= 0) by (nonlinear_arith)
                requires
                    y >= 0,
                    self.width >= 0,
            ;
        }
        let index: usize = y as usize * self.width as usize + x as usize;
        self.pixels[index] = pixel;
    }

    /// The image whose pixel at `(x, y)` is what `f` gives for it.
    pub fn from_fn<F: Fn(u32, u32) -> P>(width: u32, height: u32, f: F) -> (image: Self)
        requires
            width * height <= usize::MAX,
            forall|x: u32, y: u32| x < width && y < height ==> call_requires(f, (x, y)),
        ensures
            image@.wf(),
            image@.width == width,
            image@.height == height,
            forall|x: u32, y: u32|
                x < width && y < height ==> call_ensures(
                    f,
                    (x, y),
                    #[trigger] image@.at(x as int, y as int),
                ),
    {
        let mut pixels: Vec<P> = Vec::new();
        let ghost w = width as nat;
        let mut y: u32 = 0;
        while y < height
            invariant
                y <= height,
                w == width,
                width * height <= usize::MAX,
                forall|x: u32, y: u32| x < width && y < height ==> call_requires(f, (x, y)),
                pixels@.len() == y * width,
                forall|a: u32, b: u32|
                    a < width && b < y ==> call_ensures(f, (a, b), #[trigger] pixels@[b * w + a]),
            decreases height - y,
        {
            let mut x: u32 = 0;
            while x < width
                invariant
                    x <= width,
                    y < height,
                    w == width,
                    width * height <= usize::MAX,
                    forall|x: u32, y: u32| x < width && y < height ==> call_requires(f, (x, y)),
                    pixels@.len() == y * width + x,
                    forall|a: u32, b: u32|
                        a < width && b < y || a < x && b == y ==> call_ensures(
                            f,
                            (a, b),
                            #[trigger] pixels@[b * w + a],
                        ),
                decreases width - x,
            {
                let ghost before = pixels@;
                let pixel = f(x, y);
                pixels.push(pixel);
                assert forall|a: u32, b: u32| a < width && b < y || a < x + 1 && b == y implies call_ensures(
                    f,
                    (a, b),
                    #[trigger] pixels@[b * w + a],
                ) by {
                    if b == y && a == x {
                    } else if b == y {
                        assert(before[b * w + a] == pixels@[b * w + a]);
                    } else {
                        assert(0 <= b * w + a < y * w) by (nonlinear_arith)
                            requires
                                0 <= a < w,
                                0 <= b < y,
                        ;
                        assert(before[b * w + a] == pixels@[b * w + a]);
                    }
                }
                x += 1;
            }
            assert((y + 1) * width == y * width + width) by (nonlinear_arith);
            y += 1;
        }
        assert(width * height == height * width) by (nonlinear_arith);
        Raster { width, height, pixels }
    }

    /// The image of one color.
    pub fn from_pixel(width: u32, height: u32, pixel: P) -> (image: Self)
        requires
            width * height <= usize::MAX,
        ensures
            image@ == Plane::tabulate(width as nat, height as nat, |x: int, y: int| pixel),
    {
        let pixel_at = |x: u32, y: u32| -> (p: P)
            ensures
                p == pixel,
            { pixel };
        let image = Raster::from_fn(width, height, pixel_at);
        proof {
            lemma_tabulated(image@, |x: int, y: int| pixel);
        }
        image
    }

    /// The image with the given pixels in row-major order, if there are as
    /// many as the dimensions call for.
    pub fn from_vec(width: u32, height: u32, pixels: Vec<P>) -> (image: Option<Self>)
        ensures
            image is Some <==> pixels@.len() == width * height,
            image matches Some(i) ==> i@ == (Plane {
                width: width as nat,
                height: height as nat,
                pixels: pixels@,
            }),
    {
        assert(width as u64 * height as u64 <= u64::MAX) by (nonlinear_arith)
            requires
                width <= u32::MAX,
                height <= u32::MAX,
        ;
        if pixels.len() as u64 == width as u64 * height as u64 {
            Some(Raster { width, height, pixels })
        } else {
            None
        }
    }

    /// The pixels in row-major order.
    pub fn pixels(&self) -> (pixels: &Vec<P>)
        ensures
            pixels@ == self@.pixels,
    {
        &self.pixels
    }

    /// The part of the image inside the given rectangle. What of the rectangle
    /// lies outside the image is left out.
    pub fn crop(&self, x: u32, y: u32, width: u32, height: u32) -> (image: Self)
        ensures
            image@ == self@.crop(x as int, y as int, width as int, height as int),
    {
        proof {
            use_type_invariant(self);
        }
        let left: u32 = if x < self.width {
            x
        } else {
            self.width
        };
        let top: u32 = if y < self.height {
            y
        } else {
            self.height
        };
        let w: u32 = if width < self.width - left {
            width
        } else {
            self.width - left
        };
        let h: u32 = if height < self.height - top {
            height
        } else {
            self.height - top
        };
        proof {
            assert(self.pixels.len() == self@.pixels.len());
            assert(w * h <= self.width * self.height) by (nonlinear_arith)
                requires
                    0 <= w <= self.width,
                    0 <= h <= self.height,
            ;
        }
        let pixel_at = |i: u32, j: u32| -> (p: P)
            requires
                i < w,
                j < h,
            ensures
                p == self@.at(left + i, top + j),
            { self.get_pixel(left + i, top + j) };
        let image = Raster::from_fn(w, h, pixel_at);
        proof {
            lemma_tabulated(image@, |i: int, j: int| self@.at(left + i, top + j));
        }
        image
    }

    /// Copies `source` into the image with its top left corner at `(x, y)`.
    /// What of `source` lies outside the image is left out.
    pub fn replace(&mut self, source: &Self, x: u32, y: u32)
        ensures
            final(self)@ == old(self)@.replaced(source@, x as int, y as int),
    {
        let ghost before = self@;
        let (width, height) = self.dimensions();
        let (source_width, source_height) = source.dimensions();
        if x < width && y < height {
            let w: u32 = if source_width < width - x {
                source_width
            } else {
                width - x
            };
            let h: u32 = if source_height < height - y {
                source_height
            } else {
                height - y
            };
            let mut j: u32 = 0;
            while j < h
                invariant
                    j <= h <= source@.height,
                    w <= source@.width,
                    x + w <= before.width,
                    y + h <= before.height,
                    self@.wf(),
                    self@.same_size(before),
                    forall|a: int, b: int|
                        before.inside(a, b) ==> #[trigger] self@.at(a, b) == (if x <= a < x + w && y
                            <= b < y + j {
                            source@.at(a - x, b - y)
                        } else {
                            before.at(a, b)
                        }),
                decreases h - j,
            {
                let mut i: u32 = 0;
                while i < w
                    invariant
                        i <= w <= source@.width,
                        j < h <= source@.height,
                        x + w <= before.width,
                        y + h <= before.height,
                        self@.wf(),
                        self@.same_size(before),
                        forall|a: int, b: int|
                            before.inside(a, b) ==> #[trigger] self@.at(a, b) == (if x <= a < x + w
                                && y <= b < y + j || x <= a < x + i && b == y + j {
                                source@.at(a - x, b - y)
                            } else {
                                before.at(a, b)
                            }),
                    decreases w - i,
                {
                    let ghost current = self@;
                    self.put_pixel(x + i, y + j, source.get_pixel(i, j));
                    proof {
                        lemma_index(before.width, before.height, x + i, y + j);
                        assert forall|a: int, b: int| before.inside(a, b) implies #[trigger] self@.at(
                            a,
                            b,
                        ) == (if a == x + i && b == y + j {
                            source@.at(i as int, j as int)
                        } else {
                            current.at(a, b)
                        }) by {
                            lemma_index(before.width, before.height, a, b);
                        }
                    }
                    i += 1;
                }
                j += 1;
            }
        }
        proof {
            lemma_tabulated(
                self@,
                |i: int, j: int| before.replaced_at(source@, x as int, y as int, i, j),
            );
        }
    }
}

impl<P: Copy> Clone for Raster<P> {
    fn clone(&self) -> (image: Self)
        ensures
            image@ == self@,
    {
        proof {
            use_type_invariant(self);
            assert(self.pixels.len() == self@.pixels.len());
        }
        let pixel_at = |x: u32, y: u32| -> (p: P)
            requires
                self@.inside(x as int, y as int),
            ensures
                p == self@.at(x as int, y as int),
            { self.get_pixel(x, y) };
        let image = Raster::from_fn(self.width, self.height, pixel_at);
        proof {
            lemma_planes_equal(image@, self@);
        }
        image
    }
}

impl Raster<u8> {
    /// The black image.
    pub fn new(width: u32, height: u32) -> (image: Self)
        requires
            width * height <= usize::MAX,
        ensures
            image@ == Plane::tabulate(width as nat, height as nat, |x: int, y: int| 0u8),
    {
        Raster::from_pixel(width, height, 0u8)
    }
}

} // verus!
