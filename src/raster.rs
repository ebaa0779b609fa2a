use vstd::prelude::*;

verus! {

/// An 8-bit RGBA color or pixel, channels not premultiplied.
#[derive(Clone, Copy, Debug, PartialEq, Eq, Structural)]
pub struct Rgba {
    pub r: u8,
    pub g: u8,
    pub b: u8,
    pub a: u8,
}

/// The pixel that starts at byte `4 * i` of an RGBA buffer.
pub open spec fn pixel_of(bytes: Seq<u8>, i: int) -> Rgba {
    Rgba { r: bytes[4 * i], g: bytes[4 * i + 1], b: bytes[4 * i + 2], a: bytes[4 * i + 3] }
}

/// The larger of two 8-bit values.
pub open spec fn max_u8(a: u8, b: u8) -> u8 {
    if a >= b {
        a
    } else {
        b
    }
}

/// The value at column `x` of row `y` of a row-major grid `w` wide.
pub open spec fn grid_at<T>(s: Seq<T>, w: int, x: int, y: int) -> T {
    s[y * w + x]
}

/// A dense RGBA raster, row-major, four bytes per pixel.
#[derive(Clone, Debug)]
pub struct RasterImage {
    pub width: u32,
    pub height: u32,
    pub pixels: Vec<u8>,
}

/// A single-channel 8-bit coverage (alpha) mask, row-major.
#[derive(Clone, Debug)]
pub struct CoverageMask {
    pub width: u32,
    pub height: u32,
    pub values: Vec<u8>,
}

impl RasterImage {
    /// Positive dimensions, and one RGBA quadruple per pixel.
    pub open spec fn wf(&self) -> bool {
        &&& self.width > 0
        &&& self.height > 0
        &&& self.pixels@.len() == 4 * (self.width * self.height)
    }

    /// The number of pixels.
    pub open spec fn area(&self) -> nat {
        (self.width * self.height) as nat
    }

    /// The pixels in row-major order.
    pub open spec fn px(&self) -> Seq<Rgba> {
        Seq::new(self.area(), |i: int| pixel_of(self.pixels@, i))
    }

    /// Takes a raw RGBA buffer; refuses one whose size is not that of the dimensions.
    pub fn from_raw(width: u32, height: u32, pixels: Vec<u8>) -> (r: Option<RasterImage>)
        ensures
            r is Some <==> (width > 0 && height > 0 && pixels@.len() == 4 * (width * height)),
            r matches Some(img) ==> img.width == width && img.height == height && img.pixels@ == pixels@,
    {
        if width == 0 || height == 0 {
            return None;
        }
        proof { lemma_u32_product(width as int, height as int); }
        let n: u64 = width as u64 * height as u64;
        if pixels.len() % 4 != 0 || (pixels.len() / 4) as u64 != n {
            return None;
        }
        Some(RasterImage { width, height, pixels })
    }

    /// A canvas of one color.
    pub fn filled(width: u32, height: u32, color: Rgba) -> (r: Option<RasterImage>)
        ensures
            r is Some <==> (width > 0 && height > 0 && 4 * (width * height) <= usize::MAX),
            r matches Some(img) ==> img.wf() && img.width == width && img.height == height
                && forall|i: int| 0 <= i < img.area() ==> #[trigger] img.px()[i] == color,
    {
        if width == 0 || height == 0 {
            return None;
        }
        proof { lemma_u32_product(width as int, height as int); }
        let n64: u64 = width as u64 * height as u64;
        if n64 > u64::MAX / 4 || 4 * n64 > usize::MAX as u64 {
            return None;
        }
        let n: usize = n64 as usize;
        let mut pixels: Vec<u8> = Vec::new();
        let mut i: usize = 0;
        while i < n
            invariant
                n == width * height,
                4 * n <= usize::MAX,
                i <= n,
                pixels@.len() == 4 * i,
                forall|j: int| 0 <= j < i ==> #[trigger] pixel_of(pixels@, j) == color,
            decreases n - i,
        {
            let ghost prev = pixels@;
            pixels.push(color.r);
            pixels.push(color.g);
            pixels.push(color.b);
            pixels.push(color.a);
            assert forall|j: int| 0 <= j < i + 1 implies #[trigger] pixel_of(pixels@, j) == color by {
                if j < i {
                    assert(pixel_of(prev, j) == color);
                }
            }
            i = i + 1;
        }
        let img = RasterImage { width, height, pixels };
        assert forall|j: int| 0 <= j < img.area() implies #[trigger] img.px()[j] == color by {
            assert(pixel_of(pixels@, j) == color);
        }
        Some(img)
    }

    /// The pixel at column `x` of row `y`.
    pub fn pixel(&self, x: u32, y: u32) -> (r: Rgba)
        requires
            self.wf(),
            x < self.width,
            y < self.height,
        ensures
            r == grid_at(self.px(), self.width as int, x as int, y as int),
    {
        proof {
            lemma_grid_index(x as int, y as int, self.width as int, self.height as int);
            lemma_u32_product(self.width as int, self.height as int);
        }
        let _len: usize = self.pixels.len();
        let i: usize = y as usize * self.width as usize + x as usize;
        Rgba {
            r: self.pixels[4 * i],
            g: self.pixels[4 * i + 1],
            b: self.pixels[4 * i + 2],
            a: self.pixels[4 * i + 3],
        }
    }
}

impl CoverageMask {
    /// One value per pixel.
    pub open spec fn wf(&self) -> bool {
        self.values@.len() == self.width * self.height
    }

    /// The coverage at column `x` of row `y`.
    pub open spec fn at(&self, x: int, y: int) -> u8 {
        grid_at(self.values@, self.width as int, x, y)
    }

    /// Takes a raw coverage buffer; refuses one whose size is not that of the dimensions.
    pub fn from_raw(width: u32, height: u32, values: Vec<u8>) -> (r: Option<CoverageMask>)
        ensures
            r is Some <==> values@.len() == width * height,
            r matches Some(m) ==> m.width == width && m.height == height && m.values@ == values@,
    {
        proof { lemma_u32_product(width as int, height as int); }
        if values.len() as u64 != width as u64 * height as u64 {
            return None;
        }
        Some(CoverageMask { width, height, values })
    }

    /// A mask with no coverage anywhere.
    pub fn empty(width: u32, height: u32) -> (r: CoverageMask)
        requires
            width * height <= usize::MAX,
        ensures
            r.wf(),
            r.width == width,
            r.height == height,
            forall|i: int| 0 <= i < r.values@.len() ==> #[trigger] r.values@[i] == 0,
    {
        let n: usize = width as usize * height as usize;
        let mut values: Vec<u8> = Vec::new();
        let mut i: usize = 0;
        while i < n
            invariant
                i <= n,
                values@.len() == i,
                forall|j: int| 0 <= j < i ==> #[trigger] values@[j] == 0,
            decreases n - i,
        {
            values.push(0);
            i = i + 1;
        }
        CoverageMask { width, height, values }
    }

    /// The coverage at column `x` of row `y`.
    pub fn value(&self, x: u32, y: u32) -> (r: u8)
        requires
            self.wf(),
            x < self.width,
            y < self.height,
        ensures
            r == self.at(x as int, y as int),
    {
        proof { lemma_grid_index(x as int, y as int, self.width as int, self.height as int); }
        let _len: usize = self.values.len();
        self.values[y as usize * self.width as usize + x as usize]
    }
}

/// A cell inside a `w` by `h` grid has a row-major index inside the grid.
pub proof fn lemma_grid_index(x: int, y: int, w: int, h: int)
    requires
        0 <= x < w,
        0 <= y < h,
    ensures
        0 <= y * w <= y * w + x < w * h,
{
    assert(y * w + x < w * h) by (nonlinear_arith)
        requires 0 <= x < w, 0 <= y < h;
    assert(0 <= y * w) by (nonlinear_arith)
        requires 0 <= x < w, 0 <= y < h;
}

/// The product of two `u32` values fits in a `u64`.
pub proof fn lemma_u32_product(a: int, b: int)
    requires
        0 <= a <= u32::MAX,
        0 <= b <= u32::MAX,
    ensures
        0 <= a * b <= 0xFFFF_FFFE_0000_0001,
{
    assert(0 <= a * b <= 0xFFFF_FFFE_0000_0001) by (nonlinear_arith)
        requires 0 <= a <= u32::MAX, 0 <= b <= u32::MAX;
}

} // verus!
