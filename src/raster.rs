use vstd::prelude::*;

verus! {

/// Largest side length, in pixels, of a raster handled by this library.
pub const MAX_SIDE: u32 = 65535;

/// An RGB colour with one 8-bit sample per channel.
#[derive(Clone, Copy, Debug, PartialEq, Eq, Structural)]
pub struct Rgb {
    pub r: u8,
    pub g: u8,
    pub b: u8,
}

impl Rgb {
    /// Sample `i` of the colour: 0 is red, 1 green, 2 blue.
    pub open spec fn channel(self, i: int) -> int {
        if i == 0 {
            self.r as int
        } else if i == 1 {
            self.g as int
        } else {
            self.b as int
        }
    }

    pub fn new(r: u8, g: u8, b: u8) -> (c: Rgb)
        ensures
            c == (Rgb { r, g, b }),
    {
        Rgb { r, g, b }
    }

    pub fn black() -> (c: Rgb)
        ensures
            c == (Rgb { r: 0, g: 0, b: 0 }),
    {
        Rgb { r: 0, g: 0, b: 0 }
    }
}

/// A pixel-addressable image, stored row by row.
pub struct Raster {
    pub width: u32,
    pub height: u32,
    pub pixels: Vec<Rgb>,
}

/// Position of pixel `(x, y)` in a row-major buffer with rows of `width` pixels.
pub open spec fn index_of(width: int, x: int, y: int) -> int {
    y * width + x
}

pub proof fn lemma_index_in_bounds(width: int, height: int, x: int, y: int)
    requires
        0 <= x < width,
        0 <= y < height,
    ensures
        0 <= index_of(width, x, y) < width * height,
{
    assert(0 <= y * width + x < width * height) by (nonlinear_arith)
        requires
            0 <= x < width,
            0 <= y < height,
    ;
}

pub proof fn lemma_area_bound(width: int, height: int)
    requires
        0 <= width <= MAX_SIDE,
        0 <= height <= MAX_SIDE,
    ensures
        0 <= width * height <= MAX_SIDE * MAX_SIDE,
{
    assert(0 <= width * height <= MAX_SIDE * MAX_SIDE) by (nonlinear_arith)
        requires
            0 <= width <= MAX_SIDE,
            0 <= height <= MAX_SIDE,
    ;
}

pub proof fn lemma_index_injective(width: int, x1: int, y1: int, x2: int, y2: int)
    requires
        0 <= x1 < width,
        0 <= x2 < width,
        0 <= y1,
        0 <= y2,
        index_of(width, x1, y1) == index_of(width, x2, y2),
    ensures
        x1 == x2,
        y1 == y2,
{
    if y1 < y2 {
        assert(y1 * width + width <= y2 * width) by (nonlinear_arith)
            requires
                y1 < y2,
                0 <= width,
        ;
    } else if y2 < y1 {
        assert(y2 * width + width <= y1 * width) by (nonlinear_arith)
            requires
                y2 < y1,
                0 <= width,
        ;
    }
}

impl Raster {
    /// The buffer holds exactly one pixel per position and the sides are bounded.
    pub open spec fn wf(&self) -> bool {
        &&& self.width <= MAX_SIDE
        &&& self.height <= MAX_SIDE
        &&& self.pixels@.len() == self.width * self.height
    }

    /// The pixel at column `x`, row `y`.
    pub open spec fn at(&self, x: int, y: int) -> Rgb {
        self.pixels@[index_of(self.width as int, x, y)]
    }

    pub open spec fn contains(&self, x: int, y: int) -> bool {
        0 <= x < self.width && 0 <= y < self.height
    }

    /// A raster of the given size with every pixel set to `fill`.
    pub fn from_pixel(width: u32, height: u32, fill: Rgb) -> (r: Raster)
        requires
            width <= MAX_SIDE,
            height <= MAX_SIDE,
        ensures
            r.wf(),
            r.width == width,
            r.height == height,
            forall|x: int, y: int| r.contains(x, y) ==> #[trigger] r.at(x, y) == fill,
    {
        proof {
            lemma_area_bound(width as int, height as int);
        }
        let total: usize = (width as usize) * (height as usize);
        let mut pixels: Vec<Rgb> = Vec::new();
        let mut i: usize = 0;
        while i < total
            invariant
                i <= total,
                total == width * height,
                pixels@.len() == i,
                forall|k: int| 0 <= k < i ==> #[trigger] pixels@[k] == fill,
            decreases total - i,
        {
            pixels.push(fill);
            i = i + 1;
        }
        let r = Raster { width, height, pixels };
        assert forall|x: int, y: int| r.contains(x, y) implies #[trigger] r.at(x, y) == fill by {
            lemma_index_in_bounds(width as int, height as int, x, y);
        }
        r
    }

    /// A raster built from a row-major pixel buffer; `None` where the buffer
    /// does not hold `width * height` pixels or a side exceeds `MAX_SIDE`.
    pub fn from_pixels(width: u32, height: u32, pixels: Vec<Rgb>) -> (r: Option<Raster>)
        ensures
            r is Some <==> (width <= MAX_SIDE && height <= MAX_SIDE && pixels@.len()
                == width * height),
            r matches Some(img) ==> img.wf() && img.width == width && img.height == height
                && img.pixels@ == pixels@,
    {
        if width > MAX_SIDE || height > MAX_SIDE {
            return None;
        }
        proof {
            lemma_area_bound(width as int, height as int);
        }
        let total: usize = (width as usize) * (height as usize);
        if pixels.len() != total {
            return None;
        }
        Some(Raster { width, height, pixels })
    }

    pub fn width(&self) -> (w: u32)
        ensures
            w == self.width,
    {
        self.width
    }

    pub fn height(&self) -> (h: u32)
        ensures
            h == self.height,
    {
        self.height
    }

    pub fn get_pixel(&self, x: u32, y: u32) -> (p: Rgb)
        requires
            self.wf(),
            self.contains(x as int, y as int),
        ensures
            p == self.at(x as int, y as int),
    {
        proof {
            lemma_index_in_bounds(self.width as int, self.height as int, x as int, y as int);
        }
        let n: usize = self.pixels.len();
        let k: usize = (y as usize) * (self.width as usize) + (x as usize);
        self.pixels[k]
    }

    pub fn put_pixel(&mut self, x: u32, y: u32, color: Rgb)
        requires
            old(self).wf(),
            old(self).contains(x as int, y as int),
        ensures
            final(self).wf(),
            final(self).width == old(self).width,
            final(self).height == old(self).height,
            forall|i: int, j: int|
                final(self).contains(i, j) ==> #[trigger] final(self).at(i, j) == (if i == x && j
                    == y {
                    color
                } else {
                    old(self).at(i, j)
                }),
    {
        proof {
            lemma_index_in_bounds(self.width as int, self.height as int, x as int, y as int);
        }
        let n: usize = self.pixels.len();
        let k: usize = (y as usize) * (self.width as usize) + (x as usize);
        self.pixels.set(k, color);
        proof {
            assert forall|i: int, j: int| self.contains(i, j) implies #[trigger] self.at(i, j) == (
            if i == x && j == y {
                color
            } else {
                old(self).at(i, j)
            }) by {
                lemma_index_in_bounds(self.width as int, self.height as int, i, j);
                if index_of(self.width as int, i, j) == k {
                    lemma_index_injective(self.width as int, i, j, x as int, y as int);
                }
            }
        }
    }
}

} // verus!
