use vstd::prelude::*;

verus! {

/// One 8-bit-per-channel RGBA pixel.
#[derive(Debug, Clone, Copy, PartialEq, Eq, Structural)]
pub struct Pixel {
    pub r: u8,
    pub g: u8,
    pub b: u8,
    pub a: u8,
}

/// An RGBA raster, stored row by row.
#[derive(Debug)]
pub struct PixelGrid {
    pub width: usize,
    pub height: usize,
    pub pixels: Vec<Pixel>,
}

pub proof fn lemma_index_in_range(x: int, y: int, w: int, h: int)
    requires
        0 <= x < w,
        0 <= y < h,
    ensures
        0 <= y * w + x < w * h,
{
    assert(0 <= y * w) by (nonlinear_arith)
        requires 0 <= y, 0 <= w;
    assert(y * w + x < w * h) by (nonlinear_arith)
        requires 0 <= x < w, 0 <= y < h;
}

pub proof fn lemma_index_injective(x1: int, y1: int, x2: int, y2: int, w: int)
    requires
        0 <= x1 < w,
        0 <= x2 < w,
        0 <= y1,
        0 <= y2,
        y1 * w + x1 == y2 * w + x2,
    ensures
        x1 == x2,
        y1 == y2,
{
    if y1 < y2 {
        assert(y1 * w + w <= y2 * w) by (nonlinear_arith)
            requires y1 < y2, 0 <= w;
    } else if y2 < y1 {
        assert(y2 * w + w <= y1 * w) by (nonlinear_arith)
            requires y2 < y1, 0 <= w;
    }
}

impl Pixel {
    pub fn new(r: u8, g: u8, b: u8, a: u8) -> (p: Pixel)
        ensures
            p == (Pixel { r, g, b, a }),
    {
        Pixel { r, g, b, a }
    }
}

impl PixelGrid {
    /// The pixel count fits in `isize::MAX / 8`, so that a difference matrix of one
    /// `usize` per pixel stays within `isize::MAX` bytes, and neither side exceeds
    /// `isize::MAX`.
    pub open spec fn wf(self) -> bool {
        &&& self.pixels.len() == self.width * self.height
        &&& self.width * self.height <= isize::MAX / 8
        &&& self.width <= isize::MAX
        &&& self.height <= isize::MAX
    }

    pub open spec fn in_bounds(self, x: int, y: int) -> bool {
        0 <= x < self.width && 0 <= y < self.height
    }

    pub open spec fn pixel_at(self, x: int, y: int) -> Pixel {
        self.pixels@[y * self.width + x]
    }

    /// A grid of the given size from its pixels in row order, or `None` when their
    /// number is not `width * height`, that product exceeds `isize::MAX / 8`, or a
    /// side exceeds `isize::MAX`.
    pub fn new(width: usize, height: usize, pixels: Vec<Pixel>) -> (r: Option<PixelGrid>)
        ensures
            r.is_some() == (pixels.len() == width * height && width * height <= isize::MAX / 8
                && width <= isize::MAX && height <= isize::MAX),
            r.is_some() ==> r.unwrap().width == width && r.unwrap().height == height
                && r.unwrap().pixels@ == pixels@,
    {
        match width.checked_mul(height) {
            Some(n) => {
                if n <= (isize::MAX as usize) / 8 && width <= isize::MAX as usize && height <= isize::MAX as usize
                    && pixels.len() == n {
                    Some(PixelGrid { width, height, pixels })
                } else {
                    None
                }
            },
            None => None,
        }
    }

    /// The pixel at column `x`, row `y`.
    pub fn get_pixel(&self, x: usize, y: usize) -> (p: Pixel)
        requires
            self.wf(),
            x < self.width,
            y < self.height,
        ensures
            p == self.pixel_at(x as int, y as int),
    {
        proof {
            lemma_index_in_range(x as int, y as int, self.width as int, self.height as int);
        }
        self.pixels[y * self.width + x]
    }

    /// Sets the pixel at column `x`, row `y` to `color`.
    pub fn put_pixel(&mut self, x: usize, y: usize, color: Pixel)
        requires
            old(self).wf(),
            x < old(self).width,
            y < old(self).height,
        ensures
            final(self).wf(),
            final(self).width == old(self).width,
            final(self).height == old(self).height,
            forall|px: int, py: int|
                old(self).in_bounds(px, py) ==> #[trigger] final(self).pixel_at(px, py) == if px == x && py
                    == y {
                    color
                } else {
                    old(self).pixel_at(px, py)
                },
    {
        proof {
            lemma_index_in_range(x as int, y as int, self.width as int, self.height as int);
        }
        let ghost before = *self;
        let i = y * self.width + x;
        self.pixels.set(i, color);
        proof {
            assert forall|px: int, py: int| before.in_bounds(px, py) implies #[trigger] self.pixel_at(px, py)
                == if px == x && py == y { color } else { before.pixel_at(px, py) } by {
                lemma_index_in_range(px, py, before.width as int, before.height as int);
                if px != x || py != y {
                    if py * before.width + px == i {
                        lemma_index_injective(px, py, x as int, y as int, before.width as int);
                    }
                }
            }
        }
    }
}

} // verus!
