//! RGBA colours and the flat pixel buffer that frames are written into.
use vstd::prelude::*;

verus! {

/// An RGBA colour.
#[derive(Clone, Copy, Debug, PartialEq, Eq, Structural)]
pub struct Color {
    pub r: u8,
    pub g: u8,
    pub b: u8,
    pub a: u8,
}

impl Color {
    pub fn new(r: u8, g: u8, b: u8, a: u8) -> (c: Color)
        ensures
            c == (Color { r, g, b, a }),
    {
        Color { r, g, b, a }
    }
}

/// A `width x height` canvas of RGBA bytes, row-major, four bytes a pixel.
pub struct VirtualCanvas {
    pub width: usize,
    pub height: usize,
    pub pixels: Vec<u8>,
}

proof fn lemma_distinct_pixels(px: int, py: int, x: int, y: int, w: int)
    requires
        0 <= px < w,
        0 <= x < w,
        0 <= py,
        0 <= y,
        px != x || py != y,
    ensures
        (px + py * w) * 4 + 4 <= (x + y * w) * 4 || (x + y * w) * 4 + 4 <= (px + py * w) * 4,
{
    if py == y {
    } else if py < y {
        assert(px + py * w < x + y * w) by (nonlinear_arith)
            requires 0 <= px < w, 0 <= x, py < y;
    } else {
        assert(x + y * w < px + py * w) by (nonlinear_arith)
            requires 0 <= x < w, 0 <= px, y < py;
    }
}

impl VirtualCanvas {
    /// The buffer holds exactly four bytes for each pixel.
    pub open spec fn wf(&self) -> bool {
        self.pixels@.len() == self.width * self.height * 4
    }

    /// The colour stored for pixel `(x, y)`.
    pub open spec fn pixel(&self, x: int, y: int) -> Color {
        let pos = (x + y * self.width) * 4;
        Color {
            r: self.pixels@[pos],
            g: self.pixels@[pos + 1],
            b: self.pixels@[pos + 2],
            a: self.pixels@[pos + 3],
        }
    }

    /// A canvas with every byte zero.
    pub fn new(width: usize, height: usize) -> (c: VirtualCanvas)
        requires
            width * height * 4 <= usize::MAX,
        ensures
            c.wf(),
            c.width == width,
            c.height == height,
            forall|i: int| 0 <= i < c.pixels@.len() ==> c.pixels@[i] == 0,
    {
        let n = width * height * 4;
        let mut pixels: Vec<u8> = Vec::new();
        let mut i: usize = 0;
        while i < n
            invariant
                i <= n,
                pixels@.len() == i,
                forall|j: int| 0 <= j < i ==> pixels@[j] == 0,
            decreases n - i,
        {
            pixels.push(0);
            i = i + 1;
        }
        VirtualCanvas { width, height, pixels }
    }

    /// Writes `color` at `(x, y)` and leaves every other byte as it was.
    pub fn draw_pixel(&mut self, x: usize, y: usize, color: Color)
        requires
            old(self).wf(),
            x < old(self).width,
            y < old(self).height,
        ensures
            final(self).wf(),
            final(self).width == old(self).width,
            final(self).height == old(self).height,
            final(self).pixel(x as int, y as int) == color,
            ({
                let pos = (x + y * old(self).width) * 4;
                forall|i: int|
                    0 <= i < old(self).pixels@.len() && !(pos <= i < pos + 4)
                        ==> final(self).pixels@[i] == old(self).pixels@[i]
            }),
            forall|px: int, py: int|
                #![trigger final(self).pixel(px, py)]
                0 <= px < old(self).width && 0 <= py < old(self).height && (px != x || py != y)
                    ==> final(self).pixel(px, py) == old(self).pixel(px, py),
    {
        proof {
            let w = self.width as int;
            let h = self.height as int;
            assert((x + y * w) * 4 + 4 <= w * h * 4 && 0 <= y * w) by (nonlinear_arith)
                requires
                    0 <= x < w,
                    0 <= y < h,
            ;
            assert(self.pixels.len() <= usize::MAX);
        }
        let pos = (x + y * self.width) * 4;
        let ghost before = *self;
        self.pixels.set(pos, color.r);
        self.pixels.set(pos + 1, color.g);
        self.pixels.set(pos + 2, color.b);
        self.pixels.set(pos + 3, color.a);
        proof {
            let w = self.width as int;
            assert forall|px: int, py: int|
                #![trigger self.pixel(px, py)]
                0 <= px < w && 0 <= py < self.height && (px != x || py != y) implies self.pixel(px, py)
                    == before.pixel(px, py) by {
                lemma_distinct_pixels(px, py, x as int, y as int, w);
                let q = (px + py * w) * 4;
                assert(q + 4 <= w * self.height * 4 && 0 <= q) by (nonlinear_arith)
                    requires 0 <= px < w, 0 <= py < self.height, q == (px + py * w) * 4;
                assert(self.pixels@[q] == before.pixels@[q]);
                assert(self.pixels@[q + 1] == before.pixels@[q + 1]);
                assert(self.pixels@[q + 2] == before.pixels@[q + 2]);
                assert(self.pixels@[q + 3] == before.pixels@[q + 3]);
            }
        }
    }
}

} // verus!
