//! A rectangular layer of pixels with a depth, placed on the screen.
use vstd::prelude::*;
use crate::canvas::Color;

verus! {

#[derive(Debug)]
pub struct Raster {
    pub z: i32,
    pub rec_start: (usize, usize),
    pub rec_end: (usize, usize),
    pub screen_width: usize,
    pub screen_height: usize,
    pub raster_width: usize,
    pub raster_height: usize,
    pub pixels: Vec<Vec<Color>>,
}

impl Clone for Raster {
    fn clone(&self) -> Self {
        Raster {
            z: self.z,
            rec_start: (self.rec_start.0, self.rec_start.1),
            rec_end: (self.rec_end.0, self.rec_end.1),
            screen_width: self.screen_width,
            screen_height: self.screen_height,
            raster_width: self.raster_width,
            raster_height: self.raster_height,
            pixels: self.pixels.clone(),
        }
    }
}

impl Raster {
    /// `pixels` holds `raster_height` rows of `raster_width` colours.
    pub open spec fn wf(&self) -> bool {
        &&& self.raster_width <= i32::MAX
        &&& self.raster_height <= i32::MAX
        &&& self.pixels@.len() == self.raster_height
        &&& forall|y: int| 0 <= y < self.pixels@.len() ==> #[trigger] self.pixels@[y]@.len() == self.raster_width
    }

    pub open spec fn in_bounds(&self, x: int, y: int) -> bool {
        0 <= x < self.raster_width && 0 <= y < self.raster_height
    }

    pub open spec fn pixel(&self, x: int, y: int) -> Color {
        self.pixels@[y]@[x]
    }

    /// The same raster with every in-bounds pixel of `pts` set to `color`.
    pub open spec fn painted(&self, other: &Raster, pts: Set<(int, int)>, color: Color) -> bool {
        &&& other.wf()
        &&& self.wf()
        &&& self.z == other.z
        &&& self.rec_start == other.rec_start
        &&& self.rec_end == other.rec_end
        &&& self.screen_width == other.screen_width
        &&& self.screen_height == other.screen_height
        &&& self.raster_width == other.raster_width
        &&& self.raster_height == other.raster_height
        &&& forall|x: int, y: int|
            #![trigger self.pixel(x, y)]
            self.in_bounds(x, y) ==> self.pixel(x, y) == if pts.contains((x, y)) {
                color
            } else {
                other.pixel(x, y)
            }
    }

    pub fn get(&self, x: i32, y: i32) -> (c: Color)
        requires
            self.wf(),
            self.in_bounds(x as int, y as int),
        ensures
            c == self.pixel(x as int, y as int),
    {
        self.pixels[y as usize][x as usize]
    }

    pub fn get_color(&self, x: usize, y: usize) -> (c: Color)
        requires
            self.wf(),
            self.in_bounds(x as int, y as int),
        ensures
            c == self.pixel(x as int, y as int),
    {
        self.pixels[y][x]
    }

    /// Sets pixel `(x, y)` when it lies in the raster; does nothing otherwise.
    pub fn set(&mut self, x: i32, y: i32, color: &Color)
        requires
            old(self).wf(),
        ensures
            final(self).painted(old(self), set![(x as int, y as int)], *color),
    {
        if x >= self.raster_width as i32 || y >= self.raster_height as i32 {
            return;
        }
        if x < 0 || y < 0 {
            return;
        }
        let ghost before = *self;
        self.pixels[y as usize][x as usize] = *color;
        assert forall|yy: int| 0 <= yy < self.pixels@.len() implies #[trigger] self.pixels@[yy]@.len() == self.raster_width by {
            if yy != y {
                assert(self.pixels@[yy] == before.pixels@[yy]);
            }
        }
    }
}

} // verus!
