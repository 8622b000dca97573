//! A scene of projected objects composited onto a canvas in depth order.
use vstd::prelude::*;
use crate::canvas::{Color, VirtualCanvas};
use crate::raster::Raster;
use crate::raster_sorting::sorted_range;

verus! {

/// Something that turns into a raster for a screen of a given size.
pub trait Projection {
    fn rasterize(&self, width: usize, height: usize) -> Raster;
}

/// A raster stands for itself.
impl Projection for Raster {
    fn rasterize(&self, width: usize, height: usize) -> Raster {
        self.clone()
    }
}

/// The objects of a scene, composited onto a canvas back to front.
pub struct ProjectiveScene<P> {
    pub objects: Vec<P>,
}

/// The colour a raster leaves out of the composite.
pub open spec fn transparent() -> Color {
    Color { r: 0, g: 0, b: 0, a: 255 }
}

/// Raster `r` paints canvas pixel `(x, y)`: the pixel lies in the raster's
/// screen rectangle, on a `w x h` canvas, inside the raster's pixels, and is
/// not transparent.
pub open spec fn covers(r: Raster, w: int, h: int, x: int, y: int) -> bool {
    let lx = x - r.rec_start.0;
    let ly = y - r.rec_start.1;
    &&& r.rec_start.0 <= x < r.rec_end.0
    &&& r.rec_start.1 <= y < r.rec_end.1
    &&& 0 <= x < w
    &&& 0 <= y < h
    &&& 0 <= ly < r.pixels@.len()
    &&& 0 <= lx < r.pixels@[ly]@.len()
    &&& r.pixels@[ly]@[lx] != transparent()
}

/// The colour of canvas pixel `(x, y)` after compositing `rs` in order over
/// `base`: the last raster that covers it, or `base`.
pub open spec fn shown(rs: Seq<Raster>, base: VirtualCanvas, x: int, y: int) -> Color
    decreases rs.len(),
{
    if rs.len() == 0 {
        base.pixel(x, y)
    } else {
        let r = rs.last();
        if covers(r, base.width as int, base.height as int, x, y) {
            r.pixels@[y - r.rec_start.1]@[x - r.rec_start.0]
        } else {
            shown(rs.drop_last(), base, x, y)
        }
    }
}

/// Copies the non-transparent pixels of `r` that fall on the canvas.
fn draw_raster(r: &Raster, canvas: &mut VirtualCanvas)
    requires
        old(canvas).wf(),
    ensures
        final(canvas).wf(),
        final(canvas).width == old(canvas).width,
        final(canvas).height == old(canvas).height,
        forall|x: int, y: int|
            0 <= x < old(canvas).width && 0 <= y < old(canvas).height ==> #[trigger] final(canvas).pixel(x, y)
                == if covers(*r, old(canvas).width as int, old(canvas).height as int, x, y) {
                r.pixels@[y - r.rec_start.1]@[x - r.rec_start.0]
            } else {
                old(canvas).pixel(x, y)
            },
{
    let ghost c0 = *canvas;
    let w = canvas.width;
    let h = canvas.height;
    let mut x = r.rec_start.0;
    while x < r.rec_end.0
        invariant
            canvas.wf(),
            canvas.width == w,
            canvas.height == h,
            c0.width == w,
            c0.height == h,
            r.rec_start.0 <= x,
            forall|px: int, py: int|
                0 <= px < w && 0 <= py < h ==> #[trigger] canvas.pixel(px, py) == if px < x && covers(*r, w as int, h as int, px, py) {
                    r.pixels@[py - r.rec_start.1]@[px - r.rec_start.0]
                } else {
                    c0.pixel(px, py)
                },
        decreases r.rec_end.0 - x,
    {
        let mut y = r.rec_start.1;
        while y < r.rec_end.1
            invariant
                canvas.wf(),
                canvas.width == w,
                canvas.height == h,
                c0.width == w,
                c0.height == h,
                r.rec_start.0 <= x < r.rec_end.0,
                r.rec_start.1 <= y,
                forall|px: int, py: int|
                    0 <= px < w && 0 <= py < h ==> #[trigger] canvas.pixel(px, py) == if (px < x || (px == x && py < y))
                        && covers(*r, w as int, h as int, px, py) {
                        r.pixels@[py - r.rec_start.1]@[px - r.rec_start.0]
                    } else {
                        c0.pixel(px, py)
                    },
            decreases r.rec_end.1 - y,
        {
            let lx = x - r.rec_start.0;
            let ly = y - r.rec_start.1;
            if x < w && y < h && ly < r.pixels.len() && lx < r.pixels[ly].len() {
                let color = r.pixels[ly][lx];
                if color != (Color { r: 0, g: 0, b: 0, a: 255 }) {
                    canvas.draw_pixel(x, y, color);
                }
            }
            y = y + 1;
        }
        x = x + 1;
    }
}

impl<P: Projection> ProjectiveScene<P> {
    pub fn new() -> (s: ProjectiveScene<P>)
        ensures
            s.objects@.len() == 0,
    {
        ProjectiveScene { objects: Vec::new() }
    }

    pub fn add(&mut self, obj: P)
        ensures
            final(self).objects@ == old(self).objects@.push(obj),
    {
        self.objects.push(obj);
    }

    pub fn get(&self, i: usize) -> (o: &P)
        requires
            i < self.objects@.len(),
        ensures
            *o == self.objects@[i as int],
    {
        &self.objects[i]
    }

    /// Composites `rasters` onto the canvas in the order given.
    pub fn draw_rasters(rasters: &Vec<Raster>, canvas: &mut VirtualCanvas)
        requires
            old(canvas).wf(),
        ensures
            final(canvas).wf(),
            final(canvas).width == old(canvas).width,
            final(canvas).height == old(canvas).height,
            forall|x: int, y: int|
                0 <= x < old(canvas).width && 0 <= y < old(canvas).height ==> #[trigger] final(canvas).pixel(x, y)
                    == shown(rasters@, *old(canvas), x, y),
    {
        let ghost c0 = *canvas;
        let mut k: usize = 0;
        while k < rasters.len()
            invariant
                canvas.wf(),
                canvas.width == c0.width,
                canvas.height == c0.height,
                k <= rasters@.len(),
                forall|x: int, y: int|
                    0 <= x < c0.width && 0 <= y < c0.height ==> #[trigger] canvas.pixel(x, y) == shown(rasters@.take(k as int), c0, x, y),
            decreases rasters@.len() - k,
        {
            draw_raster(&rasters[k], canvas);
            proof {
                assert(rasters@.take(k + 1).drop_last() =~= rasters@.take(k as int));
            }
            k = k + 1;
        }
        proof {
            assert(rasters@.take(rasters@.len() as int) =~= rasters@);
        }
    }

    /// Rasterises every object for the canvas size, sorts the rasters by
    /// depth and composites them back to front: the canvas shows the
    /// depth-sorted rasters, one for each object.
    pub fn render(&self, canvas: &mut VirtualCanvas)
        requires
            old(canvas).wf(),
        ensures
            final(canvas).wf(),
            final(canvas).width == old(canvas).width,
            final(canvas).height == old(canvas).height,
            exists|rs: Seq<Raster>|
                #![trigger rs.len()]
                rs.len() == self.objects@.len() && sorted_range(rs, 0, rs.len() - 1) && forall|x: int, y: int|
                    0 <= x < old(canvas).width && 0 <= y < old(canvas).height ==> #[trigger] final(canvas).pixel(x, y)
                        == shown(rs, *old(canvas), x, y),
    {
        let mut rasters: Vec<Raster> = Vec::new();
        let mut i: usize = 0;
        while i < self.objects.len()
            invariant
                i <= self.objects@.len(),
                rasters@.len() == i,
            decreases self.objects@.len() - i,
        {
            rasters.push(self.objects[i].rasterize(canvas.width, canvas.height));
            i = i + 1;
        }
        let ghost unsorted = rasters@;
        let rasters = ProjectiveScene::<P>::sort_rasters(rasters);
        ProjectiveScene::<P>::draw_rasters(&rasters, canvas);
        proof {
            vstd::seq_lib::to_multiset_len(unsorted);
            vstd::seq_lib::to_multiset_len(rasters@);
            assert(rasters@.len() == self.objects@.len());
        }
    }
}

} // verus!
