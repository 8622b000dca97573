//! The mesh index: the source mesh with its texture, the octree over it, and
//! the nearest-hit query that resolves a texture colour.
use vstd::prelude::*;
use crate::canvas::Color;
use crate::geometry::{abs, uv_ok, Barycentric, Face, UV, Vec3, SOLVE_LIMIT, UV_LIMIT};
use crate::octree::{
    all_ok, all_uvs_ok, bucket, built_from, middle_of, nearest_among, nearest_in, hit_ok, keep_nearer, node_hits, node_wf, zip, PolyTreeCollisionFeedback,
    PolyTreeElement,
};

verus! {

/// One texture unit: texture coordinates run from `0` to `UV_ONE` across the image.
pub const UV_ONE: i64 = 0x1_0000;

/// The colour of a ray that hits nothing.
pub open spec fn background() -> Color {
    Color { r: 0, g: 0, b: 0, a: 255 }
}

/// The colour of a hit whose texel lies outside the texture buffer.
pub open spec fn error_color() -> Color {
    Color { r: 255, g: 0, b: 0, a: 255 }
}

/// A textured triangle mesh: faces with one texture record each, and an RGB
/// texture of `tw x th` pixels, three bytes a pixel, row-major.
pub struct Simplex3D {
    pub m: Vec3,
    pub x: Vec<Face>,
    pub tm: Vec<UV>,
    pub tf: Vec<u8>,
    pub tw: u32,
    pub th: u32,
    pub base_color: Color,
    pub has_t: bool,
}

/// Why a mesh cannot be indexed.
#[derive(Clone, Copy, Debug, PartialEq, Eq, Structural)]
pub enum MeshError {
    /// The face list and the texture-record list differ in length.
    MismatchedUvs,
    /// A texture coordinate lies beyond `UV_LIMIT`.
    UvOutOfRange,
    /// A transform would move a point beyond `COORD_LIMIT`.
    OutOfRange,
}

/// The octree over a mesh, with the mesh it was built from.
pub struct PolyTree {
    pub m: Vec3,
    pub root: PolyTreeElement,
    pub source: Simplex3D,
}

/// A point with exact wide coordinates; a hit point is kept multiplied by
/// the denominator of its ray parameter.
#[derive(Clone, Copy, Debug, PartialEq, Eq, Structural)]
pub struct WidePoint {
    pub x: i128,
    pub y: i128,
    pub z: i128,
}

/// The outcome of a query of the ray `p0 + t p`: whether it hit the mesh,
/// the colour, the ray parameter `t / den` of the hit point, that point
/// times `den` (`p0 * den + t * p`), and the winning candidate. The
/// distance from the origin is `|t| / den * |p|`. A miss reports `t = 0`,
/// `den = 1`, the origin as point and no candidate.
#[derive(Clone, Copy, Debug, PartialEq, Eq, Structural)]
pub struct Collision {
    pub hit: bool,
    pub c: Color,
    pub t: i128,
    pub den: i128,
    pub p: WidePoint,
    pub nearest: Option<PolyTreeCollisionFeedback>,
}

impl Simplex3D {
    pub open spec fn wf(&self) -> bool {
        &&& self.x@.len() == self.tm@.len()
        &&& all_ok(self.x@)
        &&& all_uvs_ok(self.tm@)
        &&& self.m.in_range()
    }
}

impl PolyTree {
    /// The mesh and the tree are well formed; the centre is the mesh's.
    pub open spec fn wf(&self) -> bool {
        &&& self.source.wf()
        &&& node_wf(self.root)
        &&& self.m == self.source.m
    }
}

/// The nearest of the candidate hits; the first of equally near ones.
pub open spec fn nearest_hit(hs: Seq<PolyTreeCollisionFeedback>) -> Option<PolyTreeCollisionFeedback>
    decreases hs.len(),
{
    if hs.len() == 0 {
        None
    } else {
        keep_nearer(nearest_hit(hs.drop_last()), Some(hs.last()))
    }
}

/// `floor(num / den)` converted to `u32` the way a float cast saturates.
pub open spec fn sat_u32(num: int, den: int) -> int {
    if num <= 0 {
        0
    } else if num / den > u32::MAX {
        u32::MAX as int
    } else {
        num / den
    }
}

/// `base + beta (a - base) + gamma (b - base)`, scaled by `den`.
pub open spec fn interp(base: int, a: int, b: int, bg: Barycentric) -> int {
    base * bg.den + bg.beta * (a - base) + bg.gamma * (b - base)
}

/// The byte offset in the texture of the texel under a hit: the texture
/// record is interpolated at the hit's barycentric coordinates, the second
/// coordinate is flipped, both are scaled to pixels, and
/// `index = (tx + ty * width) * 3`.
pub open spec fn texel_index(uv: UV, bg: Barycentric, tw: int, th: int) -> int {
    let un = interp(uv.r.u as int, uv.a.u as int, uv.b.u as int, bg);
    let vn = bg.den * UV_ONE - interp(uv.r.v as int, uv.a.v as int, uv.b.v as int, bg);
    let tx = sat_u32(un * tw, bg.den * UV_ONE);
    let ty = sat_u32(vn * th, bg.den * UV_ONE);
    (tx + ty * tw) * 3
}

/// The texture colour at byte offset `pos`, or the error colour when the
/// texel does not lie wholly in the buffer.
pub open spec fn texel_at(tf: Seq<u8>, pos: int) -> Color {
    if pos + 3 <= tf.len() {
        Color { r: tf[pos], g: tf[pos + 1], b: tf[pos + 2], a: 255 }
    } else {
        error_color()
    }
}

/// `o * den + t * d`: the point at ray parameter `t / den`, times `den`.
pub open spec fn scaled_point(o: Vec3, d: Vec3, t: int, den: int) -> WidePoint {
    WidePoint {
        x: (o.x * den + t * d.x) as i128,
        y: (o.y * den + t * d.y) as i128,
        z: (o.z * den + t * d.z) as i128,
    }
}

/// The query result of the ray `p0 + t p` for its nearest hit, if any.
pub open spec fn collision_from(best: Option<PolyTreeCollisionFeedback>, src: Simplex3D, p0: Vec3, p: Vec3) -> Collision {
    match best {
        None => Collision {
            hit: false,
            c: background(),
            t: 0,
            den: 1,
            p: scaled_point(p0, p, 0, 1),
            nearest: None,
        },
        Some(h) => Collision {
            hit: true,
            c: texel_at(src.tf@, texel_index(h.uv, h.bg, src.tw as int, src.th as int)),
            t: h.bg.t,
            den: h.bg.den,
            p: scaled_point(p0, p, h.bg.t as int, h.bg.den as int),
            nearest: best,
        },
    }
}

/// The query result for a set of candidate hits: the nearest of them.
pub open spec fn collision_of(hs: Seq<PolyTreeCollisionFeedback>, src: Simplex3D, p0: Vec3, p: Vec3) -> Collision {
    collision_from(nearest_hit(hs), src, p0, p)
}

fn interp_exec(base: i64, a: i64, b: i64, bg: &Barycentric) -> (r: i128)
    requires
        -UV_LIMIT <= base <= UV_LIMIT,
        -UV_LIMIT <= a <= UV_LIMIT,
        -UV_LIMIT <= b <= UV_LIMIT,
        0 < bg.den <= SOLVE_LIMIT,
        0 <= bg.beta <= SOLVE_LIMIT,
        0 <= bg.gamma <= SOLVE_LIMIT,
    ensures
        r as int == interp(base as int, a as int, b as int, *bg),
        abs(r as int) <= 0x1_0000_0000_0000_0000_0000,
{
    let w = base as i128;
    let da = a as i128 - w;
    let db = b as i128 - w;
    proof {
        assert(abs(w * bg.den) <= 0x10_0000 * SOLVE_LIMIT) by (nonlinear_arith)
            requires -0x10_0000 <= w <= 0x10_0000, 0 < bg.den <= SOLVE_LIMIT;
        assert(abs(bg.beta * da) <= SOLVE_LIMIT * 0x20_0000) by (nonlinear_arith)
            requires -0x20_0000 <= da <= 0x20_0000, 0 <= bg.beta <= SOLVE_LIMIT;
        assert(abs(bg.gamma * db) <= SOLVE_LIMIT * 0x20_0000) by (nonlinear_arith)
            requires -0x20_0000 <= db <= 0x20_0000, 0 <= bg.gamma <= SOLVE_LIMIT;
    }
    w * bg.den + bg.beta * da + bg.gamma * db
}

fn sat_u32_exec(num: i128, den: i128) -> (r: u64)
    requires
        0 < den,
        abs(num as int) <= 0x100_0000_0000_0000_0000_0000_0000_0000,
    ensures
        r as int == sat_u32(num as int, den as int),
        r <= u32::MAX,
{
    if num <= 0 {
        return 0;
    }
    let q = (num as u128) / (den as u128);
    if q > u32::MAX as u128 {
        u32::MAX as u64
    } else {
        q as u64
    }
}

impl Simplex3D {
    /// The byte offset of the texel under a hit (see `texel_index`).
    fn texel_pos(&self, h: &PolyTreeCollisionFeedback) -> (r: u128)
        requires
            hit_ok(*h),
        ensures
            r as int == texel_index(h.uv, h.bg, self.tw as int, self.th as int),
            r <= 0x4_0000_0000_0000_0000,
    {
        let bg = &h.bg;
        let un = interp_exec(h.uv.r.u, h.uv.a.u, h.uv.b.u, bg);
        let vi = interp_exec(h.uv.r.v, h.uv.a.v, h.uv.b.v, bg);
        let one = UV_ONE as i128;
        let scale = bg.den * one;
        let vn = scale - vi;
        let tw = self.tw as i128;
        let th = self.th as i128;
        proof {
            assert(abs(un * tw) <= 0x1_0000_0000_0000_0000_0000 * 0x1_0000_0000) by (nonlinear_arith)
                requires abs(un as int) <= 0x1_0000_0000_0000_0000_0000, 0 <= tw <= 0xFFFF_FFFF;
            assert(abs(vn * th) <= 0x2_0000_0000_0000_0000_0000 * 0x1_0000_0000) by (nonlinear_arith)
                requires abs(vn as int) <= 0x2_0000_0000_0000_0000_0000, 0 <= th <= 0xFFFF_FFFF;
            assert(0 < scale) by (nonlinear_arith) requires scale == bg.den * one, bg.den > 0, one > 0;
        }
        let tx = sat_u32_exec(un * tw, scale) as u128;
        let ty = sat_u32_exec(vn * th, scale) as u128;
        proof {
            assert(ty * (self.tw as u128) <= 0xFFFF_FFFF * 0xFFFF_FFFF) by (nonlinear_arith)
                requires ty <= 0xFFFF_FFFF, self.tw <= 0xFFFF_FFFF;
        }
        (tx + ty * (self.tw as u128)) * 3
    }

    /// The texture colour under a hit, or the error colour when the texel
    /// lies outside the buffer.
    pub fn texel(&self, h: &PolyTreeCollisionFeedback) -> (c: Color)
        requires
            hit_ok(*h),
        ensures
            c == texel_at(self.tf@, texel_index(h.uv, h.bg, self.tw as int, self.th as int)),
    {
        let pos = self.texel_pos(h);
        let len = self.tf.len() as u128;
        if pos + 3 <= len {
            let p = pos as usize;
            Color { r: self.tf[p], g: self.tf[p + 1], b: self.tf[p + 2], a: 255 }
        } else {
            Color { r: 255, g: 0, b: 0, a: 255 }
        }
    }
}

proof fn lemma_scaled_bound(o: int, d: int, t: int, den: int)
    requires
        abs(o) <= 0x1_0000,
        abs(d) <= 0x1_0000,
        abs(t) <= SOLVE_LIMIT,
        0 < den <= SOLVE_LIMIT,
    ensures
        abs(o * den) <= 0x1_0000 * SOLVE_LIMIT,
        abs(t * d) <= 0x1_0000 * SOLVE_LIMIT,
{
    assert(abs(o * den) <= 0x1_0000 * SOLVE_LIMIT) by (nonlinear_arith)
        requires abs(o) <= 0x1_0000, 0 < den <= SOLVE_LIMIT;
    assert(abs(t * d) <= 0x1_0000 * SOLVE_LIMIT) by (nonlinear_arith)
        requires abs(d) <= 0x1_0000, abs(t) <= SOLVE_LIMIT;
}

pub(crate) fn copy_vec<T: Copy>(v: &Vec<T>) -> (r: Vec<T>)
    ensures
        r@ == v@,
{
    let mut r: Vec<T> = Vec::new();
    let mut i: usize = 0;
    while i < v.len()
        invariant
            i <= v@.len(),
            r@ == v@.take(i as int),
        decreases v@.len() - i,
    {
        r.push(v[i]);
        i = i + 1;
        proof {
            assert(r@ =~= v@.take(i as int));
        }
    }
    proof {
        assert(v@.take(v@.len() as int) =~= v@);
    }
    r
}

fn uvs_in_range(uvs: &Vec<UV>) -> (r: bool)
    ensures
        r == all_uvs_ok(uvs@),
{
    let mut i: usize = 0;
    while i < uvs.len()
        invariant
            i <= uvs@.len(),
            forall|j: int| 0 <= j < i ==> uv_ok(#[trigger] uvs@[j]),
        decreases uvs@.len() - i,
    {
        let uv = uvs[i];
        if !(-UV_LIMIT <= uv.r.u && uv.r.u <= UV_LIMIT && -UV_LIMIT <= uv.r.v && uv.r.v <= UV_LIMIT
            && -UV_LIMIT <= uv.a.u && uv.a.u <= UV_LIMIT && -UV_LIMIT <= uv.a.v && uv.a.v <= UV_LIMIT
            && -UV_LIMIT <= uv.b.u && uv.b.u <= UV_LIMIT && -UV_LIMIT <= uv.b.v && uv.b.v <= UV_LIMIT) {
            return false;
        }
        i = i + 1;
    }
    true
}

/// Picks the nearest candidate: the first of equally near ones.
pub fn nearest_of(hs: &Vec<PolyTreeCollisionFeedback>) -> (r: Option<PolyTreeCollisionFeedback>)
    requires
        forall|k: int| 0 <= k < hs@.len() ==> hit_ok(#[trigger] hs@[k]),
    ensures
        r == nearest_hit(hs@),
        r matches Some(h) ==> hit_ok(h),
{
    let mut best: Option<PolyTreeCollisionFeedback> = None;
    let mut i: usize = 0;
    while i < hs.len()
        invariant
            i <= hs@.len(),
            forall|k: int| 0 <= k < hs@.len() ==> hit_ok(#[trigger] hs@[k]),
            best == nearest_hit(hs@.take(i as int)),
            best matches Some(h) ==> hit_ok(h),
        decreases hs@.len() - i,
    {
        let h = hs[i];
        proof {
            assert(hit_ok(hs@[i as int]));
            assert(hs@.take(i + 1).drop_last() =~= hs@.take(i as int));
            assert(hs@.take(i + 1).last() == h);
        }
        match best {
            None => {
                best = Some(h);
            },
            Some(g) => {
                let ht = if h.bg.t < 0 { -h.bg.t } else { h.bg.t };
                let gt = if g.bg.t < 0 { -g.bg.t } else { g.bg.t };
                proof {
                    assert(ht * g.bg.den <= SOLVE_LIMIT * SOLVE_LIMIT && 0 <= ht * g.bg.den) by (nonlinear_arith)
                        requires 0 <= ht <= SOLVE_LIMIT, 0 < g.bg.den <= SOLVE_LIMIT;
                    assert(gt * h.bg.den <= SOLVE_LIMIT * SOLVE_LIMIT && 0 <= gt * h.bg.den) by (nonlinear_arith)
                        requires 0 <= gt <= SOLVE_LIMIT, 0 < h.bg.den <= SOLVE_LIMIT;
                }
                if ht * g.bg.den < gt * h.bg.den {
                    best = Some(h);
                }
            },
        }
        i = i + 1;
    }
    proof {
        assert(hs@.take(hs@.len() as int) =~= hs@);
    }
    best
}

impl PolyTree {
    /// Indexes a mesh: builds the octree over its faces and texture records.
    /// Fails when the two lists differ in length, or a texture coordinate lies
    /// beyond `UV_LIMIT`.
    pub fn new(p: Simplex3D) -> (r: Result<PolyTree, MeshError>)
        requires
            all_ok(p.x@),
            p.m.in_range(),
        ensures
            p.x@.len() != p.tm@.len() ==> r == Err::<PolyTree, MeshError>(MeshError::MismatchedUvs),
            p.x@.len() == p.tm@.len() && !all_uvs_ok(p.tm@) ==> r == Err::<PolyTree, MeshError>(
                MeshError::UvOutOfRange,
            ),
            p.x@.len() == p.tm@.len() && all_uvs_ok(p.tm@) ==> (r matches Ok(t) && t.wf() && t.source == p
                && built_from(t.root, zip(p.x@, p.tm@))),
    {
        if p.x.len() != p.tm.len() {
            return Err(MeshError::MismatchedUvs);
        }
        if !uvs_in_range(&p.tm) {
            return Err(MeshError::UvOutOfRange);
        }
        let root = PolyTree::construct_tree(copy_vec(&p.x), copy_vec(&p.tm));
        Ok(PolyTree { m: p.m, root, source: p })
    }

    /// Indexes a mesh whose eight top-level octant subtrees were built
    /// elsewhere: `children[i]` is the tree of octant `i` of the mesh's faces
    /// (see `join_octants`). Fails as `new` does.
    pub fn from_octants(p: Simplex3D, children: Vec<PolyTreeElement>) -> (r: Result<PolyTree, MeshError>)
        requires
            all_ok(p.x@),
            p.m.in_range(),
            p.x@.len() == p.tm@.len() && all_uvs_ok(p.tm@) ==> children@.len() == 8 && (forall|i: int|
                0 <= i < 8 ==> built_from(#[trigger] children@[i], bucket(zip(p.x@, p.tm@), middle_of(p.x@), i)))
                && (forall|i: int| 0 <= i < 8 ==> node_wf(#[trigger] children@[i])),
        ensures
            p.x@.len() != p.tm@.len() ==> r == Err::<PolyTree, MeshError>(MeshError::MismatchedUvs),
            p.x@.len() == p.tm@.len() && !all_uvs_ok(p.tm@) ==> r == Err::<PolyTree, MeshError>(
                MeshError::UvOutOfRange,
            ),
            p.x@.len() == p.tm@.len() && all_uvs_ok(p.tm@) ==> (r matches Ok(t) && t.wf() && t.source == p
                && built_from(t.root, zip(p.x@, p.tm@))),
    {
        if p.x.len() != p.tm.len() {
            return Err(MeshError::MismatchedUvs);
        }
        if !uvs_in_range(&p.tm) {
            return Err(MeshError::UvOutOfRange);
        }
        let root = PolyTree::join_octants(copy_vec(&p.x), copy_vec(&p.tm), children);
        Ok(PolyTree { m: p.m, root, source: p })
    }

    /// The nearest hit of the ray `p0 + t p` on the mesh, if any.
    pub fn nearest_collision(&self, p0: Vec3, p: Vec3) -> (r: Option<PolyTreeCollisionFeedback>)
        requires
            self.wf(),
            p0.in_range(),
            p.in_range(),
        ensures
            r == nearest_hit(node_hits(self.root, p0, p)),
            r matches Some(h) ==> hit_ok(h),
    {
        let hs = self.root.get_collision(p0, p);
        nearest_of(&hs)
    }

    /// Casts the ray `p0 + t p` at the mesh: the colour of the texel under
    /// the nearest hit, the error colour when that texel lies outside the
    /// texture, or the background colour on a miss.
    pub fn get_collision(&self, p0: Vec3, p: Vec3) -> (r: Collision)
        requires
            self.wf(),
            p0.in_range(),
            p.in_range(),
        ensures
            r == collision_of(node_hits(self.root, p0, p), self.source, p0, p),
    {
        let best = self.nearest_collision(p0, p);
        self.source.collision_for(best, p0, p)
    }

    /// The texture colour under a hit, or the error colour when the texel
    /// lies outside the buffer.
    pub fn texel(&self, h: &PolyTreeCollisionFeedback) -> (c: Color)
        requires
            hit_ok(*h),
        ensures
            c == texel_at(self.source.tf@, texel_index(h.uv, h.bg, self.source.tw as int, self.source.th as int)),
    {
        self.source.texel(h)
    }
}

impl Simplex3D {
    /// An untextured mesh about centre `m`.
    pub fn new(m: Vec3, x: Vec<Face>) -> (r: Simplex3D)
        ensures
            r.m == m,
            r.x == x,
            r.tm@.len() == 0,
            r.tf@.len() == 0,
            r.tw == 0,
            r.th == 0,
            r.base_color == (Color { r: 0, g: 0, b: 0, a: 255 }),
            !r.has_t,
    {
        Simplex3D {
            m,
            x,
            tm: Vec::new(),
            tf: Vec::new(),
            tw: 0,
            th: 0,
            base_color: Color { r: 0, g: 0, b: 0, a: 255 },
            has_t: false,
        }
    }

    /// A mesh with one texture record per face and a `tw x th` RGB texture.
    pub fn new_textured(m: Vec3, x: Vec<Face>, tm: Vec<UV>, tf: Vec<u8>, tw: u32, th: u32) -> (r: Simplex3D)
        ensures
            r == (Simplex3D { m, x, tm, tf, tw, th, base_color: Color { r: 0, g: 0, b: 0, a: 255 }, has_t: true }),
    {
        Simplex3D { m, x, tm, tf, tw, th, base_color: Color { r: 0, g: 0, b: 0, a: 255 }, has_t: true }
    }

    /// Casts the ray `p0 + t p` at every face of the mesh, without the
    /// tree, and resolves the nearest hit as the index does.
    pub fn get_collision(&self, p0: Vec3, p: Vec3) -> (r: Collision)
        requires
            self.wf(),
            p0.in_range(),
            p.in_range(),
        ensures
            r == collision_from(nearest_in(zip(self.x@, self.tm@), p0, p), *self, p0, p),
    {
        let best = nearest_among(&self.x, &self.tm, p0, p);
        self.collision_for(best, p0, p)
    }

    /// The query result for the nearest hit `best` of the ray `p0 + t p`.
    pub fn collision_for(&self, best: Option<PolyTreeCollisionFeedback>, p0: Vec3, p: Vec3) -> (r: Collision)
        requires
            best matches Some(h) ==> hit_ok(h),
            p0.in_range(),
            p.in_range(),
        ensures
            r == collision_from(best, *self, p0, p),
    {
        match best {
            None => Collision {
                hit: false,
                c: Color { r: 0, g: 0, b: 0, a: 255 },
                t: 0,
                den: 1,
                p: WidePoint { x: p0.x as i128, y: p0.y as i128, z: p0.z as i128 },
                nearest: None,
            },
            Some(h) => {
                let t = h.bg.t;
                let den = h.bg.den;
                proof {
                    lemma_scaled_bound(p0.x as int, p.x as int, t as int, den as int);
                    lemma_scaled_bound(p0.y as int, p.y as int, t as int, den as int);
                    lemma_scaled_bound(p0.z as int, p.z as int, t as int, den as int);
                }
                let pt = WidePoint {
                    x: p0.x as i128 * den + t * p.x as i128,
                    y: p0.y as i128 * den + t * p.y as i128,
                    z: p0.z as i128 * den + t * p.z as i128,
                };
                Collision { hit: true, c: self.texel(&h), t, den, p: pt, nearest: best }
            },
        }
    }
}

} // verus!
