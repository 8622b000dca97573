//! Rigid motions and scaling of faces, of the octree and of the mesh index.
//! Rotation and translation move every face and node centroid in place of a
//! rebuild; scaling rebuilds the tree from the scaled mesh.
use vstd::prelude::*;
use crate::geometry::{ceil_div, div_ceil, iv, Face, IVec, Vec3, COORD_LIMIT};
use crate::mesh::{copy_vec, MeshError, PolyTree};
use crate::octree::{all_ok, built_from, covered, same_but_radius, face_ok, lemma_face_radius_bound, node_wf, zip, PolyTreeElement};

verus! {

/// Fixed-point unit of rotation-matrix entries and scale factors.
pub const MOTION_ONE: i64 = 0x4000;

/// A map of points: a shift, a rotation about a centre by a fixed-point
/// matrix (rows, in units of `1 / MOTION_ONE`), or a per-axis scaling about
/// a centre by fixed-point factors. Results are rounded up to the grid.
#[derive(Clone, Copy, Debug, PartialEq, Eq, Structural)]
pub enum Motion {
    Shift(Vec3),
    Turn(Vec3, Vec3, Vec3, Vec3),
    Stretch(Vec3, Vec3),
}

/// Largest magnitude of a shift component: any larger shift moves every
/// point out of range.
pub const SHIFT_LIMIT: i64 = 0x2_0000;

/// Largest magnitude of a scale factor, in units of `1 / MOTION_ONE`.
pub const STRETCH_LIMIT: i64 = 0x4000_0000;

pub open spec fn shift_ok(p: Vec3) -> bool {
    -SHIFT_LIMIT <= p.x <= SHIFT_LIMIT && -SHIFT_LIMIT <= p.y <= SHIFT_LIMIT && -SHIFT_LIMIT <= p.z <= SHIFT_LIMIT
}

pub open spec fn factors_ok(f: Vec3) -> bool {
    -STRETCH_LIMIT <= f.x <= STRETCH_LIMIT && -STRETCH_LIMIT <= f.y <= STRETCH_LIMIT && -STRETCH_LIMIT <= f.z
        <= STRETCH_LIMIT
}

pub open spec fn entries_ok(v: Vec3) -> bool {
    -MOTION_ONE <= v.x <= MOTION_ONE && -MOTION_ONE <= v.y <= MOTION_ONE && -MOTION_ONE <= v.z <= MOTION_ONE
}

impl Motion {
    /// Matrix entries and factors lie within one unit, centres in range.
    pub open spec fn wf(self) -> bool {
        match self {
            Motion::Shift(p) => shift_ok(p),
            Motion::Turn(c, r0, r1, r2) => c.in_range() && entries_ok(r0) && entries_ok(r1) && entries_ok(r2),
            Motion::Stretch(c, f) => c.in_range() && factors_ok(f),
        }
    }
}

pub open spec fn row_dot(row: Vec3, d: IVec) -> int {
    row.x * d.0 + row.y * d.1 + row.z * d.2
}

/// Where the motion takes point `v`.
pub open spec fn moved_point(t: Motion, v: Vec3) -> IVec {
    let one = MOTION_ONE as int;
    match t {
        Motion::Shift(p) => (v.x + p.x, v.y + p.y, v.z + p.z),
        Motion::Turn(c, r0, r1, r2) => {
            let d = (v.x - c.x, v.y - c.y, v.z - c.z);
            (
                c.x + ceil_div(row_dot(r0, d), one),
                c.y + ceil_div(row_dot(r1, d), one),
                c.z + ceil_div(row_dot(r2, d), one),
            )
        },
        Motion::Stretch(c, f) => (
            c.x + ceil_div((v.x - c.x) * f.x, one),
            c.y + ceil_div((v.y - c.y) * f.y, one),
            c.z + ceil_div((v.z - c.z) * f.z, one),
        ),
    }
}

pub open spec fn ivec_in_range(p: IVec) -> bool {
    -COORD_LIMIT <= p.0 <= COORD_LIMIT && -COORD_LIMIT <= p.1 <= COORD_LIMIT && -COORD_LIMIT <= p.2 <= COORD_LIMIT
}

/// The face whose vertices are the moved vertices of `f`.
pub open spec fn moved_face(t: Motion, f: Face, g: Face) -> bool {
    &&& g.wf()
    &&& iv(g.r) == moved_point(t, f.r)
    &&& iv(g.a) == moved_point(t, f.a)
    &&& iv(g.b) == moved_point(t, f.b)
}

pub open spec fn face_fits(t: Motion, f: Face) -> bool {
    ivec_in_range(moved_point(t, f.r)) && ivec_in_range(moved_point(t, f.a)) && ivec_in_range(moved_point(t, f.b))
}

/// `new` is `old` with every face and node centroid moved by `t`; the shape
/// of the tree, the texture records and the radii are kept.
pub open spec fn moved_node(t: Motion, old: PolyTreeElement, new: PolyTreeElement) -> bool
    decreases old,
{
    &&& new.leaf == old.leaf
    &&& new.radius == old.radius
    &&& iv(new.m) == moved_point(t, old.m)
    &&& new.uvs@ == old.uvs@
    &&& new.faces@.len() == old.faces@.len()
    &&& forall|i: int| 0 <= i < old.faces@.len() ==> moved_face(t, #[trigger] old.faces@[i], new.faces@[i])
    &&& new.children@.len() == old.children@.len()
    &&& forall|i: int| 0 <= i < old.children@.len() ==> moved_node(t, #[trigger] old.children@[i], new.children@[i])
}

/// The motion keeps every face and node centroid of `n` in range.
pub open spec fn node_fits(t: Motion, n: PolyTreeElement) -> bool
    decreases n,
{
    &&& ivec_in_range(moved_point(t, n.m))
    &&& forall|i: int| 0 <= i < n.faces@.len() ==> face_fits(t, #[trigger] n.faces@[i])
    &&& forall|i: int| 0 <= i < n.children@.len() ==> node_fits(t, #[trigger] n.children@[i])
}

fn in_range_exec(x: i128) -> (r: bool)
    ensures
        r == (-COORD_LIMIT <= x <= COORD_LIMIT),
{
    -(COORD_LIMIT as i128) <= x && x <= COORD_LIMIT as i128
}

fn row_dot_exec(row: Vec3, d: (i128, i128, i128)) -> (r: i128)
    requires
        entries_ok(row),
        -0x2_0000 <= d.0 <= 0x2_0000,
        -0x2_0000 <= d.1 <= 0x2_0000,
        -0x2_0000 <= d.2 <= 0x2_0000,
    ensures
        r as int == row_dot(row, (d.0 as int, d.1 as int, d.2 as int)),
        -0x1_0000_0000_0000 <= r <= 0x1_0000_0000_0000,
{
    proof {
        assert(-0x8000_0000 <= row.x * d.0 <= 0x8000_0000) by (nonlinear_arith)
            requires -0x4000 <= row.x <= 0x4000, -0x2_0000 <= d.0 <= 0x2_0000;
        assert(-0x8000_0000 <= row.y * d.1 <= 0x8000_0000) by (nonlinear_arith)
            requires -0x4000 <= row.y <= 0x4000, -0x2_0000 <= d.1 <= 0x2_0000;
        assert(-0x8000_0000 <= row.z * d.2 <= 0x8000_0000) by (nonlinear_arith)
            requires -0x4000 <= row.z <= 0x4000, -0x2_0000 <= d.2 <= 0x2_0000;
    }
    row.x as i128 * d.0 + row.y as i128 * d.1 + row.z as i128 * d.2
}

/// Moves a point; `None` when the result leaves the coordinate range.
pub fn move_point(t: &Motion, v: Vec3) -> (r: Option<Vec3>)
    requires
        t.wf(),
        v.in_range(),
    ensures
        r matches Some(w) ==> iv(w) == moved_point(*t, v) && w.in_range(),
        r is None ==> !ivec_in_range(moved_point(*t, v)),
{
    let one = MOTION_ONE as i128;
    let (x, y, z) = match *t {
        Motion::Shift(p) => (v.x as i128 + p.x as i128, v.y as i128 + p.y as i128, v.z as i128 + p.z as i128),
        Motion::Turn(c, r0, r1, r2) => {
            let d = (v.x as i128 - c.x as i128, v.y as i128 - c.y as i128, v.z as i128 - c.z as i128);
            (
                c.x as i128 + div_ceil(row_dot_exec(r0, d), one),
                c.y as i128 + div_ceil(row_dot_exec(r1, d), one),
                c.z as i128 + div_ceil(row_dot_exec(r2, d), one),
            )
        },
        Motion::Stretch(c, f) => {
            let dx = v.x as i128 - c.x as i128;
            let dy = v.y as i128 - c.y as i128;
            let dz = v.z as i128 - c.z as i128;
            proof {
                assert(-0x8_0000_0000_0000 <= dx * f.x <= 0x8_0000_0000_0000) by (nonlinear_arith)
                    requires -0x4000_0000 <= f.x <= 0x4000_0000, -0x2_0000 <= dx <= 0x2_0000;
                assert(-0x8_0000_0000_0000 <= dy * f.y <= 0x8_0000_0000_0000) by (nonlinear_arith)
                    requires -0x4000_0000 <= f.y <= 0x4000_0000, -0x2_0000 <= dy <= 0x2_0000;
                assert(-0x8_0000_0000_0000 <= dz * f.z <= 0x8_0000_0000_0000) by (nonlinear_arith)
                    requires -0x4000_0000 <= f.z <= 0x4000_0000, -0x2_0000 <= dz <= 0x2_0000;
            }
            (
                c.x as i128 + div_ceil(dx * f.x as i128, one),
                c.y as i128 + div_ceil(dy * f.y as i128, one),
                c.z as i128 + div_ceil(dz * f.z as i128, one),
            )
        },
    };
    proof {
        let q = moved_point(*t, v);
        assert(x == q.0 && y == q.1 && z == q.2) by {
            match *t {
                Motion::Turn(c, r0, r1, r2) => {
                    let d = (v.x - c.x, v.y - c.y, v.z - c.z);
                    assert(d == (v.x - c.x, v.y - c.y, v.z - c.z));
                },
                _ => {},
            }
        }
    }
    if in_range_exec(x) && in_range_exec(y) && in_range_exec(z) {
        Some(Vec3 { x: x as i64, y: y as i64, z: z as i64 })
    } else {
        None
    }
}

/// `new` holds the faces of `old`, each moved by `t`.
pub open spec fn moved_faces(t: Motion, old: Seq<Face>, new: Seq<Face>) -> bool {
    &&& new.len() == old.len()
    &&& forall|i: int| 0 <= i < old.len() ==> moved_face(t, #[trigger] old[i], new[i])
}

pub open spec fn faces_fit(t: Motion, fs: Seq<Face>) -> bool {
    forall|i: int| 0 <= i < fs.len() ==> face_fits(t, #[trigger] fs[i])
}

impl Face {
    /// The face with its vertices moved by `t` and its normal, centroid and
    /// radius derived anew; `None` when a vertex would leave the range.
    pub fn moved(&self, t: &Motion) -> (r: Option<Face>)
        requires
            self.wf(),
            t.wf(),
        ensures
            r matches Some(g) ==> moved_face(*t, *self, g) && face_ok(g),
            r is None <==> !face_fits(*t, *self),
    {
        let r = match move_point(t, self.r) {
            Some(p) => p,
            None => {
                return None;
            },
        };
        let a = match move_point(t, self.a) {
            Some(p) => p,
            None => {
                return None;
            },
        };
        let b = match move_point(t, self.b) {
            Some(p) => p,
            None => {
                return None;
            },
        };
        let g = Face::new(r, a, b);
        proof {
            lemma_face_radius_bound(g);
        }
        Some(g)
    }
}

/// Moves every face; `None` when one would leave the range.
fn move_faces(fs: &Vec<Face>, t: &Motion) -> (r: Option<Vec<Face>>)
    requires
        all_ok(fs@),
        t.wf(),
    ensures
        r matches Some(gs) ==> moved_faces(*t, fs@, gs@) && all_ok(gs@),
        r is None <==> !faces_fit(*t, fs@),
{
    let mut out: Vec<Face> = Vec::new();
    let mut i: usize = 0;
    while i < fs.len()
        invariant
            all_ok(fs@),
            t.wf(),
            i <= fs@.len(),
            out@.len() == i,
            forall|k: int| 0 <= k < i ==> moved_face(*t, #[trigger] fs@[k], out@[k]) && face_ok(out@[k]),
            forall|k: int| 0 <= k < i ==> face_fits(*t, #[trigger] fs@[k]),
        decreases fs@.len() - i,
    {
        proof {
            assert(face_ok(fs@[i as int]));
        }
        match fs[i].moved(t) {
            Some(g) => {
                out.push(g);
            },
            None => {
                return None;
            },
        }
        i = i + 1;
    }
    proof {
        assert forall|k: int| 0 <= k < out@.len() implies face_ok(#[trigger] out@[k]) by {
            assert(moved_face(*t, fs@[k], out@[k]) && face_ok(out@[k]));
        }
    }
    Some(out)
}

impl PolyTreeElement {
    /// The subtree with every face and node centroid moved by `t`, keeping
    /// its shape, radii and texture records; `None` when a point would leave
    /// the range.
    pub fn moved(&self, t: &Motion) -> (r: Option<PolyTreeElement>)
        requires
            node_wf(*self),
            t.wf(),
        ensures
            r matches Some(n) ==> moved_node(*t, *self, n) && node_wf(n),
            r is None <==> !node_fits(*t, *self),
        decreases *self,
    {
        proof {
            assert(self.m.in_range());
        }
        let m = match move_point(t, self.m) {
            Some(p) => p,
            None => {
                return None;
            },
        };
        if self.leaf {
            let faces = match move_faces(&self.faces, t) {
                Some(gs) => gs,
                None => {
                    return None;
                },
            };
            let n = PolyTreeElement {
                children: Vec::new(),
                faces,
                uvs: copy_vec(&self.uvs),
                m,
                radius: self.radius,
                leaf: true,
            };
            proof {
                assert(n.children@ =~= self.children@);
                assert(node_fits(*t, *self));
            }
            return Some(n);
        }
        let mut children: Vec<PolyTreeElement> = Vec::new();
        let mut i: usize = 0;
        while i < 8
            invariant
                node_wf(*self),
                !self.leaf,
                t.wf(),
                i <= 8,
                children@.len() == i,
                forall|k: int| 0 <= k < i ==> moved_node(*t, #[trigger] self.children@[k], children@[k]),
                forall|k: int| 0 <= k < i ==> node_wf(#[trigger] children@[k]),
                forall|k: int| 0 <= k < i ==> node_fits(*t, #[trigger] self.children@[k]),
            decreases 8 - i,
        {
            proof {
                assert(node_wf(self.children@[i as int]));
            }
            match self.children[i].moved(t) {
                Some(c) => {
                    children.push(c);
                },
                None => {
                    return None;
                },
            }
            i = i + 1;
        }
        let n = PolyTreeElement { children, faces: Vec::new(), uvs: Vec::new(), m, radius: self.radius, leaf: false };
        proof {
            assert(n.faces@ =~= self.faces@);
            assert(n.uvs@ =~= self.uvs@);
            assert(node_fits(*t, *self));
        }
        Some(n)
    }
}

impl PolyTree {
    /// Applies a rigid motion to the mesh and, without rebuilding it, to the
    /// tree. Fails, changing nothing, when a point would leave the range.
    fn apply_rigid(&mut self, t: &Motion) -> (r: Result<(), MeshError>)
        requires
            old(self).wf(),
            t.wf(),
        ensures
            final(self).wf(),
            r is Ok <==> (node_fits(*t, old(self).root) && faces_fit(*t, old(self).source.x@) && ivec_in_range(
                moved_point(*t, old(self).source.m),
            )),
            r is Ok ==> moved_node(*t, old(self).root, final(self).root) && moved_faces(
                *t,
                old(self).source.x@,
                final(self).source.x@,
            ) && iv(final(self).source.m) == moved_point(*t, old(self).source.m)
                && final(self).source.tm@ == old(self).source.tm@ && final(self).source.tf@ == old(
                self,
            ).source.tf@,
            r is Err ==> *final(self) == *old(self) && r == Err::<(), MeshError>(MeshError::OutOfRange),
    {
        let root = match self.root.moved(t) {
            Some(n) => n,
            None => {
                return Err(MeshError::OutOfRange);
            },
        };
        let faces = match move_faces(&self.source.x, t) {
            Some(gs) => gs,
            None => {
                return Err(MeshError::OutOfRange);
            },
        };
        let m = match move_point(t, self.source.m) {
            Some(p) => p,
            None => {
                return Err(MeshError::OutOfRange);
            },
        };
        self.root = root;
        self.source.x = faces;
        self.source.m = m;
        self.m = m;
        Ok(())
    }

    /// Translates mesh and tree by `p` (see `apply_rigid`).
    pub fn translate(&mut self, p: Vec3) -> (r: Result<(), MeshError>)
        requires
            old(self).wf(),
        ensures
            final(self).wf(),
            r is Ok ==> shift_ok(p) && moved_node(Motion::Shift(p), old(self).root, final(self).root)
                && moved_faces(Motion::Shift(p), old(self).source.x@, final(self).source.x@) && iv(
                final(self).source.m,
            ) == moved_point(Motion::Shift(p), old(self).source.m),
            r is Err ==> *final(self) == *old(self),
            r is Ok <==> (node_fits(Motion::Shift(p), old(self).root) && faces_fit(
                Motion::Shift(p),
                old(self).source.x@,
            ) && ivec_in_range(moved_point(Motion::Shift(p), old(self).source.m))),
    {
        if !(-SHIFT_LIMIT <= p.x && p.x <= SHIFT_LIMIT && -SHIFT_LIMIT <= p.y && p.y <= SHIFT_LIMIT
            && -SHIFT_LIMIT <= p.z && p.z <= SHIFT_LIMIT) {
            proof {
                assert(self.source.m.in_range());
                assert(!ivec_in_range(moved_point(Motion::Shift(p), self.source.m)));
            }
            return Err(MeshError::OutOfRange);
        }
        self.apply_rigid(&Motion::Shift(p))
    }

    /// Moves the mesh so that its centre lands on `p`.
    pub fn goto(&mut self, p: Vec3) -> (r: Result<(), MeshError>)
        requires
            old(self).wf(),
            p.in_range(),
        ensures
            final(self).wf(),
            r is Err ==> *final(self) == *old(self),
            r is Ok ==> iv(final(self).source.m) == iv(p),
            ({
                let t = Motion::Shift(Vec3 { x: (p.x - old(self).m.x) as i64, y: (p.y - old(self).m.y) as i64, z: (p.z - old(self).m.z) as i64 });
                r is Ok <==> (node_fits(t, old(self).root) && faces_fit(t, old(self).source.x@))
            }),
    {
        let d = Vec3 { x: p.x - self.m.x, y: p.y - self.m.y, z: p.z - self.m.z };
        self.translate(d)
    }

    /// Rotates mesh and tree about the mesh centre by the fixed-point matrix
    /// with rows `r0`, `r1`, `r2` (entries in units of `1 / MOTION_ONE`).
    /// Faces and node centroids move in place, keeping the tree's shape;
    /// since moved points are rounded to the grid (and the matrix need not be
    /// exactly orthogonal), every node radius is then recomputed from the
    /// faces below it, so node spheres still hold their faces.
    pub fn rot(&mut self, r0: Vec3, r1: Vec3, r2: Vec3) -> (r: Result<(), MeshError>)
        requires
            old(self).wf(),
        ensures
            final(self).wf(),
            r is Ok ==> (exists|mid: PolyTreeElement|
                moved_node(Motion::Turn(old(self).m, r0, r1, r2), old(self).root, mid) && #[trigger] same_but_radius(
                    mid,
                    final(self).root,
                )) && covered(final(self).root)
                && moved_faces(Motion::Turn(old(self).m, r0, r1, r2), old(self).source.x@, final(self).source.x@),
            r is Err ==> *final(self) == *old(self),
            r is Ok <==> ({
                let t = Motion::Turn(old(self).m, r0, r1, r2);
                &&& entries_ok(r0) && entries_ok(r1) && entries_ok(r2)
                &&& node_fits(t, old(self).root)
                &&& faces_fit(t, old(self).source.x@)
                &&& ivec_in_range(moved_point(t, old(self).source.m))
            }),
    {
        if !(entries_ok_exec(r0) && entries_ok_exec(r1) && entries_ok_exec(r2)) {
            return Err(MeshError::OutOfRange);
        }
        let ghost before = *self;
        let t = Motion::Turn(self.m, r0, r1, r2);
        let res = self.apply_rigid(&t);
        if res.is_ok() {
            let ghost mid = self.root;
            let mut root = PolyTreeElement::empty();
            std::mem::swap(&mut root, &mut self.root);
            self.root = root.rebound();
            proof {
                assert(moved_node(t, before.root, mid) && same_but_radius(mid, self.root));
            }
        }
        res
    }

    /// Scales the mesh about its centre by the fixed-point factors `f`
    /// (units of `1 / MOTION_ONE`) and rebuilds the tree from the result.
    pub fn scale(&mut self, f: Vec3) -> (r: Result<(), MeshError>)
        requires
            old(self).wf(),
        ensures
            final(self).wf(),
            r is Ok ==> moved_faces(Motion::Stretch(old(self).m, f), old(self).source.x@, final(self).source.x@)
                && built_from(final(self).root, zip(final(self).source.x@, final(self).source.tm@))
                && final(self).source.tm@ == old(self).source.tm@ && final(self).source.m == old(self).source.m,
            r is Err ==> *final(self) == *old(self),
            r is Ok <==> factors_ok(f) && faces_fit(Motion::Stretch(old(self).m, f), old(self).source.x@),
    {
        if !(-STRETCH_LIMIT <= f.x && f.x <= STRETCH_LIMIT && -STRETCH_LIMIT <= f.y && f.y <= STRETCH_LIMIT
            && -STRETCH_LIMIT <= f.z && f.z <= STRETCH_LIMIT) {
            return Err(MeshError::OutOfRange);
        }
        let t = Motion::Stretch(self.m, f);
        let faces = match move_faces(&self.source.x, &t) {
            Some(gs) => gs,
            None => {
                return Err(MeshError::OutOfRange);
            },
        };
        let root = PolyTree::construct_tree(copy_vec(&faces), copy_vec(&self.source.tm));
        self.source.x = faces;
        self.root = root;
        Ok(())
    }
}

fn entries_ok_exec(v: Vec3) -> (r: bool)
    ensures
        r == entries_ok(v),
{
    -MOTION_ONE <= v.x && v.x <= MOTION_ONE && -MOTION_ONE <= v.y && v.y <= MOTION_ONE && -MOTION_ONE <= v.z
        && v.z <= MOTION_ONE
}

} // verus!
