//! The octree over mesh triangles: construction by recursive octant split,
//! bounding-sphere culling and the candidate-hit query.
use vstd::prelude::*;
use vstd::multiset::Multiset;
use vstd::arithmetic::div_mod::{
    lemma_div_is_ordered, lemma_div_multiples_vanish, lemma_fundamental_div_mod, lemma_mod_bound,
};
use crate::mesh::PolyTree;
use crate::geometry::{
    abs, bounded, ceil_div, dot, div_ceil, is_ceil_sqrt, iv, lemma_centroid_in_range, norm2, reach2, vsub, wv, IVec,
    Face, UV, Vec3, RADIUS_LIMIT, ceil_sqrt, Barycentric, bary_of, sphere_admits,
    is_colliding, SOLVE_LIMIT, lemma_solve_bounds, uv_ok,
};

verus! {

/// A node with fewer faces than this is a leaf.
pub const LEAF_THRESHOLD: usize = 200;

/// A face together with its texture coordinates.
pub type Item = (Face, UV);

/// Largest bounding radius of a face that the tree accepts.
pub const FACE_RADIUS_LIMIT: i64 = 0x4_0000;

/// A face the tree can hold: well formed, with a bounded radius.
pub open spec fn face_ok(t: Face) -> bool {
    t.wf() && 0 <= t.radius <= FACE_RADIUS_LIMIT
}

pub open spec fn faces_of(items: Seq<Item>) -> Seq<Face> {
    items.map_values(|p: Item| p.0)
}

pub open spec fn uvs_of(items: Seq<Item>) -> Seq<UV> {
    items.map_values(|p: Item| p.1)
}

/// Faces and texture records paired in lock-step.
pub open spec fn zip(faces: Seq<Face>, uvs: Seq<UV>) -> Seq<Item> {
    Seq::new(faces.len(), |i: int| (faces[i], uvs[i]))
}

/// Sum of the face centroids.
pub open spec fn centroid_sum(fs: Seq<Face>) -> IVec
    decreases fs.len(),
{
    if fs.len() == 0 {
        (0, 0, 0)
    } else {
        let s = centroid_sum(fs.drop_last());
        let m = iv(fs.last().m);
        (s.0 + m.0, s.1 + m.1, s.2 + m.2)
    }
}

/// The mean of the face centroids rounded up to the grid; the origin for no faces.
pub open spec fn middle_of(fs: Seq<Face>) -> IVec {
    if fs.len() == 0 {
        (0, 0, 0)
    } else {
        let s = centroid_sum(fs);
        let n = fs.len() as int;
        (ceil_div(s.0, n), ceil_div(s.1, n), ceil_div(s.2, n))
    }
}

/// The ceiling of the square root of `n`.
pub open spec fn csqrt(n: int) -> int {
    choose|s: int| is_ceil_sqrt(n, s)
}

/// The bounding radius of a node about `m`: the largest
/// `distance(face centroid, m) + face radius`, the distance rounded up.
pub open spec fn radius_of(fs: Seq<Face>, m: IVec) -> int
    decreases fs.len(),
{
    if fs.len() == 0 {
        0
    } else {
        let r = radius_of(fs.drop_last(), m);
        let f = fs.last();
        let c = csqrt(norm2(vsub(iv(f.m), m))) + f.radius;
        if c > r { c } else { r }
    }
}

/// Which of the eight octants about `m` the point `c` falls in.
pub open spec fn octant(c: Vec3, m: IVec) -> int {
    (if c.x >= m.0 { 4int } else { 0int }) + (if c.y >= m.1 { 2int } else { 0int }) + (if c.z >= m.2 {
        1int
    } else {
        0int
    })
}

/// The items whose face centroid falls in octant `i` about `m`, in order.
pub open spec fn bucket(items: Seq<Item>, m: IVec, i: int) -> Seq<Item> {
    items.filter(in_octant(m, i))
}

pub open spec fn in_octant(m: IVec, i: int) -> spec_fn(Item) -> bool {
    |p: Item| octant(p.0.m, m) == i
}

/// Splitting about `m` would leave every item in one octant.
pub open spec fn stalls(items: Seq<Item>, m: IVec) -> bool {
    exists|i: int| 0 <= i < 8 && #[trigger] bucket(items, m, i).len() == items.len()
}

pub struct PolyTreeElement {
    pub children: Vec<PolyTreeElement>,
    pub faces: Vec<Face>,
    pub uvs: Vec<UV>,
    pub m: Vec3,
    pub radius: i64,
    pub leaf: bool,
}

/// `n` is the tree that construction produces from `items`.
pub open spec fn built_from(n: PolyTreeElement, items: Seq<Item>) -> bool
    decreases n,
{
    let fs = faces_of(items);
    let m = middle_of(fs);
    &&& iv(n.m) == m
    &&& n.radius == radius_of(fs, m)
    &&& if items.len() < LEAF_THRESHOLD || stalls(items, m) {
        &&& n.leaf
        &&& n.children@.len() == 0
        &&& n.faces@ == fs
        &&& n.uvs@ == uvs_of(items)
    } else {
        &&& !n.leaf
        &&& n.faces@.len() == 0
        &&& n.uvs@.len() == 0
        &&& n.children@.len() == 8
        &&& forall|i: int| 0 <= i < 8 ==> built_from(#[trigger] n.children@[i], bucket(items, m, i))
    }
}

proof fn lemma_ceil_sqrt_unique(n: int, s1: int, s2: int)
    requires
        is_ceil_sqrt(n, s1),
        is_ceil_sqrt(n, s2),
    ensures
        s1 == s2,
{
    if s1 < s2 {
        assert(s1 * s1 <= (s2 - 1) * (s2 - 1)) by (nonlinear_arith)
            requires 0 <= s1 <= s2 - 1;
    } else if s2 < s1 {
        assert(s2 * s2 <= (s1 - 1) * (s1 - 1)) by (nonlinear_arith)
            requires 0 <= s2 <= s1 - 1;
    }
}

proof fn lemma_csqrt(n: int, s: int)
    requires
        is_ceil_sqrt(n, s),
    ensures
        csqrt(n) == s,
{
    let c = csqrt(n);
    assert(is_ceil_sqrt(n, c));
    lemma_ceil_sqrt_unique(n, s, c);
}

proof fn lemma_ceil_sqrt_le(n: int, s: int, k: int)
    requires
        is_ceil_sqrt(n, s),
        0 <= k,
        n <= k * k,
    ensures
        s <= k,
{
    if s > k {
        assert(k * k <= (s - 1) * (s - 1)) by (nonlinear_arith)
            requires 0 <= k <= s - 1;
    }
}

pub proof fn lemma_face_radius_bound(t: Face)
    requires
        t.wf(),
    ensures
        0 <= t.radius <= FACE_RADIUS_LIMIT,
{
    let m = iv(t.m);
    lemma_centroid_in_range(t.r, t.a, t.b);
    let k = 0x2_0000int;
    assert(bounded(vsub(m, iv(t.r)), k));
    assert(bounded(vsub(m, iv(t.a)), k));
    assert(bounded(vsub(m, iv(t.b)), k));
    lemma_norm2_bound(vsub(m, iv(t.r)), k);
    lemma_norm2_bound(vsub(m, iv(t.a)), k);
    lemma_norm2_bound(vsub(m, iv(t.b)), k);
    lemma_ceil_sqrt_le(reach2(m, iv(t.r), iv(t.a), iv(t.b)), t.radius as int, 0x4_0000);
}

pub proof fn lemma_norm2_bound(u: IVec, k: int)
    requires
        bounded(u, k),
        k == 0x2_0000 || k == 0x4_0000,
    ensures
        0 <= norm2(u) <= 3 * k * k,
{
    assert(0 <= u.0 * u.0 <= k * k) by (nonlinear_arith) requires abs(u.0) <= k;
    assert(0 <= u.1 * u.1 <= k * k) by (nonlinear_arith) requires abs(u.1) <= k;
    assert(0 <= u.2 * u.2 <= k * k) by (nonlinear_arith) requires abs(u.2) <= k;
}

proof fn lemma_ceil_div_range(s: int, n: int, k: int)
    requires
        n > 0,
        k >= 0,
        -(n * k) <= s <= n * k,
    ensures
        -k <= ceil_div(s, n) <= k,
{
    lemma_div_is_ordered(-s, n * k, n);
    lemma_div_is_ordered(-(n * k), -s, n);
    lemma_div_multiples_vanish(k, n);
    lemma_div_multiples_vanish(-k, n);
    assert(n * (-k) == -(n * k)) by (nonlinear_arith);
}

/// Well formed: leaves hold faces and texture records in lock-step and no
/// children; inner nodes hold exactly eight children and no faces.
pub open spec fn node_wf(n: PolyTreeElement) -> bool
    decreases n,
{
    &&& n.m.in_range()
    &&& 0 <= n.radius <= RADIUS_LIMIT
    &&& if n.leaf {
        &&& n.children@.len() == 0
        &&& n.faces@.len() == n.uvs@.len()
        &&& all_ok(n.faces@)
        &&& all_uvs_ok(n.uvs@)
    } else {
        &&& n.children@.len() == 8
        &&& n.faces@.len() == 0
        &&& n.uvs@.len() == 0
        &&& forall|i: int| 0 <= i < 8 ==> node_wf(#[trigger] n.children@[i])
    }
}

pub open spec fn all_ok(fs: Seq<Face>) -> bool {
    forall|i: int| 0 <= i < fs.len() ==> face_ok(#[trigger] fs[i])
}

pub open spec fn all_uvs_ok(uvs: Seq<UV>) -> bool {
    forall|i: int| 0 <= i < uvs.len() ==> uv_ok(#[trigger] uvs[i])
}

/// Largest squared distance between two in-range points.
proof fn lemma_dist2_bound(p: Vec3, q: Vec3)
    requires
        p.in_range(),
        q.in_range(),
    ensures
        0 <= norm2(vsub(iv(p), iv(q))) <= 0xC_0000_0000,
{
    lemma_norm2_bound(vsub(iv(p), iv(q)), 0x2_0000);
}

fn dist2(p: Vec3, q: Vec3) -> (r: u64)
    requires
        p.in_range(),
        q.in_range(),
    ensures
        r as int == norm2(vsub(iv(p), iv(q))),
        r <= 0xC_0000_0000,
{
    proof {
        lemma_dist2_bound(p, q);
    }
    let dx = (p.x - q.x) as i128;
    let dy = (p.y - q.y) as i128;
    let dz = (p.z - q.z) as i128;
    proof {
        assert(dx * dx <= 0x4_0000_0000) by (nonlinear_arith) requires -0x2_0000 <= dx <= 0x2_0000;
        assert(dy * dy <= 0x4_0000_0000) by (nonlinear_arith) requires -0x2_0000 <= dy <= 0x2_0000;
        assert(dz * dz <= 0x4_0000_0000) by (nonlinear_arith) requires -0x2_0000 <= dz <= 0x2_0000;
    }
    (dx * dx + dy * dy + dz * dz) as u64
}

impl PolyTree {
    /// Mean of the face centroids, rounded up; the origin for no faces.
    pub fn get_middle(faces: &Vec<Face>) -> (m: Vec3)
        requires
            all_ok(faces@),
        ensures
            iv(m) == middle_of(faces@),
            m.in_range(),
    {
        let n = faces.len();
        let mut sum: (i128, i128, i128) = (0, 0, 0);
        let mut i: usize = 0;
        while i < n
            invariant
                n == faces@.len(),
                all_ok(faces@),
                i <= n,
                wv(sum) == centroid_sum(faces@.take(i as int)),
                bounded(wv(sum), i * 0x1_0000),
            decreases n - i,
        {
            let c = faces[i].m;
            proof {
                let f = faces@[i as int];
                assert(face_ok(f));
                lemma_centroid_in_range(f.r, f.a, f.b);
                assert(faces@.take(i + 1).drop_last() =~= faces@.take(i as int));
                assert(usize::MAX < 0x1_0000_0000_0000_0000);
            }
            sum = (sum.0 + c.x as i128, sum.1 + c.y as i128, sum.2 + c.z as i128);
            i = i + 1;
        }
        proof {
            assert(faces@.take(n as int) =~= faces@);
        }
        if n == 0 {
            return Vec3 { x: 0, y: 0, z: 0 };
        }
        proof {
            assert(usize::MAX < 0x1_0000_0000_0000_0000);
            lemma_ceil_div_range(sum.0 as int, n as int, 0x1_0000);
            lemma_ceil_div_range(sum.1 as int, n as int, 0x1_0000);
            lemma_ceil_div_range(sum.2 as int, n as int, 0x1_0000);
        }
        let x = div_ceil(sum.0, n as i128);
        let y = div_ceil(sum.1, n as i128);
        let z = div_ceil(sum.2, n as i128);
        Vec3 { x: x as i64, y: y as i64, z: z as i64 }
    }

    /// The conservative bounding radius of a node about `m`.
    pub fn get_radius(faces: &Vec<Face>, m: Vec3) -> (r: i64)
        requires
            all_ok(faces@),
            m.in_range(),
        ensures
            r as int == radius_of(faces@, iv(m)),
            0 <= r <= 0x8_0000,
    {
        let n = faces.len();
        let mut r: i64 = 0;
        let mut i: usize = 0;
        while i < n
            invariant
                n == faces@.len(),
                all_ok(faces@),
                m.in_range(),
                i <= n,
                r as int == radius_of(faces@.take(i as int), iv(m)),
                0 <= r <= 0x8_0000,
            decreases n - i,
        {
            let f = faces[i];
            proof {
                assert(face_ok(f));
                lemma_centroid_in_range(f.r, f.a, f.b);
                assert(faces@.take(i + 1).drop_last() =~= faces@.take(i as int));
                assert(faces@.take(i + 1).last() == f);
            }
            let q = dist2(f.m, m);
            let s = ceil_sqrt(q);
            proof {
                lemma_csqrt(q as int, s as int);
                lemma_ceil_sqrt_le(q as int, s as int, 0x4_0000);
            }
            let c = s as i64 + f.radius;
            if c > r {
                r = c;
            }
            i = i + 1;
        }
        proof {
            assert(faces@.take(n as int) =~= faces@);
        }
        r
    }

}

fn octant_of(c: Vec3, m: Vec3) -> (r: usize)
    ensures
        r as int == octant(c, iv(m)),
        r < 8,
{
    let mut r: usize = 0;
    if c.x >= m.x {
        r = r + 4;
    }
    if c.y >= m.y {
        r = r + 2;
    }
    if c.z >= m.z {
        r = r + 1;
    }
    r
}

/// The faces (with their texture records) whose centroid lies in octant `i` about `m`.
fn bucket_of(faces: &Vec<Face>, uvs: &Vec<UV>, m: Vec3, i: usize) -> (r: (Vec<Face>, Vec<UV>))
    requires
        faces@.len() == uvs@.len(),
        all_ok(faces@),
        all_uvs_ok(uvs@),
    ensures
        r.0@.len() == r.1@.len(),
        zip(r.0@, r.1@) == bucket(zip(faces@, uvs@), iv(m), i as int),
        all_ok(r.0@),
        all_uvs_ok(r.1@),
{
    let ghost items = zip(faces@, uvs@);
    let ghost pred = in_octant(iv(m), i as int);
    let mut bf: Vec<Face> = Vec::new();
    let mut bu: Vec<UV> = Vec::new();
    let n = faces.len();
    let mut j: usize = 0;
    while j < n
        invariant
            n == faces@.len(),
            n == uvs@.len(),
            items == zip(faces@, uvs@),
            pred == in_octant(iv(m), i as int),
            all_ok(faces@),
            j <= n,
            bf@.len() == bu@.len(),
            zip(bf@, bu@) == items.take(j as int).filter(pred),
            all_ok(bf@),
            all_uvs_ok(bu@),
            all_uvs_ok(uvs@),
        decreases n - j,
    {
        let f = faces[j];
        let u = uvs[j];
        proof {
            assert(items.take(j + 1) =~= items.take(j as int).push((f, u)));
            items.take(j as int).lemma_filter_push((f, u), pred);
        }
        let ghost before = zip(bf@, bu@);
        let o = octant_of(f.m, m);
        assert(pred((f, u)) == (o == i));
        if o == i {
            let ghost bf0 = bf@;
            let ghost bu0 = bu@;
            bf.push(f);
            bu.push(u);
            proof {
                assert(zip(bf@, bu@) =~= zip(bf0, bu0).push((f, u)));
            }
        }
        assert(zip(bf@, bu@) == items.take(j + 1).filter(pred));
        j = j + 1;
    }
    proof {
        assert(items.take(n as int) =~= items);
    }
    (bf, bu)
}

proof fn lemma_unzip(faces: Seq<Face>, uvs: Seq<UV>)
    requires
        faces.len() == uvs.len(),
    ensures
        faces_of(zip(faces, uvs)) == faces,
        uvs_of(zip(faces, uvs)) == uvs,
{
    assert(faces_of(zip(faces, uvs)) =~= faces);
    assert(uvs_of(zip(faces, uvs)) =~= uvs);
}

impl PolyTreeElement {
    /// A leaf holding the given faces and texture records.
    fn make_leaf(faces: Vec<Face>, uvs: Vec<UV>, m: Vec3, radius: i64) -> (n: PolyTreeElement)
        ensures
            n.leaf,
            n.children@.len() == 0,
            n.faces == faces,
            n.uvs == uvs,
            n.m == m,
            n.radius == radius,
    {
        PolyTreeElement { children: Vec::new(), faces, uvs, m, radius, leaf: true }
    }
}

impl PolyTree {
    /// Builds the octree over `faces` and their texture records `uvs`: fewer
    /// than `LEAF_THRESHOLD` faces make a leaf; otherwise the faces are split
    /// into the eight octants about the node's centroid and each octant is
    /// built in turn (empty ones become empty leaves). A split that would put
    /// every face in one octant is not made; the node stays a leaf.
    pub fn construct_tree(faces: Vec<Face>, uvs: Vec<UV>) -> (n: PolyTreeElement)
        requires
            faces@.len() == uvs@.len(),
            all_ok(faces@),
            all_uvs_ok(uvs@),
        ensures
            built_from(n, zip(faces@, uvs@)),
            node_wf(n),
        decreases faces@.len(),
    {
        let ghost items = zip(faces@, uvs@);
        proof {
            lemma_unzip(faces@, uvs@);
        }
        let m = PolyTree::get_middle(&faces);
        let radius = PolyTree::get_radius(&faces, m);
        if faces.len() < LEAF_THRESHOLD {
            return PolyTreeElement::make_leaf(faces, uvs, m, radius);
        }
        let mut children: Vec<PolyTreeElement> = Vec::new();
        let mut i: usize = 0;
        while i < 8
            invariant
                items == zip(faces@, uvs@),
                faces@.len() == uvs@.len(),
                all_ok(faces@),
                all_uvs_ok(uvs@),
                faces@.len() >= LEAF_THRESHOLD,
                iv(m) == middle_of(faces@),
                m.in_range(),
                radius as int == radius_of(faces@, iv(m)),
                0 <= radius <= 0x8_0000,
                faces_of(items) == faces@,
                uvs_of(items) == uvs@,
                i <= 8,
                children@.len() == i,
                forall|j: int| 0 <= j < i ==> built_from(#[trigger] children@[j], bucket(items, iv(m), j)),
                forall|j: int| 0 <= j < i ==> node_wf(#[trigger] children@[j]),
                forall|j: int| 0 <= j < i ==> #[trigger] bucket(items, iv(m), j).len() != items.len(),
            decreases 8 - i,
        {
            let (bf, bu) = bucket_of(&faces, &uvs, m, i);
            proof {
                items.lemma_filter_len(in_octant(iv(m), i as int));
                assert(zip(bf@, bu@).len() == bf@.len());
            }
            if bf.len() == faces.len() {
                proof {
                    assert(stalls(items, iv(m)));
                }
                return PolyTreeElement::make_leaf(faces, uvs, m, radius);
            }
            let child = PolyTree::construct_tree(bf, bu);
            children.push(child);
            i = i + 1;
        }
        proof {
            assert(!stalls(items, iv(m)));
        }
        PolyTreeElement { children, faces: Vec::new(), uvs: Vec::new(), m, radius, leaf: false }
    }
}

/// Every face with its texture record held in the leaves under `n`, leaf by leaf.
pub open spec fn leaf_items(n: PolyTreeElement) -> Seq<Item>
    decreases n, 1int,
{
    if n.leaf {
        zip(n.faces@, n.uvs@)
    } else {
        items_of_children(n.children@)
    }
}

pub open spec fn items_of_children(cs: Seq<PolyTreeElement>) -> Seq<Item>
    decreases cs, 0int,
{
    if cs.len() == 0 {
        Seq::empty()
    } else {
        items_of_children(cs.drop_last()) + leaf_items(cs.last())
    }
}

/// The multisets of the first `k` octant buckets, added up.
pub open spec fn bucket_sum(items: Seq<Item>, m: IVec, k: int) -> Multiset<Item>
    decreases k,
{
    if k <= 0 {
        Multiset::empty()
    } else {
        bucket_sum(items, m, k - 1).add(bucket(items, m, k - 1).to_multiset())
    }
}

proof fn lemma_bucket_sum_push(s: Seq<Item>, x: Item, m: IVec, k: int)
    requires
        0 <= k <= 8,
    ensures
        bucket_sum(s.push(x), m, k) == if octant(x.0.m, m) < k {
            bucket_sum(s, m, k).insert(x)
        } else {
            bucket_sum(s, m, k)
        },
    decreases k,
{
    broadcast use vstd::seq_lib::group_to_multiset_ensures, vstd::multiset::group_multiset_axioms;
    if k > 0 {
        lemma_bucket_sum_push(s, x, m, k - 1);
        s.lemma_filter_push(x, in_octant(m, k - 1));
        if octant(x.0.m, m) == k - 1 {
            vstd::seq_lib::to_multiset_build(bucket(s, m, k - 1), x);
        }
        assert(bucket_sum(s.push(x), m, k) =~= if octant(x.0.m, m) < k {
            bucket_sum(s, m, k).insert(x)
        } else {
            bucket_sum(s, m, k)
        });
    }
}

/// The eight octant buckets split the items: together they hold each item once.
proof fn lemma_buckets_partition(s: Seq<Item>, m: IVec)
    ensures
        bucket_sum(s, m, 8) == s.to_multiset(),
    decreases s.len(),
{
    broadcast use vstd::seq_lib::group_to_multiset_ensures, vstd::multiset::group_multiset_axioms;
    if s.len() == 0 {
        assert(bucket_sum(s, m, 8) =~= Multiset::empty()) by {
            assert forall|k: int| 0 <= k <= 8 implies #[trigger] bucket_sum(s, m, k) =~= Multiset::empty() by {
                lemma_bucket_sum_empty(s, m, k);
            }
        }
    } else {
        let t = s.drop_last();
        let x = s.last();
        assert(t.push(x) =~= s);
        lemma_buckets_partition(t, m);
        lemma_bucket_sum_push(t, x, m, 8);
        vstd::seq_lib::to_multiset_build(t, x);
    }
}

proof fn lemma_bucket_sum_empty(s: Seq<Item>, m: IVec, k: int)
    requires
        s.len() == 0,
        0 <= k,
    ensures
        bucket_sum(s, m, k) =~= Multiset::empty(),
    decreases k,
{
    broadcast use vstd::seq_lib::group_to_multiset_ensures, vstd::multiset::group_multiset_axioms;
    if k > 0 {
        lemma_bucket_sum_empty(s, m, k - 1);
        assert(bucket(s, m, k - 1).len() == 0) by {
            s.lemma_filter_len(in_octant(m, k - 1));
        }
        assert(bucket(s, m, k - 1) =~= Seq::<Item>::empty());
    }
}

proof fn lemma_zip_items(items: Seq<Item>)
    ensures
        zip(faces_of(items), uvs_of(items)) == items,
{
    assert(zip(faces_of(items), uvs_of(items)) =~= items);
}

proof fn lemma_children_cover(n: PolyTreeElement, items: Seq<Item>, k: int)
    requires
        built_from(n, items),
        !n.leaf,
        0 <= k <= 8,
    ensures
        items_of_children(n.children@.take(k)).to_multiset() == bucket_sum(items, middle_of(faces_of(items)), k),
    decreases n, 0int, k,
{
    broadcast use vstd::seq_lib::group_to_multiset_ensures, vstd::multiset::group_multiset_axioms;
    let m = middle_of(faces_of(items));
    let cs = n.children@.take(k);
    if k == 0 {
        assert(items_of_children(cs) =~= Seq::<Item>::empty());
        assert(items_of_children(cs).to_multiset() =~= Multiset::empty());
    } else {
        lemma_children_cover(n, items, k - 1);
        let c = n.children@[k - 1];
        assert(built_from(c, bucket(items, m, k - 1)));
        lemma_leaves_cover(c, bucket(items, m, k - 1));
        assert(cs.drop_last() =~= n.children@.take(k - 1));
        assert(cs.last() == c);
        vstd::seq_lib::lemma_multiset_commutative(items_of_children(n.children@.take(k - 1)), leaf_items(c));
    }
}

/// The leaves of a built tree hold exactly the faces (with their texture
/// records) it was built from: none is lost, none is held twice.
pub proof fn lemma_leaves_cover(n: PolyTreeElement, items: Seq<Item>)
    requires
        built_from(n, items),
    ensures
        leaf_items(n).to_multiset() == items.to_multiset(),
    decreases n, 1int, 0int,
{
    if n.leaf {
        lemma_zip_items(items);
    } else {
        lemma_children_cover(n, items, 8);
        assert(n.children@.take(8) =~= n.children@);
        lemma_buckets_partition(items, middle_of(faces_of(items)));
    }
}

/// A mesh with fewer than `LEAF_THRESHOLD` faces is built into a single leaf
/// without children that holds all of them.
pub proof fn lemma_small_mesh_is_leaf(n: PolyTreeElement, faces: Seq<Face>, uvs: Seq<UV>)
    requires
        built_from(n, zip(faces, uvs)),
        faces.len() == uvs.len(),
        faces.len() < LEAF_THRESHOLD,
    ensures
        n.leaf,
        n.children@.len() == 0,
        n.faces@ == faces,
        n.uvs@ == uvs,
{
    lemma_unzip(faces, uvs);
}

/// A mesh with at least `LEAF_THRESHOLD` faces whose centroids do not all
/// fall in one octant about their mean gets exactly eight children.
proof fn lemma_large_mesh_splits(n: PolyTreeElement, faces: Seq<Face>, uvs: Seq<UV>)
    requires
        built_from(n, zip(faces, uvs)),
        faces.len() == uvs.len(),
        faces.len() >= LEAF_THRESHOLD,
        !stalls(zip(faces, uvs), middle_of(faces)),
    ensures
        !n.leaf,
        n.children@.len() == 8,
        n.faces@.len() == 0,
{
    lemma_unzip(faces, uvs);
}

/// A candidate hit found in a leaf: the face, its texture record, and the
/// barycentric coordinates and ray parameter of the hit point.
#[derive(Clone, Copy, Debug, PartialEq, Eq, Structural)]
pub struct PolyTreeCollisionFeedback {
    pub hit: bool,
    pub face: Face,
    pub uv: UV,
    pub bg: Barycentric,
}

/// The hit of the ray `o + t d` on a face, when the face passes the sphere
/// pre-filter and the hit point lies in the face.
pub open spec fn hit_on(p: Item, o: Vec3, d: Vec3) -> Option<PolyTreeCollisionFeedback> {
    let b = bary_of(p.0, o, d);
    if sphere_admits(p.0.m, p.0.radius as int, o, d) && b.inside() {
        Some(PolyTreeCollisionFeedback { hit: true, face: p.0, uv: p.1, bg: b })
    } else {
        None
    }
}

/// `h` lies strictly nearer the ray origin than `g`. Both points lie on the
/// same ray `o + t d`, so their distances compare as `|t|` does.
pub open spec fn nearer(h: PolyTreeCollisionFeedback, g: PolyTreeCollisionFeedback) -> bool {
    abs(h.bg.t as int) * (g.bg.den as int) < abs(g.bg.t as int) * (h.bg.den as int)
}

/// Keeps `g` unless `h` is a hit strictly nearer than it.
pub open spec fn keep_nearer(g: Option<PolyTreeCollisionFeedback>, h: Option<PolyTreeCollisionFeedback>) -> Option<PolyTreeCollisionFeedback> {
    match h {
        None => g,
        Some(hh) => match g {
            None => h,
            Some(gg) => if nearer(hh, gg) { h } else { g },
        },
    }
}

/// The nearest hit among `items`; the first of equally near ones.
pub open spec fn nearest_in(items: Seq<Item>, o: Vec3, d: Vec3) -> Option<PolyTreeCollisionFeedback>
    decreases items.len(),
{
    if items.len() == 0 {
        None
    } else {
        keep_nearer(nearest_in(items.drop_last(), o, d), hit_on(items.last(), o, d))
    }
}

/// The candidate hits a query returns from node `n`: a leaf gives its nearest
/// hit, if any; an inner node the candidates of each child whose bounding
/// sphere passes the pre-filter, in child order.
pub open spec fn node_hits(n: PolyTreeElement, o: Vec3, d: Vec3) -> Seq<PolyTreeCollisionFeedback>
    decreases n, 1int,
{
    if n.leaf {
        match nearest_in(zip(n.faces@, n.uvs@), o, d) {
            Some(h) => seq![h],
            None => Seq::empty(),
        }
    } else {
        children_hits(n.children@, o, d)
    }
}

pub open spec fn children_hits(cs: Seq<PolyTreeElement>, o: Vec3, d: Vec3) -> Seq<PolyTreeCollisionFeedback>
    decreases cs, 0int,
{
    if cs.len() == 0 {
        Seq::empty()
    } else {
        let c = cs.last();
        children_hits(cs.drop_last(), o, d) + if sphere_admits(c.m, c.radius as int, o, d) {
            node_hits(c, o, d)
        } else {
            Seq::empty()
        }
    }
}

fn nearer_exec(h: &PolyTreeCollisionFeedback, g: &PolyTreeCollisionFeedback) -> (r: bool)
    requires
        abs(h.bg.t as int) <= SOLVE_LIMIT,
        abs(g.bg.t as int) <= SOLVE_LIMIT,
        0 < h.bg.den <= SOLVE_LIMIT,
        0 < g.bg.den <= SOLVE_LIMIT,
    ensures
        r == nearer(*h, *g),
{
    let ht = if h.bg.t < 0 { -h.bg.t } else { h.bg.t };
    let gt = if g.bg.t < 0 { -g.bg.t } else { g.bg.t };
    proof {
        assert(ht * g.bg.den <= SOLVE_LIMIT * SOLVE_LIMIT) by (nonlinear_arith)
            requires 0 <= ht <= SOLVE_LIMIT, 0 < g.bg.den <= SOLVE_LIMIT;
        assert(gt * h.bg.den <= SOLVE_LIMIT * SOLVE_LIMIT) by (nonlinear_arith)
            requires 0 <= gt <= SOLVE_LIMIT, 0 < h.bg.den <= SOLVE_LIMIT;
        assert(0 <= ht * g.bg.den) by (nonlinear_arith)
            requires 0 <= ht, 0 < g.bg.den;
        assert(0 <= gt * h.bg.den) by (nonlinear_arith)
            requires 0 <= gt, 0 < h.bg.den;
    }
    ht * g.bg.den < gt * h.bg.den
}

/// What the exact solve guarantees of every hit a query returns.
pub open spec fn hit_ok(h: PolyTreeCollisionFeedback) -> bool {
    &&& h.bg.inside()
    &&& uv_ok(h.uv)
    &&& abs(h.bg.beta as int) <= SOLVE_LIMIT
    &&& abs(h.bg.gamma as int) <= SOLVE_LIMIT
    &&& abs(h.bg.t as int) <= SOLVE_LIMIT
    &&& 0 < h.bg.den <= SOLVE_LIMIT
}

proof fn lemma_hit_ok(p: Item, o: Vec3, d: Vec3)
    requires
        face_ok(p.0),
        uv_ok(p.1),
        o.in_range(),
        d.in_range(),
    ensures
        hit_on(p, o, d) matches Some(h) ==> hit_ok(h),
{
    lemma_solve_bounds(p.0, o, d);
}

impl PolyTreeElement {
    /// The bounding-sphere pre-filter applied to this node.
    pub fn is_colliding(&self, o: Vec3, d: Vec3) -> (r: bool)
        requires
            node_wf(*self),
            o.in_range(),
            d.in_range(),
        ensures
            r == sphere_admits(self.m, self.radius as int, o, d),
    {
        is_colliding(self.m, self.radius, o, d)
    }

    /// The nearest hit among the faces of a leaf, if any.
    fn leaf_collision(&self, o: Vec3, d: Vec3) -> (r: Option<PolyTreeCollisionFeedback>)
        requires
            node_wf(*self),
            self.leaf,
            o.in_range(),
            d.in_range(),
        ensures
            r == nearest_in(zip(self.faces@, self.uvs@), o, d),
            r matches Some(h) ==> hit_ok(h),
    {
        nearest_among(&self.faces, &self.uvs, o, d)
    }

    /// The candidate hits of the ray `o + t d` in this subtree (see `node_hits`).
    pub fn get_collision(&self, o: Vec3, d: Vec3) -> (r: Vec<PolyTreeCollisionFeedback>)
        requires
            node_wf(*self),
            o.in_range(),
            d.in_range(),
        ensures
            r@ == node_hits(*self, o, d),
            forall|k: int| 0 <= k < r@.len() ==> hit_ok(#[trigger] r@[k]),
        decreases *self,
    {
        if self.leaf {
            let best = self.leaf_collision(o, d);
            let mut out: Vec<PolyTreeCollisionFeedback> = Vec::new();
            match best {
                Some(h) => {
                    out.push(h);
                    proof {
                        assert(out@ =~= seq![h]);
                    }
                },
                None => {},
            }
            return out;
        }
        let mut out: Vec<PolyTreeCollisionFeedback> = Vec::new();
        let mut i: usize = 0;
        while i < 8
            invariant
                node_wf(*self),
                !self.leaf,
                o.in_range(),
                d.in_range(),
                i <= 8,
                out@ == children_hits(self.children@.take(i as int), o, d),
                forall|k: int| 0 <= k < out@.len() ==> hit_ok(#[trigger] out@[k]),
            decreases 8 - i,
        {
            let c = &self.children[i];
            proof {
                assert(node_wf(*c));
                assert(self.children@.take(i + 1).drop_last() =~= self.children@.take(i as int));
                assert(self.children@.take(i + 1).last() == *c);
            }
            if c.is_colliding(o, d) {
                let mut sub = c.get_collision(o, d);
                out.append(&mut sub);
            } else {
                proof {
                    assert(out@ + Seq::<PolyTreeCollisionFeedback>::empty() =~= out@);
                }
            }
            i = i + 1;
        }
        proof {
            assert(self.children@.take(8) =~= self.children@);
        }
        out
    }
}

impl PolyTree {
    /// Splits the faces and their texture records into the eight octants
    /// about the mean of the face centroids.
    pub fn divide_faces(fs: Vec<Face>, uvs: Vec<UV>) -> (r: (Vec<Vec<Face>>, Vec<Vec<UV>>))
        requires
            fs@.len() == uvs@.len(),
            all_ok(fs@),
            all_uvs_ok(uvs@),
        ensures
            r.0@.len() == 8,
            r.1@.len() == 8,
            forall|i: int|
                0 <= i < 8 ==> #[trigger] zip(r.0@[i]@, r.1@[i]@) == bucket(zip(fs@, uvs@), middle_of(fs@), i)
                    && r.0@[i]@.len() == r.1@[i]@.len(),
    {
        let m = PolyTree::get_middle(&fs);
        let mut dfsc: Vec<Vec<Face>> = Vec::new();
        let mut duvs: Vec<Vec<UV>> = Vec::new();
        let mut i: usize = 0;
        while i < 8
            invariant
                fs@.len() == uvs@.len(),
                all_ok(fs@),
                all_uvs_ok(uvs@),
                iv(m) == middle_of(fs@),
                i <= 8,
                dfsc@.len() == i,
                duvs@.len() == i,
                forall|j: int|
                    0 <= j < i ==> #[trigger] zip(dfsc@[j]@, duvs@[j]@) == bucket(zip(fs@, uvs@), iv(m), j)
                        && dfsc@[j]@.len() == duvs@[j]@.len(),
            decreases 8 - i,
        {
            let (bf, bu) = bucket_of(&fs, &uvs, m, i);
            dfsc.push(bf);
            duvs.push(bu);
            i = i + 1;
        }
        (dfsc, duvs)
    }
}

/// Sum of the centroids of the first `k` children.
pub open spec fn child_m_sum(cs: Seq<PolyTreeElement>) -> IVec
    decreases cs.len(),
{
    if cs.len() == 0 {
        (0, 0, 0)
    } else {
        let s = child_m_sum(cs.drop_last());
        let m = iv(cs.last().m);
        (s.0 + m.0, s.1 + m.1, s.2 + m.2)
    }
}

pub open spec fn child_radius_sum(cs: Seq<PolyTreeElement>) -> int
    decreases cs.len(),
{
    if cs.len() == 0 {
        0
    } else {
        child_radius_sum(cs.drop_last()) + cs.last().radius
    }
}

/// `new` is `old` with centroids and radii recomputed bottom-up: a leaf
/// from its faces as at construction; an inner node takes the mean of its
/// children's centroids and the mean of their radii (both rounded up). The
/// mean of the radii is not a bounding radius of the children in general,
/// and an empty child (no faces) counts in both means with the centroid at
/// the origin and radius zero.
pub open spec fn recomputed(old: PolyTreeElement, new: PolyTreeElement) -> bool
    decreases old,
{
    &&& new.leaf == old.leaf
    &&& new.faces@ == old.faces@
    &&& new.uvs@ == old.uvs@
    &&& new.children@.len() == old.children@.len()
    &&& forall|i: int| 0 <= i < old.children@.len() ==> recomputed(#[trigger] old.children@[i], new.children@[i])
    &&& if old.leaf {
        &&& iv(new.m) == middle_of(old.faces@)
        &&& new.radius == radius_of(old.faces@, middle_of(old.faces@))
    } else {
        let s = child_m_sum(new.children@);
        &&& iv(new.m) == (ceil_div(s.0, 8), ceil_div(s.1, 8), ceil_div(s.2, 8))
        &&& new.radius == ceil_div(child_radius_sum(new.children@), 8)
    }
}

impl PolyTreeElement {
    /// Recomputes centroids and radii bottom-up (see `recomputed`).
    pub fn recompute(self) -> (r: PolyTreeElement)
        requires
            node_wf(self),
        ensures
            recomputed(self, r),
            node_wf(r),
        decreases self,
    {
        let ghost old_self = self;
        let PolyTreeElement { children, faces, uvs, m, radius, leaf } = self;
        if leaf {
            let m = PolyTree::get_middle(&faces);
            let radius = PolyTree::get_radius(&faces, m);
            let n = PolyTreeElement { children, faces, uvs, m, radius, leaf };
            return n;
        }
        let mut children = children;
        let mut done: Vec<PolyTreeElement> = Vec::new();
        let mut sum: (i128, i128, i128) = (0, 0, 0);
        let mut rsum: i128 = 0;
        let ghost olds = children@;
        let mut i: usize = 0;
        while i < 8
            invariant
                old_self == self,
                olds == old_self.children@,
                olds.len() == 8,
                !old_self.leaf,
                forall|k: int| 0 <= k < 8 ==> node_wf(#[trigger] olds[k]),
                i <= 8,
                children@ == olds.subrange(i as int, 8),
                done@.len() == i,
                forall|k: int| 0 <= k < i ==> recomputed(#[trigger] olds[k], done@[k]),
                forall|k: int| 0 <= k < i ==> node_wf(#[trigger] done@[k]),
                wv(sum) == child_m_sum(done@),
                rsum == child_radius_sum(done@),
                bounded(wv(sum), i * 0x1_0000),
                0 <= rsum <= i * (RADIUS_LIMIT as int),
            decreases 8 - i,
        {
            let c = children.remove(0);
            proof {
                assert(c == olds[i as int]);
                assert(node_wf(c));
            }
            let nc = c.recompute();
            let ghost before = done@;
            sum = (sum.0 + nc.m.x as i128, sum.1 + nc.m.y as i128, sum.2 + nc.m.z as i128);
            rsum = rsum + nc.radius as i128;
            done.push(nc);
            proof {
                assert(done@.drop_last() =~= before);
                assert(children@ =~= olds.subrange(i + 1, 8));
            }
            i = i + 1;
        }
        proof {
            assert(-0x8_0000 <= sum.0 <= 0x8_0000);
        }
        let m = Vec3 { x: div_ceil(sum.0, 8) as i64, y: div_ceil(sum.1, 8) as i64, z: div_ceil(sum.2, 8) as i64 };
        let radius = div_ceil(rsum, 8) as i64;
        proof {
            lemma_ceil_div_range(sum.0 as int, 8, 0x1_0000);
            lemma_ceil_div_range(sum.1 as int, 8, 0x1_0000);
            lemma_ceil_div_range(sum.2 as int, 8, 0x1_0000);
            lemma_ceil_div_range(rsum as int, 8, RADIUS_LIMIT as int);
            assert(0 <= ceil_div(rsum as int, 8));
        }
        let n = PolyTreeElement { children: done, faces, uvs, m, radius, leaf };
        n
    }
}

impl PolyTreeElement {
    /// An inner node without children, faces or extent.
    pub fn empty() -> (n: PolyTreeElement)
        ensures
            !n.leaf,
            n.children@.len() == 0,
            n.faces@.len() == 0,
            n.uvs@.len() == 0,
            n.m == (Vec3 { x: 0, y: 0, z: 0 }),
            n.radius == 0,
    {
        PolyTreeElement {
            children: Vec::new(),
            faces: Vec::new(),
            uvs: Vec::new(),
            m: Vec3 { x: 0, y: 0, z: 0 },
            radius: 0,
            leaf: false,
        }
    }
}

impl PolyTree {
    /// Recomputes the tree's centroids and radii bottom-up (see `recomputed`).
    pub fn update(&mut self)
        requires
            old(self).wf(),
        ensures
            final(self).wf(),
            recomputed(old(self).root, final(self).root),
            final(self).source == old(self).source,
            final(self).m == old(self).m,
    {
        let mut root = PolyTreeElement::empty();
        std::mem::swap(&mut root, &mut self.root);
        self.root = root.recompute();
    }
}

pub open spec fn coord(v: IVec, a: int) -> int {
    if a == 0 {
        v.0
    } else if a == 1 {
        v.1
    } else {
        v.2
    }
}

pub open spec fn cm(f: Face, a: int) -> int {
    coord(iv(f.m), a)
}

proof fn lemma_sum_bounds(fs: Seq<Face>, a: int, lo: int, hi: int)
    requires
        forall|i: int| 0 <= i < fs.len() ==> lo <= #[trigger] cm(fs[i], a) <= hi,
    ensures
        fs.len() * lo <= coord(centroid_sum(fs), a) <= fs.len() * hi,
    decreases fs.len(),
{
    if fs.len() > 0 {
        let t = fs.drop_last();
        assert forall|i: int| 0 <= i < t.len() implies lo <= #[trigger] cm(t[i], a) <= hi by {
            assert(t[i] == fs[i]);
        }
        lemma_sum_bounds(t, a, lo, hi);
        assert(cm(fs[fs.len() - 1], a) == cm(fs.last(), a));
        assert(fs.len() * lo == t.len() * lo + lo) by (nonlinear_arith) requires fs.len() == t.len() + 1;
        assert(fs.len() * hi == t.len() * hi + hi) by (nonlinear_arith) requires fs.len() == t.len() + 1;
    }
}

proof fn lemma_sum_strict(fs: Seq<Face>, a: int, lo: int, j: int)
    requires
        forall|i: int| 0 <= i < fs.len() ==> lo <= #[trigger] cm(fs[i], a),
        0 <= j < fs.len(),
        cm(fs[j], a) > lo,
    ensures
        fs.len() * lo < coord(centroid_sum(fs), a),
    decreases fs.len(),
{
    let t = fs.drop_last();
    assert forall|i: int| 0 <= i < t.len() implies lo <= #[trigger] cm(t[i], a) by {
        assert(t[i] == fs[i]);
    }
    assert(fs.len() * lo == t.len() * lo + lo) by (nonlinear_arith) requires fs.len() == t.len() + 1;
    assert(cm(fs[fs.len() - 1], a) == cm(fs.last(), a));
    if j == fs.len() - 1 {
        lemma_sum_lower(t, a, lo);
    } else {
        assert(t[j] == fs[j]);
        lemma_sum_strict(t, a, lo, j);
    }
}

proof fn lemma_sum_lower(fs: Seq<Face>, a: int, lo: int)
    requires
        forall|i: int| 0 <= i < fs.len() ==> lo <= #[trigger] cm(fs[i], a),
    ensures
        fs.len() * lo <= coord(centroid_sum(fs), a),
    decreases fs.len(),
{
    if fs.len() > 0 {
        let t = fs.drop_last();
        assert forall|i: int| 0 <= i < t.len() implies lo <= #[trigger] cm(t[i], a) by {
            assert(t[i] == fs[i]);
        }
        lemma_sum_lower(t, a, lo);
        assert(cm(fs[fs.len() - 1], a) == cm(fs.last(), a));
        assert(fs.len() * lo == t.len() * lo + lo) by (nonlinear_arith) requires fs.len() == t.len() + 1;
    }
}

/// Some face has the least centroid coordinate along axis `a`, and some the greatest.
proof fn lemma_extremes(fs: Seq<Face>, a: int) -> (r: (int, int))
    requires
        fs.len() > 0,
    ensures
        0 <= r.0 < fs.len(),
        0 <= r.1 < fs.len(),
        forall|i: int| 0 <= i < fs.len() ==> cm(fs[r.0], a) <= #[trigger] cm(fs[i], a) <= cm(fs[r.1], a),
    decreases fs.len(),
{
    if fs.len() == 1 {
        (0, 0)
    } else {
        let t = fs.drop_last();
        let (i0, i1) = lemma_extremes(t, a);
        assert(t[i0] == fs[i0] && t[i1] == fs[i1]);
        let last = fs.len() - 1;
        let lo = if cm(fs[last], a) < cm(fs[i0], a) { last } else { i0 };
        let hi = if cm(fs[last], a) > cm(fs[i1], a) { last } else { i1 };
        assert forall|i: int| 0 <= i < fs.len() implies cm(fs[lo], a) <= #[trigger] cm(fs[i], a) <= cm(fs[hi], a) by {
            if i < last {
                assert(t[i] == fs[i]);
            }
        }
        (lo, hi)
    }
}

proof fn lemma_full_filter<A>(s: Seq<A>, p: spec_fn(A) -> bool, i: int)
    requires
        s.filter(p).len() == s.len(),
        0 <= i < s.len(),
    ensures
        p(s[i]),
    decreases s.len(),
{
    let t = s.drop_last();
    assert(t.push(s.last()) =~= s);
    t.lemma_filter_push(s.last(), p);
    t.lemma_filter_len(p);
    if !p(s.last()) {
        assert(false);
    }
    if i < s.len() - 1 {
        assert(t[i] == s[i]);
        lemma_full_filter(t, p, i);
    }
}

/// Faces whose centroids are not all the same point do not all fall in one
/// octant about the rounded-up mean of their centroids.
pub proof fn lemma_distinct_centroids_split(faces: Seq<Face>, uvs: Seq<UV>, j: int, k: int)
    requires
        faces.len() == uvs.len(),
        0 <= j < faces.len(),
        0 <= k < faces.len(),
        faces[j].m != faces[k].m,
    ensures
        !stalls(zip(faces, uvs), middle_of(faces)),
{
    let items = zip(faces, uvs);
    let n = faces.len() as int;
    let m = middle_of(faces);
    let a = if faces[j].m.x != faces[k].m.x { 0int } else if faces[j].m.y != faces[k].m.y { 1int } else { 2int };
    assert(cm(faces[j], a) != cm(faces[k], a));
    let (i0, i1) = lemma_extremes(faces, a);
    let lo = cm(faces[i0], a);
    let hi = cm(faces[i1], a);
    let up = if cm(faces[j], a) > lo { j } else { k };
    lemma_sum_strict(faces, a, lo, up);
    lemma_sum_bounds(faces, a, lo, hi);
    let s = coord(centroid_sum(faces), a);
    assert(coord(m, a) == ceil_div(s, n));
    assert(lo < ceil_div(s, n) <= hi) by {
        lemma_fundamental_div_mod(-s, n);
        lemma_mod_bound(-s, n);
        let q = (-s) / n;
        assert(lo < -q <= hi) by (nonlinear_arith)
            requires
                -s == n * q + (-s) % n,
                0 <= (-s) % n < n,
                n * lo < s <= n * hi,
                n > 0,
        ;
    }
    assert(octant(faces[i0].m, m) != octant(faces[i1].m, m));
    if stalls(items, m) {
        let o = choose|o: int| 0 <= o < 8 && #[trigger] bucket(items, m, o).len() == items.len();
        lemma_full_filter(items, in_octant(m, o), i0);
        lemma_full_filter(items, in_octant(m, o), i1);
        assert(items[i0].0 == faces[i0] && items[i1].0 == faces[i1]);
    }
}

/// A mesh with at least `LEAF_THRESHOLD` faces whose centroids are not all
/// the same point is built into exactly eight children.
pub proof fn lemma_large_mesh_has_eight_children(n: PolyTreeElement, faces: Seq<Face>, uvs: Seq<UV>, j: int, k: int)
    requires
        built_from(n, zip(faces, uvs)),
        faces.len() == uvs.len(),
        faces.len() >= LEAF_THRESHOLD,
        0 <= j < faces.len(),
        0 <= k < faces.len(),
        faces[j].m != faces[k].m,
    ensures
        !n.leaf,
        n.children@.len() == 8,
        n.faces@.len() == 0,
{
    lemma_distinct_centroids_split(faces, uvs, j, k);
    lemma_large_mesh_splits(n, faces, uvs);
}

/// Tests every face against the ray `o + t d` and keeps the nearest hit;
/// the first of equally near ones.
pub fn nearest_among(faces: &Vec<Face>, uvs: &Vec<UV>, o: Vec3, d: Vec3) -> (r: Option<PolyTreeCollisionFeedback>)
    requires
        faces@.len() == uvs@.len(),
        all_ok(faces@),
        all_uvs_ok(uvs@),
        o.in_range(),
        d.in_range(),
    ensures
        r == nearest_in(zip(faces@, uvs@), o, d),
        r matches Some(h) ==> hit_ok(h),
{
    let ghost items = zip(faces@, uvs@);
    let n = faces.len();
    let mut best: Option<PolyTreeCollisionFeedback> = None;
    let mut i: usize = 0;
    while i < n
        invariant
            all_ok(faces@),
            all_uvs_ok(uvs@),
            o.in_range(),
            d.in_range(),
            n == faces@.len(),
            n == uvs@.len(),
            items == zip(faces@, uvs@),
            i <= n,
            best == nearest_in(items.take(i as int), o, d),
            best matches Some(h) ==> hit_ok(h),
        decreases n - i,
    {
        let f = faces[i];
        let u = uvs[i];
        proof {
            assert(face_ok(f));
            assert(uv_ok(u));
            assert(items.take(i + 1).drop_last() =~= items.take(i as int));
            assert(items.take(i + 1).last() == (f, u));
            lemma_hit_ok((f, u), o, d);
            lemma_face_radius_bound(f);
        }
        let mut cand: Option<PolyTreeCollisionFeedback> = None;
        if f.is_colliding(o, d) {
            let bg = f.get_beta_gamma(o, d);
            if bg.is_inside() {
                cand = Some(PolyTreeCollisionFeedback { hit: true, face: f, uv: u, bg });
            }
        }
        assert(cand == hit_on((f, u), o, d));
        match cand {
            None => {},
            Some(h) => {
                match best {
                    None => {
                        best = cand;
                    },
                    Some(g) => {
                        if nearer_exec(&h, &g) {
                            best = cand;
                        }
                    },
                }
            },
        }
        i = i + 1;
    }
    proof {
        assert(items.take(n as int) =~= items);
    }
    best
}

proof fn lemma_sq_prod(x: int, y: int)
    ensures
        (x * x) * (y * y) == (x * y) * (x * y),
{
    assert((x * x) * (y * y) == (x * y) * (x * y)) by (nonlinear_arith);
}

proof fn lemma_swap_prod(a: int, d: int, b: int, e: int)
    ensures
        (a * d) * (b * e) == (a * e) * (b * d),
{
    assert((a * d) * (b * e) == (a * e) * (b * d)) by (nonlinear_arith);
}

proof fn lemma_expand3(p: int, q: int, r: int, x: int, y: int, z: int)
    ensures
        (p + q + r) * (x + y + z) == p * x + p * y + p * z + q * x + q * y + q * z + r * x + r * y + r * z,
{
    assert((p + q + r) * (x + y + z) == p * x + p * y + p * z + q * x + q * y + q * z + r * x + r * y + r * z)
        by (nonlinear_arith);
}

proof fn lemma_sq_sum3(p: int, q: int, r: int)
    ensures
        (p + q + r) * (p + q + r) == p * p + q * q + r * r + 2 * (p * q) + 2 * (p * r) + 2 * (q * r),
{
    assert((p + q + r) * (p + q + r) == p * p + q * q + r * r + 2 * (p * q) + 2 * (p * r) + 2 * (q * r))
        by (nonlinear_arith);
}

proof fn lemma_sq_diff(x: int, y: int)
    ensures
        (x - y) * (x - y) == x * x - 2 * (x * y) + y * y,
{
    assert((x - y) * (x - y) == x * x - 2 * (x * y) + y * y) by (nonlinear_arith);
}

proof fn lemma_cauchy_schwarz(u: IVec, w: IVec)
    ensures
        dot(u, w) * dot(u, w) <= norm2(u) * norm2(w),
{
    let (a, b, c) = u;
    let (d, e, f) = w;
    lemma_expand3(a * a, b * b, c * c, d * d, e * e, f * f);
    lemma_sq_prod(a, d);
    lemma_sq_prod(a, e);
    lemma_sq_prod(a, f);
    lemma_sq_prod(b, d);
    lemma_sq_prod(b, e);
    lemma_sq_prod(b, f);
    lemma_sq_prod(c, d);
    lemma_sq_prod(c, e);
    lemma_sq_prod(c, f);
    lemma_sq_sum3(a * d, b * e, c * f);
    lemma_swap_prod(a, d, b, e);
    lemma_swap_prod(a, d, c, f);
    lemma_swap_prod(b, e, c, f);
    lemma_sq_diff(b * f, c * e);
    lemma_sq_diff(c * d, a * f);
    lemma_sq_diff(a * e, b * d);
    assert((a * f) * (c * d) == (c * d) * (a * f)) by (nonlinear_arith);
    assert((b * d) * (a * e) == (a * e) * (b * d)) by (nonlinear_arith);
    assert(0 <= (b * f - c * e) * (b * f - c * e)) by (nonlinear_arith);
    assert(0 <= (c * d - a * f) * (c * d - a * f)) by (nonlinear_arith);
    assert(0 <= (a * e - b * d) * (a * e - b * d)) by (nonlinear_arith);
}

/// `|u + w| <= r + c` when `|u| <= r` and `|w| <= c`, squared.
proof fn lemma_triangle_inequality(u: IVec, w: IVec, r: int, c: int)
    requires
        norm2(u) <= r * r,
        norm2(w) <= c * c,
        r >= 0,
        c >= 0,
    ensures
        norm2((u.0 + w.0, u.1 + w.1, u.2 + w.2)) <= (r + c) * (r + c),
{
    let (a, b, cc) = u;
    let (d, e, f) = w;
    let x = dot(u, w);
    assert(norm2((u.0 + w.0, u.1 + w.1, u.2 + w.2)) == norm2(u) + 2 * x + norm2(w)) by (nonlinear_arith)
        requires x == a * d + b * e + cc * f, u == (a, b, cc), w == (d, e, f);
    lemma_cauchy_schwarz(u, w);
    assert(norm2(u) >= 0 && norm2(w) >= 0) by (nonlinear_arith) requires u == (a, b, cc), w == (d, e, f);
    assert(x * x <= (r * r) * (c * c)) by (nonlinear_arith)
        requires x * x <= norm2(u) * norm2(w), 0 <= norm2(u) <= r * r, 0 <= norm2(w) <= c * c;
    assert(x <= r * c) by (nonlinear_arith)
        requires x * x <= (r * r) * (c * c), r >= 0, c >= 0;
    assert((r + c) * (r + c) == r * r + 2 * (r * c) + c * c) by (nonlinear_arith);
}

proof fn lemma_csqrt_exists(n: int, k: int) -> (s: int)
    requires
        n >= 0,
        0 <= k,
        k == 0 || (k - 1) * (k - 1) < n,
    ensures
        is_ceil_sqrt(n, s),
    decreases n - k,
{
    if k * k >= n {
        k
    } else {
        assert(k < n) by (nonlinear_arith) requires k * k < n, k >= 0;
        lemma_csqrt_exists(n, k + 1)
    }
}

proof fn lemma_radius_of_covers(fs: Seq<Face>, m: IVec, i: int)
    requires
        0 <= i < fs.len(),
    ensures
        radius_of(fs, m) >= csqrt(norm2(vsub(iv(fs[i].m), m))) + fs[i].radius,
    decreases fs.len(),
{
    if i < fs.len() - 1 {
        assert(fs.drop_last()[i] == fs[i]);
        lemma_radius_of_covers(fs.drop_last(), m, i);
    }
}

/// Every vertex of a face held under a built node lies within the node's
/// bounding radius of its centroid: the radius made at construction is a
/// true bound.
pub proof fn lemma_node_radius_covers(n: PolyTreeElement, items: Seq<Item>, i: int)
    requires
        built_from(n, items),
        all_ok(faces_of(items)),
        0 <= i < items.len(),
    ensures
        ({
            let f = items[i].0;
            let r2 = n.radius * n.radius;
            &&& norm2(vsub(iv(f.r), iv(n.m))) <= r2
            &&& norm2(vsub(iv(f.a), iv(n.m))) <= r2
            &&& norm2(vsub(iv(f.b), iv(n.m))) <= r2
        }),
{
    assert(faces_of(items)[i] == items[i].0);
    lemma_radius_of_bounds(faces_of(items), n.m, n.radius as int, i);
}

/// A radius computed as `radius_of(fs, m)` bounds every vertex of `fs`.
proof fn lemma_radius_of_bounds(fs: Seq<Face>, m: Vec3, radius: int, i: int)
    requires
        all_ok(fs),
        radius == radius_of(fs, iv(m)),
        0 <= i < fs.len(),
    ensures
        ({
            let f = fs[i];
            let r2 = radius * radius;
            &&& norm2(vsub(iv(f.r), iv(m))) <= r2
            &&& norm2(vsub(iv(f.a), iv(m))) <= r2
            &&& norm2(vsub(iv(f.b), iv(m))) <= r2
        }),
{
    let f = fs[i];
    assert(face_ok(f));
    let mm = iv(m);
    let w = vsub(iv(f.m), mm);
    let q = norm2(w);
    assert(q >= 0) by (nonlinear_arith) requires q == w.0 * w.0 + w.1 * w.1 + w.2 * w.2;
    let s0 = lemma_csqrt_exists(q, 0);
    lemma_csqrt(q, s0);
    let c = csqrt(q);
    lemma_radius_of_covers(fs, mm, i);
    crate::geometry::lemma_radius_covers_vertices(f);
    let big = f.radius + c;
    assert(radius >= big);
    assert(big >= 0);
    assert(big * big <= radius * radius) by (nonlinear_arith) requires 0 <= big <= radius;
    assert forall|v: Vec3| v == f.r || v == f.a || v == f.b implies norm2(vsub(iv(v), mm)) <= radius * radius by {
        let u = vsub(iv(v), iv(f.m));
        lemma_triangle_inequality(u, w, f.radius as int, c);
        assert((u.0 + w.0, u.1 + w.1, u.2 + w.2) == vsub(iv(v), mm));
    }
}

/// The faces held in the leaves under `n`.
pub open spec fn leaf_faces(n: PolyTreeElement) -> Seq<Face> {
    faces_of(leaf_items(n))
}

/// Every node's radius is the bounding radius, about its centroid, of the
/// faces held below it, and those faces are well formed.
pub open spec fn covered(n: PolyTreeElement) -> bool
    decreases n,
{
    &&& all_ok(leaf_faces(n))
    &&& n.radius == radius_of(leaf_faces(n), iv(n.m))
    &&& forall|i: int| 0 <= i < n.children@.len() ==> covered(#[trigger] n.children@[i])
}

/// `new` is `old` with possibly other radii.
pub open spec fn same_but_radius(old: PolyTreeElement, new: PolyTreeElement) -> bool
    decreases old,
{
    &&& new.leaf == old.leaf
    &&& new.faces@ == old.faces@
    &&& new.uvs@ == old.uvs@
    &&& new.m == old.m
    &&& new.children@.len() == old.children@.len()
    &&& forall|i: int| 0 <= i < old.children@.len() ==> same_but_radius(#[trigger] old.children@[i], new.children@[i])
}

/// In a covered tree every vertex of every face below a node lies within
/// the node's radius of its centroid.
pub proof fn lemma_covered_bounds(n: PolyTreeElement, i: int)
    requires
        covered(n),
        0 <= i < leaf_faces(n).len(),
    ensures
        ({
            let f = leaf_faces(n)[i];
            let r2 = n.radius * n.radius;
            &&& norm2(vsub(iv(f.r), iv(n.m))) <= r2
            &&& norm2(vsub(iv(f.a), iv(n.m))) <= r2
            &&& norm2(vsub(iv(f.b), iv(n.m))) <= r2
        }),
{
    lemma_radius_of_bounds(leaf_faces(n), n.m, n.radius as int, i);
}

proof fn lemma_faces_of_concat(a: Seq<Item>, b: Seq<Item>)
    ensures
        faces_of(a + b) == faces_of(a) + faces_of(b),
{
    assert(faces_of(a + b) =~= faces_of(a) + faces_of(b));
}

impl PolyTreeElement {
    /// Appends the faces held in the leaves under this node.
    pub fn collect_faces(&self, out: &mut Vec<Face>)
        requires
            node_wf(*self),
            all_ok(old(out)@),
        ensures
            final(out)@ == old(out)@ + leaf_faces(*self),
            all_ok(final(out)@),
        decreases *self,
    {
        if self.leaf {
            let ghost before = out@;
            let mut i: usize = 0;
            while i < self.faces.len()
                invariant
                    node_wf(*self),
                    self.leaf,
                    i <= self.faces@.len(),
                    out@ == before + self.faces@.take(i as int),
                    all_ok(out@),
                decreases self.faces@.len() - i,
            {
                proof {
                    assert(face_ok(self.faces@[i as int]));
                }
                out.push(self.faces[i]);
                i = i + 1;
                proof {
                    assert(out@ =~= before + self.faces@.take(i as int));
                }
            }
            proof {
                lemma_unzip(self.faces@, self.uvs@);
                assert(self.faces@.take(self.faces@.len() as int) =~= self.faces@);
            }
            return;
        }
        let ghost before = out@;
        let mut i: usize = 0;
        proof {
            assert(items_of_children(self.children@.take(0)) =~= Seq::<Item>::empty());
            assert(out@ =~= before + faces_of(items_of_children(self.children@.take(0))));
        }
        while i < 8
            invariant
                node_wf(*self),
                !self.leaf,
                i <= 8,
                out@ == before + faces_of(items_of_children(self.children@.take(i as int))),
                all_ok(out@),
            decreases 8 - i,
        {
            proof {
                assert(node_wf(self.children@[i as int]));
            }
            self.children[i].collect_faces(out);
            proof {
                let cs = self.children@.take(i + 1);
                assert(cs.drop_last() =~= self.children@.take(i as int));
                assert(cs.last() == self.children@[i as int]);
                lemma_faces_of_concat(items_of_children(self.children@.take(i as int)), leaf_items(self.children@[i as int]));
                assert(out@ =~= before + faces_of(items_of_children(self.children@.take(i + 1))));
            }
            i = i + 1;
        }
        proof {
            assert(self.children@.take(8) =~= self.children@);
        }
    }

    /// The same tree with every radius recomputed as the bounding radius of
    /// the faces below the node (see `covered`).
    pub fn rebound(self) -> (r: PolyTreeElement)
        requires
            node_wf(self),
        ensures
            same_but_radius(self, r),
            covered(r),
            node_wf(r),
        decreases self,
    {
        let ghost old_self = self;
        let PolyTreeElement { children, faces, uvs, m, radius, leaf } = self;
        let mut done: Vec<PolyTreeElement> = Vec::new();
        if !leaf {
            let mut children = children;
            let ghost olds = children@;
            let mut i: usize = 0;
            while i < 8
                invariant
                    old_self == self,
                    olds == old_self.children@,
                    olds.len() == 8,
                    !old_self.leaf,
                    forall|k: int| 0 <= k < 8 ==> node_wf(#[trigger] olds[k]),
                    i <= 8,
                    children@ == olds.subrange(i as int, 8),
                    done@.len() == i,
                    forall|k: int| 0 <= k < i ==> same_but_radius(#[trigger] olds[k], done@[k]),
                    forall|k: int| 0 <= k < i ==> covered(#[trigger] done@[k]),
                    forall|k: int| 0 <= k < i ==> node_wf(#[trigger] done@[k]),
                decreases 8 - i,
            {
                let c = children.remove(0);
                proof {
                    assert(c == olds[i as int]);
                    assert(node_wf(c));
                }
                let nc = c.rebound();
                done.push(nc);
                proof {
                    assert(children@ =~= olds.subrange(i + 1, 8));
                }
                i = i + 1;
            }
        }
        let mut n = PolyTreeElement { children: done, faces, uvs, m, radius: 0, leaf };
        let mut fs: Vec<Face> = Vec::new();
        n.collect_faces(&mut fs);
        proof {
            assert(fs@ =~= leaf_faces(n));
        }
        let r = PolyTree::get_radius(&fs, m);
        let ghost n0 = n;
        n.radius = r;
        proof {
            assert(leaf_items(n) == leaf_items(n0));
        }
        n
    }
}

impl PolyTree {
    /// The node construction makes from `faces` when its eight octant
    /// subtrees were built elsewhere (on separate workers, say): `children[i]`
    /// must be the tree of octant `i`, placed by its octant and not by the
    /// order in which the workers finished.
    pub fn join_octants(faces: Vec<Face>, uvs: Vec<UV>, children: Vec<PolyTreeElement>) -> (n: PolyTreeElement)
        requires
            faces@.len() == uvs@.len(),
            all_ok(faces@),
            all_uvs_ok(uvs@),
            children@.len() == 8,
            forall|i: int|
                0 <= i < 8 ==> built_from(#[trigger] children@[i], bucket(zip(faces@, uvs@), middle_of(faces@), i)),
            forall|i: int| 0 <= i < 8 ==> node_wf(#[trigger] children@[i]),
        ensures
            built_from(n, zip(faces@, uvs@)),
            node_wf(n),
    {
        let ghost items = zip(faces@, uvs@);
        proof {
            lemma_unzip(faces@, uvs@);
        }
        let m = PolyTree::get_middle(&faces);
        let radius = PolyTree::get_radius(&faces, m);
        if faces.len() < LEAF_THRESHOLD {
            return PolyTreeElement::make_leaf(faces, uvs, m, radius);
        }
        let mut i: usize = 0;
        while i < 8
            invariant
                items == zip(faces@, uvs@),
                faces@.len() == uvs@.len(),
                all_ok(faces@),
                all_uvs_ok(uvs@),
                iv(m) == middle_of(faces@),
                m.in_range(),
                radius as int == radius_of(faces@, iv(m)),
                0 <= radius <= 0x8_0000,
                faces_of(items) == faces@,
                uvs_of(items) == uvs@,
                faces@.len() >= LEAF_THRESHOLD,
                children@.len() == 8,
                forall|j: int|
                    0 <= j < 8 ==> built_from(#[trigger] children@[j], bucket(zip(faces@, uvs@), middle_of(faces@), j)),
                forall|j: int| 0 <= j < 8 ==> node_wf(#[trigger] children@[j]),
                i <= 8,
                forall|j: int| 0 <= j < i ==> #[trigger] bucket(items, iv(m), j).len() != items.len(),
            decreases 8 - i,
        {
            let (bf, bu) = bucket_of(&faces, &uvs, m, i);
            proof {
                assert(zip(bf@, bu@).len() == bf@.len());
            }
            if bf.len() == faces.len() {
                proof {
                    assert(stalls(items, iv(m)));
                }
                return PolyTreeElement::make_leaf(faces, uvs, m, radius);
            }
            i = i + 1;
        }
        proof {
            assert(!stalls(items, iv(m)));
        }
        PolyTreeElement { children, faces: Vec::new(), uvs: Vec::new(), m, radius, leaf: false }
    }
}

} // verus!
