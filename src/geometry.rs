//! Integer vectors, triangles and the two ray tests the octree is built on.
//!
//! Coordinates are fixed-point integers bounded by `COORD_LIMIT`, so every
//! product below is computed exactly in `i128`.
use vstd::prelude::*;
use vstd::arithmetic::div_mod::{lemma_fundamental_div_mod, lemma_mod_bound};

verus! {

/// Largest magnitude of a coordinate of a vertex, a ray origin or a ray direction.
pub const COORD_LIMIT: i64 = 65536;

/// A point or a direction in fixed-point coordinates.
#[derive(Clone, Copy, Debug, PartialEq, Eq, Structural)]
pub struct Vec3 {
    pub x: i64,
    pub y: i64,
    pub z: i64,
}

/// An exact vector of mathematical integers.
pub type IVec = (int, int, int);

pub open spec fn iv(v: Vec3) -> IVec {
    (v.x as int, v.y as int, v.z as int)
}

pub open spec fn vsub(u: IVec, v: IVec) -> IVec {
    (u.0 - v.0, u.1 - v.1, u.2 - v.2)
}

pub open spec fn dot(u: IVec, v: IVec) -> int {
    u.0 * v.0 + u.1 * v.1 + u.2 * v.2
}

pub open spec fn cross(u: IVec, v: IVec) -> IVec {
    (u.1 * v.2 - u.2 * v.1, u.2 * v.0 - u.0 * v.2, u.0 * v.1 - u.1 * v.0)
}

pub open spec fn norm2(u: IVec) -> int {
    dot(u, u)
}

pub open spec fn abs(a: int) -> int {
    if a < 0 { -a } else { a }
}

/// Rounds the quotient up (the divisor is positive).
pub open spec fn ceil_div(a: int, b: int) -> int {
    -((-a) / b)
}

/// `s` is the smallest natural number whose square reaches `n`.
pub open spec fn is_ceil_sqrt(n: int, s: int) -> bool {
    &&& 0 <= s
    &&& n <= s * s
    &&& (s == 0 || (s - 1) * (s - 1) < n)
}

impl Vec3 {
    /// Every coordinate lies within `COORD_LIMIT`.
    pub open spec fn in_range(self) -> bool {
        &&& -COORD_LIMIT <= self.x <= COORD_LIMIT
        &&& -COORD_LIMIT <= self.y <= COORD_LIMIT
        &&& -COORD_LIMIT <= self.z <= COORD_LIMIT
    }

    pub fn new(x: i64, y: i64, z: i64) -> (r: Vec3)
        ensures
            r == (Vec3 { x, y, z }),
    {
        Vec3 { x, y, z }
    }
}

/// The quotient `a / b` rounded up, for a positive `b`.
pub fn div_ceil(a: i128, b: i128) -> (r: i128)
    requires
        b > 0,
        -0x1_0000_0000_0000_0000_0000_0000 <= a <= 0x1_0000_0000_0000_0000_0000_0000,
        b <= 0x1_0000_0000_0000_0000_0000_0000,
    ensures
        r == ceil_div(a as int, b as int),
{
    if a >= 0 {
        let q = ((a + b - 1) as u128) / (b as u128);
        proof {
            let ai = a as int;
            let bi = b as int;
            let f = (-ai) / bi;
            let q2 = (ai + bi - 1) / bi;
            lemma_fundamental_div_mod(-ai, bi);
            lemma_mod_bound(-ai, bi);
            lemma_fundamental_div_mod(ai + bi - 1, bi);
            lemma_mod_bound(ai + bi - 1, bi);
            assert(f * bi <= -ai < f * bi + bi) by (nonlinear_arith)
                requires -ai == bi * f + (-ai) % bi, 0 <= (-ai) % bi < bi;
            assert(q2 * bi <= ai + bi - 1 < q2 * bi + bi) by (nonlinear_arith)
                requires ai + bi - 1 == bi * q2 + (ai + bi - 1) % bi, 0 <= (ai + bi - 1) % bi < bi;
            assert(q2 == -f) by (nonlinear_arith)
                requires
                    f * bi <= -ai < f * bi + bi,
                    q2 * bi <= ai + bi - 1 < q2 * bi + bi,
                    bi > 0,
            ;
            assert(q2 <= ai + bi) by (nonlinear_arith)
                requires
                    q2 * bi <= ai + bi - 1,
                    bi > 0,
                    ai >= 0,
            ;
        }
        q as i128
    } else {
        let q = ((-a) as u128) / (b as u128);
        proof {
            assert(q <= -a) by (nonlinear_arith)
                requires
                    q == (-a) / (b as int),
                    b > 0,
                    -a > 0,
            ;
        }
        -(q as i128)
    }
}

/// Smallest `s` with `s * s >= n`.
pub fn ceil_sqrt(n: u64) -> (s: u64)
    requires
        n <= 0x100_0000_0000,
    ensures
        is_ceil_sqrt(n as int, s as int),
        s <= 0x10_0000,
{
    let mut lo: u64 = 0;
    let mut hi: u64 = 0x10_0000;
    assert(0x10_0000 * 0x10_0000 == 0x100_0000_0000);
    while lo < hi
        invariant
            lo <= hi <= 0x10_0000,
            n <= hi * hi,
            lo == 0 || (lo - 1) * (lo - 1) < n,
        decreases hi - lo,
    {
        let mid = lo + (hi - lo) / 2;
        assert(mid * mid <= 0x100_0000_0000) by (nonlinear_arith)
            requires
                mid <= 0x10_0000,
        ;
        if mid * mid >= n {
            hi = mid;
        } else {
            lo = mid + 1;
        }
    }
    lo
}

/// Every component of `u` has magnitude at most `k`.
pub open spec fn bounded(u: IVec, k: int) -> bool {
    &&& abs(u.0) <= k
    &&& abs(u.1) <= k
    &&& abs(u.2) <= k
}

pub open spec fn wv(t: (i128, i128, i128)) -> IVec {
    (t.0 as int, t.1 as int, t.2 as int)
}

proof fn lemma_mul_abs(x: int, y: int, a: int, b: int)
    requires
        abs(x) <= a,
        abs(y) <= b,
    ensures
        abs(x * y) <= a * b,
{
    assert(abs(x * y) == abs(x) * abs(y)) by (nonlinear_arith);
    assert(abs(x) * abs(y) <= a * b) by (nonlinear_arith)
        requires
            0 <= abs(x) <= a,
            0 <= abs(y) <= b,
    ;
}

proof fn lemma_cross_bound(u: IVec, v: IVec, a: int, b: int)
    requires
        bounded(u, a),
        bounded(v, b),
    ensures
        bounded(cross(u, v), 2 * a * b),
{
    lemma_mul_abs(u.1, v.2, a, b);
    lemma_mul_abs(u.2, v.1, a, b);
    lemma_mul_abs(u.2, v.0, a, b);
    lemma_mul_abs(u.0, v.2, a, b);
    lemma_mul_abs(u.0, v.1, a, b);
    lemma_mul_abs(u.1, v.0, a, b);
    assert(2 * a * b == a * b + a * b) by (nonlinear_arith);
}

proof fn lemma_dot_bound(u: IVec, v: IVec, a: int, b: int)
    requires
        bounded(u, a),
        bounded(v, b),
    ensures
        abs(dot(u, v)) <= 3 * a * b,
{
    lemma_mul_abs(u.0, v.0, a, b);
    lemma_mul_abs(u.1, v.1, a, b);
    lemma_mul_abs(u.2, v.2, a, b);
    assert(3 * a * b == a * b + a * b + a * b) by (nonlinear_arith);
}

/// Bound on the components that the exact helpers below accept.
pub const WIDE_LIMIT: i128 = 0x100_0000_0000;

fn widen(v: Vec3) -> (r: (i128, i128, i128))
    ensures
        wv(r) == iv(v),
{
    (v.x as i128, v.y as i128, v.z as i128)
}

fn sub3(u: (i128, i128, i128), v: (i128, i128, i128)) -> (r: (i128, i128, i128))
    requires
        bounded(wv(u), WIDE_LIMIT as int),
        bounded(wv(v), WIDE_LIMIT as int),
    ensures
        wv(r) == vsub(wv(u), wv(v)),
{
    (u.0 - v.0, u.1 - v.1, u.2 - v.2)
}

fn dot3(u: (i128, i128, i128), v: (i128, i128, i128)) -> (r: i128)
    requires
        bounded(wv(u), WIDE_LIMIT as int),
        bounded(wv(v), WIDE_LIMIT as int),
    ensures
        r as int == dot(wv(u), wv(v)),
{
    proof {
        let k = WIDE_LIMIT as int;
        lemma_mul_abs(u.0 as int, v.0 as int, k, k);
        lemma_mul_abs(u.1 as int, v.1 as int, k, k);
        lemma_mul_abs(u.2 as int, v.2 as int, k, k);
    }
    u.0 * v.0 + u.1 * v.1 + u.2 * v.2
}

fn cross3(u: (i128, i128, i128), v: (i128, i128, i128)) -> (r: (i128, i128, i128))
    requires
        bounded(wv(u), WIDE_LIMIT as int),
        bounded(wv(v), WIDE_LIMIT as int),
    ensures
        wv(r) == cross(wv(u), wv(v)),
{
    proof {
        let k = WIDE_LIMIT as int;
        lemma_mul_abs(u.1 as int, v.2 as int, k, k);
        lemma_mul_abs(u.2 as int, v.1 as int, k, k);
        lemma_mul_abs(u.2 as int, v.0 as int, k, k);
        lemma_mul_abs(u.0 as int, v.2 as int, k, k);
        lemma_mul_abs(u.0 as int, v.1 as int, k, k);
        lemma_mul_abs(u.1 as int, v.0 as int, k, k);
    }
    (u.1 * v.2 - u.2 * v.1, u.2 * v.0 - u.0 * v.2, u.0 * v.1 - u.1 * v.0)
}

pub open spec fn max3(p: int, q: int, r: int) -> int {
    if p >= q && p >= r {
        p
    } else if q >= r {
        q
    } else {
        r
    }
}

/// The centroid of three points, rounded up to the integer grid.
pub open spec fn centroid_of(r: IVec, a: IVec, b: IVec) -> IVec {
    (ceil_div(r.0 + a.0 + b.0, 3), ceil_div(r.1 + a.1 + b.1, 3), ceil_div(r.2 + a.2 + b.2, 3))
}

/// The (unnormalised) normal `(a - r) x (b - r)`.
pub open spec fn normal_of(r: IVec, a: IVec, b: IVec) -> IVec {
    cross(vsub(a, r), vsub(b, r))
}

/// The largest squared distance from `m` to a vertex.
pub open spec fn reach2(m: IVec, r: IVec, a: IVec, b: IVec) -> int {
    max3(norm2(vsub(m, r)), norm2(vsub(m, a)), norm2(vsub(m, b)))
}

/// A mesh triangle with its vertices `r`, `a`, `b`, its normal, its centroid
/// and the radius of a sphere about the centroid that holds it.
#[derive(Clone, Copy, Debug, PartialEq, Eq, Structural)]
pub struct Face {
    pub r: Vec3,
    pub a: Vec3,
    pub b: Vec3,
    pub n: Vec3,
    pub m: Vec3,
    pub radius: i64,
}

/// Texture coordinates of the three vertices of a triangle, in units of `1 / UV_ONE`.
#[derive(Clone, Copy, Debug, PartialEq, Eq, Structural)]
pub struct UV {
    pub r: TexCoord,
    pub a: TexCoord,
    pub b: TexCoord,
}

/// A point of the texture plane, in units of `1 / UV_ONE`.
#[derive(Clone, Copy, Debug, PartialEq, Eq, Structural)]
pub struct TexCoord {
    pub u: i64,
    pub v: i64,
}

pub proof fn lemma_centroid_in_range(r: Vec3, a: Vec3, b: Vec3)
    requires
        r.in_range(),
        a.in_range(),
        b.in_range(),
    ensures
        bounded(centroid_of(iv(r), iv(a), iv(b)), COORD_LIMIT as int),
{
    let c = centroid_of(iv(r), iv(a), iv(b));
    let k = COORD_LIMIT as int;
    assert forall|s: int| -3 * k <= s <= 3 * k implies -k <= #[trigger] ceil_div(s, 3) <= k by {
        assert(-k <= -((-s) / 3) <= k) by (nonlinear_arith)
            requires
                -3 * k <= s <= 3 * k,
                k > 0,
        ;
    }
    assert(-k <= ceil_div(r.x + a.x + b.x, 3) <= k);
    assert(-k <= ceil_div(r.y + a.y + b.y, 3) <= k);
    assert(-k <= ceil_div(r.z + a.z + b.z, 3) <= k);
}

impl Face {
    /// The derived fields agree with the vertices, which lie in range.
    pub open spec fn wf(self) -> bool {
        &&& self.r.in_range()
        &&& self.a.in_range()
        &&& self.b.in_range()
        &&& iv(self.n) == normal_of(iv(self.r), iv(self.a), iv(self.b))
        &&& iv(self.m) == centroid_of(iv(self.r), iv(self.a), iv(self.b))
        &&& is_ceil_sqrt(reach2(iv(self.m), iv(self.r), iv(self.a), iv(self.b)), self.radius as int)
    }

    /// Builds a triangle and derives its normal, centroid and bounding radius.
    pub fn new(r: Vec3, a: Vec3, b: Vec3) -> (t: Face)
        requires
            r.in_range(),
            a.in_range(),
            b.in_range(),
        ensures
            t.wf(),
            t.r == r,
            t.a == a,
            t.b == b,
            0 <= t.radius <= 0x4_0000,
    {
        let ghost k = COORD_LIMIT as int;
        let wr = widen(r);
        let wa = widen(a);
        let wb = widen(b);
        let e1 = sub3(wa, wr);
        let e2 = sub3(wb, wr);
        proof {
            assert(bounded(wv(e1), 2 * k));
            assert(bounded(wv(e2), 2 * k));
            lemma_cross_bound(wv(e1), wv(e2), 2 * k, 2 * k);
        }
        let n = cross3(e1, e2);
        let mx = div_ceil(wr.0 + wa.0 + wb.0, 3);
        let my = div_ceil(wr.1 + wa.1 + wb.1, 3);
        let mz = div_ceil(wr.2 + wa.2 + wb.2, 3);
        proof {
            lemma_centroid_in_range(r, a, b);
        }
        let m = Vec3 { x: mx as i64, y: my as i64, z: mz as i64 };
        let wm = widen(m);
        let dr = sub3(wm, wr);
        let da = sub3(wm, wa);
        let db = sub3(wm, wb);
        proof {
            lemma_dot_bound(wv(dr), wv(dr), 2 * k, 2 * k);
            lemma_dot_bound(wv(da), wv(da), 2 * k, 2 * k);
            lemma_dot_bound(wv(db), wv(db), 2 * k, 2 * k);
        }
        let qr = dot3(dr, dr);
        let qa = dot3(da, da);
        let qb = dot3(db, db);
        let q = if qr >= qa && qr >= qb {
            qr
        } else if qa >= qb {
            qa
        } else {
            qb
        };
        proof {
            assert(0 <= qr) by (nonlinear_arith) requires qr == dr.0 * dr.0 + dr.1 * dr.1 + dr.2 * dr.2;
        }
        let radius = ceil_sqrt(q as u64);
        proof {
            let mi = iv(m);
            assert(bounded(vsub(mi, iv(r)), 0x2_0000));
            assert(bounded(vsub(mi, iv(a)), 0x2_0000));
            assert(bounded(vsub(mi, iv(b)), 0x2_0000));
            lemma_dot_bound(vsub(mi, iv(r)), vsub(mi, iv(r)), 0x2_0000, 0x2_0000);
            lemma_dot_bound(vsub(mi, iv(a)), vsub(mi, iv(a)), 0x2_0000, 0x2_0000);
            lemma_dot_bound(vsub(mi, iv(b)), vsub(mi, iv(b)), 0x2_0000, 0x2_0000);
            if radius > 0x4_0000 {
                assert(0x4_0000 * 0x4_0000 <= (radius - 1) * (radius - 1)) by (nonlinear_arith)
                    requires radius - 1 >= 0x4_0000;
            }
        }
        Face {
            r,
            a,
            b,
            n: Vec3 { x: n.0 as i64, y: n.1 as i64, z: n.2 as i64 },
            m,
            radius: radius as i64,
        }
    }
}

/// Every vertex of a well-formed triangle lies within its bounding radius of its centroid.
pub proof fn lemma_radius_covers_vertices(t: Face)
    requires
        t.wf(),
    ensures
        norm2(vsub(iv(t.r), iv(t.m))) <= t.radius * t.radius,
        norm2(vsub(iv(t.a), iv(t.m))) <= t.radius * t.radius,
        norm2(vsub(iv(t.b), iv(t.m))) <= t.radius * t.radius,
{
    let m = iv(t.m);
    assert forall|v: IVec| #[trigger] norm2(vsub(v, m)) == norm2(vsub(m, v)) by {
        assert(norm2(vsub(v, m)) == norm2(vsub(m, v))) by (nonlinear_arith);
    }
}

/// Barycentric coordinates `beta / den`, `gamma / den` of the point where a
/// ray meets the plane of a triangle, and the ray parameter `t / den` there.
#[derive(Clone, Copy, Debug, PartialEq, Eq, Structural)]
pub struct Barycentric {
    pub beta: i128,
    pub gamma: i128,
    pub t: i128,
    pub den: i128,
}

/// The value a degenerate solve reports: coordinates `(-1, -1)`, which no
/// containment test accepts.
pub open spec fn sentinel() -> Barycentric {
    Barycentric { beta: -1i128, gamma: -1i128, t: 0i128, den: 1i128 }
}

/// The system's determinant `d . n`; zero when the ray runs parallel to the
/// triangle's plane or the triangle has no area.
pub open spec fn det_of(t: Face, d: Vec3) -> int {
    dot(iv(d), iv(t.n))
}

pub open spec fn beta_num(t: Face, o: Vec3, d: Vec3) -> int {
    dot(vsub(iv(o), iv(t.r)), cross(vsub(iv(t.b), iv(t.r)), iv(d)))
}

pub open spec fn gamma_num(t: Face, o: Vec3, d: Vec3) -> int {
    dot(vsub(iv(t.a), iv(t.r)), cross(vsub(iv(o), iv(t.r)), iv(d)))
}

pub open spec fn t_num(t: Face, o: Vec3, d: Vec3) -> int {
    -dot(vsub(iv(o), iv(t.r)), iv(t.n))
}

/// Cramer's rule on `o + t d == r + beta (a - r) + gamma (b - r)`, with the
/// denominator made positive.
pub open spec fn solve(t: Face, o: Vec3, d: Vec3) -> (int, int, int, int) {
    let q = det_of(t, d);
    if q == 0 {
        (-1, -1, 0, 1)
    } else if q > 0 {
        (beta_num(t, o, d), gamma_num(t, o, d), t_num(t, o, d), q)
    } else {
        (-beta_num(t, o, d), -gamma_num(t, o, d), -t_num(t, o, d), -q)
    }
}

/// `solve` as a value of the exact width used at run time.
pub open spec fn bary_of(t: Face, o: Vec3, d: Vec3) -> Barycentric {
    let s = solve(t, o, d);
    Barycentric { beta: s.0 as i128, gamma: s.1 as i128, t: s.2 as i128, den: s.3 as i128 }
}

impl Barycentric {
    pub open spec fn ints(self) -> (int, int, int, int) {
        (self.beta as int, self.gamma as int, self.t as int, self.den as int)
    }

    /// The coordinates lie in the triangle: `beta, gamma >= 0` and `beta + gamma <= 1`.
    pub open spec fn inside(self) -> bool {
        &&& self.den > 0
        &&& self.beta >= 0
        &&& self.gamma >= 0
        &&& self.beta + self.gamma <= self.den
    }

    pub fn is_inside(&self) -> (r: bool)
        requires
            -0x1_0000_0000_0000_0000 <= self.beta <= 0x1_0000_0000_0000_0000,
            -0x1_0000_0000_0000_0000 <= self.gamma <= 0x1_0000_0000_0000_0000,
        ensures
            r == self.inside(),
    {
        self.den > 0 && self.beta >= 0 && self.gamma >= 0 && self.beta + self.gamma <= self.den
    }
}

/// Magnitude bound on every field of a solve of in-range inputs.
pub const SOLVE_LIMIT: i128 = 0x40_0000_0000_0000;

pub proof fn lemma_solve_bounds(t: Face, o: Vec3, d: Vec3)
    requires
        t.wf(),
        o.in_range(),
        d.in_range(),
    ensures
        abs(det_of(t, d)) <= SOLVE_LIMIT,
        abs(beta_num(t, o, d)) <= SOLVE_LIMIT,
        abs(gamma_num(t, o, d)) <= SOLVE_LIMIT,
        abs(t_num(t, o, d)) <= SOLVE_LIMIT,
        bounded(iv(t.n), 0x8_0000_0000),
{
    let e1 = vsub(iv(t.a), iv(t.r));
    let e2 = vsub(iv(t.b), iv(t.r));
    let s = vsub(iv(o), iv(t.r));
    assert(bounded(e1, 0x2_0000));
    assert(bounded(e2, 0x2_0000));
    assert(bounded(s, 0x2_0000));
    assert(bounded(iv(d), 0x1_0000));
    lemma_cross_bound(e1, e2, 0x2_0000, 0x2_0000);
    lemma_cross_bound(e2, iv(d), 0x2_0000, 0x1_0000);
    lemma_cross_bound(s, iv(d), 0x2_0000, 0x1_0000);
    lemma_dot_bound(iv(d), iv(t.n), 0x1_0000, 0x8_0000_0000);
    lemma_dot_bound(s, cross(e2, iv(d)), 0x2_0000, 0x4_0000_0000);
    lemma_dot_bound(e1, cross(s, iv(d)), 0x2_0000, 0x4_0000_0000);
    lemma_dot_bound(s, iv(t.n), 0x2_0000, 0x8_0000_0000);
}

impl Face {
    /// Solves for the barycentric coordinates of the point where the ray
    /// `o + t d` meets the triangle's plane. A zero determinant (ray parallel
    /// to the plane, or a triangle without area) gives the sentinel `(-1, -1)`.
    pub fn get_beta_gamma(&self, o: Vec3, d: Vec3) -> (r: Barycentric)
        requires
            self.wf(),
            o.in_range(),
            d.in_range(),
        ensures
            r.ints() == solve(*self, o, d),
            r == bary_of(*self, o, d),
            det_of(*self, d) == 0 ==> r == sentinel(),
            r.den > 0,
            abs(r.beta as int) <= SOLVE_LIMIT,
            abs(r.gamma as int) <= SOLVE_LIMIT,
            abs(r.t as int) <= SOLVE_LIMIT,
            r.den <= SOLVE_LIMIT,
    {
        proof {
            lemma_solve_bounds(*self, o, d);
        }
        let ghost k = COORD_LIMIT as int;
        let wr = widen(self.r);
        let wa = widen(self.a);
        let wb = widen(self.b);
        let wo = widen(o);
        let wd = widen(d);
        let wn = widen(self.n);
        let q = dot3(wd, wn);
        if q == 0 {
            return Barycentric { beta: -1, gamma: -1, t: 0, den: 1 };
        }
        let e1 = sub3(wa, wr);
        let e2 = sub3(wb, wr);
        let s = sub3(wo, wr);
        proof {
            lemma_cross_bound(wv(e2), wv(wd), 2 * k, k);
            lemma_cross_bound(wv(s), wv(wd), 2 * k, k);
        }
        let c2 = cross3(e2, wd);
        let cs = cross3(s, wd);
        let beta = dot3(s, c2);
        let gamma = dot3(e1, cs);
        let t = -dot3(s, wn);
        if q > 0 {
            Barycentric { beta, gamma, t, den: q }
        } else {
            Barycentric { beta: -beta, gamma: -gamma, t: -t, den: -q }
        }
    }
}

proof fn lemma_dist(a: int, b: int, c: int)
    ensures
        a * (b - c) == a * b - a * c,
        a * (b + c) == a * b + a * c,
{
    assert(a * (b - c) == a * b - a * c) by (nonlinear_arith);
    assert(a * (b + c) == a * b + a * c) by (nonlinear_arith);
}

proof fn lemma_assoc(a: int, b: int, c: int)
    ensures
        a * (b * c) == a * b * c,
        a * (b * c) == b * (c * a),
        a * (b * c) == c * (a * b),
        a * (b * c) == a * (c * b),
{
    assert(a * (b * c) == a * b * c) by (nonlinear_arith);
    assert(a * (b * c) == b * (c * a)) by (nonlinear_arith);
    assert(a * (b * c) == c * (a * b)) by (nonlinear_arith);
    assert(a * (b * c) == a * (c * b)) by (nonlinear_arith);
}

proof fn lemma_triple_cyclic(u: IVec, v: IVec, w: IVec)
    ensures
        dot(u, cross(v, w)) == dot(v, cross(w, u)),
        dot(u, cross(v, w)) == dot(w, cross(u, v)),
{
    let (u0, u1, u2) = u;
    let (v0, v1, v2) = v;
    let (w0, w1, w2) = w;
    lemma_dist(u0, v1 * w2, v2 * w1);
    lemma_dist(u1, v2 * w0, v0 * w2);
    lemma_dist(u2, v0 * w1, v1 * w0);
    lemma_dist(v0, w1 * u2, w2 * u1);
    lemma_dist(v1, w2 * u0, w0 * u2);
    lemma_dist(v2, w0 * u1, w1 * u0);
    lemma_dist(w0, u1 * v2, u2 * v1);
    lemma_dist(w1, u2 * v0, u0 * v2);
    lemma_dist(w2, u0 * v1, u1 * v0);
    lemma_assoc(u0, v1, w2);
    lemma_assoc(u0, v2, w1);
    lemma_assoc(u1, v2, w0);
    lemma_assoc(u1, v0, w2);
    lemma_assoc(u2, v0, w1);
    lemma_assoc(u2, v1, w0);
    lemma_assoc(v0, w1, u2);
    lemma_assoc(v0, w2, u1);
    lemma_assoc(v1, w2, u0);
    lemma_assoc(v1, w0, u2);
    lemma_assoc(v2, w0, u1);
    lemma_assoc(v2, w1, u0);
    lemma_assoc(w0, u1, v2);
    lemma_assoc(w0, u2, v1);
    lemma_assoc(w1, u2, v0);
    lemma_assoc(w1, u0, v2);
    lemma_assoc(w2, u0, v1);
    lemma_assoc(w2, u1, v0);
}

proof fn lemma_triple_zero(u: IVec, w: IVec)
    ensures
        dot(u, cross(u, w)) == 0,
        dot(w, cross(u, w)) == 0,
{
    let (u0, u1, u2) = u;
    let (w0, w1, w2) = w;
    lemma_dist(u0, u1 * w2, u2 * w1);
    lemma_dist(u1, u2 * w0, u0 * w2);
    lemma_dist(u2, u0 * w1, u1 * w0);
    lemma_dist(w0, u1 * w2, u2 * w1);
    lemma_dist(w1, u2 * w0, u0 * w2);
    lemma_dist(w2, u0 * w1, u1 * w0);
    lemma_assoc(u0, u1, w2);
    lemma_assoc(u0, u2, w1);
    lemma_assoc(u1, u2, w0);
    lemma_assoc(u1, u0, w2);
    lemma_assoc(u2, u0, w1);
    lemma_assoc(u2, u1, w0);
    lemma_assoc(w0, u1, w2);
    lemma_assoc(w0, u2, w1);
    lemma_assoc(w1, u2, w0);
    lemma_assoc(w1, u0, w2);
    lemma_assoc(w2, u0, w1);
    lemma_assoc(w2, u1, w0);
}

proof fn lemma_dot_combination(s: IVec, u: IVec, v: IVec, w: IVec, p: IVec, k: int, b: int, g: int, t: int)
    requires
        k * s.0 + t * w.0 == b * u.0 + g * v.0,
        k * s.1 + t * w.1 == b * u.1 + g * v.1,
        k * s.2 + t * w.2 == b * u.2 + g * v.2,
    ensures
        k * dot(s, p) == b * dot(u, p) + g * dot(v, p) - t * dot(w, p),
{
    let (q0, q1, q2) = p;
    let (s0, s1, s2) = s;
    let (u0, u1, u2) = u;
    let (v0, v1, v2) = v;
    let (w0, w1, w2) = w;
    lemma_combination_term(k, s0, t, w0, b, u0, g, v0, q0);
    lemma_combination_term(k, s1, t, w1, b, u1, g, v1, q1);
    lemma_combination_term(k, s2, t, w2, b, u2, g, v2, q2);
    lemma_dist(k, s0 * q0 + s1 * q1, s2 * q2);
    lemma_dist(k, s0 * q0, s1 * q1);
    lemma_dist(b, u0 * q0 + u1 * q1, u2 * q2);
    lemma_dist(b, u0 * q0, u1 * q1);
    lemma_dist(g, v0 * q0 + v1 * q1, v2 * q2);
    lemma_dist(g, v0 * q0, v1 * q1);
    lemma_dist(t, w0 * q0 + w1 * q1, w2 * q2);
    lemma_dist(t, w0 * q0, w1 * q1);
}

proof fn lemma_combination_term(k: int, s: int, t: int, w: int, b: int, u: int, g: int, v: int, p: int)
    requires
        k * s + t * w == b * u + g * v,
    ensures
        k * (s * p) == b * (u * p) + g * (v * p) - t * (w * p),
{
    assert((k * s + t * w) * p == (b * u + g * v) * p);
    assert((k * s + t * w) * p == k * s * p + t * w * p) by (nonlinear_arith);
    assert((b * u + g * v) * p == b * u * p + g * v * p) by (nonlinear_arith);
    lemma_assoc(k, s, p);
    lemma_assoc(t, w, p);
    lemma_assoc(b, u, p);
    lemma_assoc(g, v, p);
}

/// A ray that is not parallel to a triangle's plane and passes through a
/// point of the triangle gets back exactly that point's barycentric
/// coordinates, and they pass the containment test. The point on the ray is
/// `o + (tn / k) d`, the point of the triangle `r + (bn / k)(a - r) + (gn / k)(b - r)`.
pub proof fn lemma_inside_point_found(t: Face, o: Vec3, d: Vec3, k: int, bn: int, gn: int, tn: int)
    requires
        t.wf(),
        o.in_range(),
        d.in_range(),
        k > 0,
        0 <= bn,
        0 <= gn,
        bn + gn <= k,
        det_of(t, d) != 0,
        k * (o.x - t.r.x) + tn * d.x == bn * (t.a.x - t.r.x) + gn * (t.b.x - t.r.x),
        k * (o.y - t.r.y) + tn * d.y == bn * (t.a.y - t.r.y) + gn * (t.b.y - t.r.y),
        k * (o.z - t.r.z) + tn * d.z == bn * (t.a.z - t.r.z) + gn * (t.b.z - t.r.z),
    ensures
        ({
            let (beta, gamma, tt, den) = solve(t, o, d);
            &&& den > 0
            &&& beta * k == bn * den
            &&& gamma * k == gn * den
            &&& tt * k == tn * den
            &&& 0 <= beta
            &&& 0 <= gamma
            &&& beta + gamma <= den
        }),
{
    let e1 = vsub(iv(t.a), iv(t.r));
    let e2 = vsub(iv(t.b), iv(t.r));
    let s = vsub(iv(o), iv(t.r));
    let dd = iv(d);
    let n = iv(t.n);
    let q = det_of(t, d);
    lemma_triple_cyclic(e1, e2, dd);
    lemma_triple_cyclic(dd, e1, e2);
    lemma_triple_cyclic(e1, s, dd);
    lemma_triple_zero(e2, dd);
    lemma_triple_zero(dd, e1);
    lemma_triple_zero(e1, e2);
    lemma_dot_combination(s, e1, e2, dd, cross(e2, dd), k, bn, gn, tn);
    lemma_dot_combination(s, e1, e2, dd, cross(dd, e1), k, bn, gn, tn);
    lemma_dot_combination(s, e1, e2, dd, n, k, bn, gn, tn);
    assert(k * beta_num(t, o, d) == bn * q);
    assert(k * gamma_num(t, o, d) == gn * q);
    assert(n == cross(e1, e2));
    assert(dot(e1, n) == 0 && dot(e2, n) == 0);
    assert(bn * dot(e1, n) == 0 && gn * dot(e2, n) == 0) by (nonlinear_arith)
        requires dot(e1, n) == 0 && dot(e2, n) == 0;
    assert(k * t_num(t, o, d) == -(k * dot(s, n))) by (nonlinear_arith)
        requires t_num(t, o, d) == -dot(s, n);
    assert(q == dot(dd, n));
    assert(k * t_num(t, o, d) == tn * q);
    let (beta, gamma, tt, den) = solve(t, o, d);
    assert(beta * k == bn * den && gamma * k == gn * den && tt * k == tn * den) by (nonlinear_arith)
        requires
            k * beta_num(t, o, d) == bn * q,
            k * gamma_num(t, o, d) == gn * q,
            k * t_num(t, o, d) == tn * q,
            q > 0 ==> beta == beta_num(t, o, d) && gamma == gamma_num(t, o, d) && tt == t_num(t, o, d) && den == q,
            q < 0 ==> beta == -beta_num(t, o, d) && gamma == -gamma_num(t, o, d) && tt == -t_num(t, o, d) && den == -q,
            q != 0,
    ;
    assert(0 <= beta && 0 <= gamma && beta + gamma <= den) by (nonlinear_arith)
        requires
            beta * k == bn * den,
            gamma * k == gn * den,
            den > 0,
            k > 0,
            0 <= bn,
            0 <= gn,
            bn + gn <= k,
    ;
}

/// The bounding-sphere pre-filter: the sphere's centre is not behind the ray
/// origin, and its distance from the ray's line is at most `radius`
/// (`|(m - o) x d| <= radius |d|`, compared squared).
pub open spec fn sphere_admits(m: Vec3, radius: int, o: Vec3, d: Vec3) -> bool {
    let to_m = vsub(iv(m), iv(o));
    &&& dot(to_m, iv(d)) >= 0
    &&& norm2(cross(to_m, iv(d))) <= radius * radius * norm2(iv(d))
}

/// Largest bounding radius the pre-filter accepts.
pub const RADIUS_LIMIT: i64 = 0x100_0000;

/// Cheap rejection of a bounding sphere `(m, radius)` for the ray `o + t d`.
pub fn is_colliding(m: Vec3, radius: i64, o: Vec3, d: Vec3) -> (r: bool)
    requires
        m.in_range(),
        o.in_range(),
        d.in_range(),
        0 <= radius <= RADIUS_LIMIT,
    ensures
        r == sphere_admits(m, radius as int, o, d),
{
    let ghost k = COORD_LIMIT as int;
    let to_m = sub3(widen(m), widen(o));
    let wd = widen(d);
    proof {
        lemma_dot_bound(wv(to_m), wv(wd), 2 * k, k);
    }
    let proj = dot3(to_m, wd);
    if proj < 0 {
        return false;
    }
    proof {
        lemma_cross_bound(wv(to_m), wv(wd), 2 * k, k);
    }
    let c = cross3(to_m, wd);
    proof {
        lemma_dot_bound(wv(c), wv(c), 2 * (2 * k) * k, 2 * (2 * k) * k);
        lemma_dot_bound(wv(wd), wv(wd), k, k);
    }
    let c2 = dot3(c, c);
    let d2 = dot3(wd, wd);
    let rr = radius as i128;
    proof {
        assert(0 <= d2) by (nonlinear_arith) requires d2 == wd.0 * wd.0 + wd.1 * wd.1 + wd.2 * wd.2;
        assert(rr * rr <= 0x1_0000_0000_0000) by (nonlinear_arith) requires 0 <= rr <= 0x100_0000;
        assert(rr * rr * d2 <= 0x1_0000_0000_0000 * 0x3_0000_0000) by (nonlinear_arith)
            requires 0 <= rr * rr <= 0x1_0000_0000_0000, 0 <= d2 <= 0x3_0000_0000;
        assert(0 <= rr * rr * d2) by (nonlinear_arith) requires 0 <= rr * rr, 0 <= d2;
    }
    c2 <= rr * rr * d2
}

impl Face {
    /// The bounding-sphere pre-filter applied to this triangle.
    pub fn is_colliding(&self, o: Vec3, d: Vec3) -> (r: bool)
        requires
            self.wf(),
            self.radius <= RADIUS_LIMIT,
            o.in_range(),
            d.in_range(),
        ensures
            r == sphere_admits(self.m, self.radius as int, o, d),
    {
        proof {
            lemma_centroid_in_range(self.r, self.a, self.b);
        }
        is_colliding(self.m, self.radius, o, d)
    }
}

/// Largest magnitude of a texture coordinate.
pub const UV_LIMIT: i64 = 0x10_0000;

pub open spec fn tex_ok(c: TexCoord) -> bool {
    -UV_LIMIT <= c.u <= UV_LIMIT && -UV_LIMIT <= c.v <= UV_LIMIT
}

pub open spec fn uv_ok(uv: UV) -> bool {
    tex_ok(uv.r) && tex_ok(uv.a) && tex_ok(uv.b)
}

} // verus!
