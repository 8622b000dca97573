//! Integer rasterisation of lines and circles onto a `Raster`.
use vstd::prelude::*;
use crate::canvas::Color;
use crate::raster::Raster;

verus! {

/// Largest circle radius: the midpoint decision term, about `2 r^2`, stays
/// within `i32`.
pub const CIRCLE_RADIUS_LIMIT: i32 = 0x6000;

/// Namespace of the rasterisation routines.
pub struct Drawing;

/// The pixels `(x, y)` with `x0 <= x <= x1`.
pub open spec fn span(x0: int, x1: int, y: int) -> Set<(int, int)> {
    Set::new(|p: (int, int)| x0 <= p.0 <= x1 && p.1 == y)
}

/// The eight mirror images of `(x, y)` about the centre `(xc, yc)`.
pub open spec fn octant_points(xc: int, yc: int, x: int, y: int) -> Set<(int, int)> {
    set![
        (xc + x, yc + y), (xc - x, yc + y), (xc + x, yc - y), (xc - x, yc - y),
        (xc + y, yc + x), (xc - y, yc + x), (xc + y, yc - x), (xc - y, yc - x),
    ]
}

/// The four horizontal spans that fill the circle between the mirror images of `(x, y)`.
pub open spec fn filled_rows(xc: int, yc: int, x: int, y: int) -> Set<(int, int)> {
    span(xc - x, xc + x, yc + y) + span(xc - x, xc + x, yc - y) + span(xc - y, xc + y, yc + x)
        + span(xc - y, xc + y, yc - x)
}

/// One step of the midpoint decision rule.
pub open spec fn midpoint_step(x: int, y: int, d: int) -> (int, int, int) {
    if d < 0 {
        (x + 1, y, d + 2 * x + 3)
    } else {
        (x + 1, y - 1, d + 2 * (x - y) + 5)
    }
}

pub open spec fn arc_measure(x: int, y: int) -> int {
    if x <= y { y - x + 1 } else { 0 }
}

/// The points `(x, y)` the midpoint rule visits from the given state on.
pub open spec fn midpoint_arc(x: int, y: int, d: int) -> Set<(int, int)>
    decreases arc_measure(x, y),
{
    if x > y {
        Set::empty()
    } else {
        let (x2, y2, d2) = midpoint_step(x, y, d);
        midpoint_arc(x2, y2, d2).insert((x, y))
    }
}

/// The outline of the midpoint circle of `radius` about `(xc, yc)`.
pub open spec fn circle_outline(xc: int, yc: int, radius: int) -> Set<(int, int)> {
    Set::new(
        |p: (int, int)|
            exists|q: (int, int)| #[trigger]
                midpoint_arc(0, radius, 1 - radius).contains(q) && octant_points(xc, yc, q.0, q.1).contains(p),
    )
}

/// The filled midpoint disc of `radius` about `(xc, yc)`.
pub open spec fn filled_disc(xc: int, yc: int, radius: int) -> Set<(int, int)> {
    Set::new(
        |p: (int, int)|
            exists|q: (int, int)| #[trigger]
                midpoint_arc(0, radius, 1 - radius).contains(q) && filled_rows(xc, yc, q.0, q.1).contains(p),
    )
}

/// The pixels `(x, y)` with `0 <= x < width` and `0 <= y < height`.
pub open spec fn on_screen(width: int, height: int) -> Set<(int, int)> {
    Set::new(|p: (int, int)| 0 <= p.0 < width && 0 <= p.1 < height)
}

pub open spec fn abs(a: int) -> int {
    if a < 0 { -a } else { a }
}

pub open spec fn line_measure(x: int, y: int, ex: int, ey: int) -> int {
    abs(ex - x) + abs(ey - y)
}

/// The points Bresenham's walk visits from `(x, y)` with error term `err`
/// towards `(ex, ey)`; `dx >= 0 >= dy` are the spans, `sx`, `sy` the steps.
pub open spec fn bresenham_walk(
    x: int,
    y: int,
    err: int,
    ex: int,
    ey: int,
    dx: int,
    dy: int,
    sx: int,
    sy: int,
) -> Set<(int, int)>
    decreases line_measure(x, y, ex, ey),
{
    let here = set![(x, y)];
    let e2 = 2 * err;
    if x == ex && y == ey {
        here
    } else if e2 >= dy && x == ex {
        here
    } else {
        let x1 = if e2 >= dy { x + sx } else { x };
        let err1 = if e2 >= dy { err + dy } else { err };
        if e2 <= dx && y == ey {
            here
        } else {
            let y1 = if e2 <= dx { y + sy } else { y };
            let err2 = if e2 <= dx { err1 + dx } else { err1 };
            if line_measure(x1, y1, ex, ey) < line_measure(x, y, ex, ey) {
                here + bresenham_walk(x1, y1, err2, ex, ey, dx, dy, sx, sy)
            } else {
                here
            }
        }
    }
}

/// The points of Bresenham's line from `start` to `end`.
pub open spec fn bresenham_line(start: (int, int), end: (int, int)) -> Set<(int, int)> {
    let dx = abs(end.0 - start.0);
    let dy = -abs(end.1 - start.1);
    let sx = if start.0 < end.0 { 1int } else { -1int };
    let sy = if start.1 < end.1 { 1int } else { -1int };
    bresenham_walk(start.0, start.1, dx + dy, end.0, end.1, dx, dy, sx, sy)
}

/// `n` is `|a| / sqrt(l)` rounded to the nearest integer, halves away from
/// zero; zero when `l` is zero.
pub open spec fn is_round_quot(a: int, l: int, n: int) -> bool {
    if l == 0 {
        n == 0
    } else {
        &&& 0 <= n
        &&& 4 * a * a < (2 * n + 1) * (2 * n + 1) * l
        &&& (n == 0 || (2 * n - 1) * (2 * n - 1) * l <= 4 * a * a)
    }
}

pub open spec fn round_quot(a: int, l: int) -> int {
    choose|n: int| is_round_quot(a, l, n)
}

/// Horizontal offset from the centre to one end of the perpendicular
/// segment: `-(dy / length) * (width / 2)`, rounded.
pub open spec fn shift_x(start: (i32, i32), end: (i32, i32), width: int) -> int {
    let dx = end.0 - start.0;
    let dy = end.1 - start.1;
    let n = round_quot(abs(dy) * (width / 2), dx * dx + dy * dy);
    if dy > 0 { -n } else { n }
}

/// Vertical offset: `(dx / length) * (width / 2)`, rounded.
pub open spec fn shift_y(start: (i32, i32), end: (i32, i32), width: int) -> int {
    let dx = end.0 - start.0;
    let dy = end.1 - start.1;
    let n = round_quot(abs(dx) * (width / 2), dx * dx + dy * dy);
    if dx < 0 { -n } else { n }
}

/// The on-screen pixels of the lines `q -> q + (dx, dy)` drawn from each
/// on-screen point `q` of `starts`.
pub open spec fn sweep(starts: Set<(int, int)>, dx: int, dy: int, w: int, h: int) -> Set<(int, int)> {
    Set::new(
        |p: (int, int)|
            exists|q: (int, int)| #[trigger]
                starts.contains(q) && on_screen(w, h).contains(q) && bresenham_line(q, (q.0 + dx, q.1 + dy)).intersect(
                    on_screen(w, h),
                ).contains(p),
    )
}

proof fn lemma_sweep_insert(starts: Set<(int, int)>, q: (int, int), dx: int, dy: int, w: int, h: int)
    ensures
        sweep(starts.insert(q), dx, dy, w, h) == if on_screen(w, h).contains(q) {
            sweep(starts, dx, dy, w, h) + bresenham_line(q, (q.0 + dx, q.1 + dy)).intersect(on_screen(w, h))
        } else {
            sweep(starts, dx, dy, w, h)
        },
{
    let old_s = sweep(starts, dx, dy, w, h);
    let new_s = sweep(starts.insert(q), dx, dy, w, h);
    let line = bresenham_line(q, (q.0 + dx, q.1 + dy)).intersect(on_screen(w, h));
    let rhs = if on_screen(w, h).contains(q) { old_s + line } else { old_s };
    assert forall|p: (int, int)| #[trigger] new_s.contains(p) == rhs.contains(p) by {
        if new_s.contains(p) {
            let q2 = choose|q2: (int, int)| #[trigger]
                starts.insert(q).contains(q2) && on_screen(w, h).contains(q2) && bresenham_line(q2, (q2.0 + dx, q2.1 + dy)).intersect(
                    on_screen(w, h),
                ).contains(p);
            if q2 != q {
                assert(starts.contains(q2));
            }
        }
        if old_s.contains(p) {
            let q2 = choose|q2: (int, int)| #[trigger]
                starts.contains(q2) && on_screen(w, h).contains(q2) && bresenham_line(q2, (q2.0 + dx, q2.1 + dy)).intersect(
                    on_screen(w, h),
                ).contains(p);
            assert(starts.insert(q).contains(q2));
        }
        if on_screen(w, h).contains(q) && line.contains(p) {
            assert(starts.insert(q).contains(q));
        }
    }
    assert(new_s =~= rhs);
}

/// The pixels of a line `width` thick from `start` to `end` on a `w x h` screen.
pub open spec fn thick_line(start: (i32, i32), end: (i32, i32), width: int, w: int, h: int) -> Set<(int, int)> {
    let lx = shift_x(start, end, width);
    let ly = shift_y(start, end, width);
    let from = (start.0 - lx, start.1 - ly);
    let to = (start.0 + lx, start.1 + ly);
    sweep(bresenham_line(from, to), end.0 - start.0, end.1 - start.1, w, h) + filled_disc(
        start.0 as int,
        start.1 as int,
        width / 2,
    ) + filled_disc(end.0 as int, end.1 as int, width / 2)
}

/// `|a| / sqrt(l)` rounded to the nearest integer (see `is_round_quot`),
/// where the quotient is known to be at most `h`.
fn round_quot_sqrt(a: u64, l: u64, h: u64) -> (n: u64)
    requires
        a <= 0x100_0000_0000,
        l <= 0x10_0000_0000_0000,
        h <= 0x10_0000,
        a * a <= l * h * h,
    ensures
        is_round_quot(a as int, l as int, n as int),
        n == round_quot(a as int, l as int),
        n <= h,
{
    if l == 0 {
        proof {
            lemma_round_quot_unique(a as int, l as int, 0, round_quot(a as int, l as int));
        }
        return 0;
    }
    proof {
        assert((a as u128) * (a as u128) <= 0x1_0000_0000_0000_0000_0000) by (nonlinear_arith)
            requires a <= 0x100_0000_0000;
    }
    let aa = (a as u128) * (a as u128) * 4;
    proof {
        assert(aa == 4 * a * a) by (nonlinear_arith) requires aa == (a as int) * (a as int) * 4;
    }
    let mut lo: u64 = 0;
    let mut hi: u64 = h;
    proof {
        let ai = a as int;
        let hh = h as int;
        assert(4 * ai * ai < (2 * hh + 1) * (2 * hh + 1) * l) by (nonlinear_arith)
            requires ai * ai <= l * hh * hh, hh >= 0, l >= 1;
    }
    while lo < hi
        invariant
            lo <= hi <= h,
            h <= 0x10_0000,
            l >= 1,
            l <= 0x10_0000_0000_0000,
            aa == 4 * a * a,
            4 * a * a < (2 * hi + 1) * (2 * hi + 1) * l,
            lo == 0 || (2 * lo - 1) * (2 * lo - 1) * l <= 4 * a * a,
        decreases hi - lo,
    {
        let mid = lo + (hi - lo) / 2;
        let k = 2 * (mid as u128) + 1;
        proof {
            assert(k * k <= 0x40_0000 * 0x40_0000) by (nonlinear_arith)
                requires 0 <= k <= 0x40_0000;
            assert(k * k * l <= 0x1000_0000_0000 * 0x10_0000_0000_0000) by (nonlinear_arith)
                requires 0 <= k * k <= 0x1000_0000_0000, 0 <= l <= 0x10_0000_0000_0000;
            assert(0 <= k * k) by (nonlinear_arith);
        }
        if aa < k * k * (l as u128) {
            hi = mid;
        } else {
            lo = mid + 1;
        }
    }
    proof {
        lemma_round_quot_unique(a as int, l as int, lo as int, round_quot(a as int, l as int));
    }
    lo
}

proof fn lemma_round_quot_unique(a: int, l: int, n: int, m: int)
    requires
        is_round_quot(a, l, n),
        l >= 0,
    ensures
        is_round_quot(a, l, round_quot(a, l)),
        round_quot(a, l) == n,
{
    let c = round_quot(a, l);
    assert(is_round_quot(a, l, c));
    if l != 0 {
        if c < n {
            assert((2 * c + 1) * (2 * c + 1) * l <= (2 * n - 1) * (2 * n - 1) * l) by (nonlinear_arith)
                requires 0 <= c, c + 1 <= n, l > 0;
        } else if n < c {
            assert((2 * n + 1) * (2 * n + 1) * l <= (2 * c - 1) * (2 * c - 1) * l) by (nonlinear_arith)
                requires 0 <= n, n + 1 <= c, l > 0;
        }
    }
}

proof fn lemma_square_le(x: int, k: int)
    requires
        -k <= x <= k,
    ensures
        0 <= x * x <= k * k,
{
    if x >= 0 {
        assert(x * x <= k * x <= k * k) by (nonlinear_arith) requires 0 <= x <= k;
    } else {
        assert((-x) * (-x) <= k * k) by (nonlinear_arith) requires 0 < -x <= k;
        assert(x * x == (-x) * (-x)) by (nonlinear_arith);
    }
    assert(0 <= x * x) by (nonlinear_arith);
}

/// Every point the midpoint rule visits from a state that satisfies the
/// rule's invariant lies in the ring `(r - 1)^2 < x^2 + y^2 < (r + 1)^2`.
proof fn lemma_arc_ring(x: int, y: int, d: int, r: int)
    requires
        r > 0,
        0 <= x,
        y <= r,
        d == x * x + 2 * x + 1 + y * y - y - r * r,
        x <= y ==> 2 * x + 1 - 2 * y <= d <= 2 * x,
    ensures
        forall|q: (int, int)| #[trigger] midpoint_arc(x, y, d).contains(q) ==> (r - 1) * (r - 1) < q.0 * q.0 + q.1 * q.1 < (
        r + 1) * (r + 1),
    decreases arc_measure(x, y),
{
    if x <= y {
        let (x2, y2, d2) = midpoint_step(x, y, d);
        assert(d2 == x2 * x2 + 2 * x2 + 1 + y2 * y2 - y2 - r * r) by (nonlinear_arith)
            requires
                d == x * x + 2 * x + 1 + y * y - y - r * r,
                (x2, y2, d2) == midpoint_step(x, y, d),
        ;
        lemma_arc_ring(x2, y2, d2, r);
        assert(midpoint_arc(x, y, d) == midpoint_arc(x2, y2, d2).insert((x, y)));
        let e = x * x + y * y - r * r;
        assert(-y <= e <= y - 1);
        assert((r - 1) * (r - 1) < x * x + y * y < (r + 1) * (r + 1)) by (nonlinear_arith)
            requires
                e == x * x + y * y - r * r,
                -y <= e <= y - 1,
                0 <= x <= y <= r,
                r > 0,
        ;
    } else {
        assert(midpoint_arc(x, y, d) =~= Set::empty());
    }
}

/// The outline of a midpoint circle of positive radius keeps to the ring
/// `(r - 1)^2 < dx^2 + dy^2 < (r + 1)^2` about its centre, and holds the
/// four points at distance `r` on the axes.
pub proof fn lemma_circle_ring(xc: int, yc: int, r: int, p: (int, int))
    requires
        0 < r,
    ensures
        circle_outline(xc, yc, r).contains(p) ==> (r - 1) * (r - 1) < (p.0 - xc) * (p.0 - xc) + (p.1 - yc) * (
        p.1 - yc) < (r + 1) * (r + 1),
        circle_outline(xc, yc, r).contains((xc + r, yc)),
        circle_outline(xc, yc, r).contains((xc - r, yc)),
        circle_outline(xc, yc, r).contains((xc, yc + r)),
        circle_outline(xc, yc, r).contains((xc, yc - r)),
{
    assert(1 - r == 0 * 0 + 2 * 0 + 1 + r * r - r - r * r) by (nonlinear_arith);
    lemma_arc_ring(0, r, 1 - r, r);
    let q0 = (0int, r);
    assert(midpoint_arc(0, r, 1 - r).contains(q0));
    assert(octant_points(xc, yc, 0, r).contains((xc + r, yc)));
    assert(octant_points(xc, yc, 0, r).contains((xc - r, yc)));
    assert(octant_points(xc, yc, 0, r).contains((xc, yc + r)));
    assert(octant_points(xc, yc, 0, r).contains((xc, yc - r)));
    if circle_outline(xc, yc, r).contains(p) {
        let q = choose|q: (int, int)| #[trigger]
            midpoint_arc(0, r, 1 - r).contains(q) && octant_points(xc, yc, q.0, q.1).contains(p);
        let dx = p.0 - xc;
        let dy = p.1 - yc;
        assert(dx * dx + dy * dy == q.0 * q.0 + q.1 * q.1) by (nonlinear_arith)
            requires
                (dx == q.0 || dx == -q.0) && (dy == q.1 || dy == -q.1) || (dx == q.1 || dx == -q.1) && (dy == q.0
                    || dy == -q.0),
        ;
    }
}

/// A circle of radius zero is its centre alone.
pub proof fn lemma_circle_zero(xc: int, yc: int)
    ensures
        circle_outline(xc, yc, 0) == set![(xc, yc)],
{
    let (x2, y2, d2) = midpoint_step(0, 0, 1);
    assert(midpoint_arc(x2, y2, d2) =~= Set::empty());
    assert(midpoint_arc(0, 0, 1) =~= set![(0int, 0int)]);
    let o = circle_outline(xc, yc, 0);
    assert forall|p: (int, int)| #[trigger] o.contains(p) == (p == (xc, yc)) by {
        if p == (xc, yc) {
            assert(midpoint_arc(0, 0, 1).contains((0int, 0int)));
            assert(octant_points(xc, yc, 0, 0).contains(p));
        }
    }
    assert(o =~= set![(xc, yc)]);
}

/// Every pixel of a filled midpoint disc of positive radius lies strictly
/// within `r + 1` of its centre.
pub proof fn lemma_disc_bound(xc: int, yc: int, r: int, p: (int, int))
    requires
        0 < r,
        filled_disc(xc, yc, r).contains(p),
    ensures
        (p.0 - xc) * (p.0 - xc) + (p.1 - yc) * (p.1 - yc) < (r + 1) * (r + 1),
{
    assert(1 - r == 0 * 0 + 2 * 0 + 1 + r * r - r - r * r) by (nonlinear_arith);
    lemma_arc_ring(0, r, 1 - r, r);
    let q = choose|q: (int, int)| #[trigger]
        midpoint_arc(0, r, 1 - r).contains(q) && filled_rows(xc, yc, q.0, q.1).contains(p);
    let dx = p.0 - xc;
    let dy = p.1 - yc;
    let (a, b) = q;
    assert(0 <= a && 0 <= b) by {
        lemma_arc_nonneg(0, r, 1 - r, r);
    }
    assert(dx * dx + dy * dy <= a * a + b * b) by (nonlinear_arith)
        requires
            (-a <= dx <= a && (dy == b || dy == -b)) || (-b <= dx <= b && (dy == a || dy == -a)),
            0 <= a,
            0 <= b,
    ;
}

proof fn lemma_arc_nonneg(x: int, y: int, d: int, r: int)
    requires
        0 <= x,
    ensures
        forall|q: (int, int)| #[trigger] midpoint_arc(x, y, d).contains(q) ==> 0 <= q.0 && 0 <= q.1,
    decreases arc_measure(x, y),
{
    if x <= y {
        let (x2, y2, d2) = midpoint_step(x, y, d);
        lemma_arc_nonneg(x2, y2, d2, r);
        assert(midpoint_arc(x, y, d) == midpoint_arc(x2, y2, d2).insert((x, y)));
    } else {
        assert(midpoint_arc(x, y, d) =~= Set::empty());
    }
}

/// Painting `a` and then `b` paints their union.
proof fn lemma_paint_union(r0: &Raster, r1: &Raster, r2: &Raster, a: Set<(int, int)>, b: Set<(int, int)>, c: Color)
    requires
        r1.painted(r0, a, c),
        r2.painted(r1, b, c),
    ensures
        r2.painted(r0, a + b, c),
{
    assert forall|x: int, y: int| #![trigger r2.pixel(x, y)] r2.in_bounds(x, y) implies r2.pixel(x, y) == if (a
        + b).contains((x, y)) {
        c
    } else {
        r0.pixel(x, y)
    } by {
        assert(r1.in_bounds(x, y));
        assert(r1.pixel(x, y) == if a.contains((x, y)) { c } else { r0.pixel(x, y) });
    }
}

impl Drawing {
    /// Sets every in-bounds pixel `(x, y)` with `x_start <= x <= x_end`.
    pub fn draw_horizontal_line(x_start: i32, x_end: i32, y: i32, color: &Color, raster: &mut Raster)
        requires
            old(raster).wf(),
        ensures
            final(raster).painted(old(raster), span(x_start as int, x_end as int, y as int), *color),
    {
        let ghost r0 = *raster;
        let mut x: i64 = x_start as i64;
        assert(span(x_start as int, x - 1, y as int) =~= Set::empty());
        while x <= x_end as i64
            invariant
                x_start <= x,
                x <= x_end as i64 + 1 || x == x_start,
                raster.painted(&r0, span(x_start as int, x - 1, y as int), *color),
            decreases x_end as i64 + 1 - x,
        {
            let ghost r1 = *raster;
            raster.set(x as i32, y, color);
            proof {
                lemma_paint_union(&r0, &r1, raster, span(x_start as int, x - 1, y as int), set![(x as int, y as int)], *color);
                assert(span(x_start as int, x - 1, y as int) + set![(x as int, y as int)] =~= span(x_start as int, x as int, y as int));
            }
            x = x + 1;
        }
        assert(span(x_start as int, x - 1, y as int) =~= span(x_start as int, x_end as int, y as int));
    }

    /// Sets the eight mirror images of `(x, y)` about `(xc, yc)`.
    fn plot_octants(xc: i32, yc: i32, x: i32, y: i32, color: &Color, raster: &mut Raster)
        requires
            old(raster).wf(),
            -0x4000_0000 <= xc <= 0x4000_0000,
            -0x4000_0000 <= yc <= 0x4000_0000,
            -0x8000 <= x <= 0x8000,
            -0x8000 <= y <= 0x8000,
        ensures
            final(raster).painted(old(raster), octant_points(xc as int, yc as int, x as int, y as int), *color),
    {
        let ghost r0 = *raster;
        raster.set(xc + x, yc + y, color);
        let ghost r1 = *raster;
        raster.set(xc - x, yc + y, color);
        let ghost r2 = *raster;
        proof { lemma_paint_union(&r0, &r1, &r2, set![(xc + x, yc + y)], set![(xc - x, yc + y)], *color); }
        raster.set(xc + x, yc - y, color);
        let ghost r3 = *raster;
        proof { lemma_paint_union(&r0, &r2, &r3, set![(xc + x, yc + y)] + set![(xc - x, yc + y)], set![(xc + x, yc - y)], *color); }
        raster.set(xc - x, yc - y, color);
        let ghost r4 = *raster;
        let ghost s3 = set![(xc + x, yc + y)] + set![(xc - x, yc + y)] + set![(xc + x, yc - y)];
        proof { lemma_paint_union(&r0, &r3, &r4, s3, set![(xc - x, yc - y)], *color); }
        let ghost s4 = s3 + set![(xc - x, yc - y)];
        raster.set(xc + y, yc + x, color);
        let ghost r5 = *raster;
        proof { lemma_paint_union(&r0, &r4, &r5, s4, set![(xc + y, yc + x)], *color); }
        let ghost s5 = s4 + set![(xc + y, yc + x)];
        raster.set(xc - y, yc + x, color);
        let ghost r6 = *raster;
        proof { lemma_paint_union(&r0, &r5, &r6, s5, set![(xc - y, yc + x)], *color); }
        let ghost s6 = s5 + set![(xc - y, yc + x)];
        raster.set(xc + y, yc - x, color);
        let ghost r7 = *raster;
        proof { lemma_paint_union(&r0, &r6, &r7, s6, set![(xc + y, yc - x)], *color); }
        let ghost s7 = s6 + set![(xc + y, yc - x)];
        raster.set(xc - y, yc - x, color);
        let ghost r8 = *raster;
        proof {
            lemma_paint_union(&r0, &r7, &r8, s7, set![(xc - y, yc - x)], *color);
            assert(s7 + set![(xc - y, yc - x)] =~= octant_points(xc as int, yc as int, x as int, y as int));
        }
    }

    /// Draws the outline of a circle with the midpoint algorithm.
    pub fn midpoint_circle(x_center: i32, y_center: i32, radius: i32, color: &Color, raster: &mut Raster)
        requires
            old(raster).wf(),
            0 <= radius <= CIRCLE_RADIUS_LIMIT,
            -0x4000_0000 <= x_center <= 0x4000_0000,
            -0x4000_0000 <= y_center <= 0x4000_0000,
        ensures
            final(raster).painted(old(raster), circle_outline(x_center as int, y_center as int, radius as int), *color),
    {
        let ghost r0 = *raster;
        let ghost xc = x_center as int;
        let ghost yc = y_center as int;
        let ghost full = midpoint_arc(0, radius as int, 1 - radius);
        let ghost mut done: Set<(int, int)> = Set::empty();
        let mut x: i32 = 0;
        let mut y: i32 = radius;
        let mut d: i32 = 1 - radius;
        proof {
            assert(done + midpoint_arc(x as int, y as int, d as int) =~= full);
            assert(Set::new(|p: (int, int)| exists|q: (int, int)| #[trigger] done.contains(q) && octant_points(xc, yc, q.0, q.1).contains(p)) =~= Set::empty());
        }
        while x <= y
            invariant
                0 <= x <= radius + 1,
                -1 <= y <= radius,
                x <= y + 2,
                d == x * x + 2 * x + 1 + y * y - y - radius * radius,
                -0x4000_0000 <= x_center <= 0x4000_0000,
                -0x4000_0000 <= y_center <= 0x4000_0000,
                0 <= radius <= CIRCLE_RADIUS_LIMIT,
                xc == x_center,
                yc == y_center,
                full == midpoint_arc(0, radius as int, 1 - radius),
                done + midpoint_arc(x as int, y as int, d as int) == full,
                raster.painted(&r0, Set::new(|p: (int, int)| exists|q: (int, int)| #[trigger] done.contains(q) && octant_points(xc, yc, q.0, q.1).contains(p)), *color),
            decreases arc_measure(x as int, y as int),
        {
            let ghost before = *raster;
            let ghost old_set = Set::new(|p: (int, int)| exists|q: (int, int)| #[trigger] done.contains(q) && octant_points(xc, yc, q.0, q.1).contains(p));
            Drawing::plot_octants(x_center, y_center, x, y, color, raster);
            proof {
                lemma_paint_union(&r0, &before, raster, old_set, octant_points(xc, yc, x as int, y as int), *color);
                let nd = done.insert((x as int, y as int));
                let new_set = Set::new(|p: (int, int)| exists|q: (int, int)| #[trigger] nd.contains(q) && octant_points(xc, yc, q.0, q.1).contains(p));
                assert forall|p: (int, int)| #[trigger] new_set.contains(p) == (old_set + octant_points(xc, yc, x as int, y as int)).contains(p) by {
                    if octant_points(xc, yc, x as int, y as int).contains(p) {
                        assert(nd.contains((x as int, y as int)));
                    }
                    if old_set.contains(p) {
                        let q = choose|q: (int, int)| #[trigger] done.contains(q) && octant_points(xc, yc, q.0, q.1).contains(p);
                        assert(nd.contains(q));
                    }
                    if new_set.contains(p) {
                        let q = choose|q: (int, int)| #[trigger] nd.contains(q) && octant_points(xc, yc, q.0, q.1).contains(p);
                        if q != (x as int, y as int) {
                            assert(done.contains(q));
                        }
                    }
                }
                assert(new_set =~= old_set + octant_points(xc, yc, x as int, y as int));
                let (x2, y2, d2) = midpoint_step(x as int, y as int, d as int);
                assert(midpoint_arc(x as int, y as int, d as int) == midpoint_arc(x2, y2, d2).insert((x as int, y as int)));
                assert(nd + midpoint_arc(x2, y2, d2) =~= done + midpoint_arc(x as int, y as int, d as int));
                done = nd;
                let xi = x as int;
                let yi = y as int;
                let ri = radius as int;
                assert(-0x2500_0000 <= d <= 0x2500_0000) by (nonlinear_arith)
                    requires
                        d == xi * xi + 2 * xi + 1 + yi * yi - yi - ri * ri,
                        0 <= xi <= yi <= ri <= 0x6000,
                ;
                assert(d + 2 * xi + 3 == (xi + 1) * (xi + 1) + 2 * (xi + 1) + 1 + yi * yi - yi - ri * ri) by (nonlinear_arith)
                    requires d == xi * xi + 2 * xi + 1 + yi * yi - yi - ri * ri;
                assert(d + 2 * (xi - yi) + 5 == (xi + 1) * (xi + 1) + 2 * (xi + 1) + 1 + (yi - 1) * (yi - 1) - (yi - 1) - ri * ri) by (nonlinear_arith)
                    requires d == xi * xi + 2 * xi + 1 + yi * yi - yi - ri * ri;
            }
            if d < 0 {
                d += 2 * x + 3;
            } else {
                d += 2 * (x - y) + 5;
                y -= 1;
            }
            x += 1;
        }
        proof {
            assert(midpoint_arc(x as int, y as int, d as int) =~= Set::empty());
            assert(done =~= full);
            assert(Set::new(|p: (int, int)| exists|q: (int, int)| #[trigger] done.contains(q) && octant_points(xc, yc, q.0, q.1).contains(p))
                =~= circle_outline(xc, yc, radius as int));
        }
    }
    /// Draws the four spans between the mirror images of `(x, y)` about `(xc, yc)`.
    fn fill_rows(xc: i32, yc: i32, x: i32, y: i32, color: &Color, raster: &mut Raster)
        requires
            old(raster).wf(),
            -0x4000_0000 <= xc <= 0x4000_0000,
            -0x4000_0000 <= yc <= 0x4000_0000,
            -0x8000 <= x <= 0x8000,
            -0x8000 <= y <= 0x8000,
        ensures
            final(raster).painted(old(raster), filled_rows(xc as int, yc as int, x as int, y as int), *color),
    {
        let ghost r0 = *raster;
        let ghost a = span(xc - x, xc + x, yc + y);
        let ghost b = span(xc - x, xc + x, yc - y);
        let ghost c = span(xc - y, xc + y, yc + x);
        let ghost e = span(xc - y, xc + y, yc - x);
        Drawing::draw_horizontal_line(xc - x, xc + x, yc + y, color, raster);
        let ghost r1 = *raster;
        Drawing::draw_horizontal_line(xc - x, xc + x, yc - y, color, raster);
        let ghost r2 = *raster;
        proof { lemma_paint_union(&r0, &r1, &r2, a, b, *color); }
        Drawing::draw_horizontal_line(xc - y, xc + y, yc + x, color, raster);
        let ghost r3 = *raster;
        proof { lemma_paint_union(&r0, &r2, &r3, a + b, c, *color); }
        Drawing::draw_horizontal_line(xc - y, xc + y, yc - x, color, raster);
        let ghost r4 = *raster;
        proof { lemma_paint_union(&r0, &r3, &r4, a + b + c, e, *color); }
    }

    /// Fills a disc with horizontal spans placed by the midpoint algorithm.
    pub fn filled_midpoint_circle(
        x_center: i32,
        y_center: i32,
        radius: i32,
        color: &Color,
        raster: &mut Raster,
    )
        requires
            old(raster).wf(),
            0 <= radius <= CIRCLE_RADIUS_LIMIT,
            -0x4000_0000 <= x_center <= 0x4000_0000,
            -0x4000_0000 <= y_center <= 0x4000_0000,
        ensures
            final(raster).painted(old(raster), filled_disc(x_center as int, y_center as int, radius as int), *color),
    {
        let ghost r0 = *raster;
        let ghost xc = x_center as int;
        let ghost yc = y_center as int;
        let ghost full = midpoint_arc(0, radius as int, 1 - radius);
        let ghost mut done: Set<(int, int)> = Set::empty();
        let mut x: i32 = 0;
        let mut y: i32 = radius;
        let mut d: i32 = 1 - radius;
        proof {
            assert(done + midpoint_arc(x as int, y as int, d as int) =~= full);
            assert(Set::new(|p: (int, int)| exists|q: (int, int)| #[trigger] done.contains(q) && filled_rows(xc, yc, q.0, q.1).contains(p)) =~= Set::empty());
        }
        while x <= y
            invariant
                0 <= x <= radius + 1,
                -1 <= y <= radius,
                x <= y + 2,
                d == x * x + 2 * x + 1 + y * y - y - radius * radius,
                -0x4000_0000 <= x_center <= 0x4000_0000,
                -0x4000_0000 <= y_center <= 0x4000_0000,
                0 <= radius <= CIRCLE_RADIUS_LIMIT,
                xc == x_center,
                yc == y_center,
                full == midpoint_arc(0, radius as int, 1 - radius),
                done + midpoint_arc(x as int, y as int, d as int) == full,
                raster.painted(&r0, Set::new(|p: (int, int)| exists|q: (int, int)| #[trigger] done.contains(q) && filled_rows(xc, yc, q.0, q.1).contains(p)), *color),
            decreases arc_measure(x as int, y as int),
        {
            let ghost before = *raster;
            let ghost old_set = Set::new(|p: (int, int)| exists|q: (int, int)| #[trigger] done.contains(q) && filled_rows(xc, yc, q.0, q.1).contains(p));
            Drawing::fill_rows(x_center, y_center, x, y, color, raster);
            proof {
                lemma_paint_union(&r0, &before, raster, old_set, filled_rows(xc, yc, x as int, y as int), *color);
                let nd = done.insert((x as int, y as int));
                let new_set = Set::new(|p: (int, int)| exists|q: (int, int)| #[trigger] nd.contains(q) && filled_rows(xc, yc, q.0, q.1).contains(p));
                assert forall|p: (int, int)| #[trigger] new_set.contains(p) == (old_set + filled_rows(xc, yc, x as int, y as int)).contains(p) by {
                    if filled_rows(xc, yc, x as int, y as int).contains(p) {
                        assert(nd.contains((x as int, y as int)));
                    }
                    if old_set.contains(p) {
                        let q = choose|q: (int, int)| #[trigger] done.contains(q) && filled_rows(xc, yc, q.0, q.1).contains(p);
                        assert(nd.contains(q));
                    }
                    if new_set.contains(p) {
                        let q = choose|q: (int, int)| #[trigger] nd.contains(q) && filled_rows(xc, yc, q.0, q.1).contains(p);
                        if q != (x as int, y as int) {
                            assert(done.contains(q));
                        }
                    }
                }
                assert(new_set =~= old_set + filled_rows(xc, yc, x as int, y as int));
                let (x2, y2, d2) = midpoint_step(x as int, y as int, d as int);
                assert(midpoint_arc(x as int, y as int, d as int) == midpoint_arc(x2, y2, d2).insert((x as int, y as int)));
                assert(nd + midpoint_arc(x2, y2, d2) =~= done + midpoint_arc(x as int, y as int, d as int));
                done = nd;
                let xi = x as int;
                let yi = y as int;
                let ri = radius as int;
                assert(-0x2500_0000 <= d <= 0x2500_0000) by (nonlinear_arith)
                    requires
                        d == xi * xi + 2 * xi + 1 + yi * yi - yi - ri * ri,
                        0 <= xi <= yi <= ri <= 0x6000,
                ;
                assert(d + 2 * xi + 3 == (xi + 1) * (xi + 1) + 2 * (xi + 1) + 1 + yi * yi - yi - ri * ri) by (nonlinear_arith)
                    requires d == xi * xi + 2 * xi + 1 + yi * yi - yi - ri * ri;
                assert(d + 2 * (xi - yi) + 5 == (xi + 1) * (xi + 1) + 2 * (xi + 1) + 1 + (yi - 1) * (yi - 1) - (yi - 1) - ri * ri) by (nonlinear_arith)
                    requires d == xi * xi + 2 * xi + 1 + yi * yi - yi - ri * ri;
            }
            if d < 0 {
                d += 2 * x + 3;
            } else {
                d += 2 * (x - y) + 5;
                y -= 1;
            }
            x += 1;
        }
        proof {
            assert(midpoint_arc(x as int, y as int, d as int) =~= Set::empty());
            assert(done =~= full);
            assert(Set::new(|p: (int, int)| exists|q: (int, int)| #[trigger] done.contains(q) && filled_rows(xc, yc, q.0, q.1).contains(p))
                =~= filled_disc(xc, yc, radius as int));
        }
    }
    /// Draws Bresenham's line from `start` to `end`, both included, keeping
    /// to the pixels that lie on the screen.
    pub fn bresenham_line_single_color(start: (i32, i32), end: (i32, i32), color: &Color, raster: &mut Raster)
        requires
            old(raster).wf(),
            old(raster).screen_width <= i32::MAX,
            -0x800_0000 <= start.0 <= 0x800_0000,
            -0x800_0000 <= start.1 <= 0x800_0000,
            -0x800_0000 <= end.0 <= 0x800_0000,
            -0x800_0000 <= end.1 <= 0x800_0000,
        ensures
            final(raster).painted(
                old(raster),
                bresenham_line((start.0 as int, start.1 as int), (end.0 as int, end.1 as int)).intersect(
                    on_screen(old(raster).screen_width as int, old(raster).raster_height as int),
                ),
                *color,
            ),
    {
        let ghost r0 = *raster;
        let ghost vis = on_screen(raster.screen_width as int, raster.raster_height as int);
        let ghost full = bresenham_line((start.0 as int, start.1 as int), (end.0 as int, end.1 as int));
        let mut x = start.0;
        let mut y = start.1;
        let dx = if end.0 - start.0 < 0 { -(end.0 - start.0) } else { end.0 - start.0 };
        let dy = if end.1 - start.1 < 0 { end.1 - start.1 } else { -(end.1 - start.1) };
        let sx: i32 = if start.0 < end.0 { 1 } else { -1 };
        let sy: i32 = if start.1 < end.1 { 1 } else { -1 };
        let mut err = dx + dy;
        let ghost mut done: Set<(int, int)> = Set::empty();
        proof {
            assert(done + full =~= full);
            assert(done.intersect(vis) =~= Set::empty());
        }
        loop
            invariant_except_break
                raster.wf(),
                raster.screen_width == r0.screen_width,
                raster.raster_height == r0.raster_height,
                raster.screen_width <= i32::MAX,
                vis == on_screen(raster.screen_width as int, raster.raster_height as int),
                -0x800_0000 <= start.0 <= 0x800_0000,
                -0x800_0000 <= start.1 <= 0x800_0000,
                -0x800_0000 <= end.0 <= 0x800_0000,
                -0x800_0000 <= end.1 <= 0x800_0000,
                dx == abs(end.0 - start.0),
                dy == -abs(end.1 - start.1),
                sx == (if start.0 < end.0 { 1int } else { -1int }),
                sy == (if start.1 < end.1 { 1int } else { -1int }),
                sx == 1 ==> start.0 <= x <= end.0,
                sx == -1 ==> end.0 <= x <= start.0,
                sy == 1 ==> start.1 <= y <= end.1,
                sy == -1 ==> end.1 <= y <= start.1,
                2 * dy <= err <= 2 * dx,
                full == bresenham_line((start.0 as int, start.1 as int), (end.0 as int, end.1 as int)),
                done + bresenham_walk(x as int, y as int, err as int, end.0 as int, end.1 as int, dx as int, dy as int, sx as int, sy as int) == full,
                raster.painted(&r0, done.intersect(vis), *color),
            ensures
                raster.painted(&r0, full.intersect(vis), *color),
            decreases line_measure(x as int, y as int, end.0 as int, end.1 as int),
        {
            let ghost before = *raster;
            let ghost here = set![(x as int, y as int)];
            let ghost walk = bresenham_walk(x as int, y as int, err as int, end.0 as int, end.1 as int, dx as int, dy as int, sx as int, sy as int);
            if x >= 0 && x < raster.screen_width as i32 && y >= 0 && y < raster.pixels.len() as i32 {
                raster.set(x, y, color);
                proof {
                    lemma_paint_union(&r0, &before, raster, done.intersect(vis), here, *color);
                    assert(done.intersect(vis) + here =~= done.insert((x as int, y as int)).intersect(vis));
                }
            } else {
                proof {
                    assert(done.intersect(vis) =~= done.insert((x as int, y as int)).intersect(vis));
                }
            }
            proof {
                done = done.insert((x as int, y as int));
            }
            if x == end.0 && y == end.1 {
                proof {
                    assert(done + Set::empty() =~= done);
                    assert(done =~= full);
                }
                break;
            }
            let e2 = 2 * err;
            if e2 >= dy {
                if x == end.0 {
                    proof {
                        assert(done =~= full);
                    }
                    break;
                }
                err += dy;
                x += sx;
            }
            if e2 <= dx {
                if y == end.1 {
                    proof {
                        assert(done =~= full);
                    }
                    break;
                }
                err += dx;
                y += sy;
            }
            proof {
                assert(walk == here + bresenham_walk(x as int, y as int, err as int, end.0 as int, end.1 as int, dx as int, dy as int, sx as int, sy as int));
                assert(done + bresenham_walk(x as int, y as int, err as int, end.0 as int, end.1 as int, dx as int, dy as int, sx as int, sy as int) =~= full);
            }
        }
    }

    /// Draws a line `width` pixels thick: Bresenham lines parallel to
    /// `start -> end` from every pixel of the perpendicular segment through
    /// `start` (those pixels that lie on the screen), and a filled disc of
    /// radius `width / 2` at either end.
    pub fn bresenham_line_single_color_width(
        start: (i32, i32),
        end: (i32, i32),
        width: i32,
        color: &Color,
        raster: &mut Raster,
    )
        requires
            old(raster).wf(),
            old(raster).screen_width <= i32::MAX,
            -0x100_0000 <= start.0 <= 0x100_0000,
            -0x100_0000 <= start.1 <= 0x100_0000,
            -0x100_0000 <= end.0 <= 0x100_0000,
            -0x100_0000 <= end.1 <= 0x100_0000,
            0 <= width <= 0x4000,
        ensures
            final(raster).painted(
                old(raster),
                thick_line(start, end, width as int, old(raster).screen_width as int, old(raster).raster_height as int),
                *color,
            ),
    {
        let ghost r0 = *raster;
        let ghost sw = raster.screen_width as int;
        let ghost sh = raster.raster_height as int;
        let ghost vis = on_screen(sw, sh);
        let down_x = end.0 - start.0;
        let down_y = end.1 - start.1;
        let half_width = width / 2;
        let ghost dxi = down_x as int;
        let ghost dyi = down_y as int;
        proof {
            assert(-0x200_0000 <= dxi <= 0x200_0000);
            assert(-0x200_0000 <= dyi <= 0x200_0000);
            lemma_square_le(dxi, 0x200_0000);
            lemma_square_le(dyi, 0x200_0000);
        }
        let len2 = (down_x as i64 * down_x as i64 + down_y as i64 * down_y as i64) as u64;
        let adx = (if down_x < 0 { -down_x } else { down_x }) as u64;
        let ady = (if down_y < 0 { -down_y } else { down_y }) as u64;
        proof {
            assert(ady * half_width <= 0x200_0000 * 0x2000) by (nonlinear_arith)
                requires ady <= 0x200_0000, 0 <= half_width <= 0x2000;
            assert(adx * half_width <= 0x200_0000 * 0x2000) by (nonlinear_arith)
                requires adx <= 0x200_0000, 0 <= half_width <= 0x2000;
            let hw = half_width as int;
            assert(ady * ady == dyi * dyi) by (nonlinear_arith) requires ady == dyi || ady == -dyi;
            assert(adx * adx == dxi * dxi) by (nonlinear_arith) requires adx == dxi || adx == -dxi;
            assert((ady * hw) * (ady * hw) <= len2 * hw * hw) by (nonlinear_arith)
                requires ady * ady == dyi * dyi, len2 == dxi * dxi + dyi * dyi, hw >= 0;
            assert((adx * hw) * (adx * hw) <= len2 * hw * hw) by (nonlinear_arith)
                requires adx * adx == dxi * dxi, len2 == dxi * dxi + dyi * dyi, hw >= 0;
        }
        let ax = ady * half_width as u64;
        let ay = adx * half_width as u64;
        let nx64 = round_quot_sqrt(ax, len2, half_width as u64);
        let ny64 = round_quot_sqrt(ay, len2, half_width as u64);
        let nx = nx64 as i32;
        let ny = ny64 as i32;
        let left_x = if down_y > 0 { -nx } else { nx };
        let left_y = if down_x < 0 { -ny } else { ny };
        let from = (start.0 - left_x, start.1 - left_y);
        let to = (start.0 + left_x, start.1 + left_y);
        proof {
            assert(left_x as int == shift_x(start, end, width as int));
            assert(left_y as int == shift_y(start, end, width as int));
        }
        let ghost full = bresenham_line((from.0 as int, from.1 as int), (to.0 as int, to.1 as int));
        let mut x = from.0;
        let mut y = from.1;
        let dx = if to.0 - from.0 < 0 { -(to.0 - from.0) } else { to.0 - from.0 };
        let dy = if to.1 - from.1 < 0 { to.1 - from.1 } else { -(to.1 - from.1) };
        let sx: i32 = if from.0 < to.0 { 1 } else { -1 };
        let sy: i32 = if from.1 < to.1 { 1 } else { -1 };
        let mut err = dx + dy;
        let ghost mut done: Set<(int, int)> = Set::empty();
        proof {
            assert(done + full =~= full);
            assert(sweep(done, down_x as int, down_y as int, sw, sh) =~= Set::empty());
        }
        loop
            invariant_except_break
                raster.wf(),
                raster.screen_width == r0.screen_width,
                raster.raster_height == r0.raster_height,
                raster.screen_width <= i32::MAX,
                sw == raster.screen_width,
                sh == raster.raster_height,
                vis == on_screen(sw, sh),
                -0x100_0000 <= start.0 <= 0x100_0000,
                -0x100_0000 <= start.1 <= 0x100_0000,
                -0x100_0000 <= end.0 <= 0x100_0000,
                -0x100_0000 <= end.1 <= 0x100_0000,
                down_x == end.0 - start.0,
                down_y == end.1 - start.1,
                -0x200_0000 <= from.0 <= 0x200_0000,
                -0x200_0000 <= from.1 <= 0x200_0000,
                -0x200_0000 <= to.0 <= 0x200_0000,
                -0x200_0000 <= to.1 <= 0x200_0000,
                dx == abs(to.0 - from.0),
                dy == -abs(to.1 - from.1),
                sx == (if from.0 < to.0 { 1int } else { -1int }),
                sy == (if from.1 < to.1 { 1int } else { -1int }),
                sx == 1 ==> from.0 <= x <= to.0,
                sx == -1 ==> to.0 <= x <= from.0,
                sy == 1 ==> from.1 <= y <= to.1,
                sy == -1 ==> to.1 <= y <= from.1,
                2 * dy <= err <= 2 * dx,
                full == bresenham_line((from.0 as int, from.1 as int), (to.0 as int, to.1 as int)),
                done + bresenham_walk(x as int, y as int, err as int, to.0 as int, to.1 as int, dx as int, dy as int, sx as int, sy as int) == full,
                raster.painted(&r0, sweep(done, down_x as int, down_y as int, sw, sh), *color),
            ensures
                raster.wf(),
                raster.painted(&r0, sweep(full, down_x as int, down_y as int, sw, sh), *color),
            decreases line_measure(x as int, y as int, to.0 as int, to.1 as int),
        {
            let ghost before = *raster;
            let ghost here = set![(x as int, y as int)];
            let ghost walk = bresenham_walk(x as int, y as int, err as int, to.0 as int, to.1 as int, dx as int, dy as int, sx as int, sy as int);
            let ghost old_sweep = sweep(done, down_x as int, down_y as int, sw, sh);
            let ghost line = bresenham_line((x as int, y as int), (x + down_x, y + down_y)).intersect(vis);
            if x >= 0 && x < raster.screen_width as i32 && y >= 0 && y < raster.pixels.len() as i32 {
                Drawing::bresenham_line_single_color((x, y), (x + down_x, y + down_y), color, raster);
                proof {
                    lemma_paint_union(&r0, &before, raster, old_sweep, line, *color);
                    lemma_sweep_insert(done, (x as int, y as int), down_x as int, down_y as int, sw, sh);
                }
            } else {
                proof {
                    lemma_sweep_insert(done, (x as int, y as int), down_x as int, down_y as int, sw, sh);
                }
            }
            proof {
                done = done.insert((x as int, y as int));
            }
            if x == to.0 && y == to.1 {
                proof {
                    assert(done =~= full);
                }
                break;
            }
            let e2 = 2 * err;
            if e2 >= dy {
                if x == to.0 {
                    proof {
                        assert(done =~= full);
                    }
                    break;
                }
                err += dy;
                x += sx;
            }
            if e2 <= dx {
                if y == to.1 {
                    proof {
                        assert(done =~= full);
                    }
                    break;
                }
                err += dx;
                y += sy;
            }
            proof {
                assert(walk == here + bresenham_walk(x as int, y as int, err as int, to.0 as int, to.1 as int, dx as int, dy as int, sx as int, sy as int));
                assert(done + bresenham_walk(x as int, y as int, err as int, to.0 as int, to.1 as int, dx as int, dy as int, sx as int, sy as int) =~= full);
            }
        }
        let ghost r1 = *raster;
        Drawing::filled_midpoint_circle(start.0, start.1, half_width, color, raster);
        let ghost r2 = *raster;
        Drawing::filled_midpoint_circle(end.0, end.1, half_width, color, raster);
        proof {
            let a = sweep(full, down_x as int, down_y as int, sw, sh);
            let b = filled_disc(start.0 as int, start.1 as int, half_width as int);
            let c = filled_disc(end.0 as int, end.1 as int, half_width as int);
            lemma_paint_union(&r0, &r1, &r2, a, b, *color);
            lemma_paint_union(&r0, &r2, raster, a + b, c, *color);
        }
    }
}

} // verus!
