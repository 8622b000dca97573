//! Tiled rendering: each worker renders the columns `j` with `j % n == index`,
//! and the collector scatters the tiles back into one row-major image.
use vstd::prelude::*;
use crate::canvas::Color;
use crate::geometry::Vec3;
use crate::mesh::{collision_of, PolyTree};
use crate::octree::node_hits;

verus! {

/// The colour of pixel `(j, i)`: the query of the ray stored for column `j`,
/// row `i` (rays are stored column by column, `h` to a column).
pub open spec fn pixel(scene: PolyTree, origin: Vec3, rays: Seq<Vec3>, h: int, j: int, i: int) -> Color {
    collision_of(node_hits(scene.root, origin, rays[j * h + i]), scene.source, origin, rays[j * h + i]).c
}

/// How many of the columns `col, col + n, col + 2n, ...` lie below `w`.
pub open spec fn cols_from(col: int, w: int, n: int) -> int
    decreases (if col < w { w - col } else { 0 }),
{
    if n <= 0 || col >= w {
        0
    } else {
        1 + cols_from(col + n, w, n)
    }
}

/// Tile `index` of `n` holds, column after column, the pixels of the
/// columns `index + c n`.
pub open spec fn is_tile(t: Seq<Color>, scene: PolyTree, origin: Vec3, rays: Seq<Vec3>, w: int, h: int, n: int, index: int) -> bool {
    &&& t.len() == cols_from(index, w, n) * h
    &&& forall|c: int, i: int|
        0 <= c < cols_from(index, w, n) && 0 <= i < h ==> #[trigger] t[c * h + i] == pixel(scene, origin, rays, h, index + c * n, i)
}

/// The image the tiles make: pixel `(j, i)` at `i * w + j` comes from tile
/// `j % n`, slot `(j / n) * h + i`.
pub open spec fn merged(tiles: Seq<Seq<Color>>, w: int, h: int, n: int) -> Seq<Color> {
    Seq::new((w * h) as nat, |k: int| tiles[(k % w) % n][((k % w) / n) * h + k / w])
}

/// The whole image, row-major.
pub open spec fn full_image(scene: PolyTree, origin: Vec3, rays: Seq<Vec3>, w: int, h: int) -> Seq<Color> {
    Seq::new((w * h) as nat, |k: int| pixel(scene, origin, rays, h, k % w, k / w))
}

/// The rays are a `w x h` grid of in-range directions.
pub open spec fn rays_ok(rays: Seq<Vec3>, w: int, h: int) -> bool {
    &&& rays.len() == w * h
    &&& forall|k: int| 0 <= k < rays.len() ==> (#[trigger] rays[k]).in_range()
}

proof fn lemma_cols_nonneg(t: int, w: int, n: int)
    ensures
        cols_from(t, w, n) >= 0,
    decreases (if t < w { w - t } else { 0 }),
{
    if n > 0 && t < w {
        lemma_cols_nonneg(t + n, w, n);
    }
}

proof fn lemma_cols(t: int, c: int, w: int, n: int)
    requires
        n > 0,
        c >= 0,
        t + c * n < w,
    ensures
        c < cols_from(t, w, n),
    decreases c,
{
    assert(c * n >= 0) by (nonlinear_arith) requires c >= 0, n > 0;
    lemma_cols_nonneg(t + n, w, n);
    if c > 0 {
        assert(t + n + (c - 1) * n == t + c * n) by (nonlinear_arith);
        lemma_cols(t + n, c - 1, w, n);
    }
}

proof fn lemma_column_index(j: int, w: int, h: int, i: int)
    requires
        0 <= j < w,
        0 <= i < h,
    ensures
        0 <= j * h + i < w * h,
{
    assert(0 <= j * h + i < w * h) by (nonlinear_arith)
        requires 0 <= j < w, 0 <= i < h;
}

/// However many workers share the columns, the merged tiles are the whole
/// image: rendering with one worker and with eight gives the same pixels.
pub proof fn lemma_tiles_rebuild_image(
    tiles: Seq<Seq<Color>>,
    scene: PolyTree,
    origin: Vec3,
    rays: Seq<Vec3>,
    w: int,
    h: int,
    n: int,
)
    requires
        n > 0,
        w >= 0,
        h >= 0,
        tiles.len() == n,
        forall|t: int| 0 <= t < n ==> is_tile(#[trigger] tiles[t], scene, origin, rays, w, h, n, t),
    ensures
        merged(tiles, w, h, n) == full_image(scene, origin, rays, w, h),
{
    assert forall|k: int| 0 <= k < w * h implies #[trigger] merged(tiles, w, h, n)[k] == full_image(scene, origin, rays, w, h)[k] by {
        let j = k % w;
        let i = k / w;
        assert(w > 0) by (nonlinear_arith) requires 0 <= k < w * h, h >= 0;
        assert(0 <= j < w) by {
            vstd::arithmetic::div_mod::lemma_mod_bound(k, w);
        }
        assert(0 <= i < h) by {
            vstd::arithmetic::div_mod::lemma_fundamental_div_mod(k, w);
            vstd::arithmetic::div_mod::lemma_mod_bound(k, w);
            assert(0 <= i < h) by (nonlinear_arith)
                requires k == w * i + j, 0 <= j < w, 0 <= k < w * h;
        }
        let t = j % n;
        let c = j / n;
        vstd::arithmetic::div_mod::lemma_fundamental_div_mod(j, n);
        vstd::arithmetic::div_mod::lemma_mod_bound(j, n);
        assert(c >= 0) by (nonlinear_arith) requires j == n * c + t, 0 <= t < n, j >= 0;
        assert(t + c * n == j) by (nonlinear_arith) requires j == n * c + t;
        lemma_cols(t, c, w, n);
        assert(is_tile(tiles[t], scene, origin, rays, w, h, n, t));
        assert(tiles[t][c * h + i] == pixel(scene, origin, rays, h, t + c * n, i));
    }
    assert(merged(tiles, w, h, n) =~= full_image(scene, origin, rays, w, h));
}

impl PolyTree {
    /// Renders tile `index` of `n`: the pixels of the columns `j` with
    /// `j % n == index`, column after column, each column top to bottom.
    pub fn render_modulus(&self, origin: Vec3, rays: &Vec<Vec3>, w: usize, h: usize, index: usize, n: usize) -> (r: Vec<Color>)
        requires
            self.wf(),
            origin.in_range(),
            rays_ok(rays@, w as int, h as int),
            0 < n,
            index < n,
        ensures
            is_tile(r@, *self, origin, rays@, w as int, h as int, n as int, index as int),
    {
        let ghost total = cols_from(index as int, w as int, n as int);
        let mut out: Vec<Color> = Vec::new();
        let mut col: usize = index;
        let ghost mut c: int = 0;
        while col < w
            invariant
                self.wf(),
                origin.in_range(),
                rays_ok(rays@, w as int, h as int),
                0 < n,
                index < n,
                total == cols_from(index as int, w as int, n as int),
                col < w ==> col == index + c * n,
                col >= w <==> index + c * n >= w,
                c >= 0,
                c + cols_from(index + c * n, w as int, n as int) == total,
                out@.len() == c * h,
                forall|cc: int, i: int|
                    0 <= cc < c && 0 <= i < h ==> #[trigger] out@[cc * h + i] == pixel(*self, origin, rays@, h as int, index + cc * n, i),
            decreases w - col,
        {
            let mut i: usize = 0;
            while i < h
                invariant
                    self.wf(),
                    origin.in_range(),
                    rays_ok(rays@, w as int, h as int),
                    col < w,
                    col == index + c * n,
                    c >= 0,
                    i <= h,
                    out@.len() == c * h + i,
                    forall|cc: int, ii: int|
                        0 <= cc < c && 0 <= ii < h ==> #[trigger] out@[cc * h + ii] == pixel(*self, origin, rays@, h as int, index + cc * n, ii),
                    forall|ii: int| 0 <= ii < i ==> #[trigger] out@[c * h + ii] == pixel(*self, origin, rays@, h as int, col as int, ii),
                decreases h - i,
            {
                proof {
                    lemma_column_index(col as int, w as int, h as int, i as int);
                    assert(rays@.len() == rays.len());
                    assert(col * h <= col * h + i) by (nonlinear_arith) requires 0 <= i;
                }
                let ray = rays[col * h + i];
                let hit = self.get_collision(origin, ray);
                let ghost before = out@;
                out.push(hit.c);
                proof {
                    assert forall|cc: int, ii: int| 0 <= cc < c && 0 <= ii < h implies #[trigger] out@[cc * h + ii] == pixel(*self, origin, rays@, h as int, index + cc * n, ii) by {
                        assert(cc * h + ii < c * h) by (nonlinear_arith) requires 0 <= cc < c, 0 <= ii < h;
                        assert(out@[cc * h + ii] == before[cc * h + ii]);
                    }
                }
                i = i + 1;
            }
            proof {
                assert(out@.len() == (c + 1) * h) by (nonlinear_arith) requires out@.len() == c * h + h;
                assert forall|cc: int, ii: int| 0 <= cc < c + 1 && 0 <= ii < h implies #[trigger] out@[cc * h + ii] == pixel(*self, origin, rays@, h as int, index + cc * n, ii) by {
                    if cc == c {
                    }
                }
                assert(col + n == index + (c + 1) * n) by (nonlinear_arith) requires col == index + c * n;
                assert(cols_from(index + c * n, w as int, n as int) == 1 + cols_from(index + (c + 1) * n, w as int, n as int));
                c = c + 1;
            }
            if w - col <= n {
                col = w;
            } else {
                col = col + n;
            }
        }
        out
    }
}

/// The number of columns `index, index + n, ...` below `w` (see `cols_from`).
pub fn tile_columns(index: usize, w: usize, n: usize) -> (r: usize)
    requires
        n > 0,
    ensures
        r as int == cols_from(index as int, w as int, n as int),
{
    let mut col: usize = index;
    let mut count: usize = 0;
    while col < w
        invariant
            n > 0,
            count + cols_from(col as int, w as int, n as int) == cols_from(index as int, w as int, n as int),
            count <= col,
        decreases w - col,
    {
        count = count + 1;
        if w - col <= n {
            proof {
                assert(cols_from(col + n, w as int, n as int) == 0);
            }
            col = w;
        } else {
            col = col + n;
        }
    }
    count
}

/// Scatters the `n` tiles back into one row-major `w x h` image. Gives
/// `None` when there are not `n` tiles, a tile has the wrong length, or the
/// image size overflows.
pub fn merge_tiles(tiles: &Vec<Vec<Color>>, w: usize, h: usize, n: usize) -> (r: Option<Vec<Color>>)
    ensures
        r matches Some(img) ==> img@ == merged(tiles@.map_values(|t: Vec<Color>| t@), w as int, h as int, n as int),
        r is Some ==> n > 0 && tiles@.len() == n && w * h <= usize::MAX && forall|t: int|
            0 <= t < n ==> (#[trigger] tiles@[t])@.len() == cols_from(t, w as int, n as int) * h,
        (n > 0 && tiles@.len() == n && w * h <= usize::MAX && forall|t: int|
            0 <= t < n ==> (#[trigger] tiles@[t])@.len() == cols_from(t, w as int, n as int) * h) ==> r is Some,
{
    let ghost ts = tiles@.map_values(|t: Vec<Color>| t@);
    if n == 0 || tiles.len() != n {
        return None;
    }
    let mut t: usize = 0;
    while t < n
        invariant
            n > 0,
            tiles@.len() == n,
            t <= n,
            forall|k: int| 0 <= k < t ==> (#[trigger] tiles@[k])@.len() == cols_from(k, w as int, n as int) * h,
        decreases n - t,
    {
        let cols = tile_columns(t, w, n);
        let tl = tiles[t].len();
        match cols.checked_mul(h) {
            None => {
                return None;
            },
            Some(len) => {
                if tl != len {
                    return None;
                }
            },
        }
        t = t + 1;
    }
    let size = match w.checked_mul(h) {
        None => {
            return None;
        },
        Some(s) => s,
    };
    let mut img: Vec<Color> = Vec::new();
    let mut i: usize = 0;
    while i < h
        invariant
            n > 0,
            tiles@.len() == n,
            ts == tiles@.map_values(|t: Vec<Color>| t@),
            size == w * h,
            forall|k: int| 0 <= k < n ==> (#[trigger] tiles@[k])@.len() == cols_from(k, w as int, n as int) * h,
            i <= h,
            img@.len() == i * w,
            forall|k: int| 0 <= k < img@.len() ==> #[trigger] img@[k] == merged(ts, w as int, h as int, n as int)[k],
        decreases h - i,
    {
        let mut j: usize = 0;
        while j < w
            invariant
                n > 0,
                tiles@.len() == n,
                ts == tiles@.map_values(|t: Vec<Color>| t@),
                size == w * h,
                forall|k: int| 0 <= k < n ==> (#[trigger] tiles@[k])@.len() == cols_from(k, w as int, n as int) * h,
                i < h,
                j <= w,
                img@.len() == i * w + j,
                forall|k: int| 0 <= k < img@.len() ==> #[trigger] img@[k] == merged(ts, w as int, h as int, n as int)[k],
            decreases w - j,
        {
            let tt = j % n;
            let c = j / n;
            proof {
                vstd::arithmetic::div_mod::lemma_fundamental_div_mod(j as int, n as int);
                assert(tt + c * n == j) by (nonlinear_arith) requires j == n * c + tt;
                lemma_cols(tt as int, c as int, w as int, n as int);
                let cols = cols_from(tt as int, w as int, n as int);
                assert(c * h + i < cols * h) by (nonlinear_arith) requires 0 <= c < cols, 0 <= i < h;
                assert(c * h <= c * h + i) by (nonlinear_arith) requires 0 <= i;
                let k = i * w + j;
                assert(k < w * h) by (nonlinear_arith) requires 0 <= j < w, 0 <= i < h, k == i * w + j;
                assert(k % (w as int) == j && k / (w as int) == i) by {
                    vstd::arithmetic::div_mod::lemma_fundamental_div_mod_converse(k, w as int, i as int, j as int);
                }
            }
            let tl = tiles[tt].len();
            proof {
                assert(c * h + i < tl);
            }
            let px = tiles[tt][c * h + i];
            img.push(px);
            j = j + 1;
        }
        proof {
            assert(i * w + w == (i + 1) * w) by (nonlinear_arith);
        }
        i = i + 1;
    }
    proof {
        assert(img@.len() == w * h) by (nonlinear_arith) requires img@.len() == i * w, i == h;
        assert(img@ =~= merged(ts, w as int, h as int, n as int));
    }
    Some(img)
}

impl PolyTree {
    /// Renders the whole `w x h` image as `n` column tiles and merges them;
    /// the result is the same for every `n`.
    pub fn render(&self, origin: Vec3, rays: &Vec<Vec3>, w: usize, h: usize, n: usize) -> (r: Vec<Color>)
        requires
            self.wf(),
            origin.in_range(),
            rays_ok(rays@, w as int, h as int),
            0 < n,
        ensures
            r@ == full_image(*self, origin, rays@, w as int, h as int),
    {
        let mut tiles: Vec<Vec<Color>> = Vec::new();
        let mut t: usize = 0;
        while t < n
            invariant
                self.wf(),
                origin.in_range(),
                rays_ok(rays@, w as int, h as int),
                0 < n,
                t <= n,
                tiles@.len() == t,
                forall|k: int| 0 <= k < t ==> is_tile((#[trigger] tiles@[k])@, *self, origin, rays@, w as int, h as int, n as int, k),
            decreases n - t,
        {
            let tile = self.render_modulus(origin, rays, w, h, t, n);
            tiles.push(tile);
            t = t + 1;
        }
        let ghost ts = tiles@.map_values(|t: Vec<Color>| t@);
        proof {
            assert(rays@.len() == rays.len());
            assert forall|k: int| 0 <= k < n implies #[trigger] is_tile(ts[k], *self, origin, rays@, w as int, h as int, n as int, k) by {
                assert(ts[k] == tiles@[k]@);
            }
            lemma_tiles_rebuild_image(ts, *self, origin, rays@, w as int, h as int, n as int);
            assert forall|k: int| 0 <= k < n implies (#[trigger] tiles@[k])@.len() == cols_from(k, w as int, n as int) * h by {
                assert(is_tile(tiles@[k]@, *self, origin, rays@, w as int, h as int, n as int, k));
            }
        }
        match merge_tiles(&tiles, w, h, n) {
            Some(img) => img,
            None => {
                proof {
                    assert(false);
                }
                Vec::new()
            },
        }
    }
}

} // verus!
