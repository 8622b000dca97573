use meshtrace::canvas::Color;
use meshtrace::geometry::{Face, TexCoord, Vec3, UV};
use meshtrace::mesh::{PolyTree, Simplex3D, UV_ONE};
use meshtrace::render::{merge_tiles, tile_columns};

fn v(x: i64, y: i64, z: i64) -> Vec3 {
    Vec3::new(x, y, z)
}

fn scene() -> PolyTree {
    let c = TexCoord { u: UV_ONE / 2, v: UV_ONE / 2 };
    let uv = UV { r: c, a: c, b: c };
    let f = Face::new(v(0, -20, -20), v(0, -20, 40), v(0, 40, -20));
    PolyTree::new(Simplex3D {
        m: v(0, 0, 0),
        x: vec![f],
        tm: vec![uv],
        tf: vec![9, 9, 9, 9, 9, 9, 9, 9, 9, 50, 60, 70],
        tw: 2,
        th: 2,
        base_color: Color::new(0, 0, 0, 255),
        has_t: true,
    })
    .unwrap()
}

/// Ray for column `j`, row `i`, stored column by column.
fn rays(w: usize, h: usize) -> Vec<Vec3> {
    let mut r = Vec::new();
    for j in 0..w {
        for i in 0..h {
            r.push(v(10, j as i64 * 3 - 12, i as i64 * 3 - 9));
        }
    }
    r
}

#[test]
fn one_and_eight_workers_give_identical_images() {
    let t = scene();
    let (w, h) = (9, 7);
    let rs = rays(w, h);
    let origin = v(-20, 0, 0);
    let one = t.render(origin, &rs, w, h, 1);
    let eight = t.render(origin, &rs, w, h, 8);
    assert_eq!(one.len(), w * h);
    assert_eq!(one, eight);
    for i in 0..h {
        for j in 0..w {
            assert_eq!(one[i * w + j], t.get_collision(origin, rs[j * h + i]).c);
        }
    }
    let hit = Color::new(50, 60, 70, 255);
    let bg = Color::new(0, 0, 0, 255);
    assert!(one.contains(&hit));
    assert!(one.contains(&bg));
}

#[test]
fn tiles_hold_their_columns() {
    let t = scene();
    let (w, h) = (5, 2);
    let rs = rays(w, h);
    let origin = v(-20, 0, 0);
    let tile = t.render_modulus(origin, &rs, w, h, 1, 3);
    // columns 1 and 4
    assert_eq!(tile.len(), 4);
    assert_eq!(tile[0], t.get_collision(origin, rs[2]).c);
    assert_eq!(tile[3], t.get_collision(origin, rs[9]).c);
    assert_eq!(tile_columns(1, 5, 3), 2);
    assert_eq!(tile_columns(2, 5, 3), 1);
    assert_eq!(tile_columns(7, 5, 3), 0);
}

#[test]
fn merge_places_columns_by_modulus() {
    let a = Color::new(1, 0, 0, 255);
    let b = Color::new(2, 0, 0, 255);
    let c = Color::new(3, 0, 0, 255);
    // w = 3, h = 1, two workers: tile 0 holds columns 0 and 2, tile 1 column 1
    let tiles = vec![vec![a, c], vec![b]];
    assert_eq!(merge_tiles(&tiles, 3, 1, 2), Some(vec![a, b, c]));
}

#[test]
fn merge_rejects_wrong_shapes() {
    let a = Color::new(1, 0, 0, 255);
    assert_eq!(merge_tiles(&vec![vec![a]], 3, 1, 2), None);
    assert_eq!(merge_tiles(&vec![vec![a], vec![a]], 3, 1, 2), None);
    assert_eq!(merge_tiles(&vec![], 3, 1, 0), None);
}
