use meshtrace::canvas::Color;
use meshtrace::geometry::{Face, TexCoord, Vec3, UV};
use meshtrace::mesh::{nearest_of, MeshError, PolyTree, Simplex3D, WidePoint, UV_ONE};

fn v(x: i64, y: i64, z: i64) -> Vec3 {
    Vec3::new(x, y, z)
}

fn flat_uv(u: i64, w: i64) -> UV {
    let c = TexCoord { u, v: w };
    UV { r: c, a: c, b: c }
}

/// 2 x 2 texture: (0,0) dark red, (1,0) green, (0,1) blue, (1,1) white.
fn texture() -> Vec<u8> {
    vec![200, 0, 0, 0, 255, 0, 0, 0, 255, 255, 255, 255]
}

fn mesh(faces: Vec<Face>, uvs: Vec<UV>, tf: Vec<u8>) -> Simplex3D {
    Simplex3D {
        m: v(0, 0, 0),
        x: faces,
        tm: uvs,
        tf,
        tw: 2,
        th: 2,
        base_color: Color::new(0, 0, 0, 255),
        has_t: true,
    }
}

fn wall() -> Face {
    Face::new(v(0, -100, -100), v(0, -100, 100), v(0, 100, -100))
}

#[test]
fn mismatched_uv_list_is_rejected() {
    let m = mesh(vec![wall()], vec![], texture());
    assert!(matches!(PolyTree::new(m), Err(MeshError::MismatchedUvs)));
}

#[test]
fn out_of_range_uv_is_rejected() {
    let m = mesh(vec![wall()], vec![flat_uv(1 << 30, 0)], texture());
    assert!(matches!(PolyTree::new(m), Err(MeshError::UvOutOfRange)));
}

#[test]
fn hit_takes_texel_under_uv() {
    let half = UV_ONE / 2;
    let t = PolyTree::new(mesh(vec![wall()], vec![flat_uv(half, half)], texture())).unwrap();
    let c = t.get_collision(v(-10, -50, -50), v(1, 0, 0));
    assert!(c.hit);
    assert_eq!(c.c, Color::new(255, 255, 255, 255));
    assert_eq!(c.t, 10 * c.den);
    assert_eq!(c.p, WidePoint { x: 0, y: -50 * c.den, z: -50 * c.den });
    assert_eq!(c.nearest.unwrap().face, wall());
    // u = 0, flipped v = 1/2: column 0, row 1
    let t2 = PolyTree::new(mesh(vec![wall()], vec![flat_uv(0, half)], texture())).unwrap();
    assert_eq!(t2.get_collision(v(-10, -50, -50), v(1, 0, 0)).c, Color::new(0, 0, 255, 255));
}

#[test]
fn texel_outside_buffer_gives_error_color() {
    let t = PolyTree::new(mesh(vec![wall()], vec![flat_uv(0, 0)], texture())).unwrap();
    // flipped v = 1 lands on row 2 of a 2-row texture
    let c = t.get_collision(v(-10, -50, -50), v(1, 0, 0));
    assert!(c.hit);
    assert_eq!(c.c, Color::new(255, 0, 0, 255));
    assert_eq!(c.t, 10 * c.den);
    assert_eq!(c.p.x, 0);
}

#[test]
fn miss_gives_background() {
    let t = PolyTree::new(mesh(vec![wall()], vec![flat_uv(0, 0)], texture())).unwrap();
    let c = t.get_collision(v(-10, -50, -50), v(-1, 0, 0));
    assert!(!c.hit);
    assert_eq!(c.c, Color::new(0, 0, 0, 255));
    assert_eq!((c.t, c.den), (0, 1));
    assert_eq!(c.p, WidePoint { x: -10, y: -50, z: -50 });
    assert!(c.nearest.is_none());
    let c = t.get_collision(v(-10, 500, 500), v(1, 0, 0));
    assert!(!c.hit);
}

#[test]
fn single_triangle_scenario() {
    let f = Face::new(v(0, 0, 0), v(0, 0, 2), v(0, 2, 0));
    let t = PolyTree::new(mesh(vec![f], vec![flat_uv(0, 0)], texture())).unwrap();
    let h = t.nearest_collision(v(-3, 0, 0), v(1, 0, 0)).unwrap();
    assert!(h.hit);
    assert!(h.bg.beta >= 0 && h.bg.gamma >= 0 && h.bg.beta + h.bg.gamma <= h.bg.den);
    assert_eq!(h.bg.t, 3 * h.bg.den);
    assert!(t.nearest_collision(v(-3, 0, 0), v(1, 5, 5)).is_none());
    let c = t.get_collision(v(-3, 0, 0), v(1, 0, 0));
    assert!(c.hit);
    // distance |t| / den * |p| = 3, hit point (0, 0, 0)
    assert_eq!(c.t, 3 * c.den);
    assert_eq!(c.p, WidePoint { x: 0, y: 0, z: 0 });
    assert!(!t.get_collision(v(-3, 0, 0), v(1, 5, 5)).hit);
}

#[test]
fn nearest_of_two_walls_wins() {
    let near = Face::new(v(5, -100, -100), v(5, -100, 100), v(5, 100, -100));
    let far = wall();
    let half = UV_ONE / 2;
    let t = PolyTree::new(mesh(vec![far, near], vec![flat_uv(0, half), flat_uv(half, half)], texture())).unwrap();
    let h = t.nearest_collision(v(20, -50, -50), v(-1, 0, 0)).unwrap();
    assert_eq!(h.face, near);
    assert_eq!(t.get_collision(v(20, -50, -50), v(-1, 0, 0)).c, Color::new(255, 255, 255, 255));
    let h = t.nearest_collision(v(-20, -50, -50), v(1, 0, 0)).unwrap();
    assert_eq!(h.face, far);
}

#[test]
fn query_twice_gives_same_result() {
    let half = UV_ONE / 2;
    let t = PolyTree::new(mesh(vec![wall()], vec![flat_uv(half, 0)], texture())).unwrap();
    let a = t.root.get_collision(v(-10, -20, -30), v(3, 1, 1));
    let b = t.root.get_collision(v(-10, -20, -30), v(3, 1, 1));
    assert_eq!(a, b);
    assert_eq!(nearest_of(&a), nearest_of(&b));
    assert_eq!(t.get_collision(v(-10, -20, -30), v(3, 1, 1)), t.get_collision(v(-10, -20, -30), v(3, 1, 1)));
}
