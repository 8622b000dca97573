use meshtrace::canvas::Color;
use meshtrace::geometry::{Face, TexCoord, Vec3, UV};
use meshtrace::mesh::{MeshError, PolyTree, Simplex3D};
use meshtrace::transform::{move_point, Motion, MOTION_ONE};

fn v(x: i64, y: i64, z: i64) -> Vec3 {
    Vec3::new(x, y, z)
}

fn wall_mesh() -> Simplex3D {
    let c = TexCoord { u: 0, v: 0 };
    Simplex3D {
        m: v(0, 0, 0),
        x: vec![Face::new(v(0, -100, -100), v(0, -100, 100), v(0, 100, -100))],
        tm: vec![UV { r: c, a: c, b: c }],
        tf: vec![1, 2, 3],
        tw: 1,
        th: 1,
        base_color: Color::new(0, 0, 0, 255),
        has_t: true,
    }
}

#[test]
fn mesh_constructors() {
    let f = Face::new(v(0, 0, 0), v(1, 0, 0), v(0, 1, 0));
    let plain = Simplex3D::new(v(1, 2, 3), vec![f]);
    assert_eq!(plain.m, v(1, 2, 3));
    assert!(!plain.has_t && plain.tm.is_empty() && plain.tf.is_empty());
    assert!(matches!(PolyTree::new(plain), Err(MeshError::MismatchedUvs)));
    let c = TexCoord { u: 0, v: 0 };
    let textured = Simplex3D::new_textured(v(0, 0, 0), vec![f], vec![UV { r: c, a: c, b: c }], vec![1, 2, 3], 1, 1);
    assert!(textured.has_t);
    assert_eq!((textured.tw, textured.th), (1, 1));
    assert!(PolyTree::new(textured).is_ok());
}

#[test]
fn brute_force_scan_agrees_with_index() {
    let m = wall_mesh();
    let hit = m.get_collision(v(-10, -50, -50), v(1, 0, 0));
    // the texel lies outside the one-pixel texture
    assert!(hit.hit);
    assert_eq!(hit.c, Color::new(255, 0, 0, 255));
    assert_eq!(hit.t, 10 * hit.den);
    let t = PolyTree::new(wall_mesh()).unwrap();
    assert_eq!(hit, t.get_collision(v(-10, -50, -50), v(1, 0, 0)));
    let miss = m.get_collision(v(-10, -50, -50), v(-1, 0, 0));
    assert!(!miss.hit);
    assert_eq!(miss.c, Color::new(0, 0, 0, 255));
}

#[test]
fn translate_moves_faces_and_nodes() {
    let mut t = PolyTree::new(wall_mesh()).unwrap();
    assert_eq!(t.root.m, v(0, -33, -33));
    assert_eq!(t.translate(v(5, 0, 0)), Ok(()));
    assert_eq!(t.root.m, v(5, -33, -33));
    assert_eq!(t.root.faces[0].r, v(5, -100, -100));
    assert_eq!(t.source.x[0].r, v(5, -100, -100));
    assert_eq!(t.source.m, v(5, 0, 0));
    let h = t.nearest_collision(v(-10, -50, -50), v(1, 0, 0)).unwrap();
    assert_eq!(h.bg.t, 15 * h.bg.den);
}

#[test]
fn translate_out_of_range_changes_nothing() {
    let mut t = PolyTree::new(wall_mesh()).unwrap();
    assert_eq!(t.translate(v(0, 65500, 0)), Err(MeshError::OutOfRange));
    assert_eq!(t.translate(v(65537, 0, 0)), Err(MeshError::OutOfRange));
    assert_eq!(t.root.faces[0].r, v(0, -100, -100));
    assert_eq!(t.source.m, v(0, 0, 0));
}

#[test]
fn goto_places_centre() {
    let mut t = PolyTree::new(wall_mesh()).unwrap();
    assert_eq!(t.goto(v(7, -3, 2)), Ok(()));
    assert_eq!(t.source.m, v(7, -3, 2));
    assert_eq!(t.root.faces[0].a, v(7, -103, 102));
}

#[test]
fn quarter_turn_about_z() {
    let one = MOTION_ONE;
    let mut t = PolyTree::new(wall_mesh()).unwrap();
    assert!(t.nearest_collision(v(-50, -10, -50), v(0, 1, 0)).is_none());
    assert_eq!(t.rot(v(0, -one, 0), v(one, 0, 0), v(0, 0, one)), Ok(()));
    assert_eq!(t.root.faces[0].r, v(100, 0, -100));
    assert_eq!(t.root.faces[0].b, v(-100, 0, -100));
    assert!(t.nearest_collision(v(-50, -10, -50), v(0, 1, 0)).is_some());
    assert_eq!(t.rot(v(2 * one, 0, 0), v(0, one, 0), v(0, 0, one)), Err(MeshError::OutOfRange));
}

#[test]
fn scale_rebuilds_from_scaled_mesh() {
    let one = MOTION_ONE;
    let mut t = PolyTree::new(wall_mesh()).unwrap();
    assert!(t.nearest_collision(v(-10, -70, -20), v(1, 0, 0)).is_some());
    assert_eq!(t.scale(v(one, one / 2, one)), Ok(()));
    assert_eq!(t.source.x[0].r, v(0, -50, -100));
    assert_eq!(t.root.faces[0].b, v(0, 50, -100));
    assert!(t.nearest_collision(v(-10, -70, -20), v(1, 0, 0)).is_none());
}

#[test]
fn scale_can_enlarge() {
    let one = MOTION_ONE;
    let mut t = PolyTree::new(wall_mesh()).unwrap();
    assert_eq!(t.scale(v(one, 2 * one, 3 * one)), Ok(()));
    assert_eq!(t.source.x[0].r, v(0, -200, -300));
    assert_eq!(t.root.faces[0].a, v(0, -200, 300));
    assert!(t.nearest_collision(v(-10, -150, -250), v(1, 0, 0)).is_some());
    assert_eq!(t.scale(v(one, 1000 * one, one)), Err(MeshError::OutOfRange));
    assert_eq!(t.source.x[0].r, v(0, -200, -300));
}

#[test]
fn large_shift_within_range() {
    let mut t = PolyTree::new(wall_mesh()).unwrap();
    assert_eq!(t.translate(v(-65000, 0, 0)), Ok(()));
    assert_eq!(t.translate(v(120000, 0, 0)), Ok(()));
    assert_eq!(t.root.faces[0].r, v(55000, -100, -100));
}

#[test]
fn shear_keeps_node_spheres_sound() {
    let one = MOTION_ONE;
    let c = TexCoord { u: 0, v: 0 };
    let mut fs = Vec::new();
    for k in 0..300i64 {
        let (x, y, z) = ((k % 7) * 10, ((k / 7) % 7) * 10, (k / 49) * 10);
        fs.push(Face::new(v(x, y, z), v(x + 2, y, z), v(x, y + 2, z + 1)));
    }
    let m = Simplex3D::new_textured(v(30, 30, 30), fs, vec![UV { r: c, a: c, b: c }; 300], vec![0; 3], 1, 1);
    let mut t = PolyTree::new(m).unwrap();
    assert_eq!(t.rot(v(one, one, 0), v(0, one, 0), v(0, 0, one)), Ok(()));
    fn check(n: &meshtrace::octree::PolyTreeElement) -> Vec<Face> {
        let below: Vec<Face> = if n.leaf { n.faces.clone() } else { n.children.iter().flat_map(check).collect() };
        for f in &below {
            for p in [f.r, f.a, f.b] {
                let (dx, dy, dz) = (p.x - n.m.x, p.y - n.m.y, p.z - n.m.z);
                assert!(dx * dx + dy * dy + dz * dz <= n.radius * n.radius);
            }
        }
        below
    }
    assert_eq!(check(&t.root).len(), 300);
}

#[test]
fn move_point_rounds_up_and_checks_range() {
    let one = MOTION_ONE;
    let half = Motion::Stretch(v(0, 0, 0), v(one / 2, one / 2, one / 2));
    assert_eq!(move_point(&half, v(3, -3, 4)), Some(v(2, -1, 2)));
    assert_eq!(move_point(&Motion::Shift(v(65536, 0, 0)), v(1, 0, 0)), None);
}

#[test]
fn update_recomputes_leaf_bounds() {
    let mut t = PolyTree::new(wall_mesh()).unwrap();
    let (m, r) = (t.root.m, t.root.radius);
    t.update();
    assert_eq!((t.root.m, t.root.radius), (m, r));
}
