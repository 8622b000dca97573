use meshtrace::geometry::{is_colliding, Barycentric, Face, Vec3};

fn v(x: i64, y: i64, z: i64) -> Vec3 {
    Vec3::new(x, y, z)
}

fn sample_face() -> Face {
    Face::new(v(0, 0, 0), v(0, 0, 2), v(0, 2, 0))
}

#[test]
fn face_derives_normal_centroid_and_radius() {
    let f = sample_face();
    assert_eq!(f.n, v(-4, 0, 0));
    assert_eq!(f.m, v(0, 1, 1));
    assert_eq!(f.radius, 2);
}

#[test]
fn face_radius_covers_every_vertex() {
    let f = Face::new(v(-7, 3, 11), v(20, -5, 0), v(4, 9, -13));
    let d2 = |p: Vec3| {
        let (dx, dy, dz) = (p.x - f.m.x, p.y - f.m.y, p.z - f.m.z);
        dx * dx + dy * dy + dz * dz
    };
    let r2 = f.radius * f.radius;
    assert!(d2(f.r) <= r2);
    assert!(d2(f.a) <= r2);
    assert!(d2(f.b) <= r2);
    assert!((f.radius - 1) * (f.radius - 1) < d2(f.r).max(d2(f.a)).max(d2(f.b)));
}

#[test]
fn axis_ray_hits_triangle_corner_at_distance_three() {
    let f = sample_face();
    let o = v(-3, 0, 0);
    let d = v(1, 0, 0);
    assert!(f.is_colliding(o, d));
    let bg = f.get_beta_gamma(o, d);
    assert_eq!(bg, Barycentric { beta: 0, gamma: 0, t: 12, den: 4 });
    assert!(bg.is_inside());
    assert!(bg.beta + bg.gamma <= bg.den);
    assert_eq!(bg.t / bg.den, 3);
}

#[test]
fn steep_ray_misses_triangle() {
    let f = sample_face();
    let o = v(-3, 0, 0);
    let d = v(1, 5, 5);
    assert!(!f.is_colliding(o, d));
    let bg = f.get_beta_gamma(o, d);
    assert_eq!(bg, Barycentric { beta: 30, gamma: 30, t: 12, den: 4 });
    assert!(!bg.is_inside());
}

#[test]
fn ray_through_interior_point_finds_its_coordinates() {
    // interior point r + 1/4 (a - r) + 1/2 (b - r) = (0, 2, 1) for this face
    let f = Face::new(v(0, 0, 0), v(0, 0, 4), v(0, 4, 0));
    let o = v(-6, 5, -2);
    let d = v(6, -3, 3);
    let bg = f.get_beta_gamma(o, d);
    assert!(bg.is_inside());
    assert_eq!(bg.beta * 4, bg.den);
    assert_eq!(bg.gamma * 2, bg.den);
    assert_eq!(bg.t, bg.den);
}

#[test]
fn ray_parallel_to_plane_gives_sentinel() {
    let f = sample_face();
    let bg = f.get_beta_gamma(v(-3, 0, 0), v(0, 1, 1));
    assert_eq!(bg, Barycentric { beta: -1, gamma: -1, t: 0, den: 1 });
    assert!(!bg.is_inside());
}

#[test]
fn sphere_behind_origin_is_rejected() {
    assert!(!is_colliding(v(-10, 0, 0), 5, v(0, 0, 0), v(1, 0, 0)));
    assert!(is_colliding(v(10, 0, 0), 5, v(0, 0, 0), v(1, 0, 0)));
}

#[test]
fn sphere_far_from_ray_line_is_rejected() {
    // centre 4 units off the line, radius 3: rejected; radius 4: kept
    assert!(!is_colliding(v(10, 4, 0), 3, v(0, 0, 0), v(2, 0, 0)));
    assert!(is_colliding(v(10, 4, 0), 4, v(0, 0, 0), v(2, 0, 0)));
}

#[test]
fn rounding_helpers() {
    assert_eq!(meshtrace::geometry::div_ceil(7, 3), 3);
    assert_eq!(meshtrace::geometry::div_ceil(-7, 3), -2);
    assert_eq!(meshtrace::geometry::div_ceil(6, 3), 2);
    assert_eq!(meshtrace::geometry::ceil_sqrt(0), 0);
    assert_eq!(meshtrace::geometry::ceil_sqrt(2), 2);
    assert_eq!(meshtrace::geometry::ceil_sqrt(16), 4);
    assert_eq!(meshtrace::geometry::ceil_sqrt(17), 5);
}
