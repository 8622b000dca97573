use meshtrace::canvas::{Color, VirtualCanvas};
use meshtrace::drawing::Drawing;
use meshtrace::projection::ProjectiveScene;
use meshtrace::raster::Raster;
use meshtrace::vector_tree::VectorTree;

fn blank(w: usize, h: usize, z: i32) -> Raster {
    Raster {
        z,
        rec_start: (0, 0),
        rec_end: (w, h),
        screen_width: w,
        screen_height: h,
        raster_width: w,
        raster_height: h,
        pixels: vec![vec![Color::new(0, 0, 0, 0); w]; h],
    }
}

fn painted(r: &Raster, c: Color) -> Vec<(i32, i32)> {
    let mut out = Vec::new();
    for y in 0..r.raster_height {
        for x in 0..r.raster_width {
            if r.get(x as i32, y as i32) == c {
                out.push((x as i32, y as i32));
            }
        }
    }
    out
}

#[test]
fn color_and_canvas() {
    let c = Color::new(1, 2, 3, 4);
    assert_eq!((c.r, c.g, c.b, c.a), (1, 2, 3, 4));
    let mut canvas = VirtualCanvas::new(2, 2);
    assert_eq!(canvas.pixels, vec![0; 16]);
    canvas.draw_pixel(1, 1, c);
    assert_eq!(&canvas.pixels[12..16], &[1, 2, 3, 4]);
    assert!(canvas.pixels[..12].iter().all(|b| *b == 0));
}

#[test]
fn raster_set_ignores_outside_pixels() {
    let mut r = blank(3, 2, 0);
    let c = Color::new(9, 9, 9, 255);
    r.set(2, 1, &c);
    r.set(3, 1, &c);
    r.set(-1, 0, &c);
    r.set(0, 2, &c);
    assert_eq!(painted(&r, c), vec![(2, 1)]);
    assert_eq!(r.get_color(2, 1), c);
}

#[test]
fn horizontal_line_spans_inclusive_range() {
    let mut r = blank(10, 10, 0);
    let c = Color::new(255, 0, 0, 255);
    Drawing::draw_horizontal_line(2, 5, 3, &c, &mut r);
    assert_eq!(painted(&r, c), vec![(2, 3), (3, 3), (4, 3), (5, 3)]);
}

#[test]
fn midpoint_circle_outline() {
    let mut r = blank(11, 11, 0);
    let c = Color::new(0, 255, 0, 255);
    Drawing::midpoint_circle(5, 5, 3, &c, &mut r);
    let p = painted(&r, c);
    for q in [(5, 8), (8, 5), (2, 5), (5, 2), (6, 8), (7, 7)] {
        assert!(p.contains(&q), "{:?}", q);
    }
    assert!(!p.contains(&(5, 5)));
    assert_eq!(p.len(), 16);
}

#[test]
fn filled_circle_covers_centre() {
    let mut r = blank(11, 11, 0);
    let c = Color::new(0, 0, 255, 255);
    Drawing::filled_midpoint_circle(5, 5, 3, &c, &mut r);
    let p = painted(&r, c);
    assert!(p.contains(&(5, 5)));
    assert!(p.contains(&(2, 5)));
    assert!(p.contains(&(5, 8)));
    assert!(!p.contains(&(8, 8)));
    assert_eq!(p.len(), 37);
}

#[test]
fn bresenham_visits_expected_pixels() {
    let mut r = blank(6, 4, 0);
    let c = Color::new(7, 7, 7, 255);
    Drawing::bresenham_line_single_color((0, 0), (4, 2), &c, &mut r);
    let mut p = painted(&r, c);
    p.sort();
    assert_eq!(p, vec![(0, 0), (1, 1), (2, 1), (3, 2), (4, 2)]);
}

#[test]
fn bresenham_clips_to_screen() {
    let mut r = blank(3, 3, 0);
    let c = Color::new(7, 7, 7, 255);
    Drawing::bresenham_line_single_color((-2, 1), (5, 1), &c, &mut r);
    assert_eq!(painted(&r, c), vec![(0, 1), (1, 1), (2, 1)]);
}

#[test]
fn thick_horizontal_line() {
    let mut r = blank(12, 6, 0);
    let c = Color::new(3, 3, 3, 255);
    Drawing::bresenham_line_single_color_width((2, 2), (8, 2), 2, &c, &mut r);
    let p = painted(&r, c);
    for y in 1..=3 {
        for x in 2..=8 {
            assert!(p.contains(&(x, y)), "{:?}", (x, y));
        }
    }
    assert!(p.contains(&(1, 2)));
    assert!(p.contains(&(9, 2)));
    assert_eq!(p.len(), 23);
}

#[test]
fn thick_diagonal_line_covers_both_ends() {
    let mut r = blank(10, 10, 0);
    let c = Color::new(4, 4, 4, 255);
    Drawing::bresenham_line_single_color_width((1, 1), (4, 5), 4, &c, &mut r);
    let p = painted(&r, c);
    assert!(p.contains(&(1, 1)));
    assert!(p.contains(&(4, 5)));
    // the perpendicular segment through the start runs from (3, 0) to (-1, 2)
    assert!(p.contains(&(3, 0)));
    assert!(p.contains(&(6, 4)));
}

#[test]
fn sort_rasters_orders_by_depth() {
    let zs: Vec<i32> = (0..30).map(|i| (i * 7919) % 31 - 15).collect();
    let v: Vec<Raster> = zs.iter().map(|z| blank(1, 1, *z)).collect();
    let sorted = ProjectiveScene::<Raster>::sort_rasters(v);
    let got: Vec<i32> = sorted.iter().map(|r| r.z).collect();
    let mut want = zs.clone();
    want.sort();
    assert_eq!(got, want);
    let few = ProjectiveScene::<Raster>::sort_rasters(vec![blank(1, 1, 3), blank(1, 1, -2), blank(1, 1, 0)]);
    assert_eq!(few.iter().map(|r| r.z).collect::<Vec<_>>(), vec![-2, 0, 3]);
}

#[test]
fn scene_composites_back_to_front() {
    let red = Color::new(255, 0, 0, 255);
    let blue = Color::new(0, 0, 255, 255);
    let mut front = blank(2, 2, 5);
    front.pixels[0][0] = blue;
    let mut back = blank(3, 3, 1);
    back.pixels = vec![vec![red; 3]; 3];
    back.pixels[1][1] = Color::new(0, 0, 0, 255);
    let mut scene: ProjectiveScene<Raster> = ProjectiveScene::new();
    scene.add(front);
    scene.add(back);
    assert_eq!(scene.get(1).z, 1);
    let mut canvas = VirtualCanvas::new(4, 4);
    scene.render(&mut canvas);
    let px = |x: usize, y: usize| {
        let p = (x + y * 4) * 4;
        Color::new(canvas.pixels[p], canvas.pixels[p + 1], canvas.pixels[p + 2], canvas.pixels[p + 3])
    };
    assert_eq!(px(0, 0), blue);
    assert_eq!(px(1, 0), Color::new(0, 0, 0, 0));
    assert_eq!(px(2, 2), red);
    assert_eq!(px(1, 1), Color::new(0, 0, 0, 0));
    assert_eq!(px(3, 3), Color::new(0, 0, 0, 0));
}

#[test]
fn vector_tree_accepts_values() {
    let values = [5, 3, 7, 2, 4, 6, 8, 3];
    let mut tree = VectorTree::from_vector(&values);
    tree.insert(1);
    tree.insert(9);
}

#[test]
fn circle_points_keep_to_the_ring() {
    for radius in [1, 2, 5, 13, 40] {
        let size = (2 * radius + 3) as usize;
        let mut r = blank(size, size, 0);
        let c = Color::new(1, 1, 1, 255);
        let centre = radius + 1;
        Drawing::midpoint_circle(centre, centre, radius, &c, &mut r);
        let p = painted(&r, c);
        assert!(p.contains(&(centre + radius, centre)) && p.contains(&(centre, centre - radius)));
        for (x, y) in p {
            let d2 = (x - centre) * (x - centre) + (y - centre) * (y - centre);
            assert!((radius - 1) * (radius - 1) < d2 && d2 < (radius + 1) * (radius + 1));
        }
    }
    let mut r = blank(3, 3, 0);
    let c = Color::new(1, 1, 1, 255);
    Drawing::midpoint_circle(1, 1, 0, &c, &mut r);
    assert_eq!(painted(&r, c), vec![(1, 1)]);
}

#[test]
fn thick_line_of_zero_length_is_a_disc() {
    let mut r = blank(9, 9, 0);
    let c = Color::new(6, 6, 6, 255);
    Drawing::bresenham_line_single_color_width((4, 4), (4, 4), 4, &c, &mut r);
    let p = painted(&r, c);
    assert!(p.contains(&(4, 4)) && p.contains(&(6, 4)) && p.contains(&(4, 2)));
    for (x, y) in p {
        assert!((x - 4) * (x - 4) + (y - 4) * (y - 4) < 9);
    }
}
