use meshtrace::geometry::{Face, TexCoord, Vec3, UV};
use meshtrace::mesh::PolyTree;
use meshtrace::octree::PolyTreeElement;

fn v(x: i64, y: i64, z: i64) -> Vec3 {
    Vec3::new(x, y, z)
}

fn uv0() -> UV {
    let c = TexCoord { u: 0, v: 0 };
    UV { r: c, a: c, b: c }
}

fn grid_faces(n: usize) -> (Vec<Face>, Vec<UV>) {
    let mut fs = Vec::new();
    let mut us = Vec::new();
    for k in 0..n {
        let x = ((k % 7) * 10) as i64;
        let y = (((k / 7) % 7) * 10) as i64;
        let z = ((k / 49) * 10) as i64;
        fs.push(Face::new(v(x, y, z), v(x + 2, y, z), v(x, y + 2, z + 1)));
        us.push(uv0());
    }
    (fs, us)
}

fn count_leaf_faces(n: &PolyTreeElement) -> usize {
    if n.leaf {
        assert!(n.children.is_empty());
        assert_eq!(n.faces.len(), n.uvs.len());
        n.faces.len()
    } else {
        assert_eq!(n.children.len(), 8);
        assert!(n.faces.is_empty());
        n.children.iter().map(count_leaf_faces).sum()
    }
}

fn collect_leaf_faces(n: &PolyTreeElement, out: &mut Vec<Face>) {
    if n.leaf {
        out.extend(n.faces.iter().copied());
    } else {
        for c in &n.children {
            collect_leaf_faces(c, out);
        }
    }
}

#[test]
fn small_mesh_is_one_leaf() {
    let (fs, us) = grid_faces(199);
    let root = PolyTree::construct_tree(fs.clone(), us);
    assert!(root.leaf);
    assert!(root.children.is_empty());
    assert_eq!(root.faces, fs);
}

#[test]
fn large_mesh_splits_into_eight_and_keeps_every_face() {
    let (fs, us) = grid_faces(300);
    let root = PolyTree::construct_tree(fs.clone(), us);
    assert!(!root.leaf);
    assert_eq!(root.children.len(), 8);
    assert_eq!(count_leaf_faces(&root), 300);
    let mut got = Vec::new();
    collect_leaf_faces(&root, &mut got);
    let key = |f: &Face| (f.r.x, f.r.y, f.r.z);
    let mut a: Vec<_> = got.iter().map(key).collect();
    let mut b: Vec<_> = fs.iter().map(key).collect();
    a.sort();
    b.sort();
    assert_eq!(a, b);
}

#[test]
fn coincident_faces_stay_in_one_leaf() {
    let f = Face::new(v(0, 0, 0), v(3, 0, 0), v(0, 3, 0));
    let fs = vec![f; 250];
    let us = vec![uv0(); 250];
    let root = PolyTree::construct_tree(fs, us);
    assert!(root.leaf);
    assert_eq!(root.faces.len(), 250);
}

#[test]
fn node_middle_and_radius() {
    let fs = vec![
        Face::new(v(0, 0, 0), v(3, 0, 0), v(0, 3, 0)),
        Face::new(v(9, 0, 0), v(12, 0, 0), v(9, 3, 0)),
    ];
    // face centroids (1, 1, 0) and (10, 1, 0), radius 3 each
    assert_eq!(fs[0].m, v(1, 1, 0));
    assert_eq!(fs[1].m, v(10, 1, 0));
    let m = PolyTree::get_middle(&fs);
    assert_eq!(m, v(6, 1, 0));
    // ceil(5) + 3 and ceil(4) + 3
    assert_eq!(PolyTree::get_radius(&fs, m), 8);
    assert_eq!(PolyTree::get_middle(&Vec::new()), v(0, 0, 0));
}

#[test]
fn divide_faces_by_octant() {
    let fs = vec![
        Face::new(v(-9, -9, -9), v(-8, -9, -9), v(-9, -8, -9)),
        Face::new(v(9, 9, 9), v(10, 9, 9), v(9, 10, 9)),
        Face::new(v(9, -9, 9), v(10, -9, 9), v(9, -8, 9)),
    ];
    let us = vec![uv0(); 3];
    let (dfs, duvs) = PolyTree::divide_faces(fs.clone(), us);
    assert_eq!(dfs.len(), 8);
    assert_eq!(duvs.len(), 8);
    assert_eq!(dfs[0], vec![fs[0]]);
    assert_eq!(dfs[7], vec![fs[1]]);
    assert_eq!(dfs[5], vec![fs[2]]);
    assert_eq!(dfs.iter().map(|b| b.len()).sum::<usize>(), 3);
}

fn check_cover(n: &PolyTreeElement, all: &mut Vec<Face>) {
    let mut under = Vec::new();
    collect_leaf_faces(n, &mut under);
    for f in &under {
        for v in [f.r, f.a, f.b] {
            let (dx, dy, dz) = (v.x - n.m.x, v.y - n.m.y, v.z - n.m.z);
            assert!(dx * dx + dy * dy + dz * dz <= n.radius * n.radius);
        }
    }
    if n.leaf {
        all.extend(under);
    } else {
        for c in &n.children {
            check_cover(c, all);
        }
    }
}

#[test]
fn node_radius_bounds_every_vertex_below() {
    let (fs, us) = grid_faces(600);
    let root = PolyTree::construct_tree(fs, us);
    let mut all = Vec::new();
    check_cover(&root, &mut all);
    assert_eq!(all.len(), 600);
}

#[test]
fn octants_built_apart_join_into_the_same_tree() {
    let (fs, us) = grid_faces(300);
    let whole = PolyTree::construct_tree(fs.clone(), us.clone());
    let (dfs, duvs) = PolyTree::divide_faces(fs.clone(), us.clone());
    let children: Vec<PolyTreeElement> =
        dfs.into_iter().zip(duvs).map(|(f, u)| PolyTree::construct_tree(f, u)).collect();
    let joined = PolyTree::join_octants(fs, us, children);
    assert_eq!((joined.leaf, joined.m, joined.radius), (whole.leaf, whole.m, whole.radius));
    assert_eq!(joined.children.len(), 8);
    for (a, b) in joined.children.iter().zip(whole.children.iter()) {
        assert_eq!((a.leaf, a.m, a.radius, count_leaf_faces(a)), (b.leaf, b.m, b.radius, count_leaf_faces(b)));
    }
}
