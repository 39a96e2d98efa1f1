use i_triangle::delaunay::{is_contain_exclude_borders, IntDelaunay};
use i_triangle::geom::{IndexPoint, IntPoint, IntTriangle};

const NONE: usize = usize::MAX;

fn square() -> IntDelaunay {
    let points = vec![IntPoint::new(0, 0), IntPoint::new(10, 0), IntPoint::new(10, 10), IntPoint::new(0, 10)];
    let ip = |i: usize| IndexPoint::new(i, points[i]);
    let t0 = IntTriangle { vertices: [ip(0), ip(1), ip(2)], neighbors: [NONE, 1, NONE] };
    let t1 = IntTriangle { vertices: [ip(0), ip(2), ip(3)], neighbors: [NONE, NONE, 0] };
    IntDelaunay { triangles: vec![t0, t1], points }
}

fn vertex_indices(t: &IntTriangle) -> [usize; 3] {
    [t.vertices[0].index, t.vertices[1].index, t.vertices[2].index]
}

#[test]
fn split_at_a_point_inside_the_neighbour() {
    let mut mesh = square();
    let abc = mesh.triangles[0].abc_by_neighbor(1);
    let r = mesh.split_triangle_with_neighbor(0, abc, 1, IntPoint::new(2, 8));
    assert_eq!(r, [0, 1, 2, 3]);
    assert_eq!(mesh.points.len(), 5);
    assert_eq!(mesh.points[4], IntPoint::new(2, 8));
    assert_eq!(mesh.triangles.len(), 4);
    assert_eq!(vertex_indices(&mesh.triangles[0]), [1, 2, 4]);
    assert_eq!(mesh.triangles[0].neighbors, [3, 2, NONE]);
    assert_eq!(vertex_indices(&mesh.triangles[2]), [1, 4, 0]);
    assert_eq!(mesh.triangles[2].neighbors, [1, NONE, 0]);
    assert_eq!(vertex_indices(&mesh.triangles[3]), [3, 4, 2]);
    assert_eq!(mesh.triangles[3].neighbors, [0, NONE, 1]);
    assert_eq!(vertex_indices(&mesh.triangles[1]), [3, 0, 4]);
    assert_eq!(mesh.triangles[1].neighbors, [2, 3, NONE]);
}

#[test]
fn split_at_the_edge_midpoint_when_the_point_is_outside() {
    let mut mesh = square();
    let abc = mesh.triangles[0].abc_by_neighbor(1);
    mesh.split_triangle_with_neighbor(0, abc, 1, IntPoint::new(20, 20));
    assert_eq!(mesh.points[4], IntPoint::new(5, 5));
    // Every link is answered.
    for (i, t) in mesh.triangles.iter().enumerate() {
        for &n in t.neighbors.iter() {
            if n != NONE {
                assert!(mesh.triangles[n].neighbors.contains(&i));
            }
        }
    }
}

#[test]
fn strict_containment_excludes_the_border() {
    let a = IntPoint::new(0, 0);
    let b = IntPoint::new(10, 0);
    let c = IntPoint::new(0, 10);
    assert!(is_contain_exclude_borders(IntPoint::new(2, 2), a, b, c));
    assert!(!is_contain_exclude_borders(IntPoint::new(5, 0), a, b, c));
    assert!(!is_contain_exclude_borders(IntPoint::new(8, 8), a, b, c));
    assert!(is_contain_exclude_borders(IntPoint::new(2, 2), a, c, b));
}

#[test]
fn split_a_lone_triangle_at_its_edge_midpoint() {
    let points = vec![IntPoint::new(0, 0), IntPoint::new(10, 0), IntPoint::new(10, 10)];
    let ip = |i: usize| IndexPoint::new(i, points[i]);
    let t0 = IntTriangle { vertices: [ip(0), ip(1), ip(2)], neighbors: [NONE, NONE, NONE] };
    let mut mesh = IntDelaunay { triangles: vec![t0], points: points.clone() };
    let abc = mesh.triangles[0].abc_by_neighbor(NONE);
    let r = mesh.split_alone_triangle(0, abc);
    assert_eq!(r, [0, 1]);
    assert_eq!(mesh.points[3], IntPoint::new(10, 5));
    assert_eq!(vertex_indices(&mesh.triangles[0]), [0, 1, 3]);
    assert_eq!(mesh.triangles[0].neighbors, [NONE, 1, NONE]);
    assert_eq!(vertex_indices(&mesh.triangles[1]), [0, 3, 2]);
    assert_eq!(mesh.triangles[1].neighbors, [NONE, NONE, 0]);
}
