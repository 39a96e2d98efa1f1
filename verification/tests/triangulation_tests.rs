use i_triangle::net::TrianglesBuilder;
use i_triangle::geom::IntPoint;
use i_triangle::triangulation::IntTriangulation;

#[test]
fn triangles_iterates_resolved_points() {
    let triangulation = IntTriangulation {
        points: vec![
            IntPoint::new(0, 0),
            IntPoint::new(10, 0),
            IntPoint::new(10, 10),
            IntPoint::new(0, 10),
        ],
        indices: vec![0_u16, 1, 2, 0, 2, 3],
    };

    let triangles: Vec<_> = triangulation.triangles();

    assert_eq!(
        triangles,
        vec![
            [IntPoint::new(0, 0), IntPoint::new(10, 0), IntPoint::new(10, 10)],
            [IntPoint::new(0, 0), IntPoint::new(10, 10), IntPoint::new(0, 10)],
        ]
    );
}

#[test]
fn triangles_leave_out_a_trailing_incomplete_triple() {
    let t = IntTriangulation::<u16> {
        points: vec![IntPoint::new(0, 0), IntPoint::new(4, 0), IntPoint::new(0, 4)],
        indices: vec![0, 1, 2, 0],
    };
    let triangles = t.triangles();
    assert_eq!(triangles.len(), 1);
    assert_eq!(triangles[0], [IntPoint::new(0, 0), IntPoint::new(4, 0), IntPoint::new(0, 4)]);
}

#[test]
fn conversions_of_a_mesh_agree() {
    let shape = vec![vec![IntPoint::new(0, 0), IntPoint::new(10, 0), IntPoint::new(10, 10), IntPoint::new(0, 10)]];
    let raw = TrianglesBuilder::shape_triangulation(&shape, None);
    let copied = raw.to_triangulation::<u16>();
    let indices = raw.triangle_indices::<u16>();
    let moved = raw.into_triangulation::<u16>();
    assert_eq!(copied.points, moved.points);
    assert_eq!(copied.indices, indices);
    assert_eq!(moved.indices, indices);
}
