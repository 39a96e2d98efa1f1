use i_triangle::geom::IntPoint;
use i_triangle::uniform_mesh::IntUniformTriangulatable;

#[test]
fn preserves_split_boundary_points() {
    let contour = vec![
        IntPoint::new(0, 0),
        IntPoint::new(100, 0),
        IntPoint::new(100, 100),
        IntPoint::new(0, 100),
    ];

    let mesh = contour.uniform_triangulate(20u64);

    for x in [20, 40, 60, 80] {
        assert!(mesh.points.contains(&IntPoint::new(x, 0)));
    }
    assert!(!mesh.triangles.is_empty());
}

#[test]
fn triangulates_shape_with_hole() {
    let shape = vec![
        vec![
            IntPoint::new(0, 0),
            IntPoint::new(100, 0),
            IntPoint::new(100, 100),
            IntPoint::new(0, 100),
        ],
        vec![
            IntPoint::new(40, 40),
            IntPoint::new(40, 60),
            IntPoint::new(60, 60),
            IntPoint::new(60, 40),
        ],
    ];

    let mesh = shape.uniform_triangulate(10u64);

    assert!(!mesh.triangles.is_empty());
    assert!(mesh.points.iter().all(|p| p.x <= 40 || 60 <= p.x || p.y <= 40 || 60 <= p.y));
}

#[test]
fn uniform_mesh_of_shapes_covers_each_square() {
    let square = |x: i32| {
        vec![vec![
            IntPoint::new(x, 0),
            IntPoint::new(x + 40, 0),
            IntPoint::new(x + 40, 40),
            IntPoint::new(x, 40),
        ]]
    };
    let shapes = vec![square(0), square(100)];
    let mesh = shapes.uniform_triangulate(10u64);
    assert!(mesh.validate());
    assert_eq!(mesh.area(), 2 * 2 * 40 * 40);
}
