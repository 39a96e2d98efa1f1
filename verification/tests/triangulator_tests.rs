use i_triangle::geom::IntPoint;
use i_triangle::triangulation::IntTriangulation;
use i_triangle::triangulator::IntTriangulator;

fn path(slice: &[[i32; 2]]) -> Vec<IntPoint> {
    slice.iter().map(|p| IntPoint::new(p[0], p[1])).collect()
}

fn circle(n: usize, r: f64) -> Vec<IntPoint> {
    (0..n)
        .map(|i| {
            let a = 2.0 * std::f64::consts::PI * i as f64 / n as f64;
            IntPoint::new((r * a.cos()).round() as i32, (r * a.sin()).round() as i32)
        })
        .collect()
}

fn total_area(t: &IntTriangulation<u32>) -> i64 {
    let mut s = 0;
    for tri in t.indices.chunks(3) {
        let a = t.points[tri[0] as usize];
        let b = t.points[tri[1] as usize];
        let c = t.points[tri[2] as usize];
        s += (b.x as i64 - a.x as i64) * (c.y as i64 - a.y as i64)
            - (b.y as i64 - a.y as i64) * (c.x as i64 - a.x as i64);
    }
    s
}

#[test]
fn triangulator_square_by_ear_clipping() {
    let mut triangulator = IntTriangulator::<u32>::default();
    let t = triangulator.uncheck_triangulate_contour(&path(&[[0, 0], [10, 0], [10, 10], [0, 10]]));
    assert_eq!(t.indices.len(), 6);
    assert!(t.validate(200));
}

#[test]
fn triangulator_large_contour_by_sweep() {
    let contour = circle(100, 1000.0);
    let mut triangulator = IntTriangulator::<u32>::default();
    let t = triangulator.uncheck_triangulate_contour(&contour);
    assert_eq!(t.points.len(), 100);
    assert_eq!(t.indices.len(), 3 * 98);
    assert!(t.validate(total_area(&t)));
}

#[test]
fn triangulator_linked_mesh_gives_same_area() {
    let contour = circle(80, 500.0);
    let mut flat = IntTriangulator::<u32>::default();
    let a = flat.uncheck_triangulate_contour(&contour);
    let mut linked = IntTriangulator::<u32>::default();
    linked.delaunay = true;
    let b = linked.uncheck_triangulate_contour(&contour);
    assert_eq!(a.points.len(), b.points.len());
    assert_eq!(a.indices.len(), b.indices.len());
    assert_eq!(total_area(&a), total_area(&b));
}

#[test]
fn triangulator_shape_with_hole() {
    let shape = vec![
        path(&[[0, 0], [30, 0], [30, 30], [0, 30]]),
        path(&[[10, 10], [10, 20], [20, 20], [20, 10]]),
    ];
    let mut triangulator = IntTriangulator::<u16>::default();
    let t = triangulator.uncheck_triangulate_shape(&shape);
    assert_eq!(t.indices.len(), 3 * 8);
    assert!(t.validate(2 * (900 - 100)));
}

#[test]
fn triangulator_joins_shapes() {
    let shapes = vec![
        vec![path(&[[0, 0], [10, 0], [10, 10], [0, 10]])],
        vec![path(&[[20, 0], [30, 0], [30, 10], [20, 10]])],
    ];
    let mut triangulator = IntTriangulator::<u32>::default();
    let t = triangulator.uncheck_triangulate_shapes(&shapes);
    assert_eq!(t.points.len(), 8);
    assert_eq!(t.indices.len(), 12);
    assert!(t.validate(400));
}

#[test]
fn triangulator_simplifies_clockwise_contour() {
    // A clockwise square: simplification turns it around.
    let contour = path(&[[0, 0], [0, 10], [10, 10], [10, 0]]);
    let mut triangulator = IntTriangulator::<u32>::default();
    let t = triangulator.triangulate_contour(&contour);
    assert_eq!(t.indices.len(), 6);
    assert!(t.validate(200));
}

#[test]
fn triangulator_simplifies_bow_tie() {
    // A self-intersecting bow tie: two triangles meeting at (5, 5).
    let contour = path(&[[0, 0], [10, 10], [10, 0], [0, 10]]);
    let mut triangulator = IntTriangulator::<u32>::default();
    let t = triangulator.triangulate_contour(&contour);
    assert_eq!(t.indices.len(), 6);
    assert!(t.validate(total_area(&t)));
    assert_eq!(total_area(&t), 2 * 50);
}

#[test]
fn triangulator_simplifies_overlapping_shapes() {
    let shapes = vec![
        vec![path(&[[0, 0], [10, 0], [10, 10], [0, 10]])],
        vec![path(&[[5, 0], [15, 0], [15, 10], [5, 10]])],
    ];
    let mut triangulator = IntTriangulator::<u32>::default();
    let t = triangulator.triangulate_shapes(&shapes);
    assert!(t.validate(2 * 150));
}
