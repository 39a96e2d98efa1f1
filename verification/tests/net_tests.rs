use i_triangle::geom::IntPoint;
use i_triangle::net::TrianglesBuilder;

fn path(slice: &[[i32; 2]]) -> Vec<IntPoint> {
    slice.iter().map(|p| IntPoint::new(p[0], p[1])).collect()
}

fn contour_area_two(contour: &[IntPoint]) -> i64 {
    let n = contour.len();
    let mut s: i64 = 0;
    for i in 0..n {
        let a = contour[i];
        let b = contour[(i + 1) % n];
        s += a.x as i64 * b.y as i64 - a.y as i64 * b.x as i64;
    }
    s
}

trait ShapeArea {
    fn area_two(&self) -> i64;
}

impl ShapeArea for Vec<Vec<IntPoint>> {
    fn area_two(&self) -> i64 {
        self.iter().map(|c| contour_area_two(c)).sum()
    }
}

#[test]
fn builder_test_0() {
    let shape = vec![vec![
        IntPoint::new(0, 0),
        IntPoint::new(10, 0),
        IntPoint::new(10, 10),
        IntPoint::new(0, 10),
    ]];
    let shape_area = shape.area_two();

    let raw = TrianglesBuilder::shape_triangulation(&shape, None);

    assert_eq!(raw.triangles.len(), 2);
    assert!(raw.validate());

    assert_eq!(raw.area(), shape_area);
}

#[test]
fn builder_test_1() {
    let shape = vec![vec![
        IntPoint::new(0, -5),
        IntPoint::new(5, 0),
        IntPoint::new(0, 5),
        IntPoint::new(-5, 0),
    ]];
    let shape_area = shape.area_two();

    let raw = TrianglesBuilder::shape_triangulation(&shape, None);

    assert_eq!(raw.triangles.len(), 2);
    assert!(raw.validate());

    assert_eq!(raw.area(), shape_area);
}

#[test]
fn builder_test_3() {
    let shape = vec![vec![
        IntPoint::new(0, 0),
        IntPoint::new(10, 5),
        IntPoint::new(0, 10),
        IntPoint::new(5, 5),
    ]];
    let shape_area = shape.area_two();

    let raw = TrianglesBuilder::shape_triangulation(&shape, None);
    assert_eq!(raw.triangles.len(), 2);
    assert!(raw.validate());

    assert_eq!(raw.area(), shape_area);
}

#[test]
fn builder_test_4() {
    let shape = vec![vec![
        IntPoint::new(0, 0),
        IntPoint::new(10, -5),
        IntPoint::new(5, 0),
        IntPoint::new(10, 5),
    ]];
    let shape_area = shape.area_two();

    let raw = TrianglesBuilder::shape_triangulation(&shape, None);
    assert_eq!(raw.triangles.len(), 2);
    assert!(raw.validate());

    assert_eq!(raw.area(), shape_area);
}

#[test]
fn builder_test_5() {
    let shape = vec![vec![
        IntPoint::new(-15, -15),
        IntPoint::new(15, -15),
        IntPoint::new(25, 0),
        IntPoint::new(15, 15),
        IntPoint::new(-15, 15),
        IntPoint::new(-25, 0),
    ]];
    let shape_area = shape.area_two();

    let raw = TrianglesBuilder::shape_triangulation(&shape, None);
    assert_eq!(raw.triangles.len(), 4);
    assert!(raw.validate());

    assert_eq!(raw.area(), shape_area);
}

#[test]
fn builder_test_6() {
    let shape = vec![vec![
        IntPoint::new(0, -5),
        IntPoint::new(-10, -15),
        IntPoint::new(10, -5),
        IntPoint::new(5, 0),
        IntPoint::new(10, 5),
        IntPoint::new(-10, 15),
        IntPoint::new(0, 5),
    ]];
    let shape_area = shape.area_two();

    let raw = TrianglesBuilder::shape_triangulation(&shape, None);
    assert_eq!(raw.triangles.len(), 5);
    assert!(raw.validate());

    assert_eq!(raw.area(), shape_area);
}

#[test]
fn builder_test_7() {
    let shape = vec![vec![
        IntPoint::new(15, -15),
        IntPoint::new(0, 15),
        IntPoint::new(0, 0),
        IntPoint::new(-15, 0),
        IntPoint::new(-15, -15),
    ]];
    let shape_area = shape.area_two();

    let raw = TrianglesBuilder::shape_triangulation(&shape, None);
    assert_eq!(raw.triangles.len(), 3);
    assert!(raw.validate());

    assert_eq!(raw.area(), shape_area);
}

#[test]
fn builder_test_8() {
    let shape = vec![vec![
        IntPoint::new(-5, -10),
        IntPoint::new(-10, -15),
        IntPoint::new(5, -20),
        IntPoint::new(0, 0),
        IntPoint::new(5, 20),
        IntPoint::new(-10, 15),
        IntPoint::new(-5, 10),
        IntPoint::new(-15, 0),
    ]];
    let shape_area = shape.area_two();

    let raw = TrianglesBuilder::shape_triangulation(&shape, None);
    assert_eq!(raw.triangles.len(), 6);
    assert!(raw.validate());

    assert_eq!(raw.area(), shape_area);
}

#[test]
fn builder_test_9() {
    let shape = vec![vec![
        IntPoint::new(-5, -10),
        IntPoint::new(-10, -15),
        IntPoint::new(-2, -20),
        IntPoint::new(5, -20),
        IntPoint::new(0, 0),
        IntPoint::new(5, 20),
        IntPoint::new(-2, 20),
        IntPoint::new(-10, 15),
        IntPoint::new(-5, 10),
        IntPoint::new(-15, 0),
    ]];
    let shape_area = shape.area_two();

    let raw = TrianglesBuilder::shape_triangulation(&shape, None);
    assert_eq!(raw.triangles.len(), 8);
    assert!(raw.validate());

    assert_eq!(raw.area(), shape_area);
}

#[test]
fn builder_test_10() {
    let shape = vec![
        path(&[[-15, -15], [15, -15], [15, 15], [-15, 15]]),
        path(&[[-10, -5], [-10, 5], [0, 0]]),
        path(&[[5, -10], [-5, -10], [0, 0]]),
        path(&[[10, 5], [10, -5], [0, 0]]),
        path(&[[-5, 10], [5, 10], [0, 0]]),
    ];
    let shape_area = shape.area_two();

    let raw = TrianglesBuilder::shape_triangulation(&shape, None);
    assert_eq!(raw.triangles.len(), 16);
    assert!(raw.validate());

    assert_eq!(raw.area(), shape_area);
}

#[test]
fn builder_test_11() {
    let shape = vec![
        path(&[[-5, -5], [20, -5], [20, 20], [-5, 20]]),
        path(&[[0, 0], [0, 5], [5, 5], [5, 0]]),
        path(&[[0, 10], [0, 15], [5, 15], [5, 10]]),
        path(&[[10, 0], [10, 5], [15, 5], [15, 0]]),
        path(&[[10, 10], [10, 15], [15, 15], [15, 10]]),
        path(&[[5, 5], [5, 10], [10, 10], [10, 5]]),
    ];
    let shape_area = shape.area_two();

    let raw = TrianglesBuilder::shape_triangulation(&shape, None);
    assert_eq!(raw.triangles.len(), 24);
    assert!(raw.validate());

    assert_eq!(raw.area(), shape_area);
}

#[test]
fn builder_test_12() {
    let shape = vec![
        path(&[
            [-30, -30],
            [0, -15],
            [30, -30],
            [15, 0],
            [30, 30],
            [0, 15],
            [-30, 30],
            [-15, 0],
        ]),
        path(&[
            [-20, 20],
            [0, 10],
            [20, 20],
            [10, 0],
            [20, -20],
            [0, -10],
            [-20, -20],
            [-10, 0],
        ]),
    ];
    let shape_area = shape.area_two();

    let raw = TrianglesBuilder::shape_triangulation(&shape, None);
    assert_eq!(raw.triangles.len(), 16);
    assert!(raw.validate());

    assert_eq!(raw.area(), shape_area);
}

#[test]
fn builder_test_13() {
    let shape = vec![path(&[
        [-15, 15],
        [10, 15],
        [18, -15],
        [15, -15],
        [30, -30],
        [15, 0],
        [30, 30],
        [-15, 30],
    ])];
    let shape_area = shape.area_two();

    let raw = TrianglesBuilder::shape_triangulation(&shape, None);
    assert_eq!(raw.triangles.len(), 6);
    assert!(raw.validate());

    assert_eq!(raw.area(), shape_area);
}

#[test]
fn builder_test_14() {
    let shape = vec![path(&[[-2, -3], [-4, -4], [5, -1], [1, -1], [2, 3]])];
    // The path is simple and counter-clockwise: simplifying it keeps
    // the polygon, twice its area is 21.
    let shape_area = 21;
    assert_eq!(shape.area_two(), shape_area);

    let raw = TrianglesBuilder::shape_triangulation(&shape, None);
    assert_eq!(raw.triangles.len(), 3);
    assert!(raw.validate());

    assert_eq!(raw.area(), shape_area);
}

#[test]
fn builder_test_15() {
    let shape = vec![path(&[[0, 2], [2, 0], [5, 0], [4, 6]])];
    let shape_area = shape.area_two();

    let raw = TrianglesBuilder::shape_triangulation(&shape, None);
    assert_eq!(raw.triangles.len(), 2);
    assert!(raw.validate());

    assert_eq!(raw.area(), shape_area);
}

#[test]
fn builder_test_16() {
    let shape = vec![path(&[[0, 4], [-4, -3], [-2, -2], [1, -2], [0, -1]])];
    let shape_area = shape.area_two();

    let raw = TrianglesBuilder::shape_triangulation(&shape, None);
    assert_eq!(raw.triangles.len(), 3);
    assert!(raw.validate());

    assert_eq!(raw.area(), shape_area);
}

#[test]
fn builder_test_17() {
    let shape = vec![path(&[
        [-1, -2],
        [-2, -2],
        [1, -4],
        [1, -1],
        [3, -1],
        [1, -2],
        [5, -2],
        [0, 5],
    ])];
    let shape_area = shape.area_two();

    let raw = TrianglesBuilder::shape_triangulation(&shape, None);
    assert_eq!(raw.triangles.len(), 6);
    assert!(raw.validate());

    assert_eq!(raw.area(), shape_area);
}

#[test]
fn builder_test_18() {
    let shape = vec![path(&[
        [3, 3],
        [-4, 3],
        [1, -2],
        [-2, 2],
        [0, 1],
        [1, -2],
        [1, -4],
    ])];
    let shape_area = shape.area_two();

    let raw = TrianglesBuilder::shape_triangulation(&shape, None);
    assert_eq!(raw.triangles.len(), 5);
    assert!(raw.validate());

    assert_eq!(raw.area(), shape_area);
}

#[test]
fn builder_test_19() {
    let shape = vec![path(&[
        [-2, 0],
        [-3, 2],
        [0, -10],
        [2, 1],
        [-1, 2],
        [-1, 5],
    ])];
    let shape_area = shape.area_two();

    let raw = TrianglesBuilder::shape_triangulation(&shape, None);
    assert_eq!(raw.triangles.len(), 4);
    assert!(raw.validate());

    assert_eq!(raw.area(), shape_area);
}

#[test]
fn builder_test_20() {
    let shape = vec![path(&[
        [5, 5],
        [-5, 1],
        [2, 0],
        [-2, 2],
        [1, 3],
        [2, 0],
        [2, -5],
    ])];
    let shape_area = shape.area_two();

    let raw = TrianglesBuilder::shape_triangulation(&shape, None);
    assert_eq!(raw.triangles.len(), 5);
    assert!(raw.validate());

    assert_eq!(raw.area(), shape_area);
}

#[test]
fn builder_test_21() {
    let shape = vec![path(&[
        [-2, 0],
        [-5, 1],
        [5, -5],
        [3, -1],
        [-1, 0],
        [2, 0],
        [3, -1],
        [4, 4],
    ])];
    let shape_area = shape.area_two();

    let raw = TrianglesBuilder::shape_triangulation(&shape, None);
    assert_eq!(raw.triangles.len(), 6);
    assert!(raw.validate());

    assert_eq!(raw.area(), shape_area);
}

#[test]
fn test_22() {
    let shape = vec![path(&[[-10, 0], [10, -10], [10, 10]])];
    let points = vec![IntPoint::new(0, 0)];
    let shape_area = shape.area_two();

    let raw = TrianglesBuilder::shape_triangulation(&shape, Some(&points));
    assert_eq!(raw.triangles.len(), 3);
    assert!(raw.validate());

    assert_eq!(raw.area(), shape_area);
}

#[test]
fn test_23() {
    let shape = vec![path(&[[-10, 0], [0, -10], [10, 0], [0, 10]])];
    let points = vec![IntPoint::new(0, 0)];
    let shape_area = shape.area_two();

    let raw = TrianglesBuilder::shape_triangulation(&shape, Some(&points));
    assert_eq!(raw.triangles.len(), 4);
    assert!(raw.validate());

    assert_eq!(raw.area(), shape_area);
}

#[test]
fn test_24() {
    let shape = vec![path(&[
        [-10, 10],
        [0, 5],
        [0, 0],
        [0, -5],
        [-10, -10],
        [10, -10],
        [10, 10],
    ])];
    let points = vec![IntPoint::new(5, 0)];
    let shape_area = shape.area_two();

    let raw = TrianglesBuilder::shape_triangulation(&shape, Some(&points));
    assert_eq!(raw.triangles.len(), 7);
    assert!(raw.validate());

    assert_eq!(raw.area(), shape_area);
}

#[test]
fn test_25() {
    let shape = vec![path(&[[-10, 0], [0, -10], [10, 0], [0, 10]])];
    let points = vec![
        IntPoint::new(-2, 0),
        IntPoint::new(-1, 0),
        IntPoint::new(1, -2),
    ];
    let shape_area = shape.area_two();

    let raw = TrianglesBuilder::shape_triangulation(&shape, Some(&points));
    assert_eq!(raw.triangles.len(), 8);
    assert!(raw.validate());

    assert_eq!(raw.area(), shape_area);
}

#[test]
fn test_26() {
    let shape = vec![path(&[[4, 4], [-5, 3], [3, -3], [2, 3]])];
    let points = vec![IntPoint::new(1, 3)];
    let shape_area = shape.area_two();

    let raw = TrianglesBuilder::shape_triangulation(&shape, Some(&points));
    assert_eq!(raw.triangles.len(), 4);
    assert!(raw.validate());

    assert_eq!(raw.area(), shape_area);
}

#[test]
fn test_27() {
    let shape = vec![path(&[[3, -1], [0, 0], [1, -1], [3, -5]])];
    let points = vec![IntPoint::new(2, -2)];
    let shape_area = shape.area_two();

    let raw = TrianglesBuilder::shape_triangulation(&shape, Some(&points));
    assert_eq!(raw.triangles.len(), 4);
    assert!(raw.validate());

    assert_eq!(raw.area(), shape_area);
}

#[test]
fn test_28() {
    let shape = vec![path(&[[3, -1], [0, 0], [1, -1], [3, -5]])];
    let points = vec![IntPoint::new(2, -2)];
    let shape_area = shape.area_two();

    let raw = TrianglesBuilder::shape_triangulation(&shape, Some(&points));
    assert_eq!(raw.triangles.len(), 4);
    assert!(raw.validate());

    assert_eq!(raw.area(), shape_area);
}


use i_triangle::binder::group_by_shapes;

#[test]
fn test_29() {
    let shape = vec![path(&[[1, 0], [-4, -2], [3, 0], [5, 1], [4, 1], [-4, -1]])];
    let points = vec![IntPoint::new(0, 3), IntPoint::new(4, 3)];
    let shape_area = shape.area_two();
    let group = group_by_shapes(&vec![shape.clone()], &points);

    let raw = TrianglesBuilder::shape_triangulation(&shape, Some(&group[0]));
    assert_eq!(raw.triangles.len(), 4);
    assert!(raw.validate());

    assert_eq!(raw.area(), shape_area);
}

#[test]
fn test_30() {
    let shape = vec![path(&[[-1, 2], [-5, -2], [2, -2], [3, 4]])];
    let points = vec![IntPoint::new(1, 5)];
    let shape_area = shape.area_two();
    let group = group_by_shapes(&vec![shape.clone()], &points);

    let raw = TrianglesBuilder::shape_triangulation(&shape, Some(&group[0]));
    assert_eq!(raw.triangles.len(), 2);
    assert!(raw.validate());

    assert_eq!(raw.area(), shape_area);
}

#[test]
fn net_points_are_the_contour_points_in_sweep_order() {
    let contour = path(&[[10, 10], [0, 10], [0, 0], [10, 0], [5, -5]]);
    let raw = TrianglesBuilder::contour_triangulation(&contour, None);
    assert_eq!(raw.points, path(&[[0, 0], [0, 10], [5, -5], [10, 0], [10, 10]]));
    assert!(raw.validate());
}

#[test]
fn net_points_hold_a_shared_point_once() {
    let shape = vec![
        path(&[[0, 0], [10, 0], [10, 10], [0, 10]]),
        path(&[[5, 5], [5, 8], [8, 8]]),
        path(&[[5, 5], [8, 2], [5, 2]]),
    ];
    let raw = TrianglesBuilder::shape_triangulation(&shape, None);
    assert_eq!(
        raw.points,
        path(&[[0, 0], [0, 10], [5, 2], [5, 5], [5, 8], [8, 2], [8, 8], [10, 0], [10, 10]])
    );
}
