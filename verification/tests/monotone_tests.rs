use i_triangle::geom::IntPoint;
use i_triangle::monotone::MonotoneTriangulator;
use i_triangle::triangulation::IntTriangulation;

fn path(slice: &[[i32; 2]]) -> Vec<IntPoint> {
    slice.iter().map(|p| IntPoint::new(p[0], p[1])).collect()
}

fn contour_area_two(contour: &[IntPoint]) -> i64 {
    let n = contour.len();
    let mut s: i64 = 0;
    for i in 0..n {
    let a = contour[i];
    let b = contour[(i + 1) % n];
    s += a.x as i64 * b.y as i64 - a.y as i64 * b.x as i64;
    }
    s
}

fn shape_area_two(shape: &[Vec<IntPoint>]) -> i64 {
    shape.iter().map(|c| contour_area_two(c)).sum()
}

trait ShapeArea {
    fn area_two(&self) -> i64;
}

impl ShapeArea for Vec<Vec<IntPoint>> {
    fn area_two(&self) -> i64 {
    shape_area_two(self)
    }
}

fn triangulate(shape: &Vec<Vec<IntPoint>>, raw: &mut IntTriangulation<u32>) {
    assert!(MonotoneTriangulator::default().shape_into_flat_triangulation(shape, raw));
}

#[test]
fn triangulator_test_0() {
    let shape = vec![vec![
        IntPoint::new(0, 0),
        IntPoint::new(10, 0),
        IntPoint::new(10, 10),
        IntPoint::new(0, 10),
    ]];
    let shape_area = shape.area_two();

    let mut raw = IntTriangulation::<u32>::default();
    triangulate(&shape, &mut raw);

    assert_eq!(raw.indices.len() / 3, 2);
    assert!(raw.validate(shape_area));
}

#[test]
fn triangulator_test_1() {
    let shape = vec![vec![
        IntPoint::new(0, -5),
        IntPoint::new(5, 0),
        IntPoint::new(0, 5),
        IntPoint::new(-5, 0),
    ]];
    let shape_area = shape.area_two();

    let mut raw = IntTriangulation::<u32>::default();
    triangulate(&shape, &mut raw);

    assert_eq!(raw.indices.len() / 3, 2);
    assert!(raw.validate(shape_area));
}

#[test]
fn triangulator_test_2() {
    let shape = vec![vec![
        IntPoint::new(0, 0),
        IntPoint::new(10, 0),
        IntPoint::new(5, 10),
        IntPoint::new(0, 10),
    ]];
    let shape_area = shape.area_two();

    let mut raw = IntTriangulation::<u32>::default();
    triangulate(&shape, &mut raw);

    assert_eq!(raw.indices.len() / 3, 2);
    assert!(raw.validate(shape_area));
}

#[test]
fn triangulator_test_3() {
    let shape = vec![vec![
        IntPoint::new(0, 0),
        IntPoint::new(10, 5),
        IntPoint::new(0, 10),
        IntPoint::new(5, 5),
    ]];
    let shape_area = shape.area_two();

    let mut raw = IntTriangulation::<u32>::default();
    triangulate(&shape, &mut raw);

    assert_eq!(raw.indices.len() / 3, 2);
    assert!(raw.validate(shape_area));
}

#[test]
fn triangulator_test_4() {
    let shape = vec![vec![
        IntPoint::new(0, 0),
        IntPoint::new(10, -5),
        IntPoint::new(5, 0),
        IntPoint::new(10, 5),
    ]];
    let shape_area = shape.area_two();

    let mut raw = IntTriangulation::<u32>::default();
    triangulate(&shape, &mut raw);

    assert_eq!(raw.indices.len() / 3, 2);
    assert!(raw.validate(shape_area));
}

#[test]
fn triangulator_test_5() {
    let shape = vec![vec![
        IntPoint::new(-15, -15),
        IntPoint::new(15, -15),
        IntPoint::new(25, 0),
        IntPoint::new(15, 15),
        IntPoint::new(-15, 15),
        IntPoint::new(-25, 0),
    ]];
    let shape_area = shape.area_two();

    let mut raw = IntTriangulation::<u32>::default();
    triangulate(&shape, &mut raw);

    assert_eq!(raw.indices.len() / 3, 4);
    assert!(raw.validate(shape_area));
}

#[test]
fn triangulator_test_6() {
    let shape = vec![vec![
        IntPoint::new(0, -5),
        IntPoint::new(-10, -15),
        IntPoint::new(10, -5),
        IntPoint::new(5, 0),
        IntPoint::new(10, 5),
        IntPoint::new(-10, 15),
        IntPoint::new(0, 5),
    ]];
    let shape_area = shape.area_two();

    let mut raw = IntTriangulation::<u32>::default();
    triangulate(&shape, &mut raw);

    assert_eq!(raw.indices.len() / 3, 5);
    assert!(raw.validate(shape_area));
}

#[test]
fn triangulator_test_7() {
    let shape = vec![vec![
        IntPoint::new(15, -15),
        IntPoint::new(0, 15),
        IntPoint::new(0, 0),
        IntPoint::new(-15, 0),
        IntPoint::new(-15, -15),
    ]];
    let shape_area = shape.area_two();

    let mut raw = IntTriangulation::<u32>::default();
    triangulate(&shape, &mut raw);

    assert_eq!(raw.indices.len() / 3, 3);
    assert!(raw.validate(shape_area));
}

#[test]
fn triangulator_test_8() {
    let shape = vec![vec![
        IntPoint::new(-5, -10),
        IntPoint::new(-10, -15),
        IntPoint::new(5, -20),
        IntPoint::new(0, 0),
        IntPoint::new(5, 20),
        IntPoint::new(-10, 15),
        IntPoint::new(-5, 10),
        IntPoint::new(-15, 0),
    ]];
    let shape_area = shape.area_two();

    let mut raw = IntTriangulation::<u32>::default();
    triangulate(&shape, &mut raw);

    assert_eq!(raw.indices.len() / 3, 6);
    assert!(raw.validate(shape_area));
}

#[test]
fn triangulator_test_9() {
    let shape = vec![vec![
        IntPoint::new(-5, -10),
        IntPoint::new(-10, -15),
        IntPoint::new(-2, -20),
        IntPoint::new(5, -20),
        IntPoint::new(0, 0),
        IntPoint::new(5, 20),
        IntPoint::new(-2, 20),
        IntPoint::new(-10, 15),
        IntPoint::new(-5, 10),
        IntPoint::new(-15, 0),
    ]];
    let shape_area = shape.area_two();

    let mut raw = IntTriangulation::<u32>::default();
    triangulate(&shape, &mut raw);

    assert_eq!(raw.indices.len() / 3, 8);
    assert!(raw.validate(shape_area));
}

#[test]
fn triangulator_test_10() {
    let shape = vec![
        path(&[[-15, -15], [15, -15], [15, 15], [-15, 15]]),
        path(&[[-10, -5], [-10, 5], [0, 0]]),
        path(&[[5, -10], [-5, -10], [0, 0]]),
        path(&[[10, 5], [10, -5], [0, 0]]),
        path(&[[-5, 10], [5, 10], [0, 0]]),
    ];
    let shape_area = shape.area_two();

    let mut raw = IntTriangulation::<u32>::default();
    triangulate(&shape, &mut raw);

    assert_eq!(raw.indices.len() / 3, 16);
    assert!(raw.validate(shape_area));
}

#[test]
fn triangulator_test_11() {
    let shape = vec![
        path(&[[-5, -5], [20, -5], [20, 20], [-5, 20]]),
        path(&[[0, 0], [0, 5], [5, 5], [5, 0]]),
        path(&[[0, 10], [0, 15], [5, 15], [5, 10]]),
        path(&[[10, 0], [10, 5], [15, 5], [15, 0]]),
        path(&[[10, 10], [10, 15], [15, 15], [15, 10]]),
        path(&[[5, 5], [5, 10], [10, 10], [10, 5]]),
    ];
    let shape_area = shape.area_two();

    let mut raw = IntTriangulation::<u32>::default();
    triangulate(&shape, &mut raw);

    assert_eq!(raw.indices.len() / 3, 24);
    assert!(raw.validate(shape_area));
}

#[test]
fn triangulator_test_12() {
    let shape = vec![
        path(&[
            [-30, -30],
            [0, -15],
            [30, -30],
            [15, 0],
            [30, 30],
            [0, 15],
            [-30, 30],
            [-15, 0],
        ]),
        path(&[
            [-20, 20],
            [0, 10],
            [20, 20],
            [10, 0],
            [20, -20],
            [0, -10],
            [-20, -20],
            [-10, 0],
        ]),
    ];
    let shape_area = shape.area_two();

    let mut raw = IntTriangulation::<u32>::default();
    triangulate(&shape, &mut raw);

    assert_eq!(raw.indices.len() / 3, 16);
    assert!(raw.validate(shape_area));
}

#[test]
fn triangulator_test_13() {
    let shape = vec![path(&[
        [-15, 15],
        [10, 15],
        [18, -15],
        [15, -15],
        [30, -30],
        [15, 0],
        [30, 30],
        [-15, 30],
    ])];
    let shape_area = shape.area_two();

    let mut raw = IntTriangulation::<u32>::default();
    triangulate(&shape, &mut raw);

    assert_eq!(raw.indices.len() / 3, 6);
    assert!(raw.validate(shape_area));
}

#[test]
fn triangulator_test_14() {
    let shape = vec![path(&[[-2, -3], [-4, -4], [5, -1], [1, -1], [2, 3]])];
    // The path is simple and counter-clockwise: simplifying it keeps its
    // area, twice 21 / 2.
    let shape_area = 21;
    assert_eq!(shape.area_two(), shape_area);

    let mut raw = IntTriangulation::<u32>::default();
    triangulate(&shape, &mut raw);

    assert_eq!(raw.indices.len() / 3, 3);
    assert!(raw.validate(shape_area));
}

#[test]
fn triangulator_test_15() {
    let shape = vec![path(&[[0, 2], [2, 0], [5, 0], [4, 6]])];
    let shape_area = shape.area_two();

    let mut raw = IntTriangulation::<u32>::default();
    triangulate(&shape, &mut raw);

    assert_eq!(raw.indices.len() / 3, 2);
    assert!(raw.validate(shape_area));
}

#[test]
fn triangulator_test_16() {
    let shape = vec![path(&[[0, 4], [-4, -3], [-2, -2], [1, -2], [0, -1]])];
    let shape_area = shape.area_two();

    let mut raw = IntTriangulation::<u32>::default();
    triangulate(&shape, &mut raw);

    assert_eq!(raw.indices.len() / 3, 3);
    assert!(raw.validate(shape_area));
}

#[test]
fn triangulator_test_17() {
    let shape = vec![path(&[
        [-1, -2],
        [-2, -2],
        [1, -4],
        [1, -1],
        [3, -1],
        [1, -2],
        [5, -2],
        [0, 5],
    ])];
    let shape_area = shape.area_two();

    let mut raw = IntTriangulation::<u32>::default();
    triangulate(&shape, &mut raw);

    assert_eq!(raw.indices.len() / 3, 6);
    assert!(raw.validate(shape_area));
}

#[test]
fn triangulator_test_18() {
    let shape = vec![path(&[
        [3, 3],
        [-4, 3],
        [1, -2],
        [-2, 2],
        [0, 1],
        [1, -2],
        [1, -4],
    ])];
    let shape_area = shape.area_two();

    let mut raw = IntTriangulation::<u32>::default();
    triangulate(&shape, &mut raw);

    assert_eq!(raw.indices.len() / 3, 5);
    assert!(raw.validate(shape_area));
}

#[test]
fn triangulator_test_19() {
    let shape = vec![path(&[
        [-2, 0],
        [-3, 2],
        [0, -10],
        [2, 1],
        [-1, 2],
        [-1, 5],
    ])];
    let shape_area = shape.area_two();

    let mut raw = IntTriangulation::<u32>::default();
    triangulate(&shape, &mut raw);

    assert_eq!(raw.indices.len() / 3, 4);
    assert!(raw.validate(shape_area));
}

#[test]
fn triangulator_test_20() {
    let shape = vec![path(&[
        [5, 5],
        [-5, 1],
        [2, 0],
        [-2, 2],
        [1, 3],
        [2, 0],
        [2, -5],
    ])];
    let shape_area = shape.area_two();

    let mut raw = IntTriangulation::<u32>::default();
    triangulate(&shape, &mut raw);

    assert_eq!(raw.indices.len() / 3, 5);
    assert!(raw.validate(shape_area));
}

#[test]
fn triangulator_test_21() {
    let shape = vec![path(&[
        [-2, 0],
        [-5, 1],
        [5, -5],
        [3, -1],
        [-1, 0],
        [2, 0],
        [3, -1],
        [4, 4],
    ])];
    let shape_area = shape.area_two();

    let mut raw = IntTriangulation::<u32>::default();
    triangulate(&shape, &mut raw);

    assert_eq!(raw.indices.len() / 3, 6);
    assert!(raw.validate(shape_area));
}
