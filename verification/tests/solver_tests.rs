use i_triangle::geom::IntPoint;
use i_triangle::monotone::MonotoneTriangulator;
use i_triangle::solver::IntUncheckedTriangulatable;
use i_triangle::triangulation::{IntTriangulation, RawIntTriangulation};

fn path(slice: &[[i32; 2]]) -> Vec<IntPoint> {
    slice.iter().map(|p| IntPoint::new(p[0], p[1])).collect()
}

#[test]
fn unchecked_contour_square() {
    let contour = path(&[[0, 0], [10, 0], [10, 10], [0, 10]]);
    let raw = contour.uncheck_triangulate();
    assert_eq!(raw.triangles.len(), 2);
    assert_eq!(raw.points.len(), 4);
    assert!(raw.validate());
    assert_eq!(raw.area_two(), 200);
}

#[test]
fn unchecked_short_contour_is_empty() {
    let contour = path(&[[0, 0], [10, 0]]);
    let raw = contour.uncheck_triangulate();
    assert!(raw.triangles.is_empty());
    assert!(raw.points.is_empty());
}

#[test]
fn unchecked_contour_with_steiner_point() {
    let contour = path(&[[0, 0], [10, 0], [10, 10], [0, 10]]);
    let raw = contour.uncheck_triangulate_with_steiner_points(&vec![IntPoint::new(5, 5)]);
    assert_eq!(raw.triangles.len(), 4);
    assert_eq!(raw.points.len(), 5);
    assert!(raw.validate());
    assert_eq!(raw.area_two(), 200);
}

#[test]
fn unchecked_shape_with_hole() {
    let shape = vec![
        path(&[[0, 0], [30, 0], [30, 30], [0, 30]]),
        path(&[[10, 10], [10, 20], [20, 20], [20, 10]]),
    ];
    let raw = shape.uncheck_triangulate();
    assert_eq!(raw.triangles.len(), 8);
    assert!(raw.validate());
    assert_eq!(raw.area_two(), 2 * (900 - 100));
}

#[test]
fn unchecked_shapes_are_joined() {
    let shapes = vec![
        vec![path(&[[0, 0], [10, 0], [10, 10], [0, 10]])],
        vec![path(&[[20, 0], [30, 0], [30, 10], [20, 10]])],
    ];
    let raw = shapes.uncheck_triangulate();
    assert_eq!(raw.triangles.len(), 4);
    assert_eq!(raw.points.len(), 8);
    assert!(raw.validate());
    assert_eq!(raw.area_two(), 400);
    // The second shape's triangles address its own points.
    for t in &raw.triangles[2..] {
        for v in &t.vertices {
            assert!(v.index >= 4);
            assert_eq!(raw.points[v.index], v.point);
        }
    }
}

#[test]
fn unchecked_shapes_with_steiner_points() {
    let shapes = vec![
        vec![path(&[[0, 0], [10, 0], [10, 10], [0, 10]])],
        vec![path(&[[20, 0], [30, 0], [30, 10], [20, 10]])],
    ];
    let raw = shapes.uncheck_triangulate_with_steiner_points(&vec![
        IntPoint::new(5, 5),
        IntPoint::new(15, 5),
    ]);
    assert_eq!(raw.triangles.len(), 6);
    assert_eq!(raw.points.len(), 9);
    assert!(raw.validate());
    assert_eq!(raw.area_two(), 400);
}

#[test]
fn flat_and_net_agree_on_points_and_area() {
    let shape = vec![path(&[[-15, -15], [15, -15], [25, 0], [15, 15], [-15, 15], [-25, 0]])];
    let mut flat = IntTriangulation::<u16>::default();
    assert!(MonotoneTriangulator::default().shape_into_flat_triangulation(&shape, &mut flat));
    let mut net = RawIntTriangulation::default();
    assert!(MonotoneTriangulator::default().shape_into_net_triangulation(&shape, None, &mut net));
    assert_eq!(flat.points, net.points);
    assert_eq!(flat.indices.len() / 3, net.triangles.len());
    assert!(net.validate());
    assert_eq!(net.area_two(), 2 * (30 * 30 + 10 * 30));
    assert!(flat.validate(2 * (30 * 30 + 10 * 30)));
}

#[test]
fn flat_triangulation_points_follow_the_sweep() {
    let contour = path(&[[0, 0], [10, 0], [10, 10], [0, 10]]);
    let mut flat = IntTriangulation::<u8>::default();
    assert!(MonotoneTriangulator::default().contour_into_flat_triangulation(&contour, &mut flat));
    assert_eq!(flat.points, path(&[[0, 0], [0, 10], [10, 0], [10, 10]]));
    assert_eq!(flat.indices.len(), 6);
    assert!(flat.validate(200));
}

use i_triangle::solver::IntTriangulatable;

#[test]
fn triangulatable_contour_square() {
    let contour = path(&[[0, 0], [10, 0], [10, 10], [0, 10]]);
    let raw = contour.triangulate();
    assert_eq!(raw.triangles.len(), 2);
    assert!(raw.validate());
    assert_eq!(raw.area_two(), 200);
}

#[test]
fn triangulatable_clockwise_contour_is_turned() {
    let contour = path(&[[0, 0], [0, 10], [10, 10], [10, 0]]);
    let raw = contour.triangulate();
    assert_eq!(raw.triangles.len(), 2);
    assert!(raw.validate());
    assert_eq!(raw.area_two(), 200);
}

#[test]
fn triangulatable_bow_tie_splits() {
    let contour = path(&[[0, 0], [10, 10], [10, 0], [0, 10]]);
    let raw = contour.triangulate();
    assert_eq!(raw.triangles.len(), 2);
    assert!(raw.validate());
    assert_eq!(raw.area_two(), 100);
}

#[test]
fn triangulatable_contour_with_steiner_point() {
    let contour = path(&[[0, 0], [10, 0], [10, 10], [0, 10]]);
    let raw = contour.triangulate_with_steiner_points(&vec![IntPoint::new(5, 5)]);
    assert_eq!(raw.triangles.len(), 4);
    assert!(raw.validate());
    assert_eq!(raw.area_two(), 200);
}

#[test]
fn triangulatable_shape_with_hole() {
    let shape = vec![
        path(&[[0, 0], [30, 0], [30, 30], [0, 30]]),
        path(&[[10, 10], [10, 20], [20, 20], [20, 10]]),
    ];
    let raw = shape.triangulate();
    assert_eq!(raw.triangles.len(), 8);
    assert!(raw.validate());
    assert_eq!(raw.area_two(), 1600);
}

#[test]
fn triangulatable_overlapping_shapes_are_united() {
    let shapes = vec![
        vec![path(&[[0, 0], [10, 0], [10, 10], [0, 10]])],
        vec![path(&[[5, 0], [15, 0], [15, 10], [5, 10]])],
    ];
    let raw = shapes.triangulate();
    assert!(raw.validate());
    assert_eq!(raw.area_two(), 300);
}

use i_triangle::solver::IntCustomTriangulatable;
use i_triangle::triangulator::{FillRuleKind, Validation};

#[test]
fn custom_contour_square() {
    let contour = path(&[[0, 0], [10, 0], [10, 10], [0, 10]]);
    let raw = contour.custom_triangulate(Validation::with_fill_rule(FillRuleKind::EvenOdd));
    assert_eq!(raw.triangles.len(), 2);
    assert!(raw.validate());
    assert_eq!(raw.area_two(), 200);
}

#[test]
fn custom_even_odd_leaves_out_the_overlap() {
    let shapes = vec![
        vec![path(&[[0, 0], [10, 0], [10, 10], [0, 10]])],
        vec![path(&[[5, 0], [15, 0], [15, 10], [5, 10]])],
    ];
    let even_odd = shapes.custom_triangulate(Validation::with_fill_rule(FillRuleKind::EvenOdd));
    assert!(even_odd.validate());
    assert_eq!(even_odd.area_two(), 200);
    let non_zero = shapes.custom_triangulate(Validation::with_fill_rule(FillRuleKind::NonZero));
    assert!(non_zero.validate());
    assert_eq!(non_zero.area_two(), 300);
}

#[test]
fn custom_shape_with_steiner_point() {
    let shape = vec![path(&[[0, 0], [10, 0], [10, 10], [0, 10]])];
    let raw = shape.custom_triangulate_with_steiner_points(&vec![IntPoint::new(5, 5)], Validation::default());
    assert_eq!(raw.triangles.len(), 4);
    assert!(raw.validate());
    assert_eq!(raw.area_two(), 200);
}

fn square(pos: IntPoint) -> Vec<Vec<IntPoint>> {
    vec![vec![
        IntPoint::new(-5 + pos.x, 5 + pos.y),
        IntPoint::new(-5 + pos.x, 5 + pos.y),
        IntPoint::new(5 + pos.x, 5 + pos.y),
        IntPoint::new(5 + pos.x, -5 + pos.y),
    ]]
}

#[test]
fn non_zero_tests_test_0() {
    let shapes = vec![
        square(IntPoint::new(-10, -10)),
        square(IntPoint::new(-10, 0)),
        square(IntPoint::new(-10, 10)),
        square(IntPoint::new(0, -10)),
        square(IntPoint::new(0, 10)),
        square(IntPoint::new(10, -10)),
        square(IntPoint::new(10, 0)),
        square(IntPoint::new(10, 10)),
    ];

    let raw = shapes.custom_triangulate(Validation::with_fill_rule(FillRuleKind::NonZero));
    let triangulation = raw.to_triangulation::<u32>();

    assert_eq!(triangulation.indices.len() / 3, 8);
}

#[test]
fn coordinates_out_of_range_give_an_empty_triangulation() {
    let big = 1 << 30;
    let contour = vec![IntPoint::new(0, 0), IntPoint::new(big, 0), IntPoint::new(0, 10)];
    let raw = contour.triangulate();
    assert!(raw.points.is_empty());
    assert!(raw.triangles.is_empty());
    let shapes = vec![vec![contour.clone()]];
    let raw = shapes.triangulate();
    assert!(raw.points.is_empty());
    assert!(raw.triangles.is_empty());
}
