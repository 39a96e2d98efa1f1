use i_overlay::i_float::int::point::IntPoint as FPoint;
use i_triangle::binder::group_by_shapes;
use i_triangle::earcut::Earcut64;
use i_triangle::geom::IntPoint;
use i_triangle::monotone::MonotoneTriangulator;
use i_triangle::net::TrianglesBuilder;
use i_triangle::triangulation::{IntTriangulation, RawIntTriangulation};
use rand::Rng;
use std::collections::HashSet;

/// Random runs are cut down by this factor, as in quick test runs.
const QUICK_RANDOM_DIVISOR: usize = 20;

fn random_cases(full_count: usize) -> usize {
    full_count.div_ceil(QUICK_RANDOM_DIVISOR)
}

fn random(radius: i32, n: usize) -> Vec<FPoint<i32>> {
    let a = radius / 2;
    let mut points = Vec::with_capacity(n);
    let mut rng = rand::rng();
    for _ in 0..n {
        let x = rng.random_range(-a..=a);
        let y = rng.random_range(-a..=a);
        points.push(FPoint::new(x, y))
    }
    points
}

fn random_points(radius: i32, n: usize) -> Vec<IntPoint> {
    let a = radius / 2;
    let mut points = HashSet::new();
    let mut rng = rand::rng();
    for _ in 0..n {
        let x = rng.random_range(-a..=a);
        let y = rng.random_range(-a..=a);
        points.insert((x, y));
    }
    points.iter().map(|&(x, y)| IntPoint::new(x, y)).collect()
}

fn to_contour(path: &[FPoint<i32>]) -> Vec<IntPoint> {
    path.iter().map(|p| IntPoint::new(p.x, p.y)).collect()
}

fn to_shape(shape: &[Vec<FPoint<i32>>]) -> Vec<Vec<IntPoint>> {
    shape.iter().map(|c| to_contour(c)).collect()
}

/// The first shape that simplification gives, if any.
fn simplified_first(shape: &Vec<Vec<FPoint<i32>>>, keep_all: bool) -> Option<Vec<Vec<IntPoint>>> {
    let options = if keep_all {
        i_overlay::core::overlay::IntOverlayOptions::keep_all_points()
    } else {
        i_overlay::core::overlay::IntOverlayOptions::keep_output_points()
    };
    let shapes = i_overlay::core::simplify::Simplify::simplify(
        shape,
        i_overlay::core::fill_rule::FillRule::NonZero,
        options,
    );
    shapes.first().map(|s| to_shape(s))
}

fn contour_area_two(contour: &[IntPoint]) -> i64 {
    let n = contour.len();
    let mut s: i64 = 0;
    for i in 0..n {
        let a = contour[i];
        let b = contour[(i + 1) % n];
        s += a.x as i64 * b.y as i64 - a.y as i64 * b.x as i64;
    }
    s
}

fn shape_area_two(shape: &[Vec<IntPoint>]) -> i64 {
    shape.iter().map(|c| contour_area_two(c)).sum()
}

fn single_earcut_test(contour: &Vec<IntPoint>) {
    let area = contour_area_two(contour);

    let mut flat = IntTriangulation::<u8>::default();
    assert!(contour.earcut_flat_triangulate_into(&mut flat));
    assert!(flat.validate(area));
    assert!(flat.indices.len() / 3 <= contour.len() - 2);

    let mut net = RawIntTriangulation::default();
    assert!(contour.earcut_net_triangulate_into(&mut net));
    assert!(net.validate());
    assert_eq!(net.area_two(), area);
    assert!(net.triangles.len() <= contour.len() - 2);
}

fn earcut_random(count: usize, radius: i32, n: usize, bounded: bool) {
    for _ in 0..random_cases(count) {
        if let Some(first) = simplified_first(&vec![random(radius, n)], false) {
            if let Some(contour) = first.first() {
                let len = contour.len();
                if bounded {
                    if 3 <= len && len <= 64 {
                        single_earcut_test(contour);
                    }
                } else if !contour.is_empty() {
                    single_earcut_test(contour);
                }
            }
        }
    }
}

#[test]
fn earcut_64_test_random_0() {
    earcut_random(100_000, 8, 5, false);
}

#[test]
fn earcut_64_test_random_1() {
    earcut_random(100_000, 8, 7, false);
}

#[test]
fn earcut_64_test_random_2() {
    earcut_random(100_000, 8, 10, false);
}

#[test]
fn earcut_64_test_random_3() {
    earcut_random(50_000, 8, 12, false);
}

#[test]
fn earcut_64_test_random_4() {
    earcut_random(40_000, 16, 32, true);
}

#[test]
fn earcut_64_test_random_5() {
    earcut_random(20_000, 16, 48, true);
}

#[test]
fn earcut_64_test_random_6() {
    earcut_random(10_000, 16, 64, true);
}

fn net_random(count: usize, radius: i32, n: usize) {
    for _ in 0..random_cases(count) {
        if let Some(first) = simplified_first(&vec![random(radius, n)], true) {
            let shape_area = shape_area_two(&first);
            let raw = TrianglesBuilder::shape_triangulation(&first, None);
            assert!(raw.validate());
            assert_eq!(raw.area_two(), shape_area);
        }
    }
}

fn with_holes(main_radius: i32, main_n: usize) -> Vec<Vec<FPoint<i32>>> {
    let mut shape = vec![random(main_radius, main_n)];
    for _ in 0..10 {
        shape.push(random(30, 5));
    }
    shape
}

#[test]
fn builder_test_random_0() {
    net_random(100_000, 8, 5);
}

#[test]
fn builder_test_random_1() {
    net_random(100_000, 10, 6);
}

#[test]
fn builder_test_random_2() {
    net_random(100_000, 10, 12);
}

#[test]
fn builder_test_random_3() {
    net_random(50_000, 20, 20);
}

#[test]
fn builder_test_random_4() {
    net_random(10_000, 30, 50);
}

#[test]
fn builder_test_random_5() {
    for _ in 0..random_cases(2_000) {
        if let Some(first) = simplified_first(&with_holes(50, 20), true) {
            let shape_area = shape_area_two(&first);
            let raw = TrianglesBuilder::shape_triangulation(&first, None);
            assert!(raw.validate());
            assert_eq!(raw.area_two(), shape_area);
        }
    }
}

#[test]
fn builder_test_random_6() {
    let shape = vec![to_contour(&[FPoint::new(-10, 0), FPoint::new(0, -10), FPoint::new(10, 0), FPoint::new(0, 10)])];
    let shape_area = shape_area_two(&shape);
    for _ in 0..random_cases(100_000) {
        let points = random_points(5, 10);
        let raw = TrianglesBuilder::shape_triangulation(&shape, Some(&points));
        assert!(raw.validate());
        assert_eq!(raw.area_two(), shape_area);
    }
}

#[test]
fn test_random_7() {
    let shapes = vec![vec![to_contour(&[FPoint::new(-5, 0), FPoint::new(0, -5), FPoint::new(5, 0), FPoint::new(0, 5)])]];
    let shape_area = shape_area_two(&shapes[0]);
    for _ in 0..random_cases(100_000) {
        let points = random_points(8, 2);
        let group = group_by_shapes(&shapes, &points);
        let raw = TrianglesBuilder::shape_triangulation(&shapes[0], Some(&group[0]));
        assert!(raw.validate());
        assert_eq!(raw.area_two(), shape_area);
    }
}

fn grouped_random(count: usize, points_radius: i32, points_n: usize, shape: impl Fn() -> Vec<Vec<FPoint<i32>>>) {
    for _ in 0..random_cases(count) {
        let points = random_points(points_radius, points_n);
        if let Some(first) = simplified_first(&shape(), true) {
            let shapes = vec![first];
            let shape_area = shape_area_two(&shapes[0]);
            let group = group_by_shapes(&shapes, &points);
            let raw = TrianglesBuilder::shape_triangulation(&shapes[0], Some(&group[0]));
            assert!(raw.validate());
            assert_eq!(raw.area_two(), shape_area);
        }
    }
}

#[test]
fn test_random_8() {
    grouped_random(100_000, 15, 1, || vec![random(10, 4)]);
}

#[test]
fn test_random_9() {
    grouped_random(100_000, 10, 2, || vec![random(10, 4)]);
}

#[test]
fn test_random_10() {
    grouped_random(50_000, 10, 8, || vec![random(10, 8)]);
}

#[test]
fn test_random_11() {
    grouped_random(10_000, 20, 8, || with_holes(50, 20));
}

fn flat_random(count: usize, shape: impl Fn() -> Vec<Vec<FPoint<i32>>>) {
    let mut raw = IntTriangulation::<u32>::default();
    for _ in 0..random_cases(count) {
        if let Some(first) = simplified_first(&shape(), true) {
            let shape_area = shape_area_two(&first);
            MonotoneTriangulator::default().shape_into_flat_triangulation(&first, &mut raw);
            assert!(raw.validate(shape_area));
        }
    }
}

#[test]
fn triangulator_test_random_0() {
    flat_random(100_000, || vec![random(8, 5)]);
}

#[test]
fn triangulator_test_random_1() {
    flat_random(100_000, || vec![random(10, 6)]);
}

#[test]
fn triangulator_test_random_2() {
    flat_random(100_000, || vec![random(10, 12)]);
}

#[test]
fn triangulator_test_random_3() {
    flat_random(50_000, || vec![random(20, 20)]);
}

#[test]
fn triangulator_test_random_4() {
    flat_random(10_000, || vec![random(30, 50)]);
}

#[test]
fn triangulator_test_random_5() {
    flat_random(2_000, || with_holes(50, 20));
}
