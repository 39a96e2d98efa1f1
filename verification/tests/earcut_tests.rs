use i_triangle::earcut::{fast_filter, find_point, Earcut64};
use i_triangle::geom::IntPoint;
use i_triangle::triangulation::{IntTriangulation, RawIntTriangulation};

/// Twice the signed area of a closed contour (positive when counter-clockwise).
fn contour_area_two(contour: &[IntPoint]) -> i64 {
    let n = contour.len();
    let mut s: i64 = 0;
    for i in 0..n {
        let a = contour[i];
        let b = contour[(i + 1) % n];
        s += a.x as i64 * b.y as i64 - a.y as i64 * b.x as i64;
    }
    s
}

fn single_test(contour: &Vec<IntPoint>) {
    let area = contour_area_two(contour);

    // flat
    let mut flat = IntTriangulation::<u8>::default();
    assert!(contour.earcut_flat_triangulate_into(&mut flat));

    assert!(flat.validate(area));
    assert!(flat.indices.len() / 3 <= contour.len() - 2);

    // net
    let mut net = RawIntTriangulation::default();
    assert!(contour.earcut_net_triangulate_into(&mut net));

    assert!(net.validate());
    assert_eq!(net.area_two(), area);
    assert!(net.triangles.len() / 3 <= contour.len() - 2);
}

fn roll_test(contour: &Vec<IntPoint>) {
    let mut triangulation = IntTriangulation::<u8>::default();

    let mut path = contour.to_vec();
    for _ in 0..path.len() {
        assert!(contour.earcut_flat_triangulate_into(&mut triangulation));

        assert!(triangulation.validate(contour_area_two(contour)));
        assert!(triangulation.indices.len() / 3 <= contour.len() - 2);

        roll(&mut path);
    }
}

fn roll(points: &mut Vec<IntPoint>) {
    if let Some(last) = points.pop() {
        points.insert(0, last);
    }
}

fn filter_contour(p: IntPoint) -> Vec<IntPoint> {
    vec![
        IntPoint::new(0, 0),
        IntPoint::new(10, 0),
        IntPoint::new(10, 10),
        IntPoint::new(0, 10),
        p,
    ]
}

#[test]
fn test_fast_filter_0() {
    // inside first triangle
    let contour = filter_contour(IntPoint::new(5, 1));
    let candidates = fast_filter(&contour, 0b11111, contour[0], contour[1], contour[2], contour[3], 0b1111, false);
    assert_eq!(candidates.is_none(), true);
}

#[test]
fn test_fast_filter_1() {
    // inside AC
    let contour = filter_contour(IntPoint::new(5, 5));
    let candidates = fast_filter(&contour, 0b11111, contour[0], contour[1], contour[2], contour[3], 0b1111, false);
    assert_eq!(candidates.is_none(), true);
}

#[test]
fn test_fast_filter_2() {
    // P == A
    let contour = filter_contour(IntPoint::new(0, 0));
    let candidates =
        fast_filter(&contour, 0b11111, contour[0], contour[1], contour[2], contour[3], 0b1111, false).unwrap();
    assert_eq!(candidates, 0);
}

#[test]
fn test_fast_filter_3() {
    // on AC but outside
    let contour = filter_contour(IntPoint::new(15, 15));
    let candidates =
        fast_filter(&contour, 0b11111, contour[0], contour[1], contour[2], contour[3], 0b1111, false).unwrap();
    assert_eq!(candidates, 0);
}

#[test]
fn test_fast_filter_4() {
    // inside second triangle
    let contour = filter_contour(IntPoint::new(1, 9));
    let candidates =
        fast_filter(&contour, 0b11111, contour[0], contour[1], contour[2], contour[3], 0b1111, false).unwrap();
    assert_eq!(candidates, 1 << 4);
}

#[test]
fn test_find_point_0() {
    let contour = vec![
        IntPoint::new(-15, 5),
        IntPoint::new(-5, 15),
        IntPoint::new(5, 15),
        IntPoint::new(15, 5),
        IntPoint::new(15, -5),
        IntPoint::new(5, -15),
        IntPoint::new(-5, -15),
        IntPoint::new(-15, -5),
    ];

    let r = find_point(&contour, contour[0], 0, 7, IntPoint::new(-15, 0), 0b11111111);
    if let Some(e) = r {
        assert_eq!(e, 6);
    }

    let r = find_point(&contour, contour[0], 0, 7, IntPoint::new(-10, -10), 0b11111111);
    assert_eq!(r.is_none(), true);

    let r = find_point(&contour, contour[0], 0, 7, IntPoint::new(-5, -10), 0b11111111);
    if let Some(e) = r {
        assert_eq!(e, 5);
    }

    let r = find_point(&contour, contour[0], 0, 7, IntPoint::new(0, -10), 0b11111111);
    if let Some(e) = r {
        assert_eq!(e, 4);
    }

    let r = find_point(&contour, contour[0], 0, 7, IntPoint::new(0, -5), 0b11111111);
    if let Some(e) = r {
        assert_eq!(e, 4);
    }
}

#[test]
fn test_earcut_0() {
    let square = vec![
        IntPoint::new(0, 0),
        IntPoint::new(10, 0),
        IntPoint::new(10, 10),
        IntPoint::new(0, 10),
    ];

    single_test(&square);
    roll_test(&square);
}

#[test]
fn test_earcut_1() {
    let square = vec![
        IntPoint::new(0, 0),
        IntPoint::new(5, 0),
        IntPoint::new(10, 0),
        IntPoint::new(10, 5),
        IntPoint::new(10, 10),
        IntPoint::new(5, 10),
        IntPoint::new(0, 10),
        IntPoint::new(0, 5),
    ];

    single_test(&square);
    roll_test(&square);
}

#[test]
fn test_earcut_2() {
    let rhombus = vec![
        IntPoint::new(-5, 0),
        IntPoint::new(0, -5),
        IntPoint::new(5, 0),
        IntPoint::new(0, 5),
    ];

    single_test(&rhombus);
    roll_test(&rhombus);
}

#[test]
fn test_earcut_3() {
    let sand_clock = vec![
        IntPoint::new(0, 0),
        IntPoint::new(-5, -10),
        IntPoint::new(5, -10),
        IntPoint::new(0, 0),
        IntPoint::new(5, 10),
        IntPoint::new(-5, 10),
    ];

    single_test(&sand_clock);
    roll_test(&sand_clock);
}

#[test]
fn test_earcut_4() {
    let hz_sand_clock = vec![
        IntPoint::new(0, 0),
        IntPoint::new(-10, 5),
        IntPoint::new(-10, -5),
        IntPoint::new(0, 0),
        IntPoint::new(10, -5),
        IntPoint::new(10, 5),
    ];

    single_test(&hz_sand_clock);
    roll_test(&hz_sand_clock);
}

#[test]
fn test_earcut_5() {
    let cross = vec![
        IntPoint::new(0, 0),
        IntPoint::new(5, 10),
        IntPoint::new(-5, 10),
        IntPoint::new(0, 0),
        IntPoint::new(-10, 5),
        IntPoint::new(-10, -5),
        IntPoint::new(0, 0),
        IntPoint::new(-5, -10),
        IntPoint::new(5, -10),
        IntPoint::new(0, 0),
        IntPoint::new(10, -5),
        IntPoint::new(10, 5),
    ];

    single_test(&cross);
    roll_test(&cross);
}

#[test]
fn test_earcut_6() {
    let contour = vec![
        IntPoint::new(0, 0),
        IntPoint::new(10, 0),
        IntPoint::new(10, 5),
        IntPoint::new(5, 5),
        IntPoint::new(5, 10),
        IntPoint::new(0, 10),
    ];

    single_test(&contour);
    roll_test(&contour);
}

#[test]
fn test_earcut_7() {
    let contour = vec![
        IntPoint::new(0, 0),
        IntPoint::new(5, 0),
        IntPoint::new(5, 5),
        IntPoint::new(10, 5),
        IntPoint::new(10, 0),
        IntPoint::new(15, 0),
        IntPoint::new(15, 10),
        IntPoint::new(0, 10),
    ];

    single_test(&contour);
    roll_test(&contour);
}

#[test]
fn test_earcut_7b() {
    let contour = vec![
        IntPoint::new(15, 10),
        IntPoint::new(0, 10),
        IntPoint::new(0, 0),
        IntPoint::new(5, 5),
        IntPoint::new(10, 5),
    ];

    single_test(&contour);
    roll_test(&contour);
}

#[test]
fn test_earcut_8() {
    let contour = vec![
        IntPoint::new(0, 0),
        IntPoint::new(5, 0),
        IntPoint::new(5, 5),
        IntPoint::new(10, 5),
        IntPoint::new(10, 0),
        IntPoint::new(15, 0),
        IntPoint::new(15, 15),
        IntPoint::new(10, 15),
        IntPoint::new(10, 10),
        IntPoint::new(5, 10),
        IntPoint::new(5, 15),
        IntPoint::new(0, 15),
    ];

    single_test(&contour);
    roll_test(&contour);
}

#[test]
fn test_earcut_9() {
    let contour = vec![
        IntPoint::new(0, 0),
        IntPoint::new(10, 0),
        IntPoint::new(10, 20),
        IntPoint::new(0, 20),
        IntPoint::new(-5, 15),
        IntPoint::new(-5, 10),
        IntPoint::new(0, 5),
        IntPoint::new(5, 5),
    ];

    single_test(&contour);
    roll_test(&contour);
}

#[test]
fn test_earcut_10() {
    let contour = vec![
        IntPoint::new(3, -3),
        IntPoint::new(2, 4),
        IntPoint::new(-1, 1),
        IntPoint::new(-2, 2),
        IntPoint::new(-4, -2),
    ];

    single_test(&contour);
    roll_test(&contour);
}

#[test]
fn test_earcut_11() {
    let contour = vec![
        IntPoint::new(0, 0),
        IntPoint::new(2, -1),
        IntPoint::new(2, 0),
        IntPoint::new(2, 1),
    ];

    single_test(&contour);
    roll_test(&contour);
}

#[test]
fn test_earcut_12() {
    let contour = vec![
        IntPoint::new(-3, -2),
        IntPoint::new(2, 2),
        IntPoint::new(2, 3),
        IntPoint::new(2, 4),
    ];

    single_test(&contour);
    roll_test(&contour);
}

#[test]
fn test_earcut_13() {
    let contour = vec![
        IntPoint::new(-1, 0),
        IntPoint::new(-3, -3),
        IntPoint::new(-1, -4),
        IntPoint::new(-1, -2),
        IntPoint::new(2, -3),
    ];

    single_test(&contour);
    roll_test(&contour);
}

#[test]
fn test_earcut_14() {
    let contour = vec![
        IntPoint::new(0, 2),
        IntPoint::new(-1, 4),
        IntPoint::new(0, -3),
        IntPoint::new(3, -4),
        IntPoint::new(0, -2),
    ];

    single_test(&contour);
    roll_test(&contour);
}

#[test]
fn test_earcut_15() {
    let contour = vec![
        IntPoint::new(3, 3),
        IntPoint::new(-1, 3),
        IntPoint::new(-2, 4),
        IntPoint::new(0, -2),
        IntPoint::new(-1, 2),
    ];

    single_test(&contour);
    roll_test(&contour);
}

#[test]
fn test_earcut_16() {
    let contour = vec![
        IntPoint::new(-2, 2),
        IntPoint::new(-1, -2),
        IntPoint::new(-2, -4),
        IntPoint::new(3, 4),
        IntPoint::new(-3, 3),
    ];

    single_test(&contour);
    roll_test(&contour);
}

#[test]
fn test_earcut_17() {
    let contour = vec![
        IntPoint::new(-3, 3),
        IntPoint::new(-3, -1),
        IntPoint::new(3, -1),
        IntPoint::new(-2, 2),
        IntPoint::new(2, 0),
    ];

    single_test(&contour);
    roll_test(&contour);
}

#[test]
fn test_earcut_18() {
    let contour = vec![
        IntPoint::new(0, 0),
        IntPoint::new(-4, 3),
        IntPoint::new(-2, -4),
        IntPoint::new(2, 0),
        IntPoint::new(0, -1),
        IntPoint::new(-3, 2),
    ];

    single_test(&contour);
    roll_test(&contour);
}

#[test]
fn test_earcut_19() {
    let contour = vec![
        IntPoint::new(-3, 1),
        IntPoint::new(-3, 0),
        IntPoint::new(-2, -1),
        IntPoint::new(1, -1),
        IntPoint::new(2, -2),
        IntPoint::new(0, 1),
        IntPoint::new(-1, 3),
        IntPoint::new(-1, 1),
    ];

    single_test(&contour);
    roll_test(&contour);
}

#[test]
fn test_earcut_20() {
    let contour = vec![
        IntPoint::new(-3, -1),
        IntPoint::new(-4, -2),
        IntPoint::new(3, -1),
        IntPoint::new(-4, 4),
        IntPoint::new(-1, -1),
        IntPoint::new(1, 0),
        IntPoint::new(1, -1),
        IntPoint::new(-1, -1),
    ];

    single_test(&contour);
    roll_test(&contour);
}

#[test]
fn test_earcut_21() {
    let contour = vec![
        IntPoint::new(3, 2),
        IntPoint::new(-4, 0),
        IntPoint::new(1, -4),
        IntPoint::new(0, 1),
        IntPoint::new(-1, 0),
        IntPoint::new(-3, 0),
        IntPoint::new(0, 1),
    ];

    single_test(&contour);
    roll_test(&contour);
}

#[test]
fn test_earcut_22() {
    let contour = vec![
        IntPoint::new(-2, 4),
        IntPoint::new(-2, -4),
        IntPoint::new(2, -3),
        IntPoint::new(2, 0),
        IntPoint::new(0, -1),
        IntPoint::new(1, -2),
        IntPoint::new(-1, -2),
        IntPoint::new(0, -1),
        IntPoint::new(1, 2),
        IntPoint::new(2, 0),
        IntPoint::new(3, -2),
        IntPoint::new(2, 2),
    ];

    single_test(&contour);
    roll_test(&contour);
}

#[test]
fn test_earcut_23() {
    let contour = vec![
        IntPoint::new(4, 4),
        IntPoint::new(-4, 4),
        IntPoint::new(2, 2),
        IntPoint::new(4, 1),
        IntPoint::new(3, 3),
    ];

    single_test(&contour);
    roll_test(&contour);
}

#[test]
fn test_earcut_24() {
    let contour = vec![
        IntPoint::new(1, 2),
        IntPoint::new(0, 3),
        IntPoint::new(0, 0),
        IntPoint::new(1, 1),
        IntPoint::new(3, 1),
        IntPoint::new(1, 3),
    ];

    single_test(&contour);
    roll_test(&contour);
}

#[test]
fn test_earcut_25() {
    let contour = vec![
        IntPoint::new(1, 4),
        IntPoint::new(0, 5),
        IntPoint::new(0, 0),
        IntPoint::new(1, 1),
        IntPoint::new(3, 1),
        IntPoint::new(1, 3),
    ];

    single_test(&contour);
    roll_test(&contour);
}

#[test]
fn test_earcut_26() {
    let contour = vec![
        IntPoint::new(-4, 0),
        IntPoint::new(2, -2),
        IntPoint::new(0, -1),
        IntPoint::new(1, 0),
        IntPoint::new(2, -2),
        IntPoint::new(3, -4),
        IntPoint::new(3, 0),
        IntPoint::new(4, 0),
        IntPoint::new(-2, 4),
        IntPoint::new(0, 0),
        IntPoint::new(-1, 0),
    ];

    single_test(&contour);
    roll_test(&contour);
}

#[test]
fn test_earcut_27() {
    let contour = vec![
        IntPoint::new(0, 0),
        IntPoint::new(1, 0),
        IntPoint::new(2, 2),
        IntPoint::new(1, 1),
        IntPoint::new(0, 1),
        IntPoint::new(-1, -1),
    ];

    single_test(&contour);
    roll_test(&contour);
}

#[test]
fn convex_contour_is_one_fan_from_its_first_vertex() {
    let contour = vec![
        IntPoint::new(0, 0),
        IntPoint::new(10, 0),
        IntPoint::new(15, 8),
        IntPoint::new(10, 16),
        IntPoint::new(0, 16),
    ];
    let mut flat = IntTriangulation::<u16> { points: Vec::new(), indices: vec![7, 7, 7] };
    assert!(contour.earcut_flat_triangulate_into(&mut flat));
    assert_eq!(flat.indices, vec![0, 1, 2, 0, 2, 3, 0, 3, 4]);
    let mut net = RawIntTriangulation::empty();
    assert!(contour.earcut_net_triangulate_into(&mut net));
    let firsts: Vec<[usize; 3]> =
        net.triangles.iter().map(|t| [t.vertices[0].index, t.vertices[1].index, t.vertices[2].index]).collect();
    assert_eq!(firsts, vec![[0, 1, 2], [0, 2, 3], [0, 3, 4]]);
}

#[test]
fn clockwise_triangle_stalls_with_nothing_stored() {
    let contour = vec![IntPoint::new(0, 0), IntPoint::new(0, 10), IntPoint::new(10, 0)];
    let mut flat = IntTriangulation::<u8>::default();
    assert!(!contour.earcut_flat_triangulate_into(&mut flat));
    assert_eq!(flat.points, contour);
    assert!(flat.indices.is_empty());
    let mut net = RawIntTriangulation::default();
    assert!(!contour.earcut_net_triangulate_into(&mut net));
    assert!(net.triangles.is_empty());
}

#[test]
fn concave_contour_without_repeats_gives_n_minus_two_triangles() {
    let contour = vec![
        IntPoint::new(0, 0),
        IntPoint::new(20, 0),
        IntPoint::new(20, 10),
        IntPoint::new(10, 10),
        IntPoint::new(10, 20),
        IntPoint::new(0, 20),
    ];
    let area = contour_area_two(&contour);
    let mut flat = IntTriangulation::<u8>::default();
    assert!(contour.earcut_flat_triangulate_into(&mut flat));
    assert!(flat.validate(area));
    assert_eq!(flat.indices.len() / 3, contour.len() - 2);
    let mut net = RawIntTriangulation::default();
    assert!(contour.earcut_net_triangulate_into(&mut net));
    assert_eq!(net.triangles.len(), contour.len() - 2);
}
