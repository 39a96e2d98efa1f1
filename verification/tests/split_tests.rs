use i_triangle::geom::IntPoint;
use i_triangle::split::SliceContour;

fn assert_max_edge_length(contour: &[IntPoint], max_edge_length: i32) {
    let mut a = *contour.last().unwrap();
    let sqr_max = max_edge_length * max_edge_length;
    for &b in contour {
        let dx = b.x - a.x;
        let dy = b.y - a.y;
        assert!(dx * dx + dy * dy <= sqr_max);
        a = b;
    }
}

#[test]
fn split_test_0() {
    let contour = vec![
        IntPoint::new(0, 0),
        IntPoint::new(10, 0),
        IntPoint::new(10, 10),
        IntPoint::new(0, 10),
    ];

    let s0 = contour.slice_contour(8u64);
    assert_eq!(s0.len(), 8);
    assert_max_edge_length(&s0, 8);

    let s1 = contour.slice_contour(7u64);
    assert_eq!(s1.len(), 8);
    assert_max_edge_length(&s1, 7);

    let s2 = contour.slice_contour(6u64);
    assert_eq!(s2.len(), 8);
    assert_max_edge_length(&s2, 6);

    let s3 = contour.slice_contour(5u64);
    assert_eq!(s3.len(), 8);
    assert_max_edge_length(&s3, 5);

    let s4 = contour.slice_contour(3u64);
    assert_eq!(s4.len(), 16);
    assert_max_edge_length(&s4, 3);
}

#[test]
fn uses_integer_sqrt_segment_count() {
    let contour = vec![
        IntPoint::new(0, 0),
        IntPoint::new(25, 0),
        IntPoint::new(25, 10),
        IntPoint::new(0, 10),
    ];

    let sliced = contour.slice_contour(6u64);

    // 25 / 6 produces five parts and 10 / 6 produces two parts.
    assert_eq!(sliced.len(), 14);
}

#[test]
fn exact_multiple_does_not_add_an_extra_segment() {
    let contour = vec![
        IntPoint::new(0, 0),
        IntPoint::new(4, 0),
        IntPoint::new(4, 2),
        IntPoint::new(0, 2),
    ];

    let sliced = contour.slice_contour(2u64);

    assert_eq!(sliced.len(), 6);
}

#[test]
fn split_keeps_short_edges_and_ends_each_edge_at_its_point() {
    let contour = vec![IntPoint::new(0, 0), IntPoint::new(3, 0), IntPoint::new(0, 3)];
    // The longest edge is (0,3) -> (0,0) of length 3; with 5 nothing is split.
    assert_eq!(contour.slice_contour(5u64), contour);
    // Zero and too large lengths leave the contour as it is.
    assert_eq!(contour.slice_contour(0u64), contour);
    assert_eq!(contour.slice_contour(0x1_0000_0000u64), contour);
}

#[test]
fn split_midpoint_rounds_toward_zero() {
    // Edge from (-3, 0) to (0, 0) has length 3; with radius 2 it is cut in two.
    let contour = vec![IntPoint::new(0, 0), IntPoint::new(-3, 0)];
    let sliced = contour.slice_contour(2u64);
    // Edge (-3,0)->(0,0): midpoint (-1, 0); edge (0,0)->(-3,0): midpoint (-1, 0).
    assert_eq!(
        sliced,
        vec![IntPoint::new(-1, 0), IntPoint::new(0, 0), IntPoint::new(-1, 0), IntPoint::new(-3, 0)]
    );
}

#[test]
fn split_into_equal_parts() {
    // Edge of length 9 with radius 3: isqrt(80) = 8, 8 / 3 + 1 = 3 parts.
    let contour = vec![IntPoint::new(9, 0), IntPoint::new(0, 0)];
    let sliced = contour.slice_contour(3u64);
    assert_eq!(
        sliced,
        vec![
            IntPoint::new(3, 0),
            IntPoint::new(6, 0),
            IntPoint::new(9, 0),
            IntPoint::new(6, 0),
            IntPoint::new(3, 0),
            IntPoint::new(0, 0),
        ]
    );
}

#[test]
fn split_shape_splits_each_contour() {
    let shape = vec![
        vec![IntPoint::new(0, 0), IntPoint::new(4, 0), IntPoint::new(4, 2), IntPoint::new(0, 2)],
        vec![],
    ];
    let sliced = shape.slice_contour(2u64);
    assert_eq!(sliced.len(), 2);
    assert_eq!(sliced[0].len(), 6);
    assert!(sliced[1].is_empty());
    let shapes = vec![shape.clone()];
    let sliced_all = shapes.slice_contour(2u64);
    assert_eq!(sliced_all[0], sliced);
}

#[test]
fn rounded_pieces_stay_within_the_length() {
    let contour = vec![IntPoint::new(0, 0), IntPoint::new(5, 2), IntPoint::new(0, 2)];
    let sliced = contour.slice_contour(2u64);
    assert_max_edge_length(&sliced, 2);
    assert!(sliced.contains(&IntPoint::new(5, 2)));
}
