use i_triangle::geom::{IntPoint, IntRect};
use i_triangle::uniform::{
    append_edges, filter_near_edges, is_close_to_edge, keep_grid_points, Edge, IntUniformGrid,
};

fn square(size: i32) -> Vec<IntPoint> {
    vec![
        IntPoint::new(0, 0),
        IntPoint::new(size, 0),
        IntPoint::new(size, size),
        IntPoint::new(0, size),
    ]
}

#[test]
fn square_grid_has_staggered_rows() {
    let contour = square(100);

    let points = contour.uniform_grid(20u64);

    assert!(!points.is_empty());
    assert!(points
        .iter()
        .all(|p| 0 < p.x && p.x < 100 && 0 < p.y && p.y < 100));
    assert!(points.iter().any(|p| p.x == 10));
    assert!(points.iter().any(|p| p.x == 20));
}

#[test]
fn shape_grid_excludes_hole() {
    let shape = vec![
        square(100),
        vec![
            IntPoint::new(40, 40),
            IntPoint::new(40, 60),
            IntPoint::new(60, 60),
            IntPoint::new(60, 40),
        ],
    ];

    let points = shape.uniform_grid(10u64);

    assert!(!points.is_empty());
    assert!(points
        .iter()
        .all(|p| p.x <= 40 || 60 <= p.x || p.y <= 40 || 60 <= p.y));
}

#[test]
fn grid_removes_points_in_edge_influence_across_cell_boundary() {
    let contour = square(100);

    let points = contour.uniform_grid(20u64);

    assert!(points.iter().all(|p| 6 < p.x && p.x < 94));
    assert!(points.iter().all(|p| 6 < p.y && p.y < 94));
}

#[test]
fn edge_influences_a_cell_it_does_not_cross() {
    let points = vec![IntPoint::new(9, 5), IntPoint::new(7, 5)];
    let edges = vec![Edge {
        a: IntPoint::new(10, 0),
        b: IntPoint::new(10, 10),
    }];
    let rect = IntRect {
        min_x: 0,
        max_x: 20,
        min_y: 0,
        max_y: 20,
    };

    let filtered = filter_near_edges(points, &edges, rect, 10u64, 2u64);

    assert_eq!(filtered, vec![IntPoint::new(7, 5)]);
}

#[test]
fn square_grid_lattice_rows() {
    // Step 20: rows 17 apart, the first at 8; even rows start at 10, odd
    // rows at 20; clearance 6 drops nothing of these.
    let points = square(100).uniform_grid(20u64);
    let expected = vec![
        IntPoint::new(10, 8),
        IntPoint::new(30, 8),
        IntPoint::new(50, 8),
        IntPoint::new(70, 8),
        IntPoint::new(90, 8),
        IntPoint::new(20, 25),
        IntPoint::new(40, 25),
        IntPoint::new(60, 25),
        IntPoint::new(80, 25),
        IntPoint::new(10, 42),
        IntPoint::new(30, 42),
        IntPoint::new(50, 42),
        IntPoint::new(70, 42),
        IntPoint::new(90, 42),
        IntPoint::new(20, 59),
        IntPoint::new(40, 59),
        IntPoint::new(60, 59),
        IntPoint::new(80, 59),
        IntPoint::new(10, 76),
        IntPoint::new(30, 76),
        IntPoint::new(50, 76),
        IntPoint::new(70, 76),
        IntPoint::new(90, 76),
        IntPoint::new(20, 93),
        IntPoint::new(40, 93),
        IntPoint::new(60, 93),
        IntPoint::new(80, 93),
    ];
    assert_eq!(points, expected);
}

#[test]
fn empty_geometry_has_no_grid() {
    let contour: Vec<IntPoint> = Vec::new();
    assert!(contour.uniform_grid(20u64).is_empty());
    let shapes: Vec<Vec<Vec<IntPoint>>> = Vec::new();
    assert!(shapes.uniform_grid(20u64).is_empty());
}

#[test]
fn step_of_one_has_no_grid() {
    assert!(square(100).uniform_grid(1u64).is_empty());
    assert!(square(100).uniform_grid(0u64).is_empty());
}

#[test]
fn step_wider_than_geometry_has_no_grid() {
    assert!(square(10).uniform_grid(1000u64).is_empty());
}

#[test]
fn shapes_grid_is_the_union_of_shapes() {
    let left = vec![square(100)];
    let right = vec![vec![
        IntPoint::new(200, 0),
        IntPoint::new(300, 0),
        IntPoint::new(300, 100),
        IntPoint::new(200, 100),
    ]];
    let shapes = vec![left, right];
    let points = shapes.uniform_grid(20u64);
    assert!(points.iter().any(|p| p.x < 100));
    assert!(points.iter().any(|p| p.x > 200));
    assert!(points.iter().all(|p| p.x < 100 || p.x > 200));
}

#[test]
fn edges_close_the_contour() {
    let contour = square(10);
    let mut edges = Vec::new();
    append_edges(&contour, &mut edges);
    assert_eq!(edges.len(), 4);
    assert_eq!(edges[0], Edge { a: IntPoint::new(0, 10), b: IntPoint::new(0, 0) });
    assert_eq!(edges[3], Edge { a: IntPoint::new(10, 10), b: IntPoint::new(0, 10) });
}

#[test]
fn closeness_to_an_edge() {
    let edge = Edge { a: IntPoint::new(0, 0), b: IntPoint::new(10, 0) };
    // Beside the edge: distance to its line.
    assert!(is_close_to_edge(IntPoint::new(5, 3), edge, 3));
    assert!(!is_close_to_edge(IntPoint::new(5, 4), edge, 3));
    // Past its ends: distance to the nearest end.
    assert!(is_close_to_edge(IntPoint::new(-2, 2), edge, 3));
    assert!(!is_close_to_edge(IntPoint::new(-3, 3), edge, 3));
    assert!(is_close_to_edge(IntPoint::new(12, 2), edge, 3));
    // A point edge.
    let dot = Edge { a: IntPoint::new(1, 1), b: IntPoint::new(1, 1) };
    assert!(is_close_to_edge(IntPoint::new(1, 2), dot, 1));
    assert!(!is_close_to_edge(IntPoint::new(2, 2), dot, 1));
}

#[test]
fn keep_grid_points_uses_flags_then_clearance() {
    let candidates = vec![IntPoint::new(5, 5), IntPoint::new(1, 5), IntPoint::new(6, 6)];
    let contains = vec![true, true, false];
    let edges = vec![Edge { a: IntPoint::new(0, 0), b: IntPoint::new(0, 10) }];
    let rect = IntRect { min_x: 0, max_x: 10, min_y: 0, max_y: 10 };
    // Clearance is 9 / 3 = 3: (1, 5) is one away from the edge.
    let kept = keep_grid_points(candidates, contains, &edges, rect, 9);
    assert_eq!(kept, vec![IntPoint::new(5, 5)]);
}

#[test]
fn grid_filter_keeps_exactly_the_points_far_from_every_edge() {
    let edges = vec![
        Edge { a: IntPoint::new(3, 3), b: IntPoint::new(37, 21) },
        Edge { a: IntPoint::new(37, 21), b: IntPoint::new(12, 38) },
        Edge { a: IntPoint::new(12, 38), b: IntPoint::new(12, 38) },
    ];
    let rect = IntRect { min_x: 0, max_x: 40, min_y: 0, max_y: 40 };
    let mut points = Vec::new();
    for y in (0..=40).step_by(3) {
        for x in (0..=40).step_by(3) {
            points.push(IntPoint::new(x, y));
        }
    }
    let expected: Vec<IntPoint> = points
        .iter()
        .copied()
        .filter(|p| !edges.iter().any(|e| is_close_to_edge(*p, *e, 4u64)))
        .collect();
    assert!(expected.len() < points.len());
    for cell in [1u64, 5, 7, 40, 100] {
        let filtered = filter_near_edges(points.clone(), &edges, rect, cell, 4u64);
        assert_eq!(filtered, expected);
    }
}
