use i_triangle::binder::group_by_shapes;
use i_triangle::geom::IntPoint;

fn path(slice: &[[i32; 2]]) -> Vec<IntPoint> {
    slice.iter().map(|p| IntPoint::new(p[0], p[1])).collect()
}

#[test]
fn binder_test_0() {
    let shapes = vec![vec![path(&[[0, 0], [10, 0], [10, 10], [0, 10]])]];

    let groups = group_by_shapes(
        &shapes,
        &vec![IntPoint::new(5, 5), IntPoint::new(15, 5), IntPoint::new(-15, 5)],
    );

    assert_eq!(groups[0].len(), 1);
}

#[test]
fn binder_test_1() {
    let shapes = vec![
        vec![path(&[[0, 0], [10, 0], [10, 10], [0, 10]])],
        vec![path(&[[20, 0], [30, 0], [30, 10], [20, 10]])],
    ];

    let groups = group_by_shapes(
        &shapes,
        &vec![
            IntPoint::new(5, 5),
            IntPoint::new(15, 5),
            IntPoint::new(25, 5),
            IntPoint::new(-15, 5),
        ],
    );

    assert_eq!(groups[0].len(), 1);
    assert_eq!(groups[1].len(), 1);
}

#[test]
fn binder_test_2() {
    let shapes = vec![
        vec![path(&[[0, 0], [10, 0], [10, 10], [0, 10]])],
        vec![path(&[[0, 20], [10, 20], [10, 30], [0, 30]])],
        vec![path(&[[0, 40], [10, 40], [10, 50], [0, 50]])],
        vec![path(&[[0, 60], [10, 60], [10, 70], [0, 70]])],
        vec![path(&[[0, 80], [10, 80], [10, 90], [0, 90]])],
    ];

    let groups = group_by_shapes(
        &shapes,
        &vec![
            IntPoint::new(5, 5),
            IntPoint::new(15, 5),
            IntPoint::new(5, 25),
            IntPoint::new(6, 25),
            IntPoint::new(7, 25),
            IntPoint::new(25, 5),
            IntPoint::new(-15, 5),
        ],
    );

    assert_eq!(groups[0].len(), 1);
    assert_eq!(groups[1].len(), 3);
}

#[test]
fn no_points_give_empty_groups() {
    let shapes = vec![vec![path(&[[0, 0], [10, 0], [10, 10], [0, 10]])], vec![]];
    let groups = group_by_shapes(&shapes, &Vec::new());
    assert_eq!(groups.len(), 2);
    assert!(groups.iter().all(|g| g.is_empty()));
}

#[test]
fn point_in_hole_is_dropped() {
    let shapes = vec![vec![
        path(&[[0, 0], [30, 0], [30, 30], [0, 30]]),
        path(&[[10, 10], [10, 20], [20, 20], [20, 10]]),
    ]];
    let groups = group_by_shapes(&shapes, &vec![IntPoint::new(15, 15), IntPoint::new(5, 15)]);
    assert_eq!(groups[0], vec![IntPoint::new(5, 15)]);
}

#[test]
fn binder_drops_points_on_the_boundary() {
    let shapes = vec![vec![path(&[[-5, 0], [0, -5], [5, 0], [0, 5]])]];
    let groups = group_by_shapes(
        &shapes,
        &vec![IntPoint::new(-3, -2), IntPoint::new(5, 0), IntPoint::new(1, 1), IntPoint::new(0, 5)],
    );
    assert_eq!(groups[0], vec![IntPoint::new(1, 1)]);
}

#[test]
fn binder_drops_points_on_a_vertical_edge() {
    let shapes = vec![vec![path(&[[-2, 5], [-2, -1], [5, 4]])]];
    let groups = group_by_shapes(&shapes, &vec![IntPoint::new(-2, 3), IntPoint::new(0, 2)]);
    assert_eq!(groups[0], vec![IntPoint::new(0, 2)]);
}

#[test]
fn binder_point_right_of_every_shape_is_dropped() {
    let shapes = vec![vec![path(&[[0, 0], [10, 0], [10, 10], [0, 10]])]];
    let groups = group_by_shapes(&shapes, &vec![IntPoint::new(20, 5)]);
    assert_eq!(groups, vec![Vec::<IntPoint>::new()]);
}

#[test]
fn binder_groups_come_in_sweep_order() {
    let shapes = vec![
        vec![path(&[[0, 0], [10, 0], [10, 10], [0, 10]])],
        vec![path(&[[20, 0], [30, 0], [30, 10], [20, 10]])],
    ];
    let groups = group_by_shapes(
        &shapes,
        &vec![IntPoint::new(28, 5), IntPoint::new(8, 5), IntPoint::new(2, 5), IntPoint::new(22, 5)],
    );
    assert_eq!(groups, vec![path(&[[2, 5], [8, 5]]), path(&[[22, 5], [28, 5]])]);
}

#[test]
fn binder_no_points_with_an_empty_path() {
    let shapes = vec![vec![Vec::<IntPoint>::new()]];
    let groups = group_by_shapes(&shapes, &Vec::new());
    assert_eq!(groups, vec![Vec::<IntPoint>::new()]);
}
