use i_triangle::geom::IntPoint;
use i_triangle::vertex::{feed_points, sort_in_clockwise_order, ChainBuilder, ChainVertex, ToChainVertices, VertexType};

#[test]
fn chain_builder_test_0() {
    let shape: Vec<Vec<IntPoint>> = vec![
        vec![
            IntPoint::new(-10, -10),
            IntPoint::new(10, -10),
            IntPoint::new(10, 10),
            IntPoint::new(-10, 10),
        ],
        vec![
            IntPoint::new(-5, -5),
            IntPoint::new(0, 0),
            IntPoint::new(-5, 5),
            IntPoint::new(5, 5),
            IntPoint::new(0, 0),
            IntPoint::new(5, -5),
        ],
    ];
    let vertices = shape.to_chain_vertices();

    assert_eq!(vertices.len(), 10);
}

#[test]
fn chain_builder_test_1() {
    let v = ChainVertex::new(
        IntPoint::new(10, 10),
        IntPoint::new(10, 20),
        IntPoint::new(10, 0),
    );

    let mut vv = vec![v];
    sort_in_clockwise_order(&mut vv);

    assert_eq!(vv[0].next, IntPoint::new(10, 20));
    assert_eq!(vv[0].prev, IntPoint::new(10, 0));
}

#[test]
fn chain_builder_test_2() {
    let v = ChainVertex::new(
        IntPoint::new(10, 10),
        IntPoint::new(10, 0),
        IntPoint::new(10, 20),
    );

    let mut vv = vec![v];
    sort_in_clockwise_order(&mut vv);

    assert_eq!(vv[0].next, IntPoint::new(10, 0));
    assert_eq!(vv[0].prev, IntPoint::new(10, 20));
}

#[test]
fn chain_builder_test_3() {
    let v0 = ChainVertex::new(
        IntPoint::new(10, 10),
        IntPoint::new(0, 5),
        IntPoint::new(5, 0),
    );
    let v1 = ChainVertex::new(
        IntPoint::new(10, 10),
        IntPoint::new(5, 20),
        IntPoint::new(0, 15),
    );

    let mut vv0 = vec![v0.clone(), v1.clone()];
    sort_in_clockwise_order(&mut vv0);

    assert_eq!(vv0[0].next, IntPoint::new(0, 5));
    assert_eq!(vv0[0].prev, IntPoint::new(5, 0));
    assert_eq!(vv0[1].next, IntPoint::new(5, 20));
    assert_eq!(vv0[1].prev, IntPoint::new(0, 15));

    let mut vv1 = vec![v1, v0];
    sort_in_clockwise_order(&mut vv1);

    assert_eq!(vv1[0].next, IntPoint::new(0, 5));
    assert_eq!(vv1[0].prev, IntPoint::new(5, 0));
    assert_eq!(vv1[1].next, IntPoint::new(5, 20));
    assert_eq!(vv1[1].prev, IntPoint::new(0, 15));
}

#[test]
fn chain_builder_test_4() {
    let v0 = ChainVertex::new(
        IntPoint::new(10, 10),
        IntPoint::new(20, 15),
        IntPoint::new(15, 20),
    );
    let v1 = ChainVertex::new(
        IntPoint::new(10, 10),
        IntPoint::new(15, 0),
        IntPoint::new(20, 5),
    );

    let mut vv0 = vec![v0.clone(), v1.clone()];
    sort_in_clockwise_order(&mut vv0);

    assert_eq!(vv0[0].next, IntPoint::new(20, 15));
    assert_eq!(vv0[0].prev, IntPoint::new(15, 20));
    assert_eq!(vv0[1].next, IntPoint::new(15, 0));
    assert_eq!(vv0[1].prev, IntPoint::new(20, 5));

    let mut vv1 = vec![v1, v0];
    sort_in_clockwise_order(&mut vv1);

    assert_eq!(vv1[0].next, IntPoint::new(20, 15));
    assert_eq!(vv1[0].prev, IntPoint::new(15, 20));
    assert_eq!(vv1[1].next, IntPoint::new(15, 0));
    assert_eq!(vv1[1].prev, IntPoint::new(20, 5));
}

#[test]
fn chain_builder_test_5() {
    let v0 = ChainVertex::new(
        IntPoint::new(10, 10),
        IntPoint::new(20, 0),
        IntPoint::new(10, 0),
    );
    let v1 = ChainVertex::new(
        IntPoint::new(10, 10),
        IntPoint::new(0, 20),
        IntPoint::new(10, 20),
    );

    let mut vv0 = vec![v0.clone(), v1.clone()];
    sort_in_clockwise_order(&mut vv0);

    assert_eq!(vv0[0].next, IntPoint::new(0, 20));
    assert_eq!(vv0[0].prev, IntPoint::new(10, 0));
    assert_eq!(vv0[1].next, IntPoint::new(20, 0));
    assert_eq!(vv0[1].prev, IntPoint::new(10, 20));

    let mut vv1 = vec![v1, v0];
    sort_in_clockwise_order(&mut vv1);

    assert_eq!(vv1[0].next, IntPoint::new(0, 20));
    assert_eq!(vv1[0].prev, IntPoint::new(10, 0));
    assert_eq!(vv1[1].next, IntPoint::new(20, 0));
    assert_eq!(vv1[1].prev, IntPoint::new(10, 20));
}

#[test]
fn chain_builder_test_6() {
    let v0 = ChainVertex::new(
        IntPoint::new(2, 0),
        IntPoint::new(2, -5),
        IntPoint::new(1, 3),
    );
    let v1 = ChainVertex::new(
        IntPoint::new(2, 0),
        IntPoint::new(-2, 2),
        IntPoint::new(-5, 1),
    );

    let mut vv0 = vec![v0.clone(), v1.clone()];
    sort_in_clockwise_order(&mut vv0);

    assert_eq!(vv0[0].next, IntPoint::new(-2, 2));
    assert_eq!(vv0[0].prev, IntPoint::new(-5, 1));
    assert_eq!(vv0[1].next, IntPoint::new(2, -5));
    assert_eq!(vv0[1].prev, IntPoint::new(1, 3));

    let mut vv1 = vec![v1, v0];
    sort_in_clockwise_order(&mut vv1);

    assert_eq!(vv1[0].next, IntPoint::new(-2, 2));
    assert_eq!(vv1[0].prev, IntPoint::new(-5, 1));
    assert_eq!(vv1[1].next, IntPoint::new(2, -5));
    assert_eq!(vv1[1].prev, IntPoint::new(1, 3));
}

#[test]
fn chain_builder_test_7() {
    let v0 = ChainVertex::new(
        IntPoint::new(3, -1),
        IntPoint::new(-1, 0),
        IntPoint::new(5, -5),
    );
    let v1 = ChainVertex::new(
        IntPoint::new(3, -1),
        IntPoint::new(4, 4),
        IntPoint::new(2, 0),
    );

    let mut vv0 = vec![v0.clone(), v1.clone()];
    sort_in_clockwise_order(&mut vv0);

    assert_eq!(vv0[0].next, IntPoint::new(-1, 0));
    assert_eq!(vv0[0].prev, IntPoint::new(5, -5));
    assert_eq!(vv0[1].next, IntPoint::new(4, 4));
    assert_eq!(vv0[1].prev, IntPoint::new(2, 0));

    let mut vv1 = vec![v1, v0];
    sort_in_clockwise_order(&mut vv1);

    assert_eq!(vv1[0].next, IntPoint::new(-1, 0));
    assert_eq!(vv1[0].prev, IntPoint::new(5, -5));
    assert_eq!(vv1[1].next, IntPoint::new(4, 4));
    assert_eq!(vv1[1].prev, IntPoint::new(2, 0));
}

#[test]
fn chain_builder_test_8() {
    let shape: Vec<Vec<IntPoint>> = vec![vec![
        IntPoint::new(3, 1),
        IntPoint::new(-2, 2),
        IntPoint::new(0, -4),
    ]];
    let vertices = shape.to_chain_vertices();

    assert_eq!(vertices.len(), 3);
}

#[test]
fn vertex_test_0() {
    let shape: Vec<Vec<IntPoint>> = vec![
        vec![
            IntPoint::new(-10, -10),
            IntPoint::new(10, -10),
            IntPoint::new(10, 10),
            IntPoint::new(-10, 10),
        ],
        vec![
            IntPoint::new(-5, -5),
            IntPoint::new(0, 0),
            IntPoint::new(-5, 5),
            IntPoint::new(5, 5),
            IntPoint::new(0, 0),
            IntPoint::new(5, -5),
        ],
    ];
    let vertices = shape.to_chain_vertices();

    assert_eq!(vertices.len(), 10);
}

#[test]
fn vertex_test_1() {
    let v = ChainVertex::new(
        IntPoint::new(10, 10),
        IntPoint::new(10, 20),
        IntPoint::new(10, 0),
    );

    let mut vv = vec![v];
    sort_in_clockwise_order(&mut vv);

    assert_eq!(vv[0].next, IntPoint::new(10, 20));
    assert_eq!(vv[0].prev, IntPoint::new(10, 0));
}

#[test]
fn vertex_test_2() {
    let v = ChainVertex::new(
        IntPoint::new(10, 10),
        IntPoint::new(10, 0),
        IntPoint::new(10, 20),
    );

    let mut vv = vec![v];
    sort_in_clockwise_order(&mut vv);

    assert_eq!(vv[0].next, IntPoint::new(10, 0));
    assert_eq!(vv[0].prev, IntPoint::new(10, 20));
}

#[test]
fn vertex_test_3() {
    let v0 = ChainVertex::new(
        IntPoint::new(10, 10),
        IntPoint::new(0, 5),
        IntPoint::new(5, 0),
    );
    let v1 = ChainVertex::new(
        IntPoint::new(10, 10),
        IntPoint::new(5, 20),
        IntPoint::new(0, 15),
    );

    let mut vv0 = vec![v0.clone(), v1.clone()];
    sort_in_clockwise_order(&mut vv0);

    assert_eq!(vv0[0].next, IntPoint::new(0, 5));
    assert_eq!(vv0[0].prev, IntPoint::new(5, 0));
    assert_eq!(vv0[1].next, IntPoint::new(5, 20));
    assert_eq!(vv0[1].prev, IntPoint::new(0, 15));

    let mut vv1 = vec![v1, v0];
    sort_in_clockwise_order(&mut vv1);

    assert_eq!(vv1[0].next, IntPoint::new(0, 5));
    assert_eq!(vv1[0].prev, IntPoint::new(5, 0));
    assert_eq!(vv1[1].next, IntPoint::new(5, 20));
    assert_eq!(vv1[1].prev, IntPoint::new(0, 15));
}

#[test]
fn vertex_test_4() {
    let v0 = ChainVertex::new(
        IntPoint::new(10, 10),
        IntPoint::new(20, 15),
        IntPoint::new(15, 20),
    );
    let v1 = ChainVertex::new(
        IntPoint::new(10, 10),
        IntPoint::new(15, 0),
        IntPoint::new(20, 5),
    );

    let mut vv0 = vec![v0.clone(), v1.clone()];
    sort_in_clockwise_order(&mut vv0);

    assert_eq!(vv0[0].next, IntPoint::new(20, 15));
    assert_eq!(vv0[0].prev, IntPoint::new(15, 20));
    assert_eq!(vv0[1].next, IntPoint::new(15, 0));
    assert_eq!(vv0[1].prev, IntPoint::new(20, 5));

    let mut vv1 = vec![v1, v0];
    sort_in_clockwise_order(&mut vv1);

    assert_eq!(vv1[0].next, IntPoint::new(20, 15));
    assert_eq!(vv1[0].prev, IntPoint::new(15, 20));
    assert_eq!(vv1[1].next, IntPoint::new(15, 0));
    assert_eq!(vv1[1].prev, IntPoint::new(20, 5));
}

#[test]
fn vertex_test_5() {
    let v0 = ChainVertex::new(
        IntPoint::new(10, 10),
        IntPoint::new(20, 0),
        IntPoint::new(10, 0),
    );
    let v1 = ChainVertex::new(
        IntPoint::new(10, 10),
        IntPoint::new(0, 20),
        IntPoint::new(10, 20),
    );

    let mut vv0 = vec![v0.clone(), v1.clone()];
    sort_in_clockwise_order(&mut vv0);

    assert_eq!(vv0[0].next, IntPoint::new(0, 20));
    assert_eq!(vv0[0].prev, IntPoint::new(10, 0));
    assert_eq!(vv0[1].next, IntPoint::new(20, 0));
    assert_eq!(vv0[1].prev, IntPoint::new(10, 20));

    let mut vv1 = vec![v1, v0];
    sort_in_clockwise_order(&mut vv1);

    assert_eq!(vv1[0].next, IntPoint::new(0, 20));
    assert_eq!(vv1[0].prev, IntPoint::new(10, 0));
    assert_eq!(vv1[1].next, IntPoint::new(20, 0));
    assert_eq!(vv1[1].prev, IntPoint::new(10, 20));
}

#[test]
fn vertex_test_6() {
    let v0 = ChainVertex::new(
        IntPoint::new(2, 0),
        IntPoint::new(2, -5),
        IntPoint::new(1, 3),
    );
    let v1 = ChainVertex::new(
        IntPoint::new(2, 0),
        IntPoint::new(-2, 2),
        IntPoint::new(-5, 1),
    );

    let mut vv0 = vec![v0.clone(), v1.clone()];
    sort_in_clockwise_order(&mut vv0);

    assert_eq!(vv0[0].next, IntPoint::new(-2, 2));
    assert_eq!(vv0[0].prev, IntPoint::new(-5, 1));
    assert_eq!(vv0[1].next, IntPoint::new(2, -5));
    assert_eq!(vv0[1].prev, IntPoint::new(1, 3));

    let mut vv1 = vec![v1, v0];
    sort_in_clockwise_order(&mut vv1);

    assert_eq!(vv1[0].next, IntPoint::new(-2, 2));
    assert_eq!(vv1[0].prev, IntPoint::new(-5, 1));
    assert_eq!(vv1[1].next, IntPoint::new(2, -5));
    assert_eq!(vv1[1].prev, IntPoint::new(1, 3));
}

#[test]
fn vertex_test_7() {
    let v0 = ChainVertex::new(
        IntPoint::new(3, -1),
        IntPoint::new(-1, 0),
        IntPoint::new(5, -5),
    );
    let v1 = ChainVertex::new(
        IntPoint::new(3, -1),
        IntPoint::new(4, 4),
        IntPoint::new(2, 0),
    );

    let mut vv0 = vec![v0.clone(), v1.clone()];
    sort_in_clockwise_order(&mut vv0);

    assert_eq!(vv0[0].next, IntPoint::new(-1, 0));
    assert_eq!(vv0[0].prev, IntPoint::new(5, -5));
    assert_eq!(vv0[1].next, IntPoint::new(4, 4));
    assert_eq!(vv0[1].prev, IntPoint::new(2, 0));

    let mut vv1 = vec![v1, v0];
    sort_in_clockwise_order(&mut vv1);

    assert_eq!(vv1[0].next, IntPoint::new(-1, 0));
    assert_eq!(vv1[0].prev, IntPoint::new(5, -5));
    assert_eq!(vv1[1].next, IntPoint::new(4, 4));
    assert_eq!(vv1[1].prev, IntPoint::new(2, 0));
}

#[test]
fn vertex_types_follow_neighbours() {
    // Both neighbours before the vertex.
    let end = ChainVertex::new(IntPoint::new(10, 0), IntPoint::new(0, 5), IntPoint::new(0, -5));
    assert_eq!(end.get_type(), VertexType::End);
    let merge = ChainVertex::new(IntPoint::new(10, 0), IntPoint::new(0, -5), IntPoint::new(0, 5));
    assert_eq!(merge.get_type(), VertexType::Merge);
    // Both neighbours after the vertex.
    let start = ChainVertex::new(IntPoint::new(0, 0), IntPoint::new(10, -5), IntPoint::new(10, 5));
    assert_eq!(start.get_type(), VertexType::Start);
    let split = ChainVertex::new(IntPoint::new(0, 0), IntPoint::new(10, 5), IntPoint::new(10, -5));
    assert_eq!(split.get_type(), VertexType::Split);
    // One before, one after.
    let join = ChainVertex::new(IntPoint::new(5, 0), IntPoint::new(10, 0), IntPoint::new(0, 0));
    assert_eq!(join.get_type(), VertexType::Join);
    let steiner = ChainVertex::implant(IntPoint::new(3, 3));
    assert_eq!(steiner.get_type(), VertexType::Steiner);
}

#[test]
fn chain_vertices_are_sorted_and_numbered() {
    let contour = vec![IntPoint::new(0, 0), IntPoint::new(10, 0), IntPoint::new(10, 10), IntPoint::new(0, 10)];
    let points = vec![IntPoint::new(5, 5), IntPoint::new(0, 0)];
    let vertices = contour.to_chain_vertices_with_steiner_points(&points);
    assert_eq!(vertices.len(), 6);
    let xs: Vec<(i32, i32, usize)> = vertices.iter().map(|v| (v.this.x, v.this.y, v.index)).collect();
    assert_eq!(xs, vec![(0, 0, 0), (0, 0, 0), (0, 10, 1), (5, 5, 2), (10, 0, 3), (10, 10, 4)]);
    let mut fed = Vec::new();
    feed_points(&vertices, &mut fed);
    assert_eq!(
        fed,
        vec![IntPoint::new(0, 0), IntPoint::new(0, 10), IntPoint::new(5, 5), IntPoint::new(10, 0), IntPoint::new(10, 10)]
    );
}

#[test]
fn chain_builder_contour_keeps_neighbours() {
    let contour = vec![IntPoint::new(0, 0), IntPoint::new(4, 1), IntPoint::new(1, 3)];
    let mut vertices = Vec::new();
    ChainBuilder::contour_to_vertices(&contour, None, &mut vertices);
    assert_eq!(vertices.len(), 3);
    // (0,0) comes first; its next point is (4,1) and its previous (1,3).
    assert_eq!(vertices[0].this, IntPoint::new(0, 0));
    assert_eq!(vertices[0].next, IntPoint::new(4, 1));
    assert_eq!(vertices[0].prev, IntPoint::new(1, 3));
    assert_eq!(vertices[1].this, IntPoint::new(1, 3));
    assert_eq!(vertices[2].this, IntPoint::new(4, 1));
    assert_eq!(vertices[2].index, 2);
}
