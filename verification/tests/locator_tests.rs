use i_triangle::geom::IntPoint;
use i_triangle::location::PointLocationInTriangulation;
use i_triangle::locator::{boundary, locate_point, locate_points_in_triangles, PointLocationInTriangle};
use i_triangle::triangulation::IntTriangulation;

fn assert_on_vertex(location: &PointLocationInTriangulation, triangles: &[usize]) {
    if let PointLocationInTriangulation::OnVertex(vec) = location {
        let mut vertex_triangles: Vec<_> = vec.iter().map(|e| e.index()).collect();
        vertex_triangles.sort();

        let mut template_triangles = triangles.to_vec();
        template_triangles.sort();

        assert_eq!(vertex_triangles, template_triangles);
    } else {
        panic!("not on Vertex");
    }
}

fn assert_on_edge(location: &PointLocationInTriangulation, triangles: &[usize]) {
    match location {
        PointLocationInTriangulation::OnExteriorEdge(triangle) => assert_eq!(triangles[0], triangle.index()),
        PointLocationInTriangulation::OnInteriorEdge(t0, t1) => {
            assert!(
                t0.index() == triangles[0] && t1.index() == triangles[1]
                    || t0.index() == triangles[1] && t1.index() == triangles[0]
            );
        }
        _ => panic!("not on Edge"),
    }
}

fn assert_inside(location: &PointLocationInTriangulation, index: usize) {
    if let PointLocationInTriangulation::InsideTriangle(triangle) = location {
        assert_eq!(triangle.index(), index);
    } else {
        panic!("not Inside");
    }
}

fn square_triangulation() -> IntTriangulation<u16> {
    IntTriangulation {
        points: vec![IntPoint::new(0, 0), IntPoint::new(4, 0), IntPoint::new(4, 4), IntPoint::new(0, 4)],
        indices: vec![0, 1, 2, 0, 2, 3],
    }
}

fn path(coords: &[[i32; 2]]) -> Vec<IntPoint> {
    coords.iter().map(|c| IntPoint::new(c[0], c[1])).collect()
}

#[test]
fn test_locate_points() {
    let triangulation = square_triangulation();
    let points_to_locate = vec![
        IntPoint::new(3, 1),
        IntPoint::new(1, 3),
        IntPoint::new(2, 2),
        IntPoint::new(2, 0),
        IntPoint::new(0, 0),
        IntPoint::new(5, 1),
    ];

    let locations = triangulation.locate_points(&points_to_locate);

    assert_inside(&locations[0], 0);
    assert_inside(&locations[1], 1);
    assert_on_edge(&locations[2], &[0, 1]);
    assert_on_edge(&locations[3], &[0]);
    assert_on_vertex(&locations[4], &[0, 1]);
    assert_eq!(locations[5], PointLocationInTriangulation::Outside);
}

#[test]
fn test_two_stacked_squares() {
    // The triangulation of the contour [0,8], [0,4], [0,0], [4,0], [4,4], [4,8]
    // into four triangles, numbered from the bottom.
    let triangulation = IntTriangulation::<u16> {
        points: path(&[[0, 8], [0, 4], [0, 0], [4, 0], [4, 4], [4, 8]]),
        indices: vec![2, 3, 1, 3, 4, 1, 1, 4, 0, 4, 5, 0],
    };

    let points_on_vertex = path(&[[0, 8], [0, 4], [0, 0], [4, 0], [4, 4], [4, 8]]);
    let locations_on_vertex = triangulation.locate_points(&points_on_vertex);

    assert_on_vertex(&locations_on_vertex[0], &[2, 3]);
    assert_on_vertex(&locations_on_vertex[1], &[0, 1, 2]);
    assert_on_vertex(&locations_on_vertex[2], &[0]);
    assert_on_vertex(&locations_on_vertex[3], &[0, 1]);
    assert_on_vertex(&locations_on_vertex[4], &[1, 2, 3]);
    assert_on_vertex(&locations_on_vertex[5], &[3]);

    let points_on_edge = path(&[[0, 2], [0, 6], [2, 0], [2, 2], [2, 4], [2, 6], [2, 8], [4, 2], [4, 6]]);
    let locations_on_edge = triangulation.locate_points(&points_on_edge);

    assert_on_edge(&locations_on_edge[0], &[0]);
    assert_on_edge(&locations_on_edge[1], &[2]);
    assert_on_edge(&locations_on_edge[2], &[0]);
    assert_on_edge(&locations_on_edge[3], &[0, 1]);
    assert_on_edge(&locations_on_edge[4], &[1, 2]);
    assert_on_edge(&locations_on_edge[5], &[2, 3]);
    assert_on_edge(&locations_on_edge[6], &[3]);
    assert_on_edge(&locations_on_edge[7], &[1]);
    assert_on_edge(&locations_on_edge[8], &[3]);

    let points_inside = path(&[[1, 1], [3, 3], [1, 5], [3, 7]]);
    let locations_inside = triangulation.locate_points(&points_inside);

    assert_inside(&locations_inside[0], 0);
    assert_inside(&locations_inside[1], 1);
    assert_inside(&locations_inside[2], 2);
    assert_inside(&locations_inside[3], 3);

    let mut points_outside = Vec::new();
    for x in -10..=10 {
        for y in -10..=10 {
            if (x < 0 || x > 4) && (y < 0 || y > 8) {
                points_outside.push(IntPoint::new(x, y));
            }
        }
    }

    let locations_outside = triangulation.locate_points(&points_outside);

    for location in locations_outside {
        assert_eq!(location, PointLocationInTriangulation::Outside);
    }
}

#[test]
fn locate_point_in_one_triangle() {
    let t = [IntPoint::new(0, 0), IntPoint::new(6, 0), IntPoint::new(0, 6)];
    assert_eq!(locate_point(&t, IntPoint::new(1, 1)), PointLocationInTriangle::Inside);
    assert_eq!(locate_point(&t, IntPoint::new(3, 0)), PointLocationInTriangle::OnEdge);
    assert_eq!(locate_point(&t, IntPoint::new(6, 0)), PointLocationInTriangle::OnVertex);
    assert_eq!(locate_point(&t, IntPoint::new(5, 5)), PointLocationInTriangle::Outside);
    let r = boundary(&t);
    assert_eq!((r.min_x, r.max_x, r.min_y, r.max_y), (0, 6, 0, 6));
}

#[test]
fn degenerate_triangle_is_seen_only_in_its_box() {
    // A flat triangle on the x axis: a point on its line but beyond it is outside.
    let triangles = vec![[IntPoint::new(0, 0), IntPoint::new(2, 0), IntPoint::new(4, 0)]];
    let points = vec![IntPoint::new(1, 0), IntPoint::new(9, 0)];
    let locations = locate_points_in_triangles(&triangles, &points);
    assert_eq!(locations[1], PointLocationInTriangulation::Outside);
    assert!(matches!(locations[0], PointLocationInTriangulation::OnExteriorEdge(_)));
}
