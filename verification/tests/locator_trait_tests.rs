use i_triangle::geom::IntPoint;
use i_triangle::location::PointLocationInTriangulation;
use i_triangle::locator::IntPointInTriangulationLocator;

#[test]
fn locator_trait_on_triangles_finds_the_holder() {
    let triangles = vec![
        [IntPoint::new(0, 0), IntPoint::new(10, 0), IntPoint::new(10, 10)],
        [IntPoint::new(0, 0), IntPoint::new(10, 10), IntPoint::new(0, 10)],
    ];
    let located = IntPointInTriangulationLocator::locate_points(
        &triangles,
        &vec![IntPoint::new(8, 2), IntPoint::new(2, 8), IntPoint::new(20, 20)],
    );
    assert_eq!(located.len(), 3);
    match &located[0] {
        PointLocationInTriangulation::InsideTriangle(t) => assert_eq!(t.index(), 0),
        _ => panic!("not inside"),
    }
    match &located[1] {
        PointLocationInTriangulation::InsideTriangle(t) => assert_eq!(t.index(), 1),
        _ => panic!("not inside"),
    }
    assert!(matches!(located[2], PointLocationInTriangulation::Outside));
}
