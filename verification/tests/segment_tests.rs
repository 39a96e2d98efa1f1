use core::cmp::Ordering;
use i_triangle::geom::IntPoint;
use i_triangle::segment::VSegment;

#[test]
fn v_segment_test_0() {
    let v0 = VSegment { a: IntPoint::new(0, 0), b: IntPoint::new(5, 0) };
    let v1 = VSegment { a: IntPoint::new(0, 0), b: IntPoint::new(5, 5) };

    assert_eq!(v0.is_under_segment_order(&v1), Ordering::Less);
}

#[test]
fn v_segment_test_1() {
    let v0 = VSegment { a: IntPoint::new(-2, -2), b: IntPoint::new(5, -2) };
    let v1 = VSegment { a: IntPoint::new(0, 0), b: IntPoint::new(5, 0) };

    assert_eq!(v0.is_under_segment_order(&v1), Ordering::Less);
}

#[test]
fn v_segment_test_2() {
    let v0 = VSegment { a: IntPoint::new(-2, -5), b: IntPoint::new(5, 0) };
    let v1 = VSegment { a: IntPoint::new(0, 0), b: IntPoint::new(5, 0) };

    assert_eq!(v0.is_under_segment_order(&v1), Ordering::Less);
}

#[test]
fn v_segment_test_3() {
    let v0 = VSegment { a: IntPoint::new(0, -5), b: IntPoint::new(5, 5) };
    let v1 = VSegment { a: IntPoint::new(0, 0), b: IntPoint::new(5, 0) };

    assert_eq!(v0.is_under_segment_order(&v1), Ordering::Greater);
}

#[test]
fn segment_same_end_orders_by_start() {
    let v0 = VSegment { a: IntPoint::new(0, -5), b: IntPoint::new(5, 0) };
    let v1 = VSegment { a: IntPoint::new(0, 5), b: IntPoint::new(5, 0) };
    assert_eq!(v0.is_under_segment_order(&v1), Ordering::Less);
    assert_eq!(v1.is_under_segment_order(&v0), Ordering::Greater);
    assert_eq!(v0.is_under_segment_order(&v0), Ordering::Equal);
}

#[test]
fn segment_against_point() {
    let s = VSegment { a: IntPoint::new(0, 0), b: IntPoint::new(10, 0) };
    assert_eq!(s.is_under_point_order(IntPoint::new(5, 5)), Ordering::Less);
    assert_eq!(s.is_under_point_order(IntPoint::new(5, -5)), Ordering::Greater);
    assert_eq!(s.is_under_point_order(IntPoint::new(5, 0)), Ordering::Equal);
    assert_eq!(VSegment::default(), VSegment { a: IntPoint::new(0, 0), b: IntPoint::new(0, 0) });
}

#[test]
fn section_test_0() {
    let vs = VSegment { a: IntPoint::new(0, 10), b: IntPoint::new(10, 10) };

    let ord0 = vs.is_under_point_order(IntPoint::new(0, 20));
    let ord1 = vs.is_under_point_order(IntPoint::new(5, 20));
    let ord2 = vs.is_under_point_order(IntPoint::new(10, 20));

    assert_eq!(ord0, Ordering::Less);
    assert_eq!(ord1, Ordering::Less);
    assert_eq!(ord2, Ordering::Less);

    let ord3 = vs.is_under_point_order(IntPoint::new(0, 10));
    let ord4 = vs.is_under_point_order(IntPoint::new(5, 10));
    let ord5 = vs.is_under_point_order(IntPoint::new(10, 10));

    assert_eq!(ord3, Ordering::Equal);
    assert_eq!(ord4, Ordering::Equal);
    assert_eq!(ord5, Ordering::Equal);

    let ord6 = vs.is_under_point_order(IntPoint::new(0, 0));
    let ord7 = vs.is_under_point_order(IntPoint::new(5, 0));
    let ord8 = vs.is_under_point_order(IntPoint::new(10, 0));

    assert_eq!(ord6, Ordering::Greater);
    assert_eq!(ord7, Ordering::Greater);
    assert_eq!(ord8, Ordering::Greater);
}

use i_triangle::monotone::{find_section, insert_section, FlatSection};
use i_triangle::vertex::ChainVertex;

fn with_sort(sort: VSegment) -> FlatSection {
    FlatSection { sort, points: Vec::new() }
}

fn lone(p: IntPoint) -> ChainVertex {
    ChainVertex { index: 0, this: p, next: p, prev: p }
}

#[test]
fn section_test_1() {
    let vs0 = VSegment { a: IntPoint::new(0, 9), b: IntPoint::new(10, 9) };
    let vs1 = VSegment { a: IntPoint::new(0, 6), b: IntPoint::new(10, 6) };
    let vs2 = VSegment { a: IntPoint::new(0, 3), b: IntPoint::new(10, 3) };
    let vs3 = VSegment { a: IntPoint::new(0, 1), b: IntPoint::new(10, 1) };

    let mut sections = Vec::new();
    insert_section(&mut sections, with_sort(vs0));
    insert_section(&mut sections, with_sort(vs1));
    insert_section(&mut sections, with_sort(vs2));
    insert_section(&mut sections, with_sort(vs3));

    let i0 = find_section(&sections, &lone(IntPoint::new(5, 15))).unwrap();
    let i1 = find_section(&sections, &lone(IntPoint::new(5, 7))).unwrap();
    let i2 = find_section(&sections, &lone(IntPoint::new(5, 4))).unwrap();
    let i3 = find_section(&sections, &lone(IntPoint::new(5, 3))).unwrap();
    let i4 = find_section(&sections, &lone(IntPoint::new(5, 2))).unwrap();
    let i5 = find_section(&sections, &lone(IntPoint::new(5, 0)));

    assert_eq!(sections[i0].sort, vs0);
    assert_eq!(sections[i1].sort, vs1);
    assert_eq!(sections[i2].sort, vs2);
    assert_eq!(sections[i3].sort, vs2);
    assert_eq!(sections[i4].sort, vs3);
    assert!(i5.is_none());
}
