use binpack::ems::{Ems, Point};

fn rect(x0: u32, y0: u32, x1: u32, y1: u32) -> Ems {
    Ems::new(Point { x: x0, y: y0 }, Point { x: x1, y: y1 })
}

#[test]
fn width_height_and_fits() {
    let r = rect(2, 3, 7, 5);
    assert_eq!(r.width(), 5);
    assert_eq!(r.height(), 2);
    assert!(r.fits(5, 2));
    assert!(r.fits(1, 1));
    assert!(!r.fits(6, 2));
    assert!(!r.fits(5, 3));
}

#[test]
fn containment_is_geometric() {
    let outer = rect(0, 0, 10, 10);
    let inner = rect(2, 2, 5, 5);
    assert!(inner.contained_in(&outer));
    assert!(!outer.contained_in(&inner));
    assert!(outer.contained_in(&outer));
    // Lower-left of another rectangle is not inside it.
    assert!(!rect(5, 5, 12, 12).contained_in(&rect(0, 0, 8, 8)));
}

#[test]
fn intersection_needs_overlapping_interiors() {
    let a = rect(0, 0, 4, 4);
    assert!(a.intersects(&rect(3, 3, 6, 6)));
    // Sharing an edge is not overlapping.
    assert!(!a.intersects(&rect(4, 0, 8, 4)));
    assert!(!a.intersects(&rect(0, 4, 4, 8)));
    assert!(!a.intersects(&rect(5, 5, 6, 6)));
}
