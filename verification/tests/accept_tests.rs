use simple_lanelet2::accept::{accepts_binary, accepts_unary, normalise, resolve_index};
use simple_lanelet2::registry::{area, bounding_box_2d, distance, length};

#[test]
fn a_leading_const_is_dropped() {
    assert_eq!(normalise("ConstLanelet"), "Lanelet");
    assert_eq!(normalise("Lanelet"), "Lanelet");
    assert_eq!(normalise("Const"), "");
}

#[test]
fn unary_registrations_are_checked_after_normalising() {
    assert!(accepts_unary(&bounding_box_2d(), "ConstLineString2d"));
    assert!(!accepts_unary(&bounding_box_2d(), "LineString3d"));
    assert!(accepts_unary(&area(), "ConstHybridPolygon2d"));
    assert!(!accepts_unary(&length(), "HybridLineString2d"));
}

#[test]
fn binary_registrations_are_checked_after_normalising() {
    assert!(accepts_binary(&distance(), "ConstLanelet", "BasicPoint2d"));
    assert!(!accepts_binary(&distance(), "BasicPoint2d", "Polygon3d"));
}

#[test]
fn negative_indices_count_from_the_end() {
    assert_eq!(resolve_index(-1, 3), Some(2));
    assert_eq!(resolve_index(0, 3), Some(0));
    assert_eq!(resolve_index(3, 3), None);
    assert_eq!(resolve_index(-4, 3), None);
    assert_eq!(resolve_index(0, 0), None);
}
