use simple_lanelet2::attributes::{parse_bool, AttributeMap};
use simple_lanelet2::relation::{RelationType, ADJACENT_LEFT, CONFLICTING, LEFT, RIGHT, SUCCESSOR};

#[test]
fn a_value_set_reads_back_and_others_stay() {
    let mut map = AttributeMap::new();
    map.insert("subtype", "road");
    map.insert("location", "urban");
    assert_eq!(map.get("subtype"), Some("road"));
    map.insert("subtype", "highway");
    assert_eq!(map.get("subtype"), Some("highway"));
    assert_eq!(map.get("location"), Some("urban"));
    assert_eq!(map.get("one_way"), None);
    assert_eq!(map.len(), 2);
}

#[test]
fn entries_are_kept_in_key_order() {
    let mut map = AttributeMap::new();
    map.insert("type", "line_thin");
    map.insert("subtype", "dashed");
    map.insert("lane_change", "yes");
    assert_eq!(map.entry(0), ("lane_change", "yes"));
    assert_eq!(map.entry(1), ("subtype", "dashed"));
    assert_eq!(map.entry(2), ("type", "line_thin"));
}

#[test]
fn yes_and_no_have_several_spellings() {
    for yes in ["true", "yes", "1"] {
        assert_eq!(parse_bool(yes), Some(true));
    }
    for no in ["false", "no", "0"] {
        assert_eq!(parse_bool(no), Some(false));
    }
    assert_eq!(parse_bool("maybe"), None);
}

#[test]
fn a_union_holds_the_relations_of_either_mask() {
    let drivable = RelationType(SUCCESSOR).union(RelationType(LEFT)).union(RelationType(RIGHT));
    assert!(drivable.contains(RelationType(LEFT)));
    assert!(drivable.contains(RelationType(SUCCESSOR)));
    assert!(!drivable.contains(RelationType(CONFLICTING)));
    assert!(RelationType::all().contains(RelationType(ADJACENT_LEFT)));
    assert_eq!(drivable, RelationType(7));
    assert_eq!(RelationType(LEFT).name(), "Left");
    assert_eq!(drivable.name(), "None");
}
