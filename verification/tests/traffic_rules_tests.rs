use simple_lanelet2::attributes::AttributeMap;
use simple_lanelet2::traffic_rules::{
    change_type, sign_speed, speed_limits, SignSpeed, subtype_allows, tag, vehicle_speed_limit, LaneChangeType, LaneletTags,
    LimitSource, LineTags, Side, SpeedLimit, TrafficRules,
};

fn tags(attributes: &[(&str, &str)]) -> AttributeMap {
    let mut map = AttributeMap::new();
    for (key, value) in attributes {
        map.insert(key, value);
    }
    map
}

fn line(attributes: &[(&str, &str)]) -> LineTags {
    LineTags { attributes: tags(attributes), inverted: false }
}

fn lanelet(attributes: &[(&str, &str)]) -> LaneletTags {
    LaneletTags { attributes: tags(attributes), inverted: false, left: line(&[]), right: line(&[]) }
}

fn inverted(lanelet: LaneletTags) -> LaneletTags {
    LaneletTags { inverted: !lanelet.inverted, left: lanelet.right, right: lanelet.left, ..lanelet }
}

fn vehicle() -> TrafficRules {
    TrafficRules::create("de", "vehicle").unwrap()
}

fn kmh(rules: &TrafficRules, attributes: &[(&str, &str)]) -> Option<SpeedLimit> {
    match rules.speed_limit(&lanelet(attributes)) {
        LimitSource::Known(limit) => Some(limit),
        _ => None,
    }
}

#[test]
fn a_vehicle_may_use_a_road_but_only_forwards() {
    let rules = vehicle();
    assert!(rules.can_pass(&lanelet(&[("subtype", "road")])));
    assert!(!rules.can_pass(&inverted(lanelet(&[("subtype", "road")]))));
    assert!(rules.is_one_way(&lanelet(&[("subtype", "road")])));
}

#[test]
fn a_pedestrian_may_walk_a_walkway_both_ways() {
    let rules = TrafficRules::create("de", "pedestrian").unwrap();
    assert!(rules.can_pass(&lanelet(&[("subtype", "walkway")])));
    assert!(rules.can_pass(&inverted(lanelet(&[("subtype", "walkway")]))));
    assert!(!rules.is_one_way(&lanelet(&[("subtype", "walkway")])));
    assert!(!vehicle().can_pass(&lanelet(&[("subtype", "walkway")])));
}

#[test]
fn the_participant_hierarchy_matches_by_prefix() {
    let car = TrafficRules::create("de", "vehicle:car").unwrap();
    assert_eq!(car.participant(), "vehicle:car", "the requested name is kept");
    assert!(car.can_pass(&lanelet(&[("subtype", "road")])));
    assert!(!car.can_pass(&lanelet(&[("subtype", "road"), ("participant:vehicle", "no")])));
}

#[test]
fn an_emergency_lane_needs_the_specific_participant() {
    let lane = lanelet(&[("subtype", "emergency_lane")]);
    assert!(!vehicle().can_pass(&lane));
    let emergency = TrafficRules::create("de", "vehicle:emergency").unwrap();
    assert!(emergency.can_pass(&lane));
}

#[test]
fn speed_limits_follow_location_and_subtype() {
    let rules = vehicle();
    assert_eq!(kmh(&rules, &[("subtype", "road")]).unwrap().kmh, 50);
    assert_eq!(kmh(&rules, &[("subtype", "road"), ("location", "nonurban")]).unwrap().kmh, 100);
    assert_eq!(kmh(&rules, &[("subtype", "highway")]).unwrap().kmh, 130);
    assert!(!kmh(&rules, &[("subtype", "highway")]).unwrap().is_mandatory);
    assert_eq!(kmh(&rules, &[("subtype", "play_street")]).unwrap().kmh, 7);
    assert_eq!(kmh(&rules, &[("subtype", "bus_lane")]).unwrap().kmh, 50);
    assert_eq!(rules.speed_limit(&lanelet(&[("subtype", "parking")])), LimitSource::Unknown);
}

#[test]
fn an_explicit_speed_limit_is_read_as_kilometres_per_hour() {
    let rules = vehicle();
    assert_eq!(
        rules.speed_limit(&lanelet(&[("subtype", "road"), ("speed_limit", "30")])),
        LimitSource::Tagged { candidates: vec![], plain: Some("30".to_string()), is_mandatory: true }
    );
    assert_eq!(
        rules.speed_limit(&lanelet(&[("subtype", "road"), ("speed_limit", "30 mph")])),
        LimitSource::Tagged { candidates: vec![], plain: Some("30 mph".to_string()), is_mandatory: true }
    );
    assert_eq!(
        rules.speed_limit(&lanelet(&[("subtype", "road"), ("speed_limit_mandatory", "false")])),
        LimitSource::Tagged { candidates: vec![], plain: None, is_mandatory: false }
    );
}

#[test]
fn a_participant_speed_limit_comes_before_the_plain_one() {
    let rules = vehicle();
    assert_eq!(
        rules.speed_limit(&lanelet(&[
            ("subtype", "road"),
            ("speed_limit", "50"),
            ("speed_limit:vehicle", "30"),
            ("speed_limit:pedestrian", "5"),
        ])),
        LimitSource::Tagged { candidates: vec!["30".to_string()], plain: Some("50".to_string()), is_mandatory: true }
    );
    let car = TrafficRules::create("de", "vehicle:car").unwrap();
    assert_eq!(
        car.speed_limit(&lanelet(&[("speed_limit:vehicle", "30 mph"), ("speed_limit:vehicle:car", "40")])),
        LimitSource::Tagged {
            candidates: vec!["30 mph".to_string(), "40".to_string()],
            plain: None,
            is_mandatory: true,
        }
    );
}

#[test]
fn walkers_and_riders_have_fixed_limits() {
    let pedestrian = TrafficRules::create("de", "pedestrian").unwrap();
    assert_eq!(kmh(&pedestrian, &[("subtype", "highway")]), Some(SpeedLimit { kmh: 5, is_mandatory: true }));
    let bicycle = TrafficRules::create("de", "bicycle").unwrap();
    assert_eq!(kmh(&bicycle, &[("subtype", "road")]), Some(SpeedLimit { kmh: 20, is_mandatory: true }));
    assert_eq!(vehicle_speed_limit(&speed_limits(), "nonurban", "exit"), None);
    assert_eq!(vehicle_speed_limit(&speed_limits(), "urban", "exit").unwrap().kmh, 50);
}

#[test]
fn lane_changes_follow_the_boundary_markings() {
    let rules = vehicle();
    let kind = |attributes: &[(&str, &str)]| rules.lane_change_type(&line(attributes), false);
    assert_eq!(kind(&[("type", "line_thin"), ("subtype", "dashed")]), LaneChangeType::Both);
    assert_eq!(kind(&[("type", "line_thin"), ("subtype", "solid")]), LaneChangeType::NoChange);
    assert_eq!(kind(&[("type", "line_thin"), ("subtype", "dashed_solid")]), LaneChangeType::ToRight);
    assert_eq!(kind(&[("type", "line_thin"), ("subtype", "solid_dashed")]), LaneChangeType::ToLeft);
    let backwards = LineTags { inverted: true, ..line(&[("type", "line_thin"), ("subtype", "dashed_solid")]) };
    assert_eq!(rules.lane_change_type(&backwards, false), LaneChangeType::ToLeft);
    assert_eq!(
        kind(&[("type", "line_thin"), ("subtype", "solid"), ("lane_change", "yes")]),
        LaneChangeType::Both
    );
}

#[test]
fn a_virtual_boundary_is_crossable_only_where_the_caller_says() {
    let rules = vehicle();
    assert_eq!(rules.lane_change_type(&line(&[("type", "virtual")]), true), LaneChangeType::Both);
    assert_eq!(rules.lane_change_type(&line(&[("type", "virtual")]), false), LaneChangeType::NoChange);
    assert_eq!(
        rules.lane_change_type(&line(&[("type", "virtual"), ("lane_change:right", "yes")]), true),
        LaneChangeType::ToRight
    );
}

#[test]
fn a_lane_change_crosses_the_shared_boundary() {
    let rules = vehicle();
    let mut from = lanelet(&[("subtype", "road")]);
    from.right = line(&[("type", "line_thin"), ("subtype", "dashed_solid")]);
    from.left = line(&[("type", "line_thin"), ("subtype", "dashed_solid")]);
    let to = lanelet(&[("subtype", "road")]);
    assert!(rules.can_change_lane(&from, &to, Side::LeftOf));
    assert!(!rules.can_change_lane(&from, &to, Side::RightOf));
    assert!(!rules.can_change_lane(&from, &to, Side::Apart));
    assert!(rules.can_pass_between(&from, &to, true));
    assert!(!rules.can_pass_between(&from, &to, false));
}

#[test]
fn one_way_tags_open_the_other_direction() {
    let rules = vehicle();
    assert!(rules.can_pass(&inverted(lanelet(&[("subtype", "road"), ("one_way", "no")]))));
    assert!(!rules.is_one_way(&lanelet(&[("subtype", "road"), ("one_way", "no")])));
    assert!(rules.can_pass(&inverted(lanelet(&[("subtype", "road"), ("one_way:vehicle", "no")]))));
    assert!(!rules.can_pass(&inverted(lanelet(&[("subtype", "road"), ("one_way:bicycle", "no")]))));
}

#[test]
fn dynamic_rules_come_from_the_regulatory_elements() {
    let rules = vehicle();
    assert!(rules.has_dynamic_rules(&[tags(&[]), tags(&[("dynamic", "yes")])]));
    assert!(!rules.has_dynamic_rules(&[tags(&[("dynamic", "no")])]));
    assert!(!rules.has_dynamic_rules(&[]));
}

#[test]
fn the_area_guard_can_be_the_upstream_one() {
    let rules = vehicle();
    assert!(!rules.can_pass_area(false, false, false));
    assert!(rules.can_pass_area(false, false, true));
    assert!(rules.can_pass_area(true, true, false));
    assert!(!rules.can_pass_area(false, true, true));
}

#[test]
fn text_forms_match_upstream() {
    assert_eq!(vehicle().describe(), "location: de, participant: vehicle");
    assert_eq!(SpeedLimit { kmh: 50, is_mandatory: true }.describe(), "speedLimit: 50km/h, mandatory: yes");
    assert_eq!(SpeedLimit { kmh: 130, is_mandatory: false }.describe(), "speedLimit: 130km/h, mandatory: no");
}

#[test]
fn subtype_entries_match_by_participant_prefix() {
    assert!(subtype_allows("road", "vehicle"));
    assert!(subtype_allows("road", "vehicle:car"));
    assert!(subtype_allows("road", "bicycle"));
    assert!(!subtype_allows("road", "pedestrian"));
    assert!(subtype_allows("emergency_lane", "vehicle:emergency"));
    assert!(!subtype_allows("emergency_lane", "vehicle"));
    assert!(!subtype_allows("emergency_lane", "vehicle:car"));
    assert!(!subtype_allows("parking", "vehicle"));
    assert!(!subtype_allows("freespace", "pedestrian"));
    assert!(!subtype_allows("bus_lane", "vehicle"));
    assert!(!subtype_allows("bus_lane", "vehicle:car"));
    assert!(subtype_allows("bus_lane", "vehicle:bus"));
    assert!(subtype_allows("bus_lane", "vehicle:taxi"));
    assert!(subtype_allows("bus_lane", "vehicle:emergency"));
    assert!(vehicle_speed_limit(&speed_limits(), "urban", "bus_lane").is_some());
}

#[test]
fn a_bicycle_falls_back_to_the_pedestrian_rules() {
    assert_eq!(change_type("curbstone", "low", "bicycle"), LaneChangeType::Both);
    assert_eq!(change_type("curbstone", "low", "vehicle"), LaneChangeType::NoChange);
    assert_eq!(
        change_type("line_thin", "dashed", "bicycle"),
        LaneChangeType::Both,
        "the vehicle rules are tried first"
    );
    assert_eq!(change_type("line_thin", "dashed", "train"), LaneChangeType::NoChange);
}

#[test]
fn only_registered_combinations_exist() {
    assert!(TrafficRules::create("de", "vehicle").is_ok());
    assert!(TrafficRules::create("de", "vehicle:bus").is_ok());
    assert!(TrafficRules::create("de", "train").is_err());
    assert!(TrafficRules::create("us", "vehicle").is_err());
}

#[test]
fn a_refusal_names_the_combination() {
    match TrafficRules::create("us", "vehicle") {
        Err(error) => assert_eq!(
            error.0,
            "No matching traffic rules found for location us, participant vehicle"
        ),
        Ok(_) => panic!("rules for the US exist"),
    }
}

#[test]
fn rules_keep_the_requested_names() {
    let car = TrafficRules::create("de", "vehicle:car").unwrap();
    assert_eq!(car.participant(), "vehicle:car");
    assert_eq!(car.location(), "de");
    assert!(car.is_vehicle());
    assert!(!TrafficRules::create("de", "pedestrian").unwrap().is_vehicle());
    assert_eq!(
        TrafficRules::create("de", "vehicle").unwrap().describe(),
        "location: de, participant: vehicle"
    );
}

#[test]
fn an_absent_subtype_admits_vehicles_only() {
    assert!(subtype_allows("", "vehicle:truck"));
    assert!(!subtype_allows("", "bicycle"));
}

#[test]
fn lane_change_permissions_mirror() {
    assert!(LaneChangeType::Both.allows_left() && LaneChangeType::Both.allows_right());
    assert!(LaneChangeType::ToLeft.allows_left() && !LaneChangeType::ToLeft.allows_right());
    assert_eq!(LaneChangeType::ToLeft.mirrored(), LaneChangeType::ToRight);
    assert_eq!(LaneChangeType::NoChange.mirrored(), LaneChangeType::NoChange);
    assert_eq!(change_type("line_thick", "solid_dashed", "vehicle:bus"), LaneChangeType::ToLeft);
}

#[test]
fn the_override_tag_is_prefixed() {
    assert_eq!(tag("vehicle:car"), "participant:vehicle:car");
}

fn sign_kmh(sign: &str) -> Option<f64> {
    match sign_speed(sign) {
        SignSpeed::Named(kmh) => Some(kmh as f64),
        SignSpeed::Coded(rest) => rest.parse().ok(),
        SignSpeed::Unknown => None,
    }
}

#[test]
fn sign_codes_carry_their_limit() {
    assert_eq!(sign_kmh("de274-30"), Some(30.0));
    assert_eq!(sign_kmh("de274-120"), Some(120.0));
    assert_eq!(sign_kmh("de274"), Some(30.0));
    assert_eq!(sign_kmh("de310"), Some(50.0));
    assert_eq!(sign_kmh("nonsense"), None);
    assert_eq!(sign_speed("de274_1-20"), SignSpeed::Named(20));
    assert_eq!(sign_speed("de274-"), SignSpeed::Coded(""));
}
