use simple_lanelet2::source::CoordinateSource;
use simple_lanelet2::scene::{describe, describe_lanelet, VizOptions};
use simple_lanelet2::style::{
    area_style, centerline_style, direction_style, lanelet_style, linestring_layer, linestring_style, point_style,
    polygon_key, polygon_style, Color, StyleTable, Theme, VizLayer,
};
use simple_lanelet2::summary::{entity_path, MapStats};
use simple_lanelet2::wire::{
    label_at, layers_json, push_escaped, push_hundredths, push_tenths, stats_json, styles_json, vertex_offsets,
};

#[test]
fn colours_render_as_six_digit_hex() {
    assert_eq!(Color(0x00, 0x0a, 0xff).to_hex(), "#000aff");
}

#[test]
fn a_polygons_name_comes_from_whichever_tag_carries_it() {
    assert_eq!(polygon_key("crosswalk_polygon", ""), "crosswalk_polygon");
    assert_eq!(polygon_key("polygon", "parking_lot"), "parking_lot");
    assert_eq!(polygon_key("", "parking_lot"), "parking_lot");
}

#[test]
fn a_linestrings_layer_follows_its_type() {
    assert_eq!(linestring_layer("stop_line"), VizLayer::Regulatory);
    assert_eq!(linestring_layer("curbstone"), VizLayer::Bound);
    assert_eq!(linestring_layer("something_new"), VizLayer::Bound);
}

#[test]
fn layers_land_at_the_layer_key_under_the_root() {
    assert_eq!(entity_path("map", VizLayer::Bound), "map/bound");
    assert_eq!(entity_path("world/map", VizLayer::LaneletFill), "world/map/lanelet_fill");
}

#[test]
fn layer_indices_follow_declaration_order() {
    let all = VizLayer::all();
    assert_eq!(all.len(), 8);
    for (position, layer) in all.iter().enumerate() {
        assert_eq!(layer.index() as usize, position);
    }
    assert_eq!(VizLayer::Direction.key(), "direction");
    assert_eq!(VizLayer::Regulatory.label(), "Regulatory elements");
}

#[test]
fn themes_round_trip_through_their_keys() {
    assert_eq!(Theme::from_key("dark"), Some(Theme::Dark));
    assert_eq!(Theme::from_key("light"), Some(Theme::Light));
    assert_eq!(Theme::from_key("sepia"), None);
    assert_eq!(Theme::Light.key(), "light");
    assert_eq!(Theme::default_theme(), Theme::Dark);
    assert_eq!(Theme::Dark.palette().stop_line, Color(0xff, 0x4d, 0x4d));
    assert_eq!(Theme::Light.palette().background.to_hex(), "#f7f8fa");
}

#[test]
fn coordinate_sources_round_trip_through_their_keys() {
    assert_eq!(CoordinateSource::from_key("local"), Some(CoordinateSource::LocalXy));
    assert_eq!(CoordinateSource::from_key("local_xy"), Some(CoordinateSource::LocalXy));
    assert_eq!(CoordinateSource::from_key("auto"), Some(CoordinateSource::Auto));
    assert_eq!(CoordinateSource::from_key("utm"), None);
    assert_eq!(CoordinateSource::LocalXy.key(), "local_xy");
    assert_eq!(CoordinateSource::Projected.key(), "projected");
}

#[test]
fn interning_is_by_name_and_stable() {
    let palette = Theme::Dark.palette();
    let mut table = StyleTable::new();
    let first = table.intern(lanelet_style("road", &palette));
    let again = table.intern(lanelet_style("road", &palette));
    let other = table.intern(lanelet_style("crosswalk", &palette));
    assert_eq!(first, again);
    assert_ne!(first, other);
    assert_eq!(table.len(), 2);
}

#[test]
fn a_dashed_marking_gets_a_dash_pattern_and_a_solid_one_does_not() {
    let palette = Theme::Dark.palette();
    assert!(linestring_style("line_thin", "dashed", &palette).dash.is_some());
    assert!(linestring_style("line_thin", "solid", &palette).dash.is_none());
    assert!(linestring_style("curbstone", "dashed", &palette).dash.is_none());
}

#[test]
fn regulatory_linestrings_sort_above_boundaries() {
    let palette = Theme::Dark.palette();
    let stop = linestring_style("stop_line", "", &palette);
    let curb = linestring_style("curbstone", "low", &palette);
    assert!(stop.z > curb.z);
}

#[test]
fn an_unknown_type_still_gets_a_stroke() {
    let palette = Theme::Dark.palette();
    let style = linestring_style("something_new", "", &palette);
    assert!(style.stroke.is_some());
    assert_eq!(style.name, "line:something_new:none");
}

#[test]
fn the_z_bands_run_in_vizlayer_declaration_order() {
    let palette = Theme::Dark.palette();
    let z_of = |layer: VizLayer| match layer {
        VizLayer::LaneletFill => lanelet_style("road", &palette).z,
        VizLayer::Area => area_style("parking_lot", &palette).z,
        VizLayer::Polygon => polygon_style("crosswalk_polygon", &palette).z,
        VizLayer::Bound => linestring_style("curbstone", "", &palette).z,
        VizLayer::Regulatory => linestring_style("stop_line", "", &palette).z,
        VizLayer::Centerline => centerline_style(&palette).z,
        VizLayer::Direction => direction_style(&palette).z,
        VizLayer::Point => point_style(&palette).z,
    };
    let all = VizLayer::all();
    for pair in all.windows(2) {
        assert!(z_of(pair[0]) < z_of(pair[1]), "{:?} does not sort below {:?}", pair[0], pair[1]);
    }
}

#[test]
fn the_style_table_is_written_as_json() {
    let palette = Theme::Dark.palette();
    let mut table = StyleTable::new();
    table.intern(linestring_style("line_thin", "dashed", &palette));
    let json = styles_json(&table);
    assert!(json.starts_with("[{\"name\":"), "{json}");
    assert!(json.contains("\"dash\":[4,4]"), "{json}");
    assert!(json.ends_with("}]"), "{json}");
    assert_eq!(styles_json(&StyleTable::new()), "[]");
}

#[test]
fn layers_are_written_in_painters_order() {
    let json = layers_json();
    assert!(json.starts_with("[{\"key\":\"lanelet_fill\",\"label\":"), "{json}");
    assert_eq!(json.matches("{\"key\":").count(), 8);
}

#[test]
fn labels_with_json_metacharacters_survive_the_table() {
    let mut out = String::new();
    push_escaped(&mut out, "a\"b\\c\nd\te");
    assert_eq!(out, "a\\\"b\\\\c\\nd\\te");
    let mut control = String::new();
    push_escaped(&mut control, "\u{1}");
    assert_eq!(control, "\\u0001");
    let mut plain = String::new();
    push_escaped(&mut plain, "lanelet 3 · road\r");
    assert_eq!(plain, "lanelet 3 · road\\r");
}

#[test]
fn fractions_are_written_short() {
    let mut out = String::new();
    push_hundredths(&mut out, 85);
    out.push(' ');
    push_hundredths(&mut out, 50);
    out.push(' ');
    push_hundredths(&mut out, 100);
    out.push(' ');
    push_tenths(&mut out, 15);
    out.push(' ');
    push_tenths(&mut out, 20);
    assert_eq!(out, "0.85 0.5 1 1.5 2");
}

#[test]
fn counts_are_written_as_json() {
    let stats = MapStats { points: 4, line_strings: 2, polygons: 0, lanelets: 1, areas: 0, regulatory_elements: 3 };
    assert_eq!(
        stats_json(&stats),
        "{\"points\":4,\"lineStrings\":2,\"polygons\":0,\"lanelets\":1,\"areas\":0,\"regulatoryElements\":3}"
    );
}

#[test]
fn labels_carry_the_tags_a_tooltip_wants() {
    assert_eq!(describe(3, "lanelet", "", "road"), "lanelet 3 · road");
    assert_eq!(describe(7, "linestring", "line_thin", "dashed"), "linestring 7 · line_thin/dashed");
    assert_eq!(describe(-2, "point", "", ""), "point -2");
    assert_eq!(describe_lanelet(3, "road", "50", 2), "lanelet 3 · road · 50 · 2 reg. elem.");
    assert_eq!(describe_lanelet(4, "", "", 0), "lanelet 4");
}

#[test]
fn layers_are_drawn_as_the_options_say() {
    let options = VizOptions::default();
    assert!(options.wants_layer(VizLayer::LaneletFill));
    assert!(!options.wants_layer(VizLayer::Centerline));
    assert!(!options.wants_layer(VizLayer::Point));
    let off = VizOptions { bounds: false, ..VizOptions::default() };
    assert!(!off.wants_layer(VizLayer::Bound));
    assert!(off.wants_layer(VizLayer::Regulatory));
}

#[test]
fn offsets_partition_the_vertex_buffer() {
    assert_eq!(vertex_offsets(&vec![2, 3, 0, 4]), vec![0, 2, 5, 5, 9]);
    assert_eq!(vertex_offsets(&vec![]), vec![0]);
}

#[test]
fn labels_out_of_range_are_empty() {
    let labels = vec!["lanelet 3 · road".to_string(), "point 7".to_string()];
    assert_eq!(label_at(&labels, 1), "point 7");
    assert_eq!(label_at(&labels, 0), "lanelet 3 · road");
    assert_eq!(label_at(&labels, 2), "");
    assert_eq!(label_at(&labels, usize::MAX), "");
}
