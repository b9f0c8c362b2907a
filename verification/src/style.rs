//! What a primitive should look like, decided from its tags.

use vstd::prelude::*;
use crate::text::str_eq;

verus! {

/// An sRGB colour.
#[derive(Clone, Copy, PartialEq, Eq, Debug, Structural)]
pub struct Color(pub u8, pub u8, pub u8);

/// The lowercase hexadecimal digit for a value below sixteen.
pub open spec fn hex_digit(d: u8) -> char {
    if d < 10 { (48 + d) as char } else { (87 + d) as char }
}

/// A byte as two lowercase hexadecimal digits.
pub open spec fn hex_byte(b: u8) -> Seq<char> {
    seq![hex_digit(b / 16), hex_digit(b % 16)]
}

pub(crate) fn push_hex_digit(out: &mut String, d: u8)
    requires
        d < 16,
    ensures
        final(out)@ == old(out)@.push(hex_digit(d)),
{
    let c = if d < 10 { (48 + d) as char } else { (87 + d) as char };
    out.push(c);
}

impl Color {
    /// `#rrggbb`, lowercase.
    pub open spec fn spec_hex(self) -> Seq<char> {
        seq!['#'] + hex_byte(self.0) + hex_byte(self.1) + hex_byte(self.2)
    }

    pub fn to_hex(self) -> (r: String)
        ensures
            r@ == self.spec_hex(),
    {
        let mut out = String::new();
        out.push('#');
        push_hex_digit(&mut out, self.0 / 16);
        push_hex_digit(&mut out, self.0 % 16);
        push_hex_digit(&mut out, self.1 / 16);
        push_hex_digit(&mut out, self.1 % 16);
        push_hex_digit(&mut out, self.2 / 16);
        push_hex_digit(&mut out, self.2 % 16);
        assert(out@ =~= self.spec_hex());
        out
    }
}


/// Which toggleable group a shape belongs to, in painter's order: the number a
/// renderer indexes by is the declaration order.
#[derive(Clone, Copy, PartialEq, Eq, Debug, Structural)]
pub enum VizLayer {
    LaneletFill,
    Area,
    Polygon,
    Bound,
    Regulatory,
    Centerline,
    Direction,
    Point,
}

impl VizLayer {
    pub open spec fn spec_index(self) -> u32 {
        match self {
            VizLayer::LaneletFill => 0,
            VizLayer::Area => 1,
            VizLayer::Polygon => 2,
            VizLayer::Bound => 3,
            VizLayer::Regulatory => 4,
            VizLayer::Centerline => 5,
            VizLayer::Direction => 6,
            VizLayer::Point => 7,
        }
    }

    pub open spec fn spec_key(self) -> Seq<char> {
        match self {
            VizLayer::LaneletFill => "lanelet_fill"@,
            VizLayer::Area => "area"@,
            VizLayer::Polygon => "polygon"@,
            VizLayer::Bound => "bound"@,
            VizLayer::Regulatory => "regulatory"@,
            VizLayer::Centerline => "centerline"@,
            VizLayer::Direction => "direction"@,
            VizLayer::Point => "point"@,
        }
    }

    pub open spec fn spec_label(self) -> Seq<char> {
        match self {
            VizLayer::LaneletFill => "Lanelets"@,
            VizLayer::Area => "Areas"@,
            VizLayer::Polygon => "Polygons"@,
            VizLayer::Bound => "Boundaries"@,
            VizLayer::Regulatory => "Regulatory elements"@,
            VizLayer::Centerline => "Centerlines"@,
            VizLayer::Direction => "Driving direction"@,
            VizLayer::Point => "Points"@,
        }
    }

    /// Every layer, in declaration order.
    pub fn all() -> (r: Vec<VizLayer>)
        ensures
            r@.len() == 8,
            forall|i: int| 0 <= i < 8 ==> (#[trigger] r@[i]).spec_index() == i,
    {
        vec![VizLayer::LaneletFill, VizLayer::Area, VizLayer::Polygon, VizLayer::Bound, VizLayer::Regulatory, VizLayer::Centerline, VizLayer::Direction, VizLayer::Point]
    }

    /// The layer's position in painter's order.
    pub fn index(self) -> (r: u32)
        ensures
            r == self.spec_index(),
    {
        match self {
            VizLayer::LaneletFill => 0,
            VizLayer::Area => 1,
            VizLayer::Polygon => 2,
            VizLayer::Bound => 3,
            VizLayer::Regulatory => 4,
            VizLayer::Centerline => 5,
            VizLayer::Direction => 6,
            VizLayer::Point => 7,
        }
    }

    /// The identifier a caller toggles by, also used as a group id.
    pub fn key(self) -> (r: &'static str)
        ensures
            r@ == self.spec_key(),
    {
        match self {
            VizLayer::LaneletFill => "lanelet_fill",
            VizLayer::Area => "area",
            VizLayer::Polygon => "polygon",
            VizLayer::Bound => "bound",
            VizLayer::Regulatory => "regulatory",
            VizLayer::Centerline => "centerline",
            VizLayer::Direction => "direction",
            VizLayer::Point => "point",
        }
    }

    /// The name a legend shows.
    pub fn label(self) -> (r: &'static str)
        ensures
            r@ == self.spec_label(),
    {
        match self {
            VizLayer::LaneletFill => "Lanelets",
            VizLayer::Area => "Areas",
            VizLayer::Polygon => "Polygons",
            VizLayer::Bound => "Boundaries",
            VizLayer::Regulatory => "Regulatory elements",
            VizLayer::Centerline => "Centerlines",
            VizLayer::Direction => "Driving direction",
            VizLayer::Point => "Points",
        }
    }
}


/// Every colour a theme decides, named by role.
#[derive(Clone, Copy, Debug, PartialEq, Eq, Structural)]
pub struct Palette {
    pub background: Color,
    pub road: Color,
    pub shoulder: Color,
    pub crosswalk: Color,
    pub walkway: Color,
    pub bicycle: Color,
    pub bus_lane: Color,
    pub lanelet_other: Color,
    pub marking: Color,
    pub curbstone: Color,
    pub road_border: Color,
    pub barrier: Color,
    pub stop_line: Color,
    pub traffic_light: Color,
    pub traffic_sign: Color,
    pub virtual_line: Color,
    pub centerline: Color,
    pub direction: Color,
    pub parking: Color,
    pub keepout: Color,
    pub area_other: Color,
    pub point: Color,
    pub text: Color,
    pub highlight: Color,
}

/// Which of the two built-in palettes to use.
#[derive(Clone, Copy, PartialEq, Eq, Debug, Structural)]
pub enum Theme {
    Dark,
    Light,
}

impl Theme {
    /// The theme a key names: `dark` or `light`.
    pub open spec fn spec_from_key(key: Seq<char>) -> Option<Theme> {
        if key == "dark"@ {
            Some(Theme::Dark)
        } else if key == "light"@ {
            Some(Theme::Light)
        } else {
            None
        }
    }

    pub open spec fn spec_key(self) -> Seq<char> {
        match self {
            Theme::Dark => "dark"@,
            Theme::Light => "light"@,
        }
    }

    pub open spec fn spec_palette(self) -> Palette {
        match self {
            Theme::Dark => Palette {
                background: Color(0x11, 0x14, 0x1a),
                road: Color(0x3a, 0x43, 0x55),
                shoulder: Color(0x2e, 0x35, 0x44),
                crosswalk: Color(0x2f, 0x86, 0x8f),
                walkway: Color(0x3d, 0x74, 0x4a),
                bicycle: Color(0x7a, 0x5c, 0x2e),
                bus_lane: Color(0x63, 0x3f, 0x6e),
                lanelet_other: Color(0x44, 0x44, 0x4c),
                marking: Color(0xe8, 0xec, 0xf2),
                curbstone: Color(0x9a, 0xa4, 0xb4),
                road_border: Color(0xc2, 0xc9, 0xd4),
                barrier: Color(0x8a, 0x93, 0xa3),
                stop_line: Color(0xff, 0x4d, 0x4d),
                traffic_light: Color(0xff, 0xc4, 0x3d),
                traffic_sign: Color(0xff, 0x8c, 0x42),
                virtual_line: Color(0x6a, 0x74, 0x88),
                centerline: Color(0x4d, 0xd0, 0xe1),
                direction: Color(0x7f, 0xe3, 0xf0),
                parking: Color(0x35, 0x53, 0x7a),
                keepout: Color(0x7a, 0x35, 0x40),
                area_other: Color(0x3b, 0x42, 0x4e),
                point: Color(0x8e, 0x99, 0xab),
                text: Color(0xe6, 0xea, 0xf0),
                highlight: Color(0xff, 0xd7, 0x4a),
            },
            Theme::Light => Palette {
                background: Color(0xf7, 0xf8, 0xfa),
                road: Color(0xd6, 0xdb, 0xe3),
                shoulder: Color(0xe3, 0xe7, 0xed),
                crosswalk: Color(0x8f, 0xd4, 0xdb),
                walkway: Color(0xa8, 0xd8, 0xb4),
                bicycle: Color(0xe6, 0xcf, 0x9c),
                bus_lane: Color(0xd8, 0xbc, 0xe2),
                lanelet_other: Color(0xdd, 0xdd, 0xe2),
                marking: Color(0x33, 0x38, 0x42),
                curbstone: Color(0x6b, 0x74, 0x84),
                road_border: Color(0x2f, 0x35, 0x40),
                barrier: Color(0x5a, 0x63, 0x73),
                stop_line: Color(0xd4, 0x2f, 0x2f),
                traffic_light: Color(0xc9, 0x8a, 0x00),
                traffic_sign: Color(0xd4, 0x66, 0x14),
                virtual_line: Color(0x9a, 0xa2, 0xb0),
                centerline: Color(0x0b, 0x84, 0x99),
                direction: Color(0x0b, 0x6d, 0x80),
                parking: Color(0xbe, 0xcf, 0xe8),
                keepout: Color(0xe8, 0xbe, 0xc4),
                area_other: Color(0xe2, 0xe6, 0xec),
                point: Color(0x7a, 0x83, 0x93),
                text: Color(0x1b, 0x1f, 0x27),
                highlight: Color(0xd9, 0x8b, 0x00),
            },
        }
    }

    /// The default theme.
    pub fn default_theme() -> (r: Theme)
        ensures
            r == Theme::Dark,
    {
        Theme::Dark
    }

    pub fn from_key(key: &str) -> (r: Option<Theme>)
        ensures
            r == Theme::spec_from_key(key@),
    {
        if str_eq(key, "dark") {
            Some(Theme::Dark)
        } else if str_eq(key, "light") {
            Some(Theme::Light)
        } else {
            None
        }
    }

    pub fn key(self) -> (r: &'static str)
        ensures
            r@ == self.spec_key(),
    {
        match self {
            Theme::Dark => "dark",
            Theme::Light => "light",
        }
    }

    pub fn palette(self) -> (r: Palette)
        ensures
            r == self.spec_palette(),
    {
        match self {
            Theme::Dark => Palette {
                background: Color(0x11, 0x14, 0x1a),
                road: Color(0x3a, 0x43, 0x55),
                shoulder: Color(0x2e, 0x35, 0x44),
                crosswalk: Color(0x2f, 0x86, 0x8f),
                walkway: Color(0x3d, 0x74, 0x4a),
                bicycle: Color(0x7a, 0x5c, 0x2e),
                bus_lane: Color(0x63, 0x3f, 0x6e),
                lanelet_other: Color(0x44, 0x44, 0x4c),
                marking: Color(0xe8, 0xec, 0xf2),
                curbstone: Color(0x9a, 0xa4, 0xb4),
                road_border: Color(0xc2, 0xc9, 0xd4),
                barrier: Color(0x8a, 0x93, 0xa3),
                stop_line: Color(0xff, 0x4d, 0x4d),
                traffic_light: Color(0xff, 0xc4, 0x3d),
                traffic_sign: Color(0xff, 0x8c, 0x42),
                virtual_line: Color(0x6a, 0x74, 0x88),
                centerline: Color(0x4d, 0xd0, 0xe1),
                direction: Color(0x7f, 0xe3, 0xf0),
                parking: Color(0x35, 0x53, 0x7a),
                keepout: Color(0x7a, 0x35, 0x40),
                area_other: Color(0x3b, 0x42, 0x4e),
                point: Color(0x8e, 0x99, 0xab),
                text: Color(0xe6, 0xea, 0xf0),
                highlight: Color(0xff, 0xd7, 0x4a),
            },
            Theme::Light => Palette {
                background: Color(0xf7, 0xf8, 0xfa),
                road: Color(0xd6, 0xdb, 0xe3),
                shoulder: Color(0xe3, 0xe7, 0xed),
                crosswalk: Color(0x8f, 0xd4, 0xdb),
                walkway: Color(0xa8, 0xd8, 0xb4),
                bicycle: Color(0xe6, 0xcf, 0x9c),
                bus_lane: Color(0xd8, 0xbc, 0xe2),
                lanelet_other: Color(0xdd, 0xdd, 0xe2),
                marking: Color(0x33, 0x38, 0x42),
                curbstone: Color(0x6b, 0x74, 0x84),
                road_border: Color(0x2f, 0x35, 0x40),
                barrier: Color(0x5a, 0x63, 0x73),
                stop_line: Color(0xd4, 0x2f, 0x2f),
                traffic_light: Color(0xc9, 0x8a, 0x00),
                traffic_sign: Color(0xd4, 0x66, 0x14),
                virtual_line: Color(0x9a, 0xa2, 0xb0),
                centerline: Color(0x0b, 0x84, 0x99),
                direction: Color(0x0b, 0x6d, 0x80),
                parking: Color(0xbe, 0xcf, 0xe8),
                keepout: Color(0xe8, 0xbe, 0xc4),
                area_other: Color(0xe2, 0xe6, 0xec),
                point: Color(0x7a, 0x83, 0x93),
                text: Color(0x1b, 0x1f, 0x27),
                highlight: Color(0xd9, 0x8b, 0x00),
            },
        }
    }
}


/// Which of a standalone `area=yes` way's tags names it: `type`, unless it is
/// empty or the generic `polygon`, in which case `subtype`.
pub open spec fn spec_polygon_key(kind: Seq<char>, subtype: Seq<char>) -> Seq<char> {
    if kind == ""@ || kind == "polygon"@ { subtype } else { kind }
}

pub fn polygon_key<'a>(kind: &'a str, subtype: &'a str) -> (r: &'a str)
    ensures
        r@ == spec_polygon_key(kind@, subtype@),
{
    if str_eq(kind, "") || str_eq(kind, "polygon") {
        subtype
    } else {
        kind
    }
}

/// Stop lines and the physical extent of lights and signs.
pub open spec fn spec_is_regulatory(kind: Seq<char>) -> bool {
    kind == "stop_line"@ || kind == "traffic_light"@ || kind == "traffic_sign"@ || kind == "light_bulbs"@
        || kind == "arrow"@
}

/// Whether a linestring belongs to the regulatory layer rather than the
/// boundary layer.
pub fn is_regulatory_linestring(kind: &str) -> (r: bool)
    ensures
        r == spec_is_regulatory(kind@),
{
    str_eq(kind, "stop_line") || str_eq(kind, "traffic_light") || str_eq(kind, "traffic_sign") || str_eq(
        kind,
        "light_bulbs",
    ) || str_eq(kind, "arrow")
}

/// Which layer a linestring is drawn in, from its `type`.
pub fn linestring_layer(kind: &str) -> (r: VizLayer)
    ensures
        r == (if spec_is_regulatory(kind@) { VizLayer::Regulatory } else { VizLayer::Bound }),
{
    if is_regulatory_linestring(kind) {
        VizLayer::Regulatory
    } else {
        VizLayer::Bound
    }
}

/// The legend label of a painted marking, refined by its subtype.
pub open spec fn spec_marking_label(base: Seq<char>, subtype: Seq<char>) -> Seq<char> {
    if subtype == "dashed"@ {
        "Lane marking (dashed)"@
    } else if subtype == "dashed_solid"@ || subtype == "solid_dashed"@ {
        "Lane marking (mixed)"@
    } else {
        base
    }
}

pub fn marking_label(base: &'static str, subtype: &str) -> (r: &'static str)
    ensures
        r@ == spec_marking_label(base@, subtype@),
{
    if str_eq(subtype, "dashed") {
        "Lane marking (dashed)"
    } else if str_eq(subtype, "dashed_solid") || str_eq(subtype, "solid_dashed") {
        "Lane marking (mixed)"
    } else {
        base
    }
}



/// How one shape is painted.
///
/// Widths are in tenths of a screen pixel, dash lengths in whole screen
/// pixels, opacities in percent. `hide_below` and `solid_below` are on-screen
/// pixels per lane width (3.5 m): below the first the style is not drawn at
/// all, below the second its dashes give way to a plain stroke; zero means
/// never.
#[derive(Clone, Debug)]
pub struct Style {
    /// Stable identifier, unique within a table.
    pub name: String,
    /// Shown in the legend.
    pub label: &'static str,
    pub stroke: Option<Color>,
    pub stroke_opacity: u32,
    pub stroke_width: u32,
    pub dash: Option<(u32, u32)>,
    pub fill: Option<Color>,
    pub fill_opacity: u32,
    /// Painter's order; lower is drawn first.
    pub z: i32,
    /// Whether the legend lists it.
    pub in_legend: bool,
    pub hide_below: u32,
    pub solid_below: u32,
}

/// A style as plain values.
pub ghost struct StyleView {
    pub name: Seq<char>,
    pub label: Seq<char>,
    pub stroke: Option<Color>,
    pub stroke_opacity: u32,
    pub stroke_width: u32,
    pub dash: Option<(u32, u32)>,
    pub fill: Option<Color>,
    pub fill_opacity: u32,
    pub z: i32,
    pub in_legend: bool,
    pub hide_below: u32,
    pub solid_below: u32,
}

impl View for Style {
    type V = StyleView;

    open spec fn view(&self) -> StyleView {
        StyleView {
            name: self.name@,
            label: self.label@,
            stroke: self.stroke,
            stroke_opacity: self.stroke_opacity,
            stroke_width: self.stroke_width,
            dash: self.dash,
            fill: self.fill,
            fill_opacity: self.fill_opacity,
            z: self.z,
            in_legend: self.in_legend,
            hide_below: self.hide_below,
            solid_below: self.solid_below,
        }
    }
}

pub const Z_LANELET: i32 = 10;
pub const Z_AREA: i32 = 20;
pub const Z_POLYGON: i32 = 30;
pub const Z_BOUND: i32 = 40;
pub const Z_REGULATORY: i32 = 60;
pub const Z_CENTERLINE: i32 = 70;
pub const Z_DIRECTION: i32 = 80;
pub const Z_POINT: i32 = 90;

/// A plain style: no stroke or fill yet, one pixel wide, fully opaque.
pub open spec fn plain(name: Seq<char>, label: Seq<char>, z: i32) -> StyleView {
    StyleView {
        name,
        label,
        stroke: None,
        stroke_opacity: 100,
        stroke_width: 10,
        dash: None,
        fill: None,
        fill_opacity: 100,
        z,
        in_legend: true,
        hide_below: 0,
        solid_below: 0,
    }
}

pub open spec fn stroked(v: StyleView, color: Color, width: u32) -> StyleView {
    StyleView { stroke: Some(color), stroke_width: width, ..v }
}

pub open spec fn stroke_faded(v: StyleView, opacity: u32) -> StyleView {
    StyleView { stroke_opacity: opacity, ..v }
}

pub open spec fn dashed(v: StyleView, on: u32, off: u32) -> StyleView {
    StyleView { dash: Some((on, off)), solid_below: 5, ..v }
}

pub open spec fn filled(v: StyleView, color: Color, opacity: u32) -> StyleView {
    StyleView { fill: Some(color), fill_opacity: opacity, ..v }
}

/// `none` stands for an empty tag.
pub open spec fn or_none(tag: Seq<char>) -> Seq<char> {
    if tag.len() == 0 { "none"@ } else { tag }
}

impl Style {
    fn new(name: String, label: &'static str, z: i32) -> (r: Style)
        ensures
            r@ == plain(name@, label@, z),
    {
        Style {
            name,
            label,
            stroke: None,
            stroke_opacity: 100,
            stroke_width: 10,
            dash: None,
            fill: None,
            fill_opacity: 100,
            z,
            in_legend: true,
            hide_below: 0,
            solid_below: 0,
        }
    }

    fn stroke(self, color: Color, width: u32) -> (r: Style)
        ensures
            r@ == stroked(self@, color, width),
    {
        Style { stroke: Some(color), stroke_width: width, ..self }
    }

    fn stroke_opacity(self, opacity: u32) -> (r: Style)
        ensures
            r@ == stroke_faded(self@, opacity),
    {
        Style { stroke_opacity: opacity, ..self }
    }

    fn stroke_width(self, width: u32) -> (r: Style)
        ensures
            r@ == (StyleView { stroke_width: width, ..self@ }),
    {
        Style { stroke_width: width, ..self }
    }

    fn dashed(self, on: u32, off: u32) -> (r: Style)
        ensures
            r@ == dashed(self@, on, off),
    {
        Style { dash: Some((on, off)), solid_below: 5, ..self }
    }

    fn fill(self, color: Color, opacity: u32) -> (r: Style)
        ensures
            r@ == filled(self@, color, opacity),
    {
        Style { fill: Some(color), fill_opacity: opacity, ..self }
    }

    fn hidden_from_legend(self) -> (r: Style)
        ensures
            r@ == (StyleView { in_legend: false, ..self@ }),
    {
        Style { in_legend: false, ..self }
    }

    fn hidden_below(self, pixels: u32) -> (r: Style)
        ensures
            r@ == (StyleView { hide_below: pixels, ..self@ }),
    {
        Style { hide_below: pixels, ..self }
    }
}

/// `prefix` followed by the tag, or `none` for an empty tag.
fn tagged_name(prefix: &str, tag: &str) -> (r: String)
    ensures
        r@ == prefix@ + or_none(tag@),
{
    let name = String::from_str(prefix);
    if tag.unicode_len() == 0 {
        name.concat("none")
    } else {
        name.concat(tag)
    }
}

/// The fill for a lanelet, chosen by its `subtype`.
pub open spec fn spec_lanelet_style(subtype: Seq<char>, palette: Palette) -> StyleView {
    let (color, opacity, label) = if subtype == "road"@ || subtype == "highway"@ {
        (palette.road, 85u32, "Road"@)
    } else if subtype == "road_shoulder"@ || subtype == "shoulder"@ {
        (palette.shoulder, 85u32, "Road shoulder"@)
    } else if subtype == "crosswalk"@ {
        (palette.crosswalk, 55u32, "Crosswalk"@)
    } else if subtype == "walkway"@ || subtype == "pedestrian_lane"@ {
        (palette.walkway, 55u32, "Walkway"@)
    } else if subtype == "bicycle_lane"@ {
        (palette.bicycle, 60u32, "Bicycle lane"@)
    } else if subtype == "bus_lane"@ {
        (palette.bus_lane, 70u32, "Bus lane"@)
    } else {
        (palette.lanelet_other, 70u32, "Other lanelet"@)
    };
    filled(plain("lanelet:"@ + or_none(subtype), label, Z_LANELET), color, opacity)
}

pub fn lanelet_style(subtype: &str, palette: &Palette) -> (r: Style)
    ensures
        r@ == spec_lanelet_style(subtype@, *palette),
{
    let (color, opacity, label) = if str_eq(subtype, "road") || str_eq(subtype, "highway") {
        (palette.road, 85u32, "Road")
    } else if str_eq(subtype, "road_shoulder") || str_eq(subtype, "shoulder") {
        (palette.shoulder, 85u32, "Road shoulder")
    } else if str_eq(subtype, "crosswalk") {
        (palette.crosswalk, 55u32, "Crosswalk")
    } else if str_eq(subtype, "walkway") || str_eq(subtype, "pedestrian_lane") {
        (palette.walkway, 55u32, "Walkway")
    } else if str_eq(subtype, "bicycle_lane") {
        (palette.bicycle, 60u32, "Bicycle lane")
    } else if str_eq(subtype, "bus_lane") {
        (palette.bus_lane, 70u32, "Bus lane")
    } else {
        (palette.lanelet_other, 70u32, "Other lanelet")
    };
    Style::new(tagged_name("lanelet:", subtype), label, Z_LANELET).fill(color, opacity)
}

/// The fill for an area, chosen by its `subtype`.
pub open spec fn spec_area_style(subtype: Seq<char>, palette: Palette) -> StyleView {
    let (color, opacity, label) = if subtype == "parking_lot"@ || subtype == "parking_spot"@ || subtype
        == "parking_access"@ {
        (palette.parking, 55u32, "Parking area"@)
    } else if subtype == "keepout"@ || subtype == "no_parking_area"@ || subtype == "no_stopping_area"@ {
        (palette.keepout, 50u32, "Keepout area"@)
    } else {
        (palette.area_other, 60u32, "Other area"@)
    };
    filled(plain("area:"@ + or_none(subtype), label, Z_AREA), color, opacity)
}

pub fn area_style(subtype: &str, palette: &Palette) -> (r: Style)
    ensures
        r@ == spec_area_style(subtype@, *palette),
{
    let (color, opacity, label) = if str_eq(subtype, "parking_lot") || str_eq(subtype, "parking_spot") || str_eq(
        subtype,
        "parking_access",
    ) {
        (palette.parking, 55u32, "Parking area")
    } else if str_eq(subtype, "keepout") || str_eq(subtype, "no_parking_area") || str_eq(subtype, "no_stopping_area") {
        (palette.keepout, 50u32, "Keepout area")
    } else {
        (palette.area_other, 60u32, "Other area")
    };
    Style::new(tagged_name("area:", subtype), label, Z_AREA).fill(color, opacity)
}

/// The fill for a standalone `area=yes` way, named by [`polygon_key`].
pub open spec fn spec_polygon_style(kind: Seq<char>, palette: Palette) -> StyleView {
    let (color, opacity, label) = if kind == "crosswalk_polygon"@ {
        (palette.crosswalk, 35u32, "Crosswalk polygon"@)
    } else if kind == "hatched_road_markings"@ {
        (palette.marking, 20u32, "Hatched marking"@)
    } else if kind == "no_parking_area"@ || kind == "no_stopping_area"@ || kind == "keepout"@ {
        (palette.keepout, 40u32, "Keepout polygon"@)
    } else if kind == "parking_lot"@ || kind == "parking_spot"@ {
        (palette.parking, 45u32, "Parking polygon"@)
    } else if kind == "intersection_area"@ {
        (palette.road, 35u32, "Intersection area"@)
    } else {
        (palette.area_other, 45u32, "Other polygon"@)
    };
    filled(plain("polygon:"@ + or_none(kind), label, Z_POLYGON), color, opacity)
}

pub fn polygon_style(kind: &str, palette: &Palette) -> (r: Style)
    ensures
        r@ == spec_polygon_style(kind@, *palette),
{
    let (color, opacity, label) = if str_eq(kind, "crosswalk_polygon") {
        (palette.crosswalk, 35u32, "Crosswalk polygon")
    } else if str_eq(kind, "hatched_road_markings") {
        (palette.marking, 20u32, "Hatched marking")
    } else if str_eq(kind, "no_parking_area") || str_eq(kind, "no_stopping_area") || str_eq(kind, "keepout") {
        (palette.keepout, 40u32, "Keepout polygon")
    } else if str_eq(kind, "parking_lot") || str_eq(kind, "parking_spot") {
        (palette.parking, 45u32, "Parking polygon")
    } else if str_eq(kind, "intersection_area") {
        (palette.road, 35u32, "Intersection area")
    } else {
        (palette.area_other, 45u32, "Other polygon")
    };
    Style::new(tagged_name("polygon:", kind), label, Z_POLYGON).fill(color, opacity)
}

/// Whether a linestring type is paint, whose subtype sets its dash pattern.
pub open spec fn is_paint(kind: Seq<char>) -> bool {
    kind == "line_thin"@ || kind == "line_thick"@ || kind == "pedestrian_marking"@ || kind == "zebra_marking"@
}

/// The stroke for a linestring, before its subtype refines the dash pattern.
pub open spec fn spec_linestring_base(kind: Seq<char>, subtype: Seq<char>, palette: Palette) -> StyleView {
    let z = if spec_is_regulatory(kind) { Z_REGULATORY } else { Z_BOUND };
    let name = "line:"@ + or_none(kind) + ":"@ + or_none(subtype);
    if kind == "line_thin"@ {
        stroked(plain(name, spec_marking_label("Lane marking"@, subtype), z), palette.marking, 12)
    } else if kind == "line_thick"@ {
        stroked(plain(name, spec_marking_label("Thick marking"@, subtype), z), palette.marking, 22)
    } else if kind == "pedestrian_marking"@ || kind == "zebra_marking"@ {
        stroked(plain(name, "Pedestrian marking"@, z), palette.marking, 16)
    } else if kind == "curbstone"@ {
        stroked(plain(name, "Curbstone"@, z), palette.curbstone, 16)
    } else if kind == "road_border"@ {
        stroked(plain(name, "Road border"@, z), palette.road_border, 18)
    } else if kind == "guard_rail"@ || kind == "fence"@ || kind == "wall"@ || kind == "bump"@ || kind == "door"@
        || kind == "gate"@ {
        stroked(plain(name, "Barrier"@, z), palette.barrier, 16)
    } else if kind == "stop_line"@ {
        stroked(plain(name, "Stop line"@, z), palette.stop_line, 26)
    } else if kind == "traffic_light"@ || kind == "light_bulbs"@ {
        stroked(plain(name, "Traffic light"@, z), palette.traffic_light, 30)
    } else if kind == "traffic_sign"@ || kind == "arrow"@ {
        stroked(plain(name, "Traffic sign"@, z), palette.traffic_sign, 26)
    } else if kind == "virtual"@ {
        dashed(stroke_faded(stroked(plain(name, "Virtual boundary"@, z), palette.virtual_line, 10), 70), 3, 4)
    } else {
        stroke_faded(stroked(plain(name, "Other boundary"@, z), palette.barrier, 12), 80)
    }
}

/// The stroke for a linestring, chosen by `type` and refined by `subtype`:
/// paint that is dashed gets a dash pattern, and the mixed forms take the
/// stricter, solid half as a long dash.
pub open spec fn spec_linestring_style(kind: Seq<char>, subtype: Seq<char>, palette: Palette) -> StyleView {
    let base = spec_linestring_base(kind, subtype, palette);
    if !is_paint(kind) {
        base
    } else if subtype == "dashed"@ {
        dashed(base, 4, 4)
    } else if subtype == "dashed_solid"@ || subtype == "solid_dashed"@ {
        dashed(base, 9, 3)
    } else {
        base
    }
}

fn apply_marking_subtype(style: Style, kind: &str, subtype: &str) -> (r: Style)
    ensures
        r@ == (if !is_paint(kind@) {
            style@
        } else if subtype@ == "dashed"@ {
            dashed(style@, 4, 4)
        } else if subtype@ == "dashed_solid"@ || subtype@ == "solid_dashed"@ {
            dashed(style@, 9, 3)
        } else {
            style@
        }),
{
    if !(str_eq(kind, "line_thin") || str_eq(kind, "line_thick") || str_eq(kind, "pedestrian_marking") || str_eq(
        kind,
        "zebra_marking",
    )) {
        return style;
    }
    if str_eq(subtype, "dashed") {
        style.dashed(4, 4)
    } else if str_eq(subtype, "dashed_solid") || str_eq(subtype, "solid_dashed") {
        style.dashed(9, 3)
    } else {
        style
    }
}

pub fn linestring_style(kind: &str, subtype: &str, palette: &Palette) -> (r: Style)
    ensures
        r@ == spec_linestring_style(kind@, subtype@, *palette),
{
    let z = if is_regulatory_linestring(kind) { Z_REGULATORY } else { Z_BOUND };
    let name = tagged_name("line:", kind);
    let name = name.concat(":");
    let name = if subtype.unicode_len() == 0 { name.concat("none") } else { name.concat(subtype) };
    let base = if str_eq(kind, "line_thin") {
        Style::new(name, marking_label("Lane marking", subtype), z).stroke(palette.marking, 12)
    } else if str_eq(kind, "line_thick") {
        Style::new(name, marking_label("Thick marking", subtype), z).stroke(palette.marking, 22)
    } else if str_eq(kind, "pedestrian_marking") || str_eq(kind, "zebra_marking") {
        Style::new(name, "Pedestrian marking", z).stroke(palette.marking, 16)
    } else if str_eq(kind, "curbstone") {
        Style::new(name, "Curbstone", z).stroke(palette.curbstone, 16)
    } else if str_eq(kind, "road_border") {
        Style::new(name, "Road border", z).stroke(palette.road_border, 18)
    } else if str_eq(kind, "guard_rail") || str_eq(kind, "fence") || str_eq(kind, "wall") || str_eq(kind, "bump")
        || str_eq(kind, "door") || str_eq(kind, "gate") {
        Style::new(name, "Barrier", z).stroke(palette.barrier, 16)
    } else if str_eq(kind, "stop_line") {
        Style::new(name, "Stop line", z).stroke(palette.stop_line, 26)
    } else if str_eq(kind, "traffic_light") || str_eq(kind, "light_bulbs") {
        Style::new(name, "Traffic light", z).stroke(palette.traffic_light, 30)
    } else if str_eq(kind, "traffic_sign") || str_eq(kind, "arrow") {
        Style::new(name, "Traffic sign", z).stroke(palette.traffic_sign, 26)
    } else if str_eq(kind, "virtual") {
        Style::new(name, "Virtual boundary", z).stroke(palette.virtual_line, 10).stroke_opacity(70).dashed(3, 4)
    } else {
        Style::new(name, "Other boundary", z).stroke(palette.barrier, 12).stroke_opacity(80)
    };
    proof {
        assert(base@ == spec_linestring_base(kind@, subtype@, *palette));
    }
    apply_marking_subtype(base, kind, subtype)
}

/// The centerline annotation: one style for every lanelet.
pub open spec fn spec_centerline_style(palette: Palette) -> StyleView {
    dashed(stroke_faded(stroked(plain("centerline"@, "Centerline"@, Z_CENTERLINE), palette.centerline, 10), 85), 6, 5)
}

pub fn centerline_style(palette: &Palette) -> (r: Style)
    ensures
        r@ == spec_centerline_style(*palette),
{
    Style::new(String::from_str("centerline"), "Centerline", Z_CENTERLINE).stroke(palette.centerline, 10).stroke_opacity(
        85,
    ).dashed(6, 5)
}

/// The driving-direction arrowheads: filled triangles, three pixels wide as
/// shafts, left out of the legend and not drawn once a lane is narrower than
/// four pixels.
pub open spec fn spec_direction_style(palette: Palette) -> StyleView {
    StyleView {
        stroke_width: 30,
        in_legend: false,
        hide_below: 4,
        ..filled(plain("direction"@, "Driving direction"@, Z_DIRECTION), palette.direction, 90)
    }
}

pub fn direction_style(palette: &Palette) -> (r: Style)
    ensures
        r@ == spec_direction_style(*palette),
{
    Style::new(String::from_str("direction"), "Driving direction", Z_DIRECTION).fill(palette.direction, 90).stroke_width(
        30,
    ).hidden_from_legend().hidden_below(4)
}

/// Individual map points.
pub open spec fn spec_point_style(palette: Palette) -> StyleView {
    StyleView { in_legend: false, ..stroke_faded(stroked(plain("point"@, "Points"@, Z_POINT), palette.point, 25), 80) }
}

pub fn point_style(palette: &Palette) -> (r: Style)
    ensures
        r@ == spec_point_style(*palette),
{
    Style::new(String::from_str("point"), "Points", Z_POINT).stroke(palette.point, 25).stroke_opacity(80).hidden_from_legend()
}


/// Interns styles so a scene carries each once and shapes carry an index.
pub struct StyleTable {
    styles: Vec<Style>,
}

/// No two styles share a name.
pub open spec fn names_distinct(styles: Seq<StyleView>) -> bool {
    forall|i: int, j: int| 0 <= i < j < styles.len() ==> (#[trigger] styles[i]).name != (#[trigger] styles[j]).name
}

/// The position of the style named `name`, if the table holds one.
pub open spec fn position_of(styles: Seq<StyleView>, name: Seq<char>) -> Option<int> {
    if exists|i: int| 0 <= i < styles.len() && (#[trigger] styles[i]).name == name {
        Some(choose|i: int| 0 <= i < styles.len() && (#[trigger] styles[i]).name == name)
    } else {
        None
    }
}

impl StyleTable {
    /// The styles, in the order they were first interned.
    pub closed spec fn spec_styles(&self) -> Seq<StyleView> {
        self.styles@.map_values(|s: Style| s@)
    }

    /// No two styles share a name.
    pub closed spec fn wf(&self) -> bool {
        forall|i: int, j: int|
            0 <= i < j < self.styles@.len() ==> (#[trigger] self.styles@[i])@.name != (#[trigger] self.styles@[j])@.name
    }

    /// A well-formed table's styles have distinct names.
    pub proof fn lemma_names_distinct(&self)
        requires
            self.wf(),
        ensures
            names_distinct(self.spec_styles()),
    {
        assert forall|i: int, j: int| 0 <= i < j < self.spec_styles().len() implies (#[trigger] self.spec_styles()[i]).name
            != (#[trigger] self.spec_styles()[j]).name by {
            assert(self.spec_styles()[i] == self.styles@[i]@);
            assert(self.spec_styles()[j] == self.styles@[j]@);
        }
    }

    pub fn new() -> (r: StyleTable)
        ensures
            r.wf(),
            r.spec_styles() == Seq::<StyleView>::empty(),
    {
        let r = StyleTable { styles: Vec::new() };
        assert(r.spec_styles() =~= Seq::<StyleView>::empty());
        r
    }

    /// The index of the style named `name`, if one has been interned.
    pub fn lookup(&self, name: &str) -> (r: Option<usize>)
        requires
            self.wf(),
        ensures
            r is Some <==> position_of(self.spec_styles(), name@) is Some,
            r matches Some(i) ==> i < self.spec_styles().len() && self.spec_styles()[i as int].name == name@,
    {
        let ghost v = self.spec_styles();
        let mut i: usize = 0;
        while i < self.styles.len()
            invariant
                i <= self.styles@.len(),
                v == self.styles@.map_values(|s: Style| s@),
                forall|j: int| 0 <= j < i ==> (#[trigger] v[j]).name != name@,
            decreases self.styles@.len() - i,
        {
            if str_eq(self.styles[i].name.as_str(), name) {
                assert(v[i as int].name == name@);
                return Some(i);
            }
            assert(v[i as int].name == self.styles@[i as int].name@);
            i = i + 1;
        }
        None
    }

    /// Returns the index of `style`, adding it if no style of that name is
    /// held yet.
    pub fn intern(&mut self, style: Style) -> (r: usize)
        requires
            old(self).wf(),
            old(self).spec_styles().len() < usize::MAX,
        ensures
            final(self).wf(),
            match position_of(old(self).spec_styles(), style@.name) {
                Some(_) => final(self).spec_styles() == old(self).spec_styles() && old(self).spec_styles()[r as int].name
                    == style@.name,
                None => final(self).spec_styles() == old(self).spec_styles().push(style@) && r == old(self).spec_styles().len(),
            },
            r < final(self).spec_styles().len(),
    {
        match self.lookup(style.name.as_str()) {
            Some(index) => index,
            None => {
                let index = self.styles.len();
                let ghost old_styles = self.styles@;
                self.styles.push(style);
                proof {
                    assert(self.spec_styles() =~= old(self).spec_styles().push(style@));
                    assert forall|i: int, j: int| 0 <= i < j < self.styles@.len()
                        implies (#[trigger] self.styles@[i])@.name != (#[trigger] self.styles@[j])@.name by {
                        if j == self.styles@.len() - 1 {
                            assert(old(self).spec_styles()[i].name == old_styles[i]@.name);
                        } else {
                            assert(self.styles@[i] == old_styles[i] && self.styles@[j] == old_styles[j]);
                        }
                    }
                }
                index
            },
        }
    }

    pub fn get(&self, index: usize) -> (r: Option<&Style>)
        ensures
            r is Some <==> index < self.spec_styles().len(),
            r matches Some(style) ==> style@ == self.spec_styles()[index as int],
    {
        if index < self.styles.len() {
            Some(&self.styles[index])
        } else {
            None
        }
    }

    pub fn len(&self) -> (r: usize)
        ensures
            r == self.spec_styles().len(),
    {
        self.styles.len()
    }

    pub fn is_empty(&self) -> (r: bool)
        ensures
            r == (self.spec_styles().len() == 0),
    {
        self.styles.len() == 0
    }
}

/// The band of painter's order each layer's styles sit in.
pub open spec fn layer_z(layer: VizLayer) -> i32 {
    match layer {
        VizLayer::LaneletFill => Z_LANELET,
        VizLayer::Area => Z_AREA,
        VizLayer::Polygon => Z_POLYGON,
        VizLayer::Bound => Z_BOUND,
        VizLayer::Regulatory => Z_REGULATORY,
        VizLayer::Centerline => Z_CENTERLINE,
        VizLayer::Direction => Z_DIRECTION,
        VizLayer::Point => Z_POINT,
    }
}

/// The z bands run in the layers' declaration order, and every style sits in
/// the band of the layer its shapes are drawn in; a linestring's layer, from
/// its type, is the one its style's band says.
pub proof fn lemma_z_follows_layers(
    a: VizLayer,
    b: VizLayer,
    palette: Palette,
    lanelet_subtype: Seq<char>,
    area_subtype: Seq<char>,
    polygon_kind: Seq<char>,
    kind: Seq<char>,
    subtype: Seq<char>,
)
    ensures
        a.spec_index() < b.spec_index() ==> layer_z(a) < layer_z(b),
        spec_lanelet_style(lanelet_subtype, palette).z == layer_z(VizLayer::LaneletFill),
        spec_area_style(area_subtype, palette).z == layer_z(VizLayer::Area),
        spec_polygon_style(polygon_kind, palette).z == layer_z(VizLayer::Polygon),
        spec_linestring_style(kind, subtype, palette).z == layer_z(
            if spec_is_regulatory(kind) { VizLayer::Regulatory } else { VizLayer::Bound },
        ),
        spec_centerline_style(palette).z == layer_z(VizLayer::Centerline),
        spec_direction_style(palette).z == layer_z(VizLayer::Direction),
        spec_point_style(palette).z == layer_z(VizLayer::Point),
{
}

/// A theme's key names that theme.
pub proof fn lemma_theme_key_round_trip(t: Theme)
    ensures
        Theme::spec_from_key(t.spec_key()) == Some(t),
{
    reveal_strlit("dark");
    reveal_strlit("light");
    assert("dark"@.len() == 4);
    assert("light"@.len() == 5);
}

/// Interning is by name and stable: in a table whose names are distinct, the
/// index that holds a name is the only one, so interning that name again,
/// or looking it up, gives the index it was first given.
pub proof fn lemma_one_index_per_name(styles: Seq<StyleView>, a: int, b: int)
    requires
        names_distinct(styles),
        0 <= a < styles.len(),
        0 <= b < styles.len(),
        styles[a].name == styles[b].name,
    ensures
        a == b,
{
    if a < b {
        assert(styles[a].name != styles[b].name);
    } else if b < a {
        assert(styles[b].name != styles[a].name);
    }
}

} // verus!
