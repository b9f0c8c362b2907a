//! What a scene draws, and the one-line descriptions its shapes carry.

use vstd::prelude::*;
use crate::style::{Theme, VizLayer};
use crate::text::{signed_decimal, decimal, push_signed_decimal, push_decimal};

verus! {

/// What to draw, and how much of it.
#[derive(Clone, Copy, Debug)]
pub struct VizOptions {
    pub theme: Theme,
    pub lanelet_fill: bool,
    pub areas: bool,
    pub polygons: bool,
    pub bounds: bool,
    pub regulatory: bool,
    pub centerlines: bool,
    pub direction_arrows: bool,
    pub points: bool,
    /// Centimetres between driving-direction arrowheads along a centerline.
    pub arrow_spacing_cm: u64,
}

impl Default for VizOptions {
    /// The dark theme; every layer but centerlines and points; an arrowhead
    /// every 25 m.
    fn default() -> (r: VizOptions)
        ensures
            r == (VizOptions {
                theme: Theme::Dark,
                lanelet_fill: true,
                areas: true,
                polygons: true,
                bounds: true,
                regulatory: true,
                centerlines: false,
                direction_arrows: true,
                points: false,
                arrow_spacing_cm: 2500,
            }),
    {
        VizOptions {
            theme: Theme::Dark,
            lanelet_fill: true,
            areas: true,
            polygons: true,
            bounds: true,
            regulatory: true,
            centerlines: false,
            direction_arrows: true,
            points: false,
            arrow_spacing_cm: 2500,
        }
    }
}

impl VizOptions {
    pub open spec fn spec_wants_layer(&self, layer: VizLayer) -> bool {
        match layer {
            VizLayer::LaneletFill => self.lanelet_fill,
            VizLayer::Area => self.areas,
            VizLayer::Polygon => self.polygons,
            VizLayer::Bound => self.bounds,
            VizLayer::Regulatory => self.regulatory,
            VizLayer::Centerline => self.centerlines,
            VizLayer::Direction => self.direction_arrows,
            VizLayer::Point => self.points,
        }
    }

    /// Whether a layer is drawn.
    pub fn wants_layer(&self, layer: VizLayer) -> (r: bool)
        ensures
            r == self.spec_wants_layer(layer),
    {
        match layer {
            VizLayer::LaneletFill => self.lanelet_fill,
            VizLayer::Area => self.areas,
            VizLayer::Polygon => self.polygons,
            VizLayer::Bound => self.bounds,
            VizLayer::Regulatory => self.regulatory,
            VizLayer::Centerline => self.centerlines,
            VizLayer::Direction => self.direction_arrows,
            VizLayer::Point => self.points,
        }
    }
}

/// `<kind> <id>`, then ` · <type>` where there is a type, then the subtype
/// after `/` (or after ` · ` where there is no type).
pub open spec fn description(id: i64, kind: Seq<char>, type_tag: Seq<char>, subtype: Seq<char>) -> Seq<char> {
    kind + " "@ + signed_decimal(id as int) + (if type_tag.len() > 0 { " · "@ + type_tag } else { seq![] }) + (if subtype.len()
        > 0 {
        (if type_tag.len() > 0 { "/"@ } else { " · "@ }) + subtype
    } else {
        seq![]
    })
}

/// The one-line description a tooltip or a label shows for a primitive: what
/// it is, which id it has, and the tags that classified it.
pub fn describe(id: i64, kind: &str, type_tag: &str, subtype: &str) -> (r: String)
    ensures
        r@ == description(id, kind@, type_tag@, subtype@),
{
    let mut text = String::from_str(kind);
    text.append(" ");
    push_signed_decimal(&mut text, id);
    let has_type = type_tag.unicode_len() > 0;
    if has_type {
        text.append(" · ");
        text.append(type_tag);
    }
    if subtype.unicode_len() > 0 {
        text.append(if has_type { "/" } else { " · " });
        text.append(subtype);
    }
    assert(text@ =~= description(id, kind@, type_tag@, subtype@));
    text
}

/// `lanelet <id>`, then ` · <subtype>`, ` · <speed limit>` and
/// ` · <n> reg. elem.` where each is there.
pub open spec fn lanelet_description(id: i64, subtype: Seq<char>, speed_limit: Seq<char>, regulatory_elements: nat) -> Seq<char> {
    "lanelet "@ + signed_decimal(id as int) + (if subtype.len() > 0 { " · "@ + subtype } else { seq![] }) + (if speed_limit.len()
        > 0 {
        " · "@ + speed_limit
    } else {
        seq![]
    }) + (if regulatory_elements > 0 { " · "@ + decimal(regulatory_elements) + " reg. elem."@ } else { seq![] })
}

/// The description of a lanelet, which has more worth saying: its subtype,
/// its speed limit tag and how many regulatory elements apply to it.
pub fn describe_lanelet(id: i64, subtype: &str, speed_limit: &str, regulatory_elements: usize) -> (r: String)
    ensures
        r@ == lanelet_description(id, subtype@, speed_limit@, regulatory_elements as nat),
{
    let mut text = String::from_str("lanelet ");
    push_signed_decimal(&mut text, id);
    if subtype.unicode_len() > 0 {
        text.append(" · ");
        text.append(subtype);
    }
    if speed_limit.unicode_len() > 0 {
        text.append(" · ");
        text.append(speed_limit);
    }
    if regulatory_elements > 0 {
        text.append(" · ");
        push_decimal(&mut text, regulatory_elements as u64);
        text.append(" reg. elem.");
    }
    assert(text@ =~= lanelet_description(id, subtype@, speed_limit@, regulatory_elements as nat));
    text
}

} // verus!
