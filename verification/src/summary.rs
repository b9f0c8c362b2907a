//! How much a map held and how much was drawn from it.

use vstd::prelude::*;
use crate::style::VizLayer;

verus! {

/// How many primitives of each kind the map held.
#[derive(Clone, Copy, Debug, PartialEq, Eq, Structural)]
pub struct MapStats {
    pub points: usize,
    pub line_strings: usize,
    pub polygons: usize,
    pub lanelets: usize,
    pub areas: usize,
    pub regulatory_elements: usize,
}

impl Default for MapStats {
    fn default() -> (r: MapStats)
        ensures
            r == (MapStats { points: 0, line_strings: 0, polygons: 0, lanelets: 0, areas: 0, regulatory_elements: 0 }),
    {
        MapStats { points: 0, line_strings: 0, polygons: 0, lanelets: 0, areas: 0, regulatory_elements: 0 }
    }
}

/// How much geometry came out of a map.
#[derive(Clone, Copy, Debug, PartialEq, Eq, Structural)]
pub struct LayerCounts {
    pub triangles: usize,
    pub strips: usize,
    pub arrows: usize,
    pub points: usize,
}

impl Default for LayerCounts {
    fn default() -> (r: LayerCounts)
        ensures
            r == (LayerCounts { triangles: 0, strips: 0, arrows: 0, points: 0 }),
    {
        LayerCounts { triangles: 0, strips: 0, arrows: 0, points: 0 }
    }
}

impl LayerCounts {
    /// Whether nothing at all was built.
    pub fn is_empty(&self) -> (r: bool)
        ensures
            r == (self.triangles == 0 && self.strips == 0 && self.arrows == 0 && self.points == 0),
    {
        self.triangles == 0 && self.strips == 0 && self.arrows == 0 && self.points == 0
    }
}

/// What a map held and what was drawn from it.
#[derive(Clone, Copy, Debug, PartialEq, Eq, Structural)]
pub struct MapSummary {
    pub stats: MapStats,
    pub counts: LayerCounts,
}

/// The entity path a layer is logged at: `<root>/<layer key>`.
pub fn entity_path(root: &str, layer: VizLayer) -> (r: String)
    ensures
        r@ == root@ + "/"@ + layer.spec_key(),
{
    let path = String::from_str(root);
    let path = path.concat("/");
    path.concat(layer.key())
}

} // verus!
