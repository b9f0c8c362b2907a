//! Where a point's x and y should come from when a map is read.

use vstd::prelude::*;
use crate::text::str_eq;

verus! {

/// Where a point's x and y should come from.
#[derive(Clone, Copy, PartialEq, Eq, Debug, Structural)]
pub enum CoordinateSource {
    /// Project lat/lon, unless that collapses and `local_x`/`local_y` does not.
    Auto,
    /// Always project lat/lon.
    Projected,
    /// Always use the `local_x`/`local_y` tags.
    LocalXy,
}

impl CoordinateSource {
    pub open spec fn spec_from_key(key: Seq<char>) -> Option<CoordinateSource> {
        if key == "auto"@ {
            Some(CoordinateSource::Auto)
        } else if key == "projected"@ {
            Some(CoordinateSource::Projected)
        } else if key == "local"@ || key == "local_xy"@ {
            Some(CoordinateSource::LocalXy)
        } else {
            None
        }
    }

    pub open spec fn spec_key(self) -> Seq<char> {
        match self {
            CoordinateSource::Auto => "auto"@,
            CoordinateSource::Projected => "projected"@,
            CoordinateSource::LocalXy => "local_xy"@,
        }
    }

    /// The default source.
    pub fn default_source() -> (r: CoordinateSource)
        ensures
            r == CoordinateSource::Auto,
    {
        CoordinateSource::Auto
    }

    pub fn from_key(key: &str) -> (r: Option<CoordinateSource>)
        ensures
            r == CoordinateSource::spec_from_key(key@),
    {
        if str_eq(key, "auto") {
            Some(CoordinateSource::Auto)
        } else if str_eq(key, "projected") {
            Some(CoordinateSource::Projected)
        } else if str_eq(key, "local") || str_eq(key, "local_xy") {
            Some(CoordinateSource::LocalXy)
        } else {
            None
        }
    }

    pub fn key(self) -> (r: &'static str)
        ensures
            r@ == self.spec_key(),
    {
        match self {
            CoordinateSource::Auto => "auto",
            CoordinateSource::Projected => "projected",
            CoordinateSource::LocalXy => "local_xy",
        }
    }
}

/// Which source an automatic read settles on, given how wide the map came out
/// each way, in whole centimetres (`None` when the file has no local tags).
///
/// The local tags win only when the projected map is narrower than a metre and
/// the local one is not.
pub fn resolve_auto(projected_extent_cm: u64, local_extent_cm: Option<u64>) -> (r: CoordinateSource)
    ensures
        r == (match local_extent_cm {
            Some(local) => if projected_extent_cm < 100 && local >= 100 {
                CoordinateSource::LocalXy
            } else {
                CoordinateSource::Projected
            },
            None => CoordinateSource::Projected,
        }),
{
    match local_extent_cm {
        Some(local) => {
            if projected_extent_cm < 100 && local >= 100 {
                CoordinateSource::LocalXy
            } else {
                CoordinateSource::Projected
            }
        },
        None => CoordinateSource::Projected,
    }
}

/// A coordinate source's key names that source.
pub proof fn lemma_source_key_round_trip(c: CoordinateSource)
    ensures
        CoordinateSource::spec_from_key(c.spec_key()) == Some(c),
{
    reveal_strlit("auto");
    reveal_strlit("projected");
    reveal_strlit("local");
    reveal_strlit("local_xy");
    assert("auto"@.len() == 4);
    assert("projected"@.len() == 9);
    assert("local"@.len() == 5);
    assert("local_xy"@.len() == 8);
}

} // verus!
