//! How one lanelet relates to another in the routing graph.
//!
//! The constants are the bits of the mask; `RelationType(SUCCESSOR)` is the
//! successor relation.

use vstd::prelude::*;

verus! {

/// How one lanelet relates to another. A bitmask, so sets of relations can be
/// filtered in one comparison.
#[derive(Clone, Copy, PartialEq, Eq, Debug, Structural)]
pub struct RelationType(pub u32);

pub const NONE: u32 = 0;
pub const SUCCESSOR: u32 = 1;
pub const LEFT: u32 = 2;
pub const RIGHT: u32 = 4;
pub const ADJACENT_LEFT: u32 = 8;
pub const ADJACENT_RIGHT: u32 = 16;
pub const CONFLICTING: u32 = 32;
pub const AREA: u32 = 64;

/// The name of the relation whose mask is exactly `bits`.
pub open spec fn relation_name(bits: u32) -> Seq<char> {
    if bits == 1 {
        "Successor"@
    } else if bits == 2 {
        "Left"@
    } else if bits == 4 {
        "Right"@
    } else if bits == 8 {
        "AdjacentLeft"@
    } else if bits == 16 {
        "AdjacentRight"@
    } else if bits == 32 {
        "Conflicting"@
    } else if bits == 64 {
        "Area"@
    } else {
        "None"@
    }
}

impl RelationType {
    /// Whether the two masks share a relation.
    pub open spec fn overlaps(self, other: RelationType) -> bool {
        self.0 & other.0 != 0
    }

    /// Every relation at once.
    pub fn all() -> (r: RelationType)
        ensures
            r == RelationType(127),
    {
        RelationType(127)
    }

    /// Whether `other` shares a relation with this mask.
    pub fn contains(self, other: RelationType) -> (r: bool)
        ensures
            r == self.overlaps(other),
    {
        self.0 & other.0 != 0
    }

    /// The mask of both.
    pub fn union(self, other: RelationType) -> (r: RelationType)
        ensures
            r == RelationType(self.0 | other.0),
    {
        RelationType(self.0 | other.0)
    }

    /// The name a caller shows for a single relation; any other mask is `None`.
    pub fn name(self) -> (r: &'static str)
        ensures
            r@ == relation_name(self.0),
    {
        if self.0 == 1 {
            "Successor"
        } else if self.0 == 2 {
            "Left"
        } else if self.0 == 4 {
            "Right"
        } else if self.0 == 8 {
            "AdjacentLeft"
        } else if self.0 == 16 {
            "AdjacentRight"
        } else if self.0 == 32 {
            "Conflicting"
        } else if self.0 == 64 {
            "Area"
        } else {
            "None"
        }
    }
}

/// A union holds exactly the relations of either mask.
pub proof fn lemma_union_contains(a: RelationType, b: RelationType, x: RelationType)
    ensures
        RelationType(a.0 | b.0).overlaps(x) <==> a.overlaps(x) || b.overlaps(x),
{
    let (p, q, r) = (a.0, b.0, x.0);
    assert((p | q) & r != 0 <==> (p & r != 0 || q & r != 0)) by (bit_vector);
}

/// The mask of every relation takes each single relation.
pub proof fn lemma_all_contains(x: RelationType)
    requires
        x.0 == SUCCESSOR || x.0 == LEFT || x.0 == RIGHT || x.0 == ADJACENT_LEFT || x.0 == ADJACENT_RIGHT || x.0 == CONFLICTING
            || x.0 == AREA,
    ensures
        RelationType(127).overlaps(x),
{
    let r = x.0;
    assert(r == 1 || r == 2 || r == 4 || r == 8 || r == 16 || r == 32 || r == 64 ==> 127u32 & r != 0) by (bit_vector);
}

} // verus!
