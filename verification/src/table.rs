//! The table's named parts: the four cushion rails and the six pockets.

use vstd::prelude::*;

verus! {

/// A cushion face. A ball that touches one is driven to that rail.
#[derive(Debug, Clone, Copy, PartialEq, Eq, PartialOrd, Ord, Hash, Structural)]
pub enum Rail {
    /// The short rail at `x` = −1270 mm.
    HeadShort,
    /// The short rail at `x` = +1270 mm.
    FootShort,
    /// The long rail at `y` = −635 mm.
    LeftLong,
    /// The long rail at `y` = +635 mm.
    RightLong,
}

/// The six pockets, named by corner and side of the frame. The variant's index is the pocket's
/// identity in facts.
#[derive(Debug, Clone, Copy, PartialEq, Eq, Hash, Structural)]
pub enum PocketId {
    /// The corner at `x` = +1270, `y` = +635.
    FootPlusY,
    /// The corner at `x` = +1270, `y` = −635.
    FootMinusY,
    /// The corner at `x` = −1270, `y` = +635.
    HeadPlusY,
    /// The corner at `x` = −1270, `y` = −635.
    HeadMinusY,
    /// The side mouth at `y` = −635.
    SideMinusY,
    /// The side mouth at `y` = +635.
    SidePlusY,
}

/// The pocket at construction position `i` (0..6).
pub open spec fn pocket_at(i: int) -> PocketId {
    if i == 0 {
        PocketId::FootPlusY
    } else if i == 1 {
        PocketId::FootMinusY
    } else if i == 2 {
        PocketId::HeadPlusY
    } else if i == 3 {
        PocketId::HeadMinusY
    } else if i == 4 {
        PocketId::SideMinusY
    } else {
        PocketId::SidePlusY
    }
}

impl PocketId {
    /// The pocket's index in construction order.
    pub open spec fn index_spec(self) -> int {
        match self {
            PocketId::FootPlusY => 0,
            PocketId::FootMinusY => 1,
            PocketId::HeadPlusY => 2,
            PocketId::HeadMinusY => 3,
            PocketId::SideMinusY => 4,
            PocketId::SidePlusY => 5,
        }
    }

    /// Every pocket, in construction order.
    pub fn all() -> (ps: [PocketId; 6])
        ensures
            forall|i: int| 0 <= i < 6 ==> #[trigger] ps@[i] == pocket_at(i),
    {
        [
            PocketId::FootPlusY,
            PocketId::FootMinusY,
            PocketId::HeadPlusY,
            PocketId::HeadMinusY,
            PocketId::SideMinusY,
            PocketId::SidePlusY,
        ]
    }

    /// The pocket's index, 0..6, matching the construction order of [`PocketId::all`].
    pub fn index(self) -> (i: usize)
        ensures
            i == self.index_spec(),
            i < 6,
            pocket_at(i as int) == self,
    {
        match self {
            PocketId::FootPlusY => 0,
            PocketId::FootMinusY => 1,
            PocketId::HeadPlusY => 2,
            PocketId::HeadMinusY => 3,
            PocketId::SideMinusY => 4,
            PocketId::SidePlusY => 5,
        }
    }
}

/// A pocket's index and the construction order invert each other.
pub proof fn pocket_index_round_trip(p: PocketId, i: int)
    ensures
        pocket_at(p.index_spec()) == p,
        0 <= i < 6 ==> pocket_at(i).index_spec() == i,
{
}

} // verus!
