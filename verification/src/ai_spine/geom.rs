//! The four cushion rails of the planner's table frame.

use vstd::prelude::*;

verus! {

/// The four rails, named by the cushion they are.
#[derive(Clone, Copy, Debug, PartialEq, Eq, Structural)]
pub enum Rail {
    /// The rail at `x` = −`XL`.
    Left,
    /// The rail at `x` = +`XL`.
    Right,
    /// The rail at `y` = −`YL`.
    Bottom,
    /// The rail at `y` = +`YL`.
    Top,
}

/// The rail at position `k` (0..4) of the fixed rail order: left, right, bottom, top.
pub open spec fn rail_at(k: int) -> Rail {
    if k == 0 {
        Rail::Left
    } else if k == 1 {
        Rail::Right
    } else if k == 2 {
        Rail::Bottom
    } else {
        Rail::Top
    }
}

impl Rail {
    /// Is this a rail of constant `x` (a short rail)?
    pub open spec fn is_x_spec(self) -> bool {
        self == Rail::Left || self == Rail::Right
    }

    /// Whether the rail line is one of constant `x`: true for the left and right rails.
    pub fn is_x(self) -> (b: bool)
        ensures
            b == self.is_x_spec(),
    {
        match self {
            Rail::Left | Rail::Right => true,
            _ => false,
        }
    }

    /// The four rails in the fixed order.
    pub fn all() -> (rs: [Rail; 4])
        ensures
            forall|k: int| 0 <= k < 4 ==> #[trigger] rs@[k] == rail_at(k),
    {
        [Rail::Left, Rail::Right, Rail::Bottom, Rail::Top]
    }
}

} // verus!
