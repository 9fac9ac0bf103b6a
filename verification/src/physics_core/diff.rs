//! The differential run's fixed rack.

use vstd::prelude::*;
use crate::physics_core::diag::{pairs_view, seed1_arrangement, seed1_table};

verus! {

/// The seed-1 arrangement the differential break shot is racked from.
pub fn seed1() -> (arr: Vec<(String, String)>)
    ensures
        pairs_view(arr@) == seed1_table(),
{
    seed1_arrangement()
}

} // verus!
