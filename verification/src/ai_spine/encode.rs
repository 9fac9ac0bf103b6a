//! The observation layout's sizes and the context scalars the encoder reads besides the balls.

use vstd::prelude::*;

verus! {

/// The observation's length: 16 ball slots of (x, y, present), then 16 context scalars.
pub const OBS_DIM: usize = 64;
/// The length of one candidate's row.
pub const CAND_DIM: usize = 16;
/// The most candidates one decision considers.
pub const K_MAX: usize = 32;

/// Where a decision sits in its episode.
pub struct ObsCtx {
    /// The index of the shot being decided, from 0.
    pub shot_index: usize,
    /// The episode's shot budget.
    pub max_shots: usize,
    /// The number of object balls the episode started with.
    pub n_initial: usize,
}

} // verus!
