//! The shot-planning prototype's discrete parts: the rail vocabulary and the rail chains the
//! candidate generator unfolds, the candidate kinds and their counters, the observation context
//! and the toy simulator's event vocabulary.

pub mod geom;
pub mod gen;
pub mod encode;
pub mod toy_sim;
pub mod measure;
