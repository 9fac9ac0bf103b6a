//! Rack geometry, the frozen rack generator, fact bookkeeping and the byte formats of the pool
//! physics project, with their contracts: the library crate and the discrete parts of its three
//! prototypes (the headless physics core, the shot-planning spine, the cue-input screen).

pub mod frame;
pub mod text;
pub mod rng;
pub mod rack;
pub mod ball;
pub mod table;
pub mod state_hash;
pub mod facts;
pub mod sim;
pub mod profile;
pub mod physics_core;
pub mod ai_spine;
pub mod cue_ux;
