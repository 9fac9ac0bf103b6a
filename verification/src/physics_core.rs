//! The headless physics prototype's bookkeeping: fact derivation and the break-legality table,
//! the fact log and the event order, the corpus readers (JSON, arrangements, slot labels), the
//! indexed-PNG writer of its visual artefacts, its option lookup and its fixed inputs.

pub mod facts;
pub mod sim;
pub mod table;
pub mod render;
pub mod json;
pub mod cli;
pub mod ladder;
pub mod diag;
pub mod diff;
pub mod shots;
