//! Option handling of the measurement driver.

use vstd::prelude::*;
use crate::ai_spine::gen::{kind_index, Kind};
use crate::physics_core::cli::{arg, arg_spec};

verus! {

/// The directory the measurement results go to: the value of `--out-dir`, or `results`.
pub open spec fn out_dir_spec(args: Seq<String>) -> Seq<char> {
    match arg_spec(args, "--out-dir"@) {
        Some(v) => v,
        None => "results"@,
    }
}

/// The results directory named by `--out-dir` (the argument after its first occurrence), or
/// `results` when the option is absent or has no value.
pub fn out_dir(args: &[String]) -> (d: String)
    ensures
        d@ == out_dir_spec(args@),
{
    match arg(args, "--out-dir") {
        Some(v) => v,
        None => "results".to_owned(),
    }
}

/// The column of a kind in the per-kind tables of the measurement reports.
pub fn kind_slot(k: Kind) -> (i: usize)
    ensures
        i == kind_index(k),
{
    match k {
        Kind::Direct => 0,
        Kind::Bank => 1,
        Kind::Kick => 2,
        Kind::Combo => 3,
        Kind::SafetyEscape => 4,
        Kind::SafetyRollUp => 5,
        Kind::SafetyTwoWay => 6,
    }
}

} // verus!
