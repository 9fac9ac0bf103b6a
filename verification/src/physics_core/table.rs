//! The prototype table's rails and the rack-slot spelling of its corpora.

use vstd::prelude::*;
use vstd::string::StringSliceAdditionalSpecFns;
use crate::text::{parse_uint, parse_uint_spec};

verus! {

/// A cushion rail.
#[derive(Clone, Copy, Debug, PartialEq, Eq, Structural)]
pub enum Rail {
    /// `x` = −1270 mm.
    HeadShort,
    /// `x` = +1270 mm.
    FootShort,
    /// `y` = −635 mm.
    LeftLong,
    /// `y` = +635 mm.
    RightLong,
}

/// The position of the first `.` in `s` at or after `k`, or `s.len()` when there is none.
pub open spec fn dot_from(s: Seq<u8>, k: int) -> int
    decreases s.len() - k,
{
    if k >= s.len() || k < 0 {
        s.len() as int
    } else if s[k] == 46 {
        k
    } else {
        dot_from(s, k + 1)
    }
}

/// The two leading `.`-separated fields of `s` (the second ends at the next `.` or the end),
/// each read with the grammar of `usize::from_str`.
pub open spec fn slot_fields(s: Seq<u8>) -> (Option<nat>, Option<nat>) {
    let d1 = dot_from(s, 0);
    let d2 = dot_from(s, d1 + 1);
    (
        parse_uint_spec(s.subrange(0, d1), usize::MAX as nat),
        if d1 < s.len() {
            parse_uint_spec(s.subrange(d1 + 1, d2), usize::MAX as nat)
        } else {
            None
        },
    )
}

proof fn lemma_dot_from(s: Seq<u8>, k: int)
    requires
        0 <= k <= s.len(),
    ensures
        k <= dot_from(s, k) <= s.len(),
        dot_from(s, k) < s.len() ==> s[dot_from(s, k)] == 46,
        forall|j: int| k <= j < dot_from(s, k) ==> s[j] != 46,
    decreases s.len() - k,
{
    if k < s.len() && s[k] != 46 {
        lemma_dot_from(s, k + 1);
    }
}

fn find_dot(bytes: &[u8], k: usize) -> (r: usize)
    requires
        k <= bytes@.len(),
    ensures
        r == dot_from(bytes@, k as int),
        k <= r <= bytes@.len(),
{
    let mut i = k;
    while i < bytes.len() && bytes[i] != 46
        invariant
            k <= i <= bytes@.len(),
            dot_from(bytes@, k as int) == dot_from(bytes@, i as int),
        decreases bytes@.len() - i,
    {
        i = i + 1;
    }
    i
}

/// `"1.0"` → `(1, 0)`: the row and in-row index of a rack-slot label. The label must hold two
/// `.`-separated unsigned numbers up front.
pub fn parse_slot(s: &str) -> (r: (usize, usize))
    requires
        slot_fields(s.spec_bytes()).0 is Some,
        slot_fields(s.spec_bytes()).1 is Some,
    ensures
        r.0 as nat == slot_fields(s.spec_bytes()).0.unwrap(),
        r.1 as nat == slot_fields(s.spec_bytes()).1.unwrap(),
{
    let bytes = s.as_bytes();
    let d1 = find_dot(bytes, 0);
    let row = parse_uint(bytes, 0, d1, usize::MAX as u64);
    let d2 = if d1 < bytes.len() { find_dot(bytes, d1 + 1) } else { d1 };
    let index = parse_uint(bytes, d1 + 1, d2, usize::MAX as u64);
    match (row, index) {
        (Some(r), Some(k)) => (r as usize, k as usize),
        _ => {
            assert(false);
            (0, 0)
        },
    }
}

} // verus!
