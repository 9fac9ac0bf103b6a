//! Shot setup's plain-data part: reading a rack arrangement from a corpus row.

use vstd::prelude::*;
use crate::physics_core::diag::pairs_view;
use crate::physics_core::json::{entry_models, Json, JsonV};

verus! {

/// The text of a string value, or the empty text for another value.
pub open spec fn text_or_empty(v: JsonV) -> Seq<char> {
    match v {
        JsonV::Str(t) => t,
        _ => Seq::empty(),
    }
}

/// An object's entries read as an arrangement, ball label to slot label: each key with its string
/// value (the empty text for a value that is not a string), in key order; nothing for a value
/// that is not an object.
pub open spec fn arrangement_of(v: JsonV) -> Seq<(Seq<char>, Seq<char>)> {
    match v {
        JsonV::Obj(m) => m.map_values(|e: (Seq<char>, JsonV)| (e.0, text_or_empty(e.1))),
        _ => Seq::empty(),
    }
}

/// Reads an arrangement (ball label to slot label) from a JSON object.
pub fn read_arrangement(v: &Json) -> (arr: Vec<(String, String)>)
    ensures
        pairs_view(arr@) == arrangement_of(v.model()),
{
    proof {
        reveal_strlit("");
    }
    let mut out: Vec<(String, String)> = Vec::new();
    match v.as_obj() {
        Some(m) => {
            let mut k: usize = 0;
            while k < m.len()
                invariant
                    k <= m@.len(),
                    v.model() == JsonV::Obj(entry_models(m@)),
                    pairs_view(out@) == arrangement_of(v.model()).take(k as int),
                decreases m@.len() - k,
            {
                proof {
                    reveal_strlit("");
                }
                let value = match m[k].1.as_str() {
                    Some(t) => t.to_owned(),
                    None => "".to_owned(),
                };
                let ghost before = out@;
                out.push((m[k].0.clone(), value));
                proof {
                    let e = entry_models(m@)[k as int];
                    assert(e == (m@[k as int].0@, m@[k as int].1.model()));
                    assert(value@ == text_or_empty(e.1));
                    assert(pairs_view(out@) =~= pairs_view(before).push((e.0, text_or_empty(e.1))));
                    assert(arrangement_of(v.model()).take(k + 1) =~= arrangement_of(v.model()).take(
                        k as int,
                    ).push(arrangement_of(v.model())[k as int]));
                }
                k = k + 1;
            }
            assert(arrangement_of(v.model()).take(m@.len() as int) =~= arrangement_of(v.model()));
        },
        None => {
            assert(pairs_view(out@) =~= Seq::<(Seq<char>, Seq<char>)>::empty());
        },
    }
    out
}

} // verus!
