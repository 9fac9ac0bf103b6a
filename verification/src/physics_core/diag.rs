//! The diagnostics' fixed inputs.

use vstd::prelude::*;

verus! {

/// A pair of strings by their texts.
pub open spec fn pairs_view(v: Seq<(String, String)>) -> Seq<(Seq<char>, Seq<char>)> {
    v.map_values(|p: (String, String)| (p.0@, p.1@))
}

/// The seed-1 rack: each ball's label with the label of its slot, in ascending order of the
/// ball labels as text (the order a map keyed by them iterates in).
pub open spec fn seed1_table() -> Seq<(Seq<char>, Seq<char>)> {
    seq![
        ("1"@, "1.0"@),
        ("10"@, "5.1"@),
        ("11"@, "4.0"@),
        ("12"@, "4.3"@),
        ("13"@, "4.2"@),
        ("14"@, "5.0"@),
        ("15"@, "3.0"@),
        ("2"@, "4.1"@),
        ("3"@, "3.2"@),
        ("4"@, "2.0"@),
        ("5"@, "5.2"@),
        ("6"@, "5.3"@),
        ("7"@, "5.4"@),
        ("8"@, "3.1"@),
        ("9"@, "2.1"@),
    ]
}

fn push_pair(v: &mut Vec<(String, String)>, ball: &str, slot: &str)
    ensures
        pairs_view(final(v)@) == pairs_view(old(v)@).push((ball@, slot@)),
{
    let ghost before = v@;
    v.push((ball.to_owned(), slot.to_owned()));
    assert(pairs_view(v@) =~= pairs_view(before).push((ball@, slot@)));
}

/// The arrangement the seed-1 break is racked from: ball label to slot label, as a map keyed by
/// the ball labels, its entries in key order.
pub fn seed1_arrangement() -> (arr: Vec<(String, String)>)
    ensures
        pairs_view(arr@) == seed1_table(),
{
    let mut arr: Vec<(String, String)> = Vec::new();
    push_pair(&mut arr, "1", "1.0");
    push_pair(&mut arr, "10", "5.1");
    push_pair(&mut arr, "11", "4.0");
    push_pair(&mut arr, "12", "4.3");
    push_pair(&mut arr, "13", "4.2");
    push_pair(&mut arr, "14", "5.0");
    push_pair(&mut arr, "15", "3.0");
    push_pair(&mut arr, "2", "4.1");
    push_pair(&mut arr, "3", "3.2");
    push_pair(&mut arr, "4", "2.0");
    push_pair(&mut arr, "5", "5.2");
    push_pair(&mut arr, "6", "5.3");
    push_pair(&mut arr, "7", "5.4");
    push_pair(&mut arr, "8", "3.1");
    push_pair(&mut arr, "9", "2.1");
    assert(pairs_view(arr@) =~= seed1_table());
    arr
}

} // verus!
