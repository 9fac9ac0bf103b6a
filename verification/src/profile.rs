//! Where a physics profile's values came from.

use vstd::prelude::*;

verus! {

/// The texts of a list of strings.
pub open spec fn texts(v: Seq<String>) -> Seq<Seq<char>> {
    v.map_values(|s: String| s@)
}

/// The fitting record of a profile: what it was fitted to, how its constants are labelled, and
/// what it does not claim.
#[derive(Debug, Clone, PartialEq, Eq)]
pub struct Provenance {
    /// The fitting sources, by their labels.
    pub sources: Vec<String>,
    /// The label the constants carry (`fitted`, `measured`, `carried`, `provisional`, `derived`).
    pub label: String,
    /// What the record does not claim.
    pub caveats: Vec<String>,
}

/// The default profile's sources.
pub open spec fn default_sources() -> Seq<Seq<char>> {
    seq![
        "Dr. Dave / TP A-28 (μb fit)"@,
        "TP B-6 (cushion retention: e_c = 0.70 ⇒ e_n ≈ 0.78)"@,
        "WPA equipment section (geometry)"@,
        "prototype #8 (sleep thresholds, ε)"@,
    ]
}

/// The default profile's label.
pub open spec fn default_label() -> Seq<char> {
    "fitted (e_n) / carried (μb, e_slate) / not identifiable (μs, μr)"@
}

/// The default profile's caveats.
pub open spec fn default_caveats() -> Seq<Seq<char>> {
    seq![
        "μb's published 0.03–0.08 band is provisional and not portable"@,
        "e_slate is carried, not fitted: pinned by the ball-drop test"@,
        "μc is weakly identified: bounded below, never pinned in value"@,
    ]
}

fn push_text(v: &mut Vec<String>, t: &str)
    ensures
        texts(final(v)@) == texts(old(v)@).push(t@),
{
    let ghost before = v@;
    v.push(t.to_owned());
    assert(texts(v@) =~= texts(before).push(t@));
}

impl Provenance {
    /// The default profile's provenance.
    pub fn default_record() -> (p: Self)
        ensures
            texts(p.sources@) == default_sources(),
            p.label@ == default_label(),
            texts(p.caveats@) == default_caveats(),
    {
        let mut sources: Vec<String> = Vec::new();
        push_text(&mut sources, "Dr. Dave / TP A-28 (μb fit)");
        push_text(&mut sources, "TP B-6 (cushion retention: e_c = 0.70 ⇒ e_n ≈ 0.78)");
        push_text(&mut sources, "WPA equipment section (geometry)");
        push_text(&mut sources, "prototype #8 (sleep thresholds, ε)");
        let mut caveats: Vec<String> = Vec::new();
        push_text(&mut caveats, "μb's published 0.03–0.08 band is provisional and not portable");
        push_text(&mut caveats, "e_slate is carried, not fitted: pinned by the ball-drop test");
        push_text(&mut caveats, "μc is weakly identified: bounded below, never pinned in value");
        assert(texts(sources@) =~= default_sources());
        assert(texts(caveats@) =~= default_caveats());
        Provenance {
            sources,
            label: "fitted (e_n) / carried (μb, e_slate) / not identifiable (μs, μr)".to_owned(),
            caveats,
        }
    }
}

} // verus!
