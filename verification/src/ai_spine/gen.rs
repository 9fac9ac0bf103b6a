//! The candidate generator's discrete parts: the shot kinds, their counters, and the rail chains
//! that bank and kick constructions unfold (every chain of up to `max_rails` rails in which no
//! rail follows itself).

use vstd::prelude::*;
use crate::ai_spine::geom::{rail_at, Rail};

verus! {

/// The kind of a candidate shot.
#[derive(Clone, Copy, Debug, PartialEq, Eq, Hash, Structural)]
pub enum Kind {
    /// Object ball straight into a pocket.
    Direct,
    /// Object ball off one or more rails into a pocket.
    Bank,
    /// Cue ball off one or more rails onto the object ball.
    Kick,
    /// Object ball into an intermediate ball, which is potted.
    Combo,
    /// Safety: escape a snooker.
    SafetyEscape,
    /// Safety: roll up behind a blocker.
    SafetyRollUp,
    /// Safety: a two-way shot.
    SafetyTwoWay,
}

/// The kind at index `i` (0..7) of the counters' order.
pub open spec fn kind_at(i: int) -> Kind {
    if i == 0 {
        Kind::Direct
    } else if i == 1 {
        Kind::Bank
    } else if i == 2 {
        Kind::Kick
    } else if i == 3 {
        Kind::Combo
    } else if i == 4 {
        Kind::SafetyEscape
    } else if i == 5 {
        Kind::SafetyRollUp
    } else {
        Kind::SafetyTwoWay
    }
}

/// A kind's index in the counters' order.
pub open spec fn kind_index(k: Kind) -> int {
    match k {
        Kind::Direct => 0,
        Kind::Bank => 1,
        Kind::Kick => 2,
        Kind::Combo => 3,
        Kind::SafetyEscape => 4,
        Kind::SafetyRollUp => 5,
        Kind::SafetyTwoWay => 6,
    }
}

/// A kind's name in reports.
pub open spec fn kind_name(k: Kind) -> Seq<char> {
    match k {
        Kind::Direct => "direct"@,
        Kind::Bank => "bank"@,
        Kind::Kick => "kick"@,
        Kind::Combo => "combo"@,
        Kind::SafetyEscape => "safety_escape"@,
        Kind::SafetyRollUp => "safety_rollup"@,
        Kind::SafetyTwoWay => "safety_twoway"@,
    }
}

impl Kind {
    /// Is the kind one of the three safety templates?
    pub open spec fn is_safety_spec(self) -> bool {
        self == Kind::SafetyEscape || self == Kind::SafetyRollUp || self == Kind::SafetyTwoWay
    }

    /// Whether the kind is a safety (escape, roll-up or two-way).
    pub fn is_safety(self) -> (b: bool)
        ensures
            b == self.is_safety_spec(),
    {
        match self {
            Kind::SafetyEscape | Kind::SafetyRollUp | Kind::SafetyTwoWay => true,
            _ => false,
        }
    }

    /// The kind's name in reports.
    pub fn as_str(self) -> (s: &'static str)
        ensures
            s@ == kind_name(self),
    {
        match self {
            Kind::Direct => "direct",
            Kind::Bank => "bank",
            Kind::Kick => "kick",
            Kind::Combo => "combo",
            Kind::SafetyEscape => "safety_escape",
            Kind::SafetyRollUp => "safety_rollup",
            Kind::SafetyTwoWay => "safety_twoway",
        }
    }
}

/// The kind's slot in `GenStats::by_kind`.
pub fn kind_idx(k: Kind) -> (i: usize)
    ensures
        i == kind_index(k),
{
    match k {
        Kind::Direct => 0,
        Kind::Bank => 1,
        Kind::Kick => 2,
        Kind::Combo => 3,
        Kind::SafetyEscape => 4,
        Kind::SafetyRollUp => 5,
        Kind::SafetyTwoWay => 6,
    }
}

/// The kind index names every kind once: it and `kind_at` undo each other, and it stays below
/// the seven counters.
pub proof fn kind_index_is_a_bijection(k: Kind, i: int)
    ensures
        0 <= kind_index(k) < 7,
        kind_at(kind_index(k)) == k,
        0 <= i < 7 ==> kind_index(kind_at(i)) == i,
{
}

/// The generator's counters, for diagnostics.
#[derive(Clone, Copy, Debug)]
pub struct GenStats {
    /// Constructions attempted.
    pub constructed: usize,
    /// Rejected by geometry.
    pub rej_geometry: usize,
    /// Rejected by line of sight.
    pub rej_los: usize,
    /// Kept before deduplication.
    pub kept: usize,
    /// Kept after deduplication.
    pub after_dedup: usize,
    /// Kept candidates per kind, by `kind_idx`.
    pub by_kind: [usize; 7],
    /// Bank chains that unfolded geometrically.
    pub bank_chain_ok: usize,
    /// Banks that also passed the cut limit.
    pub bank_cut_ok: usize,
    /// Kick chains that unfolded geometrically.
    pub kick_chain_ok: usize,
    /// Kicks that also passed the cut limit.
    pub kick_cut_ok: usize,
    /// Kept banks per rail depth (index 1..3), before deduplication.
    pub bank_by_rails: [usize; 4],
    /// Kept kicks per rail depth (index 1..3), before deduplication.
    pub kick_by_rails: [usize; 4],
}

impl GenStats {
    /// Every counter is zero.
    pub open spec fn is_zero(self) -> bool {
        &&& self.constructed == 0 && self.rej_geometry == 0 && self.rej_los == 0
        &&& self.kept == 0 && self.after_dedup == 0
        &&& forall|i: int| 0 <= i < 7 ==> #[trigger] self.by_kind@[i] == 0
        &&& self.bank_chain_ok == 0 && self.bank_cut_ok == 0
        &&& self.kick_chain_ok == 0 && self.kick_cut_ok == 0
        &&& forall|i: int| 0 <= i < 4 ==> #[trigger] self.bank_by_rails@[i] == 0
        &&& forall|i: int| 0 <= i < 4 ==> #[trigger] self.kick_by_rails@[i] == 0
    }
}

impl Default for GenStats {
    fn default() -> (s: GenStats)
        ensures
            s.is_zero(),
    {
        GenStats {
            constructed: 0,
            rej_geometry: 0,
            rej_los: 0,
            kept: 0,
            after_dedup: 0,
            by_kind: [0, 0, 0, 0, 0, 0, 0],
            bank_chain_ok: 0,
            bank_cut_ok: 0,
            kick_chain_ok: 0,
            kick_cut_ok: 0,
            bank_by_rails: [0, 0, 0, 0],
            kick_by_rails: [0, 0, 0, 0],
        }
    }
}

/// The rail's index in the fixed order, as the candidate records it in its chain.
pub open spec fn rail_index(r: Rail) -> int {
    match r {
        Rail::Left => 0,
        Rail::Right => 1,
        Rail::Bottom => 2,
        Rail::Top => 3,
    }
}

/// The rail's index in the fixed order (left, right, bottom, top).
pub fn rail_idx(r: Rail) -> (i: u8)
    ensures
        i == rail_index(r),
        rail_at(i as int) == r,
{
    match r {
        Rail::Left => 0,
        Rail::Right => 1,
        Rail::Bottom => 2,
        Rail::Top => 3,
    }
}

/// No rail follows itself in the chain.
pub open spec fn no_rail_repeats(c: Seq<Rail>) -> bool {
    forall|i: int| 0 < i < c.len() ==> #[trigger] c[i] != c[i - 1]
}

/// The chain extended by `r`, unless `r` is the chain's last rail.
pub open spec fn extend_by(c: Seq<Rail>, r: Rail) -> Seq<Seq<Rail>> {
    if c.len() == 0 || c.last() != r {
        seq![c.push(r)]
    } else {
        Seq::empty()
    }
}

/// The chain's one-rail extensions, in the fixed rail order.
pub open spec fn children(c: Seq<Rail>) -> Seq<Seq<Rail>> {
    extend_by(c, Rail::Left) + extend_by(c, Rail::Right) + extend_by(c, Rail::Bottom) + extend_by(
        c,
        Rail::Top,
    )
}

/// The one-rail extensions of every chain of `s`, in order.
pub open spec fn extend_all(s: Seq<Seq<Rail>>) -> Seq<Seq<Rail>>
    decreases s.len(),
{
    if s.len() == 0 {
        Seq::empty()
    } else {
        extend_all(s.drop_last()) + children(s.last())
    }
}

/// The one-rail chains, in the fixed rail order.
pub open spec fn single_rails() -> Seq<Seq<Rail>> {
    seq![seq![Rail::Left], seq![Rail::Right], seq![Rail::Bottom], seq![Rail::Top]]
}

/// The chains of exactly `d` rails, in generation order.
pub open spec fn depth_chains(d: nat) -> Seq<Seq<Rail>>
    decreases d,
{
    if d == 0 {
        Seq::empty()
    } else if d == 1 {
        single_rails()
    } else {
        extend_all(depth_chains((d - 1) as nat))
    }
}

/// The chains of 1 to `m` rails: by depth, and within a depth in generation order.
pub open spec fn chains_spec(m: nat) -> Seq<Seq<Rail>>
    decreases m,
{
    if m == 0 {
        Seq::empty()
    } else {
        chains_spec((m - 1) as nat) + depth_chains(m)
    }
}

/// The contents of a vector of chains.
pub open spec fn chains_view(v: Seq<Vec<Rail>>) -> Seq<Seq<Rail>> {
    v.map_values(|c: Vec<Rail>| c@)
}

/// `c` with `r` appended.
fn extended(c: &Vec<Rail>, r: Rail) -> (c2: Vec<Rail>)
    ensures
        c2@ == c@.push(r),
{
    let mut c2: Vec<Rail> = Vec::new();
    let mut i: usize = 0;
    while i < c.len()
        invariant
            i <= c@.len(),
            c2@ == c@.subrange(0, i as int),
        decreases c@.len() - i,
    {
        c2.push(c[i]);
        i = i + 1;
        assert(c2@ =~= c@.subrange(0, i as int));
    }
    assert(c@.subrange(0, c@.len() as int) =~= c@);
    c2.push(r);
    c2
}

/// Appends the chain's one-rail extensions to `next`.
#[verifier::spinoff_prover]
#[verifier::rlimit(50)]
fn push_children(next: &mut Vec<Vec<Rail>>, c: &Vec<Rail>)
    ensures
        chains_view(final(next)@) == chains_view(old(next)@) + children(c@),
{
    let ghost start = chains_view(next@);
    let rails = Rail::all();
    let mut k: usize = 0;
    while k < 4
        invariant
            k <= 4,
            forall|j: int| 0 <= j < 4 ==> #[trigger] rails@[j] == rail_at(j),
            chains_view(next@) == start + (if k == 0 {
                Seq::empty()
            } else if k == 1 {
                extend_by(c@, Rail::Left)
            } else if k == 2 {
                extend_by(c@, Rail::Left) + extend_by(c@, Rail::Right)
            } else if k == 3 {
                extend_by(c@, Rail::Left) + extend_by(c@, Rail::Right) + extend_by(c@, Rail::Bottom)
            } else {
                children(c@)
            }),
        decreases 4 - k,
    {
        let r = rails[k];
        let ghost before = next@;
        if c.len() == 0 || c[c.len() - 1] != r {
            let c2 = extended(c, r);
            next.push(c2);
            assert(chains_view(next@) =~= chains_view(before) + extend_by(c@, r));
        } else {
            assert(extend_by(c@, r) =~= Seq::<Seq<Rail>>::empty());
            assert(chains_view(next@) =~= chains_view(before) + extend_by(c@, r));
        }
        k = k + 1;
        proof {
            let e0 = extend_by(c@, Rail::Left);
            let e1 = extend_by(c@, Rail::Right);
            let e2 = extend_by(c@, Rail::Bottom);
            let e3 = extend_by(c@, Rail::Top);
            assert(Seq::<Seq<Rail>>::empty() + e0 =~= e0);
            assert((start + e0) + e1 =~= start + (e0 + e1));
            assert((start + (e0 + e1)) + e2 =~= start + (e0 + e1 + e2));
            assert((start + (e0 + e1 + e2)) + e3 =~= start + (e0 + e1 + e2 + e3));
            assert(start + Seq::<Seq<Rail>>::empty() =~= start);
        }
    }
}

/// The one-rail extensions of every chain of `cur`, in order.
fn extend_chains(cur: &Vec<Vec<Rail>>) -> (next: Vec<Vec<Rail>>)
    ensures
        chains_view(next@) == extend_all(chains_view(cur@)),
{
    let mut next: Vec<Vec<Rail>> = Vec::new();
    let mut i: usize = 0;
    while i < cur.len()
        invariant
            i <= cur@.len(),
            chains_view(next@) == extend_all(chains_view(cur@.subrange(0, i as int))),
        decreases cur@.len() - i,
    {
        push_children(&mut next, &cur[i]);
        proof {
            let s = chains_view(cur@.subrange(0, i + 1));
            assert(s.drop_last() =~= chains_view(cur@.subrange(0, i as int)));
            assert(s.last() == cur@[i as int]@);
        }
        i = i + 1;
    }
    assert(cur@.subrange(0, cur@.len() as int) =~= cur@);
    next
}

/// Every rail chain of 1 to `max_rails` rails in which no rail follows itself: by depth, and
/// within a depth each chain's extensions in the fixed rail order.
pub fn chains(max_rails: u8) -> (out: Vec<Vec<Rail>>)
    ensures
        chains_view(out@) == chains_spec(max_rails as nat),
{
    let mut out: Vec<Vec<Rail>> = Vec::new();
    let mut d: u16 = 1;
    while d <= max_rails as u16
        invariant
            1 <= d <= max_rails as u16 + 1,
            chains_view(out@) == chains_spec((d - 1) as nat),
        decreases max_rails as u16 + 1 - d,
    {
        let rails = Rail::all();
        let mut cur: Vec<Vec<Rail>> = Vec::new();
        let mut k: usize = 0;
        while k < 4
            invariant
                k <= 4,
                forall|j: int| 0 <= j < 4 ==> #[trigger] rails@[j] == rail_at(j),
                chains_view(cur@) == single_rails().take(k as int),
            decreases 4 - k,
        {
            let ghost before = cur@;
            let mut one: Vec<Rail> = Vec::new();
            one.push(rails[k]);
            cur.push(one);
            proof {
                assert(one@ =~= seq![rail_at(k as int)]);
                assert(chains_view(cur@) =~= chains_view(before).push(one@));
                let sr = single_rails();
                assert(sr[0] =~= seq![rail_at(0)] && sr[1] =~= seq![rail_at(1)]
                    && sr[2] =~= seq![rail_at(2)] && sr[3] =~= seq![rail_at(3)]);
                assert(sr[k as int] == one@);
                assert(sr.take(k + 1) =~= sr.take(k as int).push(sr[k as int]));
            }
            k = k + 1;
        }
        assert(single_rails().take(4) =~= single_rails());
        let mut k: u16 = 1;
        while k < d
            invariant
                1 <= k <= d,
                chains_view(cur@) == depth_chains(k as nat),
            decreases d - k,
        {
            cur = extend_chains(&cur);
            k = k + 1;
        }
        let ghost before = out@;
        out.append(&mut cur);
        proof {
            assert(chains_view(out@) =~= chains_view(before) + depth_chains(d as nat));
        }
        d = d + 1;
    }
    out
}

/// Extending chains of `n` rails without repeats gives chains of `n + 1` rails without repeats.
proof fn lemma_extend_all_shape(s: Seq<Seq<Rail>>, n: nat)
    requires
        forall|i: int| 0 <= i < s.len() ==> (#[trigger] s[i]).len() == n && no_rail_repeats(s[i]),
    ensures
        forall|i: int|
            0 <= i < extend_all(s).len() ==> (#[trigger] extend_all(s)[i]).len() == n + 1
                && no_rail_repeats(extend_all(s)[i]),
    decreases s.len(),
{
    if s.len() > 0 {
        let p = s.drop_last();
        assert forall|i: int| 0 <= i < p.len() implies (#[trigger] p[i]).len() == n
            && no_rail_repeats(p[i]) by {
            assert(p[i] == s[i]);
        }
        lemma_extend_all_shape(p, n);
        let c = s.last();
        assert(c == s[s.len() - 1]);
        let ch = children(c);
        assert forall|i: int| 0 <= i < ch.len() implies (#[trigger] ch[i]).len() == n + 1
            && no_rail_repeats(ch[i]) by {
            let e0 = extend_by(c, Rail::Left);
            let e1 = extend_by(c, Rail::Right);
            let e2 = extend_by(c, Rail::Bottom);
            let e3 = extend_by(c, Rail::Top);
            assert(ch == e0 + e1 + e2 + e3);
            let x = ch[i];
            assert(exists|r: Rail| x == c.push(r) && (c.len() == 0 || c.last() != r));
            let r = choose|r: Rail| x == c.push(r) && (c.len() == 0 || c.last() != r);
            assert forall|j: int| 0 < j < x.len() implies #[trigger] x[j] != x[j - 1] by {
                if j < c.len() {
                    assert(x[j] == c[j] && x[j - 1] == c[j - 1]);
                } else {
                    assert(x[j] == r && x[j - 1] == c.last());
                }
            }
        }
        let e = extend_all(s);
        assert(e == extend_all(p) + ch);
        assert forall|i: int| 0 <= i < e.len() implies (#[trigger] e[i]).len() == n + 1
            && no_rail_repeats(e[i]) by {
            if i < extend_all(p).len() {
                assert(e[i] == extend_all(p)[i]);
            } else {
                assert(e[i] == ch[i - extend_all(p).len()]);
            }
        }
    }
}

proof fn lemma_depth_shape(d: nat)
    requires
        d >= 1,
    ensures
        forall|i: int|
            0 <= i < depth_chains(d).len() ==> (#[trigger] depth_chains(d)[i]).len() == d
                && no_rail_repeats(depth_chains(d)[i]),
    decreases d,
{
    if d == 1 {
        let s = single_rails();
        assert forall|i: int| 0 <= i < s.len() implies (#[trigger] s[i]).len() == 1
            && no_rail_repeats(s[i]) by {}
    } else {
        lemma_depth_shape((d - 1) as nat);
        lemma_extend_all_shape(depth_chains((d - 1) as nat), (d - 1) as nat);
    }
}

/// A chain of `s` extended by a rail other than its last is among the extensions of `s`.
proof fn lemma_extend_all_contains(s: Seq<Seq<Rail>>, k: int, r: Rail)
    requires
        0 <= k < s.len(),
        s[k].len() == 0 || s[k].last() != r,
    ensures
        extend_all(s).contains(s[k].push(r)),
    decreases s.len(),
{
    let p = s.drop_last();
    if k < s.len() - 1 {
        assert(p[k] == s[k]);
        lemma_extend_all_contains(p, k, r);
        let w = choose|j: int| 0 <= j < extend_all(p).len() && extend_all(p)[j] == s[k].push(r);
        assert(extend_all(s)[w] == extend_all(p)[w]);
    } else {
        let c = s.last();
        let x = c.push(r);
        let e0 = extend_by(c, Rail::Left);
        let e1 = extend_by(c, Rail::Right);
        let e2 = extend_by(c, Rail::Bottom);
        let e3 = extend_by(c, Rail::Top);
        let base: int = extend_all(p).len() as int;
        let e = extend_all(s);
        assert(e == extend_all(p) + (e0 + e1 + e2 + e3));
        if r == Rail::Left {
            assert(e[base] == x);
        } else if r == Rail::Right {
            assert(e[base + e0.len() as int] == x);
        } else if r == Rail::Bottom {
            assert(e[base + e0.len() as int + e1.len() as int] == x);
        } else {
            assert(e[base + e0.len() as int + e1.len() as int + e2.len() as int] == x);
        }
    }
}

proof fn lemma_depth_complete(c: Seq<Rail>)
    requires
        c.len() >= 1,
        no_rail_repeats(c),
    ensures
        depth_chains(c.len()).contains(c),
    decreases c.len(),
{
    if c.len() == 1 {
        let s = single_rails();
        if c[0] == Rail::Left {
            assert(s[0] =~= c);
        } else if c[0] == Rail::Right {
            assert(s[1] =~= c);
        } else if c[0] == Rail::Bottom {
            assert(s[2] =~= c);
        } else {
            assert(s[3] =~= c);
        }
    } else {
        let p = c.drop_last();
        assert forall|i: int| 0 < i < p.len() implies #[trigger] p[i] != p[i - 1] by {
            assert(p[i] == c[i] && p[i - 1] == c[i - 1]);
        }
        lemma_depth_complete(p);
        let s = depth_chains(p.len());
        let k = choose|k: int| 0 <= k < s.len() && s[k] == p;
        assert(c[c.len() - 1] != c[c.len() - 2]);
        assert(p.last() == c[c.len() - 2]);
        lemma_extend_all_contains(s, k, c.last());
        assert(p.push(c.last()) =~= c);
    }
}

proof fn lemma_depth_len(d: nat)
    requires
        d >= 1,
    ensures
        depth_chains(d).len() == 4 * vstd::arithmetic::power::pow(3, (d - 1) as nat),
    decreases d,
{
    if d == 1 {
        vstd::arithmetic::power::lemma_pow0(3);
    } else {
        lemma_depth_len((d - 1) as nat);
        lemma_depth_shape((d - 1) as nat);
        lemma_extend_all_len(depth_chains((d - 1) as nat));
        vstd::arithmetic::power::lemma_pow_adds(3, (d - 2) as nat, 1);
        vstd::arithmetic::power::lemma_pow1(3);
    }
}

proof fn lemma_extend_all_len(s: Seq<Seq<Rail>>)
    requires
        forall|i: int| 0 <= i < s.len() ==> (#[trigger] s[i]).len() >= 1,
    ensures
        extend_all(s).len() == 3 * s.len(),
    decreases s.len(),
{
    if s.len() > 0 {
        let p = s.drop_last();
        assert forall|i: int| 0 <= i < p.len() implies (#[trigger] p[i]).len() >= 1 by {
            assert(p[i] == s[i]);
        }
        lemma_extend_all_len(p);
        let c = s.last();
        assert(c == s[s.len() - 1]);
        assert(children(c).len() == 3);
    }
}

/// The chains up to `m` rails are exactly the rail sequences of 1 to `m` rails in which no rail
/// follows itself, and there are `4·3^(d−1)` of each depth `d`.
pub proof fn chains_are_the_non_repeating_sequences(m: nat, c: Seq<Rail>, d: nat)
    ensures
        chains_spec(m).contains(c) <==> (1 <= c.len() <= m && no_rail_repeats(c)),
        1 <= d ==> depth_chains(d).len() == 4 * vstd::arithmetic::power::pow(3, (d - 1) as nat),
    decreases m,
{
    if d >= 1 {
        lemma_depth_len(d);
    }
    if m > 0 {
        chains_are_the_non_repeating_sequences((m - 1) as nat, c, 0);
        let prev = chains_spec((m - 1) as nat);
        let cur = depth_chains(m);
        let all = chains_spec(m);
        assert(all == prev + cur);
        lemma_depth_shape(m);
        if all.contains(c) {
            let j = choose|j: int| 0 <= j < all.len() && all[j] == c;
            if j >= prev.len() {
                assert(cur[j - prev.len()] == c);
            } else {
                assert(prev[j] == c);
            }
        }
        if 1 <= c.len() <= m && no_rail_repeats(c) {
            if c.len() == m {
                lemma_depth_complete(c);
                let j = choose|j: int| 0 <= j < cur.len() && cur[j] == c;
                assert(all[prev.len() + j] == c);
            } else {
                let j = choose|j: int| 0 <= j < prev.len() && prev[j] == c;
                assert(all[j] == c);
            }
        }
    }
}

} // verus!
