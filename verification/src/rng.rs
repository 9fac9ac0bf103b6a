//! The SplitMix64 stream: the deterministic generator the rack and the prototypes draw from.

use vstd::prelude::*;

verus! {

/// The SplitMix64 increment (the golden-ratio gamma).
pub const GAMMA: u64 = 0x9E37_79B9_7F4A_7C15;
/// The first finaliser multiplier.
pub const MIX1: u64 = 0xBF58_476D_1CE4_E5B9;
/// The second finaliser multiplier.
pub const MIX2: u64 = 0x94D0_49BB_1331_11EB;

/// `x * y` modulo 2^64.
#[verifier::opaque]
pub open spec fn mul64(x: u64, y: u64) -> u64 {
    ((x as nat * y as nat) % 0x1_0000_0000_0000_0000) as u64
}

/// The state after one step: the old state plus the gamma, modulo 2^64.
pub open spec fn advance(state: u64) -> u64 {
    ((state as nat + GAMMA as nat) % 0x1_0000_0000_0000_0000) as u64
}

/// The SplitMix64 finaliser applied to a state.
#[verifier::opaque]
pub open spec fn mix(z: u64) -> u64 {
    let z1 = mul64(z ^ (z >> 30u64), MIX1);
    let z2 = mul64(z1 ^ (z1 >> 27u64), MIX2);
    z2 ^ (z2 >> 31u64)
}

/// The rejection threshold of an unbiased draw below `n`: `(2^64 − n) mod n`.
pub open spec fn below_threshold(n: u64) -> u64 {
    ((0x1_0000_0000_0000_0000 - n) % (n as int)) as u64
}

/// The number of further draws a single `next_below` call may reject before it takes what it
/// has. The stream visits every 64-bit output within one period, so the bound is never reached.
pub open spec fn draw_budget() -> nat {
    0xFFFF_FFFF_FFFF_FFFF
}

/// An unbiased draw below `n` by multiply-and-reject, from `state`, with `budget` rejections left:
/// the result and the state after the last draw.
pub open spec fn below_from(state: u64, n: u64, budget: nat) -> (u64, u64)
    decreases budget,
{
    let s1 = advance(state);
    let m = mix(s1) as nat * n as nat;
    let low = m % 0x1_0000_0000_0000_0000;
    if low >= below_threshold(n) || budget == 0 {
        ((m / 0x1_0000_0000_0000_0000) as u64, s1)
    } else {
        below_from(s1, n, (budget - 1) as nat)
    }
}

/// A draw below `n` from `state`: the value and the state after it.
pub open spec fn next_below_spec(state: u64, n: u64) -> (u64, u64) {
    below_from(state, n, draw_budget())
}

/// The Fisher–Yates descending shuffle of `v` from `state`, for positions `0..=i`: the shuffled
/// sequence and the state after it.
pub open spec fn shuffle_from(v: Seq<u8>, state: u64, i: int) -> (Seq<u8>, u64)
    decreases i,
{
    if i <= 0 {
        (v, state)
    } else {
        let (j, s1) = next_below_spec(state, (i + 1) as u64);
        let w = v.update(i, v[j as int]).update(j as int, v[i]);
        shuffle_from(w, s1, i - 1)
    }
}

/// The Fisher–Yates descending shuffle of all of `v` from `state`.
pub open spec fn shuffle_spec(v: Seq<u8>, state: u64) -> (Seq<u8>, u64) {
    shuffle_from(v, state, v.len() - 1)
}

/// A SplitMix64 stream; its view is the current state.
pub struct SplitMix64(pub u64);

impl View for SplitMix64 {
    type V = u64;

    open spec fn view(&self) -> u64 {
        self.0
    }
}

proof fn lemma_below_bounds(state: u64, n: u64, budget: nat)
    requires
        n > 0,
    ensures
        below_from(state, n, budget).0 < n,
    decreases budget,
{
    let s1 = advance(state);
    let x = mix(s1) as nat;
    let m = x * n as nat;
    assert(x < 0x1_0000_0000_0000_0000);
    assert(m < 0x1_0000_0000_0000_0000 * (n as nat)) by (nonlinear_arith)
        requires
            x < 0x1_0000_0000_0000_0000,
            m == x * n as nat,
            n > 0,
    ;
    assert(m / 0x1_0000_0000_0000_0000 < n) by (nonlinear_arith)
        requires
            m < 0x1_0000_0000_0000_0000 * (n as nat),
    ;
    if budget > 0 {
        lemma_below_bounds(s1, n, (budget - 1) as nat);
    }
}

/// Every draw below `n` is below `n`.
pub proof fn next_below_is_below(state: u64, n: u64)
    requires
        n > 0,
    ensures
        next_below_spec(state, n).0 < n,
{
    lemma_below_bounds(state, n, draw_budget());
}

/// The shuffle only permutes: the shuffled sequence has the same elements with the same counts.
pub proof fn shuffle_permutes(v: Seq<u8>, state: u64, i: int)
    requires
        i < v.len() <= 0xFFFF_FFFF_FFFF_FFFF,
    ensures
        shuffle_from(v, state, i).0.len() == v.len(),
        shuffle_from(v, state, i).0.to_multiset() == v.to_multiset(),
    decreases i,
{
    broadcast use vstd::seq_lib::to_multiset_update;
    broadcast use vstd::seq_lib::to_multiset_contains;
    broadcast use vstd::multiset::group_multiset_properties;
    broadcast use vstd::multiset::group_multiset_axioms;
    if i > 0 {
        let (j, s1) = next_below_spec(state, (i + 1) as u64);
        next_below_is_below(state, (i + 1) as u64);
        let w1 = v.update(i, v[j as int]);
        let w = w1.update(j as int, v[i]);
        assert(w1.to_multiset() == v.to_multiset().insert(v[j as int]).remove(v[i]));
        assert(w.to_multiset() == w1.to_multiset().insert(v[i]).remove(w1[j as int]));
        assert(w1[j as int] == v[j as int]);
        let m = v.to_multiset();
        assert(v.contains(v[i]));
        assert(m.count(v[i]) > 0);
        assert(w.to_multiset() =~= m);
        shuffle_permutes(w, s1, i - 1);
    }
}

impl SplitMix64 {
    /// A stream seeded with `seed`.
    pub fn new(seed: u64) -> (r: Self)
        ensures
            r@ == seed,
    {
        SplitMix64(seed)
    }

    /// The next 64-bit output: step the state by the gamma, then finalise it.
    pub fn next_u64(&mut self) -> (r: u64)
        ensures
            final(self)@ == advance(old(self)@),
            r == mix(final(self)@),
    {
        reveal(mix);
        reveal(mul64);
        self.0 = self.0.wrapping_add(GAMMA);
        let mut z = self.0;
        z = (z ^ (z >> 30)).wrapping_mul(MIX1);
        z = (z ^ (z >> 27)).wrapping_mul(MIX2);
        z ^ (z >> 31)
    }

    /// An unbiased draw below `n` (`n > 0`): the high word of `x·n` for the first draw `x` whose
    /// low word is not below `(2^64 − n) mod n`.
    pub fn next_below(&mut self, n: u64) -> (r: u64)
        requires
            n > 0,
        ensures
            (r, final(self)@) == next_below_spec(old(self)@, n),
            r < n,
    {
        proof {
            next_below_is_below(old(self)@, n);
        }
        let threshold = ((0x1_0000_0000_0000_0000u128 - n as u128) % (n as u128)) as u64;
        assert(threshold == below_threshold(n));
        let mut budget: u64 = 0xFFFF_FFFF_FFFF_FFFF;
        loop
            invariant
                below_from(self@, n, budget as nat) == next_below_spec(old(self)@, n),
                next_below_spec(old(self)@, n).0 < n,
                threshold == below_threshold(n),
                n > 0,
            decreases budget,
        {
            let ghost before = self@;
            let x = self.next_u64();
            assert((x as u128) * (n as u128) < 0x1_0000_0000_0000_0000_0000_0000_0000_0000) by (nonlinear_arith)
                requires
                    x < 0x1_0000_0000_0000_0000,
                    n < 0x1_0000_0000_0000_0000,
            ;
            let m: u128 = (x as u128) * (n as u128);
            let low = (m % 0x1_0000_0000_0000_0000) as u64;
            if low >= threshold || budget == 0 {
                let r = (m / 0x1_0000_0000_0000_0000) as u64;
                assert(below_from(before, n, budget as nat) == (r, self@));
                return r;
            }
            budget = budget - 1;
        }
    }

    /// The Fisher–Yates descending shuffle: for `i` from the last position down to 1, swap
    /// position `i` with a draw below `i + 1`.
    pub fn shuffle(&mut self, v: &mut Vec<u8>)
        requires
            old(v).len() < 0xFFFF_FFFF_FFFF_FFFF,
        ensures
            (final(v)@, final(self)@) == shuffle_spec(old(v)@, old(self)@),
    {
        let len = v.len();
        if len <= 1 {
            return;
        }
        let mut i = len - 1;
        loop
            invariant
                1 <= i < len == v.len(),
                len < 0xFFFF_FFFF_FFFF_FFFF,
                shuffle_from(v@, self@, i as int) == shuffle_spec(old(v)@, old(self)@),
            decreases i,
        {
            let ghost v0 = v@;
            let ghost s0 = self@;
            let j = self.next_below((i + 1) as u64) as usize;
            let vi = v[i];
            let vj = v[j];
            v.set(i, vj);
            v.set(j, vi);
            assert(shuffle_from(v0, s0, i as int) == shuffle_from(v@, self@, i - 1));
            if i == 1 {
                assert(shuffle_from(v@, self@, 0) == (v@, self@));
                return;
            }
            i = i - 1;
        }
    }
}

} // verus!
