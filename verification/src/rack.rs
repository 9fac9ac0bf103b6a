//! The frozen rack generator: a pure `seed → arrangement` map, asserted never repaired, and the
//! rack invariants it is checked against.

use vstd::prelude::*;
use crate::frame::{
    label_spec, lattice_dist2, neighbour_seq, neighbours_are_exactly_the_slots_two_radii_away,
    slot_at, Slot,
};
use crate::rng::{
    next_below_is_below, next_below_spec, shuffle_permutes, shuffle_spec, SplitMix64,
};
use crate::text::{decimal, push_decimal, push_str};

verus! {

broadcast use vstd::seq_lib::to_multiset_contains;

/// A frozen arrangement: ball numbers by canonical slot index (0..15).
#[derive(Debug, Clone, Copy, PartialEq, Eq)]
pub struct Arrangement {
    /// Ball number per canonical slot index; 1..=15 in every generated arrangement.
    pub slots: [u8; 15],
}

/// Is `b` a group-A ball (1–7)?
pub open spec fn in_group_a(b: u8) -> bool {
    1 <= b <= 7
}

/// The balls `1..=k` that are neither the 8 nor a corner ball, ascending.
pub open spec fn free_upto(k: int, left: u8, right: u8) -> Seq<u8>
    decreases k,
{
    if k <= 0 {
        Seq::empty()
    } else {
        let prev = free_upto(k - 1, left, right);
        if k != 8 && k != left && k != right {
            prev.push(k as u8)
        } else {
            prev
        }
    }
}

/// The 8 in slot (3,1), the corner balls in (5,0) and (5,4), and the twelve free balls dealt to
/// the other slots in canonical order.
pub open spec fn deal(left: u8, right: u8, f: Seq<u8>) -> Seq<u8> {
    seq![
        f[0], f[1], f[2], f[3], 8u8, f[4], f[5], f[6], f[7], f[8], left, f[9], f[10], f[11], right,
    ]
}

/// The corner balls a seed draws and the stream state after those draws: one draw below 2 picks
/// the side group A takes, then one draw below 7 for each corner, (5,0) first.
pub open spec fn corners_spec(seed: u64) -> (u8, u8, u64) {
    let (side, s1) = next_below_spec(seed, 2);
    let (k1, s2) = next_below_spec(s1, 7);
    let (k2, s3) = next_below_spec(s2, 7);
    let left = if side == 0 { 1 + k1 } else { 9 + k1 };
    let right = if side == 0 { 9 + k2 } else { 1 + k2 };
    (left as u8, right as u8, s3)
}

/// The frozen rack function: the corners, then the free twelve shuffled and dealt.
pub open spec fn generate_spec(seed: u64) -> Seq<u8> {
    let (left, right, s3) = corners_spec(seed);
    deal(left, right, shuffle_spec(free_upto(15, left, right), s3).0)
}

/// The rack invariants: the apex filled, the 8 in (3,1), one corner ball from each group, and
/// fifteen distinct ball numbers in 1..=15 (the lattice spacing holds of every slot pair by
/// construction).
pub open spec fn rack_legal(s: Seq<u8>) -> bool {
    &&& s.len() == 15
    &&& s[0] != 0
    &&& s[4] == 8
    &&& in_group_a(s[10]) != in_group_a(s[14])
    &&& forall|i: int| 0 <= i < 15 ==> 1 <= #[trigger] s[i] <= 15
    &&& s.no_duplicates()
}

/// Is the ball at position `k` out of range or already seen at an earlier position?
pub open spec fn bad_at(s: Seq<u8>, k: int) -> bool {
    s[k] == 0 || s[k] > 15 || exists|j: int| 0 <= j < k && s[j] == s[k]
}

/// The first position below `n` whose ball is out of range or repeated, scanning in order.
pub open spec fn first_bad(s: Seq<u8>, n: int) -> Option<int>
    decreases n,
{
    if n <= 0 {
        None
    } else {
        match first_bad(s, n - 1) {
            Some(k) => Some(k),
            None => if bad_at(s, n - 1) {
                Some(n - 1)
            } else {
                None
            },
        }
    }
}

/// The first position at or after `k` holding `b`.
pub open spec fn index_of_from(s: Seq<u8>, b: u8, k: int) -> int
    decreases s.len() - k,
{
    if k >= s.len() || k < 0 {
        s.len() as int
    } else if s[k] == b {
        k
    } else {
        index_of_from(s, b, k + 1)
    }
}

/// The description of the first violated invariant, checked in order, or `None`.
pub open spec fn violation_spec(s: Seq<u8>) -> Option<Seq<char>> {
    if s[0] == 0 {
        Some("slot (1,0) is empty"@)
    } else if s[4] != 8 {
        if s.contains(8) {
            Some("ball 8 is in slot "@ + label_spec(slot_at(index_of_from(s, 8, 0))) + ", not (3,1)"@)
        } else {
            Some("ball 8 is in no slot, not (3,1)"@)
        }
    } else if in_group_a(s[10]) == in_group_a(s[14]) {
        Some(
            "corner slots hold "@ + decimal(s[10] as nat) + " and "@ + decimal(s[14] as nat)
                + ", not one per group"@,
        )
    } else {
        match first_bad(s, 15) {
            Some(k) => if s[k] == 0 || s[k] > 15 {
                Some("slot holds invalid ball number "@ + decimal(s[k] as nat))
            } else {
                Some("ball "@ + decimal(s[k] as nat) + " appears twice"@)
            },
            None => None,
        }
    }
}

proof fn lemma_index_of_from(s: Seq<u8>, b: u8, k: int)
    requires
        0 <= k <= s.len(),
        exists|i: int| k <= i < s.len() && s[i] == b,
    ensures
        k <= index_of_from(s, b, k) < s.len(),
        s[index_of_from(s, b, k)] == b,
        forall|j: int| k <= j < index_of_from(s, b, k) ==> s[j] != b,
    decreases s.len() - k,
{
    if s[k] != b {
        lemma_index_of_from(s, b, k + 1);
    }
}

proof fn lemma_first_bad(s: Seq<u8>, n: int)
    requires
        0 <= n <= s.len(),
    ensures
        first_bad(s, n) is None <==> forall|k: int| 0 <= k < n ==> !bad_at(s, k),
        first_bad(s, n) matches Some(k) ==> 0 <= k < n && bad_at(s, k),
    decreases n,
{
    if n > 0 {
        lemma_first_bad(s, n - 1);
    }
}

/// An arrangement passes the checks exactly when it is legal.
pub proof fn violation_free_iff_legal(s: Seq<u8>)
    requires
        s.len() == 15,
    ensures
        violation_spec(s) is None <==> rack_legal(s),
{
    lemma_first_bad(s, 15);
    if violation_spec(s) is None {
        assert forall|i: int, j: int| 0 <= i < 15 && 0 <= j < 15 && i != j implies s[i] != s[j] by {
            if i < j {
                assert(!bad_at(s, j));
            } else {
                assert(!bad_at(s, i));
            }
        }
        assert forall|i: int| 0 <= i < 15 implies 1 <= #[trigger] s[i] <= 15 by {
            assert(!bad_at(s, i));
        }
    }
    if rack_legal(s) {
        assert forall|k: int| 0 <= k < 15 implies !bad_at(s, k) by {
            assert(1 <= s[k] <= 15);
            if exists|j: int| 0 <= j < k && s[j] == s[k] {
                let j = choose|j: int| 0 <= j < k && s[j] == s[k];
                assert(s[j] != s[k]);
            }
        }
    }
}

proof fn lemma_free_upto(k: int, left: u8, right: u8)
    requires
        0 <= k <= 15,
    ensures
        forall|x: u8| #[trigger]
            free_upto(k, left, right).contains(x) <==> (1 <= x <= k && x != 8 && x != left && x
                != right),
        forall|i: int, j: int|
            0 <= i < j < free_upto(k, left, right).len() ==> free_upto(k, left, right)[i]
                < free_upto(k, left, right)[j],
        free_upto(k, left, right).len() + (if 8 <= k { 1int } else { 0int }) + (if 1 <= left <= k
            && left != 8 { 1int } else { 0int }) + (if 1 <= right <= k && right != 8 && right
            != left { 1int } else { 0int }) == k,
    decreases k,
{
    if k > 0 {
        lemma_free_upto(k - 1, left, right);
        let prev = free_upto(k - 1, left, right);
        if k != 8 && k != left && k != right {
            let cur = prev.push(k as u8);
            assert forall|x: u8| #[trigger] cur.contains(x) <==> (1 <= x <= k && x != 8 && x != left
                && x != right) by {
                if cur.contains(x) {
                    let i = choose|i: int| 0 <= i < cur.len() && cur[i] == x;
                    if i < prev.len() {
                        assert(prev.contains(x));
                    }
                }
                if 1 <= x <= k && x != 8 && x != left && x != right {
                    if x < k {
                        assert(prev.contains(x));
                        let i = choose|i: int| 0 <= i < prev.len() && prev[i] == x;
                        assert(cur[i] == x);
                    } else {
                        assert(cur[prev.len() as int] == x);
                    }
                }
            }
            assert forall|i: int, j: int| 0 <= i < j < cur.len() implies cur[i] < cur[j] by {
                if j == prev.len() {
                    assert(prev.contains(prev[i]));
                }
            }
        }
    }
}

/// The twelve free balls, ascending, for corner balls of different groups.
proof fn lemma_free_twelve(left: u8, right: u8)
    requires
        1 <= left <= 15,
        1 <= right <= 15,
        left != 8,
        right != 8,
        left != right,
    ensures
        free_upto(15, left, right).len() == 12,
        free_upto(15, left, right).no_duplicates(),
        forall|x: u8| #[trigger]
            free_upto(15, left, right).contains(x) <==> (1 <= x <= 15 && x != 8 && x != left && x
                != right),
{
    lemma_free_upto(15, left, right);
}

/// The corners a seed draws are one group-A ball and one group-B ball.
proof fn lemma_corners(seed: u64)
    ensures
        ({
            let (left, right, s3) = corners_spec(seed);
            &&& 1 <= left <= 15 && 1 <= right <= 15
            &&& left != 8 && right != 8
            &&& in_group_a(left) != in_group_a(right)
        }),
{
    let (side, s1) = next_below_spec(seed, 2);
    let (k1, s2) = next_below_spec(s1, 7);
    let (k2, s3) = next_below_spec(s2, 7);
    next_below_is_below(seed, 2);
    next_below_is_below(s1, 7);
    next_below_is_below(s2, 7);
}

/// Every seed generates a legal rack: the generator is never repaired.
pub proof fn every_generated_rack_is_legal(seed: u64)
    ensures
        rack_legal(generate_spec(seed)),
        violation_spec(generate_spec(seed)) is None,
{
    broadcast use vstd::multiset::group_multiset_axioms;
    let (left, right, s3) = corners_spec(seed);
    lemma_corners(seed);
    let free = free_upto(15, left, right);
    lemma_free_twelve(left, right);
    shuffle_permutes(free, s3, free.len() - 1);
    let f = shuffle_spec(free, s3).0;
    assert(f.to_multiset() == free.to_multiset());
    free.lemma_multiset_has_no_duplicates();
    f.lemma_multiset_has_no_duplicates_conv();
    assert forall|x: u8| #[trigger] f.contains(x) <==> free.contains(x) by {
        assert(f.contains(x) <==> f.to_multiset().count(x) > 0);
        assert(free.contains(x) <==> free.to_multiset().count(x) > 0);
    }
    let s = generate_spec(seed);
    assert(s == deal(left, right, f));
    assert forall|i: int| 0 <= i < 12 implies 1 <= #[trigger] f[i] <= 15 && f[i] != 8 && f[i]
        != left && f[i] != right by {
        assert(f.contains(f[i]));
    }
    assert forall|i: int| 0 <= i < 15 implies 1 <= #[trigger] s[i] <= 15 by {
        if i < 4 {
            assert(s[i] == f[i]);
        } else if 5 <= i < 10 {
            assert(s[i] == f[i - 1]);
        } else if 11 <= i < 14 {
            assert(s[i] == f[i - 2]);
        }
    }
    let pos = |i: int| if i < 4 { i } else if i < 10 { i - 1 } else { i - 2 };
    assert forall|i: int, j: int| 0 <= i < 15 && 0 <= j < 15 && i != j implies s[i] != s[j] by {
        let fi = i != 4 && i != 10 && i != 14;
        let fj = j != 4 && j != 10 && j != 14;
        if fi {
            assert(s[i] == f[pos(i)]);
        }
        if fj {
            assert(s[j] == f[pos(j)]);
        }
        if fi && fj {
            assert(f[pos(i)] != f[pos(j)]);
        }
    }
    violation_free_iff_legal(s);
}

impl Arrangement {
    /// The ball in a slot.
    pub fn ball_at(&self, slot: Slot) -> (b: u8)
        requires
            1 <= slot.row <= 5,
            slot.canonical() < 15,
        ensures
            b == self.slots@[slot.canonical()],
    {
        self.slots[slot.canonical_index()]
    }

    /// The slot holding a ball number: the first slot, in canonical order, that holds it.
    pub fn slot_of(&self, ball: u8) -> (s: Slot)
        requires
            self.slots@.contains(ball),
        ensures
            s == slot_at(index_of_from(self.slots@, ball, 0)),
    {
        proof {
            lemma_index_of_from(self.slots@, ball, 0);
        }
        let mut i: usize = 0;
        while i < 15 && self.slots[i] != ball
            invariant
                0 <= i <= 15,
                self.slots@.len() == 15,
                self.slots@.contains(ball),
                forall|j: int| 0 <= j < i ==> self.slots@[j] != ball,
                index_of_from(self.slots@, ball, 0) == index_of_from(self.slots@, ball, i as int),
            decreases 15 - i,
        {
            i = i + 1;
        }
        proof {
            if i == 15 {
                let k = choose|k: int| 0 <= k < 15 && self.slots@[k] == ball;
                assert(self.slots@[k] != ball);
            }
        }
        Slot::from_canonical_index(i)
    }

    /// The arrangement as `(slot label, ball)` pairs in canonical slot order.
    pub fn labelled(&self) -> (out: Vec<(String, u8)>)
        ensures
            out@.len() == 15,
            forall|i: int|
                0 <= i < 15 ==> (#[trigger] out@[i]).0@ == label_spec(slot_at(i)) && out@[i].1
                    == self.slots@[i],
    {
        let mut out: Vec<(String, u8)> = Vec::new();
        let mut i: usize = 0;
        while i < 15
            invariant
                0 <= i <= 15,
                out@.len() == i,
                forall|k: int|
                    0 <= k < i ==> (#[trigger] out@[k]).0@ == label_spec(slot_at(k)) && out@[k].1
                        == self.slots@[k],
            decreases 15 - i,
        {
            let label = Slot::from_canonical_index(i).label();
            out.push((label, self.slots[i]));
            i = i + 1;
        }
        out
    }
}

/// The frozen rack function: `seed → arrangement`. Draws, in order: one draw below 2 for the
/// corner sides, two draws below 7 for the corner balls (slot (5,0) then (5,4)), then the 12-ball
/// Fisher–Yates descending shuffle of the free balls, which are dealt in canonical slot order.
pub fn generate(seed: u64) -> (a: Arrangement)
    ensures
        a.slots@ == generate_spec(seed),
        rack_legal(a.slots@),
{
    let mut rng = SplitMix64::new(seed);
    // Corner sides: 0 puts group A (1–7) in (5,0) and group B (9–15) in (5,4); 1 the reverse.
    let side = rng.next_below(2);
    // Corner balls, each over its group in ascending order.
    let k1 = rng.next_below(7);
    let left: u8 = if side == 0 { 1 + k1 as u8 } else { 9 + k1 as u8 };
    let k2 = rng.next_below(7);
    let right: u8 = if side == 0 { 9 + k2 as u8 } else { 1 + k2 as u8 };
    let ghost s3 = rng@;
    assert(corners_spec(seed) == (left, right, s3));
    // The free shuffle: the 12 balls that are neither the 8 nor a corner ball, ascending.
    let mut free: Vec<u8> = Vec::new();
    let mut b: u8 = 1;
    while b <= 15
        invariant
            1 <= b <= 16,
            free@ == free_upto(b - 1, left, right),
        decreases 16 - b,
    {
        if b != 8 && b != left && b != right {
            free.push(b);
        }
        b = b + 1;
    }
    proof {
        lemma_corners(seed);
        lemma_free_twelve(left, right);
        shuffle_permutes(free@, s3, free@.len() - 1);
    }
    rng.shuffle(&mut free);
    // The 8 takes (3,1); the shuffled 12 are dealt in canonical slot order.
    let a = Arrangement {
        slots: [
            free[0], free[1], free[2], free[3], 8, free[4], free[5], free[6], free[7], free[8], left,
            free[9], free[10], free[11], right,
        ],
    };
    proof {
        every_generated_rack_is_legal(seed);
    }
    assert(a.slots@ =~= generate_spec(seed));
    a
}

/// Is `ball` in one of the slots?
fn contains_ball(slots: &[u8; 15], ball: u8) -> (r: bool)
    ensures
        r == slots@.contains(ball),
{
    let mut i: usize = 0;
    while i < 15
        invariant
            0 <= i <= 15,
            slots@.len() == 15,
            forall|j: int| 0 <= j < i ==> slots@[j] != ball,
        decreases 15 - i,
    {
        if slots[i] == ball {
            assert(slots@[i as int] == ball);
            return true;
        }
        i = i + 1;
    }
    false
}

/// The rack invariants, checked on an arrangement. A violation is a bug.
///
/// Returns the violated invariant's description: the apex slot empty, ball 8 outside (3,1) (in
/// another slot, or in none), the corner slots not holding one ball per group, a slot holding a
/// ball number outside 1..=15, or a ball appearing twice; every neighbour pair of slots lies
/// exactly `2R` apart by the lattice's construction.
pub fn check_invariants(arrangement: &Arrangement) -> (r: Result<(), String>)
    ensures
        match r {
            Ok(()) => violation_spec(arrangement.slots@) is None,
            Err(m) => violation_spec(arrangement.slots@) == Some(m@),
        },
        r is Ok <==> rack_legal(arrangement.slots@),
{
    let ghost s = arrangement.slots@;
    proof {
        violation_free_iff_legal(s);
    }
    let slots = &arrangement.slots;
    // 1. the apex ball is in slot (1,0)
    if slots[0] == 0 {
        let mut m = String::new();
        push_str(&mut m, "slot (1,0) is empty");
        return Err(m);
    }
    // 2. ball 8 is in slot (3,1)
    if slots[4] != 8 {
        let mut m = String::new();
        if !contains_ball(slots, 8) {
            push_str(&mut m, "ball 8 is in no slot, not (3,1)");
            return Err(m);
        }
        push_str(&mut m, "ball 8 is in slot ");
        let label = arrangement.slot_of(8).label();
        push_str(&mut m, label.as_str());
        push_str(&mut m, ", not (3,1)");
        return Err(m);
    }
    // 3. slots (5,0) and (5,4) hold one ball from each group
    let corner_a = slots[10];
    let corner_b = slots[14];
    let a_in_a = 1 <= corner_a && corner_a <= 7;
    let b_in_a = 1 <= corner_b && corner_b <= 7;
    if a_in_a == b_in_a {
        let mut m = String::new();
        push_str(&mut m, "corner slots hold ");
        push_decimal(&mut m, corner_a as u64);
        push_str(&mut m, " and ");
        push_decimal(&mut m, corner_b as u64);
        push_str(&mut m, ", not one per group");
        return Err(m);
    }
    // 4. the 15 slots hold 15 distinct ball numbers
    let mut seen: Vec<bool> = vec![false; 16];
    let mut k: usize = 0;
    while k < 15
        invariant
            0 <= k <= 15,
            s == arrangement.slots@,
            s.len() == 15,
            seen@.len() == 16,
            first_bad(s, k as int) is None,
            s[0] != 0,
            s[4] == 8,
            in_group_a(s[10]) != in_group_a(s[14]),
            forall|b: int| 0 <= b < 16 ==> (#[trigger] seen@[b] <==> exists|j: int| 0 <= j < k && s[j] == b),
        decreases 15 - k,
    {
        let ball = arrangement.slots[k];
        proof {
            lemma_first_bad(s, k as int);
            lemma_first_bad(s, k + 1);
        }
        assert(ball == s[k as int]);
        if ball == 0 || ball > 15 {
            assert(bad_at(s, k as int));
            assert(bad_at(s, (k + 1) - 1));
            assert(first_bad(s, k + 1) == Some(k as int));
            assert(first_bad(s, 15) == Some(k as int)) by {
                lemma_first_bad_stable(s, k as int + 1, 15);
            }
            let mut m = String::new();
            push_str(&mut m, "slot holds invalid ball number ");
            push_decimal(&mut m, ball as u64);
            return Err(m);
        }
        if seen[ball as usize] {
            assert(seen@[ball as int]);
            let ghost j = choose|j: int| 0 <= j < k && s[j] == ball;
            assert(bad_at(s, k as int));
            assert(bad_at(s, (k + 1) - 1));
            assert(first_bad(s, k + 1) == Some(k as int));
            assert(first_bad(s, 15) == Some(k as int)) by {
                lemma_first_bad_stable(s, k as int + 1, 15);
            }
            let mut m = String::new();
            push_str(&mut m, "ball ");
            push_decimal(&mut m, ball as u64);
            push_str(&mut m, " appears twice");
            return Err(m);
        }
        assert(!bad_at(s, k as int));
        seen.set(ball as usize, true);
        k = k + 1;
    }
    // 5. every adjacent pair of slots is exactly 2R apart
    let mut index: usize = 0;
    while index < 15
        invariant
            0 <= index <= 15,
        decreases 15 - index,
    {
        let slot = Slot::from_canonical_index(index);
        let neighbours = slot.neighbours();
        let mut n: usize = 0;
        while n < neighbours.len()
            invariant
                slot.wf(),
                neighbours@ == neighbour_seq(slot),
                0 <= n <= neighbours.len(),
            decreases neighbours.len() - n,
        {
            let other = neighbours[n];
            proof {
                assert(neighbour_seq(slot).contains(other));
                neighbours_are_exactly_the_slots_two_radii_away(slot, other);
            }
            let dr: i32 = other.row as i32 - slot.row as i32;
            let dy: i32 = 2 * (other.index as i32 - slot.index as i32) - dr;
            assert(-4 <= dr <= 4 && -12 <= dy <= 12);
            assert(dr * dr <= 16 && dy * dy <= 144) by (nonlinear_arith)
                requires
                    -4 <= dr <= 4,
                    -12 <= dy <= 12,
            ;
            assert(3 * (dr * dr) + dy * dy == lattice_dist2(slot, other));
            if 3 * (dr * dr) + dy * dy != 4 {
                let mut m = String::new();
                push_str(&mut m, "lattice spacing is off");
                return Err(m);
            }
            n = n + 1;
        }
        index = index + 1;
    }
    Ok(())
}

proof fn lemma_first_bad_stable(s: Seq<u8>, n: int, m: int)
    requires
        0 <= n <= m,
        first_bad(s, n) is Some,
    ensures
        first_bad(s, m) == first_bad(s, n),
    decreases m - n,
{
    if m > n {
        lemma_first_bad_stable(s, n, m - 1);
    }
}

/// In a legal rack the slot of a ball and the ball in a slot undo each other: every ball 1..=15
/// is in the rack and its slot holds it, and every slot is the slot of the ball it holds.
pub proof fn slot_of_and_ball_at_undo_each_other(s: Seq<u8>, b: u8, i: int)
    requires
        rack_legal(s),
    ensures
        1 <= b <= 15 ==> s.contains(b) && s[slot_at(index_of_from(s, b, 0)).canonical()] == b,
        0 <= i < 15 ==> slot_at(index_of_from(s, s[i], 0)) == slot_at(i),
{
    if 1 <= b <= 15 {
        lemma_legal_holds_every_ball(s, b);
        lemma_index_of_from(s, b, 0);
        crate::frame::canonical_index_is_a_bijection(slot_at(0), index_of_from(s, b, 0));
    }
    if 0 <= i < 15 {
        assert(s.contains(s[i]));
        lemma_index_of_from(s, s[i], 0);
        let k = index_of_from(s, s[i], 0);
        assert(s.no_duplicates());
        assert(k == i);
    }
}

/// A legal rack holds every ball 1..=15: fifteen distinct numbers in 1..=15 are all of them.
proof fn lemma_legal_holds_every_ball(s: Seq<u8>, b: u8)
    requires
        rack_legal(s),
        1 <= b <= 15,
    ensures
        s.contains(b),
{
    let present = s.to_set();
    s.unique_seq_to_set();
    assert(present.len() == 15);
    let all = Set::new(|x: u8| 1 <= x <= 15);
    assert(present.subset_of(all)) by {
        assert forall|x: u8| present.contains(x) implies all.contains(x) by {
            let k = choose|k: int| 0 <= k < s.len() && s[k] == x;
            assert(1 <= s[k] <= 15);
        }
    }
    lemma_ball_range_has_fifteen();
    if !present.contains(b) {
        let smaller = all.remove(b);
        assert(present.subset_of(smaller));
        vstd::set_lib::lemma_len_subset(present, smaller);
        assert(false);
    }
    assert(s.contains(b));
}

proof fn lemma_ball_range_has_fifteen()
    ensures
        Set::new(|x: u8| 1 <= x <= 15).len() == 15,
        Set::new(|x: u8| 1 <= x <= 15).finite(),
{
    let all = Set::new(|x: u8| 1 <= x <= 15);
    let lit = set![1u8, 2u8, 3u8, 4u8, 5u8, 6u8, 7u8, 8u8, 9u8, 10u8, 11u8, 12u8, 13u8, 14u8, 15u8];
    assert(all =~= lit);
    assert(lit.len() == 15);
}

} // verus!
