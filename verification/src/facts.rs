//! The fact stream: the vocabulary the rules layer reads, and the rail summary derived from it.
//!
//! The simulation reports facts and never knows about fouls, groups, or turns: the kinds below,
//! their `seq` order, and their simultaneity group are the physics half of the observation
//! contract.

use vstd::prelude::*;
use crate::ball::BallState;
use crate::table::{PocketId, Rail};

verus! {

/// Why a ball left the cloth vertically.
#[derive(Debug, Clone, Copy, PartialEq, Eq, Structural)]
pub enum KickCause {
    /// A cushion contact's tilted normal drove the ball down; the cloth returned it.
    CushionPop,
    /// An airborne ball landed and bounced.
    Landing,
}

/// A fact's kind.
#[derive(Debug, Clone, Copy, PartialEq, Eq, Structural)]
pub enum FactKind {
    /// Two balls touched. The two ids are in candidate order, not sorted.
    BallBall {
        /// One ball's id.
        a: u8,
        /// The other ball's id.
        b: u8,
    },
    /// A ball touched a cushion face. A contact counts toward "driven to a rail" iff
    /// `¬frozen_at_shot_start ∨ left_since_shot_start`.
    RailContact {
        /// The ball that touched the rail.
        ball: u8,
        /// Which rail.
        rail: Rail,
        /// Was the ball in contact with this rail in the state at shot start?
        frozen_at_shot_start: bool,
        /// Has the ball separated from this rail at any time since shot start?
        left_since_shot_start: bool,
    },
    /// A ball touched a jaw tip or a jaw face.
    JawContact {
        /// The ball that touched the jaw.
        ball: u8,
        /// The pocket whose jaw it was.
        pocket: PocketId,
    },
    /// A ball's centre crossed into a mouth.
    Pocketed {
        /// The ball that crossed.
        ball: u8,
        /// The mouth it crossed into.
        pocket: PocketId,
    },
    /// A ball left the playing surface.
    OffTable {
        /// The ball that left.
        ball: u8,
    },
    /// A ball left the cloth vertically.
    Kick {
        /// The ball that popped.
        ball: u8,
        /// What drove it: a cushion contact or a landing.
        cause: KickCause,
    },
    /// A ball's state snapped below the sleep thresholds.
    Rest {
        /// The ball that stopped.
        ball: u8,
    },
    /// A ball's contact point stopped slipping: sliding → rolling.
    SlideToRoll {
        /// The ball that transitioned.
        ball: u8,
    },
    /// A ball's translation stopped: rolling → spinning or stationary.
    RollToStop {
        /// The ball that stopped translating.
        ball: u8,
    },
    /// A spinning ball's spin decayed below the sleep threshold: spinning → stationary.
    SpinDown {
        /// The ball whose spin died.
        ball: u8,
    },
    /// The position-only separation step ran for two overlapping balls.
    Depenetration {
        /// The lower ball id.
        a: u8,
        /// The higher ball id.
        b: u8,
    },
}

/// One fact. `group` is the simultaneity group where grouping applies; `t` is the bit pattern of
/// the exact event time (s).
#[derive(Debug, Clone, Copy, PartialEq, Eq)]
pub struct Fact {
    /// The fact's monotone index within its shot, from 0.
    pub seq: u64,
    /// The exact event time (s), as the bit pattern of the `f64`.
    pub t: u64,
    /// The simultaneity group, where grouping applies.
    pub group: Option<u32>,
    /// What happened.
    pub kind: FactKind,
}

/// The rail-contact counts in the physical reading: distinct object balls that actually touched a
/// rail, excluding balls pocketed or driven off the table.
#[derive(Debug, Clone, PartialEq, Eq)]
pub struct RailSummary {
    /// Counted contacts by object balls: all rail contacts minus the frozen ones.
    pub contacts: usize,
    /// Contacts suppressed by the frozen-at-shot-start clause (ball never left that rail).
    pub suppressed_frozen: usize,
    /// Distinct object balls with at least one counted contact that finished in play.
    pub distinct_object_balls: usize,
    /// Per-ball rail sets, ascending by ball id, over the counted contacts.
    pub per_ball: Vec<(u8, Vec<Rail>)>,
}

impl Default for RailSummary {
    /// No contacts, nothing suppressed, no balls.
    fn default() -> (s: RailSummary)
        ensures
            s.contacts == 0,
            s.suppressed_frozen == 0,
            s.distinct_object_balls == 0,
            s.per_ball@.len() == 0,
    {
        RailSummary { contacts: 0, suppressed_frozen: 0, distinct_object_balls: 0, per_ball: Vec::new() }
    }
}

/// The object-ball rail contact a fact counts, if it counts one.
pub open spec fn counted_contact(f: Fact) -> Option<(u8, Rail)> {
    match f.kind {
        FactKind::RailContact { ball, rail, frozen_at_shot_start, left_since_shot_start } => if ball
            != 0 && (!frozen_at_shot_start || left_since_shot_start) {
            Some((ball, rail))
        } else {
            None
        },
        _ => None,
    }
}

/// Is the fact an object-ball rail contact suppressed by the frozen clause?
pub open spec fn suppressed_contact(f: Fact) -> bool {
    match f.kind {
        FactKind::RailContact { ball, frozen_at_shot_start, left_since_shot_start, .. } => ball != 0
            && frozen_at_shot_start && !left_since_shot_start,
        _ => false,
    }
}

/// The number of counted contacts among `facts`.
pub open spec fn count_counted(facts: Seq<Fact>) -> nat
    decreases facts.len(),
{
    if facts.len() == 0 {
        0
    } else {
        count_counted(facts.drop_last()) + (if counted_contact(facts.last()) is Some { 1nat } else { 0nat })
    }
}

/// The number of suppressed contacts among `facts`.
pub open spec fn count_suppressed(facts: Seq<Fact>) -> nat
    decreases facts.len(),
{
    if facts.len() == 0 {
        0
    } else {
        count_suppressed(facts.drop_last()) + (if suppressed_contact(facts.last()) { 1nat } else { 0nat })
    }
}

/// The rails ball `b` was counted against, each once, in order of first counted contact.
pub open spec fn rails_of(facts: Seq<Fact>, b: u8) -> Seq<Rail>
    decreases facts.len(),
{
    if facts.len() == 0 {
        Seq::empty()
    } else {
        let prev = rails_of(facts.drop_last(), b);
        match counted_contact(facts.last()) {
            Some((ball, rail)) => if ball == b && !prev.contains(rail) {
                prev.push(rail)
            } else {
                prev
            },
            None => prev,
        }
    }
}

/// The balls below `n` with at least one counted contact, ascending.
pub open spec fn touched_below(facts: Seq<Fact>, n: int) -> Seq<u8>
    decreases n,
{
    if n <= 0 {
        Seq::empty()
    } else {
        let prev = touched_below(facts, n - 1);
        if rails_of(facts, (n - 1) as u8).len() > 0 {
            prev.push((n - 1) as u8)
        } else {
            prev
        }
    }
}

/// Did ball `b` finish in play? Ids beyond the sixteen states do not.
pub open spec fn finished_in_play(rest: Seq<BallState>, b: u8) -> bool {
    (b as int) < rest.len() && rest[b as int].in_play_spec()
}

/// The number of balls among `balls` that finished in play.
pub open spec fn count_in_play(balls: Seq<u8>, rest: Seq<BallState>) -> nat
    decreases balls.len(),
{
    if balls.len() == 0 {
        0
    } else {
        count_in_play(balls.drop_last(), rest) + (if finished_in_play(rest, balls.last()) { 1nat } else { 0nat })
    }
}

/// The per-ball rail sets: every ball with a counted contact, ascending, with its rails.
pub open spec fn per_ball_spec(facts: Seq<Fact>) -> Seq<(u8, Seq<Rail>)> {
    touched_below(facts, 256).map_values(|b: u8| (b, rails_of(facts, b)))
}

/// The view of a per-ball list with its inner rail vectors as sequences.
pub open spec fn per_ball_view(v: Seq<(u8, Vec<Rail>)>) -> Seq<(u8, Seq<Rail>)> {
    v.map_values(|p: (u8, Vec<Rail>)| (p.0, p.1@))
}

fn contains_rail(rails: &Vec<Rail>, rail: Rail) -> (r: bool)
    ensures
        r == rails@.contains(rail),
{
    let mut i: usize = 0;
    while i < rails.len()
        invariant
            0 <= i <= rails.len(),
            forall|j: int| 0 <= j < i ==> rails@[j] != rail,
        decreases rails.len() - i,
    {
        if rails[i] == rail {
            return true;
        }
        i = i + 1;
    }
    false
}

/// Derive the rail summary from a shot's facts and its rest states.
///
/// The cue ball is not an object ball and contributes nothing. A ball that is pocketed or off the
/// table at rest contributes no rail even if it touched one on the way.
pub fn rail_summary(facts: &[Fact], rest_states: &[BallState; 16]) -> (summary: RailSummary)
    ensures
        summary.contacts == count_counted(facts@),
        summary.suppressed_frozen == count_suppressed(facts@),
        per_ball_view(summary.per_ball@) == per_ball_spec(facts@),
        summary.distinct_object_balls == count_in_play(touched_below(facts@, 256), rest_states@),
{
    let mut contacts: usize = 0;
    let mut suppressed_frozen: usize = 0;
    let mut by_ball: Vec<Vec<Rail>> = Vec::new();
    let mut b: usize = 0;
    while b < 256
        invariant
            0 <= b <= 256,
            by_ball@.len() == b,
            forall|k: int| 0 <= k < b ==> (#[trigger] by_ball@[k])@ == Seq::<Rail>::empty(),
        decreases 256 - b,
    {
        by_ball.push(Vec::new());
        b = b + 1;
    }
    let mut i: usize = 0;
    while i < facts.len()
        invariant
            0 <= i <= facts@.len(),
            by_ball@.len() == 256,
            contacts == count_counted(facts@.subrange(0, i as int)),
            suppressed_frozen == count_suppressed(facts@.subrange(0, i as int)),
            contacts <= i,
            suppressed_frozen <= i,
            forall|k: int|
                0 <= k < 256 ==> (#[trigger] by_ball@[k])@ == rails_of(facts@.subrange(0, i as int), k as u8),
        decreases facts@.len() - i,
    {
        let ghost pre = facts@.subrange(0, i as int);
        let ghost next = facts@.subrange(0, i + 1);
        assert(next.drop_last() =~= pre);
        assert(next.last() == facts@[i as int]);
        let fact = facts[i];
        match fact.kind {
            FactKind::RailContact { ball, rail, frozen_at_shot_start, left_since_shot_start } => {
                if ball != 0 {
                    let counts = !frozen_at_shot_start || left_since_shot_start;
                    if !counts {
                        suppressed_frozen = suppressed_frozen + 1;
                    } else {
                        contacts = contacts + 1;
                        let mut rails = by_ball[ball as usize].clone();
                        assert(rails@ =~= by_ball@[ball as int]@);
                        if !contains_rail(&rails, rail) {
                            rails.push(rail);
                        }
                        by_ball.set(ball as usize, rails);
                    }
                }
            },
            _ => {},
        }
        assert forall|k: int| 0 <= k < 256 implies (#[trigger] by_ball@[k])@ == rails_of(next, k as u8) by {
            assert((k as u8) as int == k);
        }
        i = i + 1;
    }
    let ghost all = facts@;
    assert(facts@.subrange(0, facts@.len() as int) =~= all);
    let mut per_ball: Vec<(u8, Vec<Rail>)> = Vec::new();
    let mut distinct_object_balls: usize = 0;
    let mut b: usize = 0;
    while b < 256
        invariant
            0 <= b <= 256,
            by_ball@.len() == 256,
            forall|k: int| 0 <= k < 256 ==> (#[trigger] by_ball@[k])@ == rails_of(all, k as u8),
            per_ball_view(per_ball@) == touched_below(all, b as int).map_values(|x: u8| (x, rails_of(all, x))),
            distinct_object_balls == count_in_play(touched_below(all, b as int), rest_states@),
            distinct_object_balls <= b,
        decreases 256 - b,
    {
        let ghost prev_pb = per_ball@;
        assert((b as u8) as int == b);
        if by_ball[b].len() > 0 {
            let rails = by_ball[b].clone();
            assert(rails@ =~= by_ball@[b as int]@);
            per_ball.push((b as u8, rails));
            let in_play = b < 16 && rest_states[b].in_play();
            let ghost t = touched_below(all, b + 1);
            assert(rails_of(all, b as u8).len() > 0);
            assert(t == touched_below(all, b as int).push(b as u8));
            assert(per_ball@ == prev_pb.push((b as u8, rails)));
            assert(t.drop_last() =~= touched_below(all, b as int));
            if in_play {
                distinct_object_balls = distinct_object_balls + 1;
            }
            assert(rails@ == rails_of(all, b as u8));
            let ghost lhs = per_ball_view(per_ball@);
            let ghost rhs = t.map_values(|x: u8| (x, rails_of(all, x)));
            let ghost old_rhs = touched_below(all, b as int).map_values(|x: u8| (x, rails_of(all, x)));
            assert(per_ball_view(prev_pb).len() == prev_pb.len());
            assert(old_rhs.len() == touched_below(all, b as int).len());
            assert(per_ball_view(prev_pb) == old_rhs);
            assert(prev_pb.len() == touched_below(all, b as int).len());
            assert(lhs.len() == per_ball@.len());
            assert(rhs.len() == t.len());
            assert(lhs.len() == rhs.len());
            assert forall|k: int| 0 <= k < lhs.len() implies lhs[k] == rhs[k] by {
                if k < prev_pb.len() {
                    assert(lhs[k] == per_ball_view(prev_pb)[k]);
                    assert(per_ball_view(prev_pb)[k] == old_rhs[k]);
                    assert(t[k] == touched_below(all, b as int)[k]);
                }
            }
            assert(lhs =~= rhs);
        } else {
            assert(touched_below(all, b + 1) == touched_below(all, b as int));
        }
        b = b + 1;
    }
    assert(per_ball_view(per_ball@) =~= per_ball_spec(facts@));
    RailSummary { contacts, suppressed_frozen, distinct_object_balls, per_ball }
}

/// Every counted or suppressed rail contact is one of the facts, and the in-play balls are among
/// the touched ones: the summary's counts never exceed what the stream holds.
pub proof fn rail_summary_counts_are_bounded(facts: Seq<Fact>, rest: Seq<BallState>)
    ensures
        count_counted(facts) + count_suppressed(facts) <= facts.len(),
        count_in_play(touched_below(facts, 256), rest) <= touched_below(facts, 256).len(),
{
    lemma_counts_bounded(facts);
    lemma_in_play_bounded(touched_below(facts, 256), rest);
}

proof fn lemma_counts_bounded(facts: Seq<Fact>)
    ensures
        count_counted(facts) + count_suppressed(facts) <= facts.len(),
    decreases facts.len(),
{
    if facts.len() > 0 {
        lemma_counts_bounded(facts.drop_last());
    }
}

proof fn lemma_in_play_bounded(balls: Seq<u8>, rest: Seq<BallState>)
    ensures
        count_in_play(balls, rest) <= balls.len(),
    decreases balls.len(),
{
    if balls.len() > 0 {
        lemma_in_play_bounded(balls.drop_last(), rest);
    }
}

proof fn lemma_touched_ascending(facts: Seq<Fact>, n: int)
    requires
        0 <= n <= 256,
    ensures
        forall|a: int, c: int|
            0 <= a < c < touched_below(facts, n).len() ==> #[trigger] touched_below(facts, n)[a]
                < #[trigger] touched_below(facts, n)[c],
        forall|a: int|
            0 <= a < touched_below(facts, n).len() ==> #[trigger] touched_below(facts, n)[a] < n
                && rails_of(facts, touched_below(facts, n)[a]).len() > 0,
    decreases n,
{
    if n > 0 {
        lemma_touched_ascending(facts, n - 1);
        let prev = touched_below(facts, n - 1);
        let t = touched_below(facts, n);
        if rails_of(facts, (n - 1) as u8).len() > 0 {
            assert(t == prev.push((n - 1) as u8));
            assert(((n - 1) as u8) as int == n - 1);
            assert forall|a: int, c: int| 0 <= a < c < t.len() implies #[trigger] t[a] < #[trigger] t[c] by {
                if c == prev.len() {
                    assert(t[a] == prev[a]);
                } else {
                    assert(t[a] == prev[a] && t[c] == prev[c]);
                }
            }
            assert forall|a: int| 0 <= a < t.len() implies #[trigger] t[a] < n && rails_of(facts, t[a]).len() > 0 by {
                if a < prev.len() {
                    assert(t[a] == prev[a]);
                }
            }
        } else {
            assert(t == prev);
        }
    }
}

proof fn lemma_rails_unique(facts: Seq<Fact>, b: u8)
    ensures
        rails_of(facts, b).no_duplicates(),
    decreases facts.len(),
{
    if facts.len() > 0 {
        lemma_rails_unique(facts.drop_last(), b);
        let prev = rails_of(facts.drop_last(), b);
        match counted_contact(facts.last()) {
            Some((ball, rail)) => if ball == b && !prev.contains(rail) {
                let r = prev.push(rail);
                assert forall|x: int, y: int| 0 <= x < r.len() && 0 <= y < r.len() && x != y implies r[x]
                    != r[y] by {
                    if x == prev.len() as int {
                        assert(r[y] == prev[y]);
                    } else if y == prev.len() as int {
                        assert(r[x] == prev[x]);
                    }
                }
            },
            None => {},
        }
    }
}

/// The per-ball rail sets list each touched object ball once, in ascending id order, each with a
/// non-empty set of rails that holds no rail twice.
pub proof fn per_ball_sets_are_ascending_and_unique(facts: Seq<Fact>)
    ensures
        forall|a: int, c: int|
            0 <= a < c < per_ball_spec(facts).len() ==> (#[trigger] per_ball_spec(facts)[a]).0
                < (#[trigger] per_ball_spec(facts)[c]).0,
        forall|a: int|
            0 <= a < per_ball_spec(facts).len() ==> (#[trigger] per_ball_spec(facts)[a]).1.len() > 0
                && per_ball_spec(facts)[a].1.no_duplicates() && per_ball_spec(facts)[a].0 != 0,
{
    lemma_touched_ascending(facts, 256);
    let t = touched_below(facts, 256);
    assert forall|a: int| 0 <= a < per_ball_spec(facts).len() implies (
    #[trigger] per_ball_spec(facts)[a]).1.len() > 0 && per_ball_spec(facts)[a].1.no_duplicates()
        && per_ball_spec(facts)[a].0 != 0 by {
        lemma_rails_unique(facts, t[a]);
        lemma_cue_never_counted(facts);
    }
}

proof fn lemma_cue_never_counted(facts: Seq<Fact>)
    ensures
        rails_of(facts, 0).len() == 0,
    decreases facts.len(),
{
    if facts.len() > 0 {
        lemma_cue_never_counted(facts.drop_last());
    }
}

/// Is the fact a rail contact of object ball `b` on rail `r` that counts: the ball was not frozen
/// to that rail at shot start, or it has left it since?
pub open spec fn is_counted_touch(f: Fact, b: u8, r: Rail) -> bool {
    match f.kind {
        FactKind::RailContact { ball, rail, frozen_at_shot_start, left_since_shot_start } => ball == b
            && rail == r && ball != 0 && (!frozen_at_shot_start || left_since_shot_start),
        _ => false,
    }
}

proof fn lemma_count_in_play_filter(balls: Seq<u8>, rest: Seq<BallState>)
    ensures
        count_in_play(balls, rest) == balls.filter(
            |b: u8| (b as int) < rest.len() && !rest[b as int].pocketed && !rest[b as int].off_table,
        ).len(),
    decreases balls.len(),
{
    broadcast use Seq::lemma_filter_len_push;
    if balls.len() > 0 {
        lemma_count_in_play_filter(balls.drop_last(), rest);
        assert(balls =~= balls.drop_last().push(balls.last()));
    } else {
        assert(balls.filter(
            |b: u8| (b as int) < rest.len() && !rest[b as int].pocketed && !rest[b as int].off_table,
        ) =~= Seq::<u8>::empty()) by {
            reveal(Seq::filter);
        }
    }
}

proof fn lemma_counts_filter(facts: Seq<Fact>)
    ensures
        count_counted(facts) == facts.filter(
            |f: Fact|
                match f.kind {
                    FactKind::RailContact { ball, frozen_at_shot_start, left_since_shot_start, .. } =>
                        ball != 0 && (!frozen_at_shot_start || left_since_shot_start),
                    _ => false,
                },
        ).len(),
        count_suppressed(facts) == facts.filter(
            |f: Fact|
                match f.kind {
                    FactKind::RailContact { ball, frozen_at_shot_start, left_since_shot_start, .. } =>
                        ball != 0 && frozen_at_shot_start && !left_since_shot_start,
                    _ => false,
                },
        ).len(),
    decreases facts.len(),
{
    broadcast use Seq::lemma_filter_len_push;
    if facts.len() > 0 {
        lemma_counts_filter(facts.drop_last());
        assert(facts =~= facts.drop_last().push(facts.last()));
    } else {
        reveal(Seq::filter);
    }
}

proof fn lemma_rails_of_contains(facts: Seq<Fact>, b: u8, r: Rail)
    ensures
        rails_of(facts, b).contains(r) <==> exists|i: int| 0 <= i < facts.len() && is_counted_touch(
            #[trigger] facts[i],
            b,
            r,
        ),
    decreases facts.len(),
{
    if facts.len() > 0 {
        let prev = facts.drop_last();
        lemma_rails_of_contains(prev, b, r);
        let last = facts.last();
        assert(is_counted_touch(last, b, r) <==> counted_contact(last) == Some((b, r)));
        let pr = rails_of(prev, b);
        match counted_contact(last) {
            Some((ball, rail)) => if ball == b && !pr.contains(rail) {
                assert(rails_of(facts, b) == pr.push(rail));
                assert(pr.push(rail)[pr.len() as int] == rail);
                if pr.contains(r) {
                    let k = choose|k: int| 0 <= k < pr.len() && pr[k] == r;
                    assert(pr.push(rail)[k] == r);
                }
                if pr.push(rail).contains(r) && rail != r {
                    let k = choose|k: int| 0 <= k < pr.len() + 1 && pr.push(rail)[k] == r;
                    assert(pr[k] == r);
                }
            },
            None => {},
        }
        assert(facts[facts.len() - 1] == last);
        if exists|i: int| 0 <= i < prev.len() && is_counted_touch(#[trigger] prev[i], b, r) {
            let i = choose|i: int| 0 <= i < prev.len() && is_counted_touch(#[trigger] prev[i], b, r);
            assert(facts[i] == prev[i]);
        }
        if exists|i: int| 0 <= i < facts.len() && is_counted_touch(#[trigger] facts[i], b, r) {
            let i = choose|i: int| 0 <= i < facts.len() && is_counted_touch(#[trigger] facts[i], b, r);
            if i < prev.len() {
                assert(prev[i] == facts[i]);
            }
        }
    }
}

proof fn lemma_rails_of_nonempty(facts: Seq<Fact>, b: u8)
    ensures
        rails_of(facts, b).len() > 0 <==> exists|r: Rail| rails_of(facts, b).contains(r),
{
    if rails_of(facts, b).len() > 0 {
        assert(rails_of(facts, b).contains(rails_of(facts, b)[0]));
    }
}

proof fn lemma_touched_contains(facts: Seq<Fact>, n: int, b: u8)
    requires
        0 <= n <= 256,
    ensures
        touched_below(facts, n).contains(b) <==> ((b as int) < n && rails_of(facts, b).len() > 0),
    decreases n,
{
    if n > 0 {
        lemma_touched_contains(facts, n - 1, b);
        assert(((n - 1) as u8) as int == n - 1);
        let prev = touched_below(facts, n - 1);
        if rails_of(facts, (n - 1) as u8).len() > 0 {
            assert(touched_below(facts, n) == prev.push((n - 1) as u8));
            if prev.contains(b) {
                let k = choose|k: int| 0 <= k < prev.len() && prev[k] == b;
                assert(touched_below(facts, n)[k] == b);
            }
            if touched_below(facts, n).contains(b) && b != (n - 1) as u8 {
                let k = choose|k: int| 0 <= k < touched_below(facts, n).len() && touched_below(facts, n)[k] == b;
                assert(prev[k] == b);
            }
            if b == (n - 1) as u8 {
                assert(touched_below(facts, n)[prev.len() as int] == b);
            }
        }
    }
}

/// What the rail summary counts, by the facts and the rest states themselves: `contacts` is the
/// number of rail contacts by object balls (not the cue ball) that were not frozen to that rail at
/// shot start or left it since; `suppressed_frozen` the number by object balls frozen to the rail
/// that never left; a ball has a rail set exactly when it made a counted contact, and a rail is in
/// it exactly when the ball made a counted contact on it; `distinct_object_balls` is the number of
/// such balls that at rest are neither pocketed nor off the table.
pub proof fn rail_summary_counts_what_it_says(facts: Seq<Fact>, rest: Seq<BallState>, b: u8, r: Rail)
    ensures
        count_counted(facts) == facts.filter(
            |f: Fact|
                match f.kind {
                    FactKind::RailContact { ball, frozen_at_shot_start, left_since_shot_start, .. } =>
                        ball != 0 && (!frozen_at_shot_start || left_since_shot_start),
                    _ => false,
                },
        ).len(),
        count_suppressed(facts) == facts.filter(
            |f: Fact|
                match f.kind {
                    FactKind::RailContact { ball, frozen_at_shot_start, left_since_shot_start, .. } =>
                        ball != 0 && frozen_at_shot_start && !left_since_shot_start,
                    _ => false,
                },
        ).len(),
        rails_of(facts, b).contains(r) <==> exists|i: int| 0 <= i < facts.len() && is_counted_touch(
            #[trigger] facts[i],
            b,
            r,
        ),
        touched_below(facts, 256).contains(b) <==> exists|i: int, q: Rail|
            0 <= i < facts.len() && #[trigger] is_counted_touch(facts[i], b, q),
        count_in_play(touched_below(facts, 256), rest) == touched_below(facts, 256).filter(
            |x: u8| (x as int) < rest.len() && !rest[x as int].pocketed && !rest[x as int].off_table,
        ).len(),
{
    lemma_counts_filter(facts);
    lemma_rails_of_contains(facts, b, r);
    lemma_touched_contains(facts, 256, b);
    lemma_rails_of_nonempty(facts, b);
    lemma_count_in_play_filter(touched_below(facts, 256), rest);
    if touched_below(facts, 256).contains(b) {
        let q = choose|q: Rail| rails_of(facts, b).contains(q);
        lemma_rails_of_contains(facts, b, q);
        let i = choose|i: int| 0 <= i < facts.len() && #[trigger] is_counted_touch(facts[i], b, q);
        assert(is_counted_touch(facts[i], b, q));
    }
    if exists|i: int, q: Rail| 0 <= i < facts.len() && #[trigger] is_counted_touch(facts[i], b, q) {
        let (i, q) = choose|i: int, q: Rail| 0 <= i < facts.len() && #[trigger] is_counted_touch(facts[i], b, q);
        lemma_rails_of_contains(facts, b, q);
        assert(rails_of(facts, b).contains(q));
    }
}

} // verus!
