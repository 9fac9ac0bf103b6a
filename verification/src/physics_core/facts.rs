//! Fact derivation: what the rules tier consumes, and the break-legality precedence table.
//!
//! The prototype reports facts only: per-ball rail contacts, pocketed, off-table, cue-ball
//! pocketed, ball-ball contacts and frozen rails at shot start. The classifier reproduces the
//! pinned precedence table so a row can be judged produced or not; it is not a rules engine.

use vstd::prelude::*;
use crate::physics_core::sim::{Fact, FactKind};
use crate::physics_core::table::Rail;
use crate::text::{decimal, push_decimal, push_str};

verus! {

/// The facts derived from one shot.
#[derive(Clone, Debug)]
pub struct ShotFacts {
    /// Distinct object balls with at least one counted rail contact.
    pub distinct_object_balls_to_rails: usize,
    /// Total counted rail-contact events by object balls.
    pub rail_contacts_total: usize,
    /// Distinct (ball, rail) pairs touched by object balls.
    pub rail_pairs_total: usize,
    /// Contacts suppressed by the frozen-at-start clause.
    pub frozen_contacts_suppressed: usize,
    /// Object balls pocketed, ascending.
    pub pocketed: Vec<u8>,
    /// Object balls driven off the table, ascending.
    pub off_table: Vec<u8>,
    /// Was the cue ball pocketed or driven off?
    pub cue_ball_pocketed: bool,
    /// Distinct balls the cue ball contacted.
    pub cue_ball_contacts: usize,
    /// Balls frozen to a rail at shot start, with that rail.
    pub frozen_at_start: Vec<(u8, Rail)>,
    /// Balls that both left a frozen rail and returned to it.
    pub frozen_left_and_returned: Vec<u8>,
    /// Per-ball rail sets, in order of each ball's first counted contact.
    pub per_ball_rails: Vec<(u8, Vec<Rail>)>,
    /// Ball-ball contact events.
    pub ball_ball_contacts: usize,
}

impl Default for ShotFacts {
    /// All counts zero, all lists empty, the cue ball not pocketed.
    fn default() -> (f: ShotFacts)
        ensures
            f.distinct_object_balls_to_rails == 0,
            f.rail_contacts_total == 0,
            f.rail_pairs_total == 0,
            f.frozen_contacts_suppressed == 0,
            f.pocketed@.len() == 0,
            f.off_table@.len() == 0,
            !f.cue_ball_pocketed,
            f.cue_ball_contacts == 0,
            f.frozen_at_start@.len() == 0,
            f.frozen_left_and_returned@.len() == 0,
            f.per_ball_rails@.len() == 0,
            f.ball_ball_contacts == 0,
    {
        ShotFacts {
            distinct_object_balls_to_rails: 0,
            rail_contacts_total: 0,
            rail_pairs_total: 0,
            frozen_contacts_suppressed: 0,
            pocketed: Vec::new(),
            off_table: Vec::new(),
            cue_ball_pocketed: false,
            cue_ball_contacts: 0,
            frozen_at_start: Vec::new(),
            frozen_left_and_returned: Vec::new(),
            per_ball_rails: Vec::new(),
            ball_ball_contacts: 0,
        }
    }
}

/// The break-legality tree a shot lands in.
#[derive(Clone, Copy, Debug, PartialEq, Eq, Structural)]
pub enum Tree {
    /// A legal break that pocketed nothing.
    LegalClean,
    /// A legal break that pocketed a ball.
    LegalPocketed,
    /// Fewer than four object balls to a rail and nothing pocketed.
    IllegalBreak,
    /// A foul on the break.
    BreakFoul,
    /// The 8 went down or off.
    EightOnBreak,
}

/// The classification of a break.
#[derive(Clone, Debug)]
pub struct Classification {
    /// Is the break legal?
    pub legal_break: bool,
    /// The tree it lands in.
    pub tree: Tree,
    /// The rule that decided it.
    pub rule: &'static str,
}

// ------------------------------------------------------------------ the derivation's model

/// The object-ball rail contact a fact counts, if it counts one.
pub open spec fn counted(f: Fact) -> Option<(u8, Rail)> {
    match f.kind {
        FactKind::RailContact { ball, rail, frozen_no_count } => if ball != 0 && !frozen_no_count {
            Some((ball, rail))
        } else {
            None
        },
        _ => None,
    }
}

/// Is the fact an object-ball rail contact the frozen clause suppresses?
pub open spec fn suppressed(f: Fact) -> bool {
    match f.kind {
        FactKind::RailContact { ball, frozen_no_count, .. } => ball != 0 && frozen_no_count,
        _ => false,
    }
}

/// The number of facts satisfying `p`.
pub open spec fn count_facts(facts: Seq<Fact>, p: spec_fn(Fact) -> bool) -> nat
    decreases facts.len(),
{
    if facts.len() == 0 {
        0
    } else {
        count_facts(facts.drop_last(), p) + (if p(facts.last()) { 1nat } else { 0nat })
    }
}

/// The rails ball `b` was counted against, each once, in order of first counted contact.
pub open spec fn rails_of(facts: Seq<Fact>, b: u8) -> Seq<Rail>
    decreases facts.len(),
{
    if facts.len() == 0 {
        Seq::empty()
    } else {
        let prev = rails_of(facts.drop_last(), b);
        match counted(facts.last()) {
            Some((ball, rail)) => if ball == b && !prev.contains(rail) {
                prev.push(rail)
            } else {
                prev
            },
            None => prev,
        }
    }
}

/// The number of counted contacts that touch a (ball, rail) pair for the first time: the number
/// of distinct pairs.
pub open spec fn new_pairs(facts: Seq<Fact>) -> nat
    decreases facts.len(),
{
    if facts.len() == 0 {
        0
    } else {
        new_pairs(facts.drop_last()) + match counted(facts.last()) {
            Some((ball, rail)) => if !rails_of(facts.drop_last(), ball).contains(rail) {
                1nat
            } else {
                0nat
            },
            None => 0nat,
        }
    }
}

/// The balls with a counted contact, in order of their first one.
pub open spec fn first_touch_order(facts: Seq<Fact>) -> Seq<u8>
    decreases facts.len(),
{
    if facts.len() == 0 {
        Seq::empty()
    } else {
        let prev = first_touch_order(facts.drop_last());
        match counted(facts.last()) {
            Some((ball, _)) => if !prev.contains(ball) {
                prev.push(ball)
            } else {
                prev
            },
            None => prev,
        }
    }
}

/// The ball a pocketed fact names.
pub open spec fn pocketed_ball(f: Fact) -> Option<u8> {
    match f.kind {
        FactKind::Pocketed { ball, .. } => Some(ball),
        _ => None,
    }
}

/// The ball an off-table fact names.
pub open spec fn off_ball(f: Fact) -> Option<u8> {
    match f.kind {
        FactKind::OffTable { ball } => Some(ball),
        _ => None,
    }
}

/// Is `b` pocketed by some fact?
pub open spec fn pocketed_by(facts: Seq<Fact>, b: u8) -> bool {
    exists|i: int| 0 <= i < facts.len() && pocketed_ball(facts[i]) == Some(b)
}

/// Is `b` driven off the table by some fact?
pub open spec fn off_by(facts: Seq<Fact>, b: u8) -> bool {
    exists|i: int| 0 <= i < facts.len() && off_ball(facts[i]) == Some(b)
}

/// The ball the cue ball met in a ball-ball fact, if the cue ball took part.
pub open spec fn cue_partner(f: Fact) -> Option<u8> {
    match f.kind {
        FactKind::BallBall { a, b } => if a == 0 {
            Some(b)
        } else if b == 0 {
            Some(a)
        } else {
            None
        },
        _ => None,
    }
}

/// Did the cue ball meet `b`?
pub open spec fn met_by_cue(facts: Seq<Fact>, b: u8) -> bool {
    exists|i: int| 0 <= i < facts.len() && cue_partner(facts[i]) == Some(b)
}

/// The ids below `n` with property `p`, ascending.
pub open spec fn ids_below(p: spec_fn(u8) -> bool, n: int) -> Seq<u8>
    decreases n,
{
    if n <= 0 {
        Seq::empty()
    } else {
        let prev = ids_below(p, n - 1);
        if p((n - 1) as u8) {
            prev.push((n - 1) as u8)
        } else {
            prev
        }
    }
}

/// The frozen (ball, rail) pairs of the balls, ball by ball, each ball's rails in order.
pub open spec fn frozen_pairs(balls: Seq<(u8, Seq<Rail>)>) -> Seq<(u8, Rail)>
    decreases balls.len(),
{
    if balls.len() == 0 {
        Seq::empty()
    } else {
        let (id, rails) = balls.last();
        frozen_pairs(balls.drop_last()) + rails.map_values(|r: Rail| (id, r))
    }
}

/// The view of a (ball, rails) list with the rail vectors as sequences.
pub open spec fn rails_view(v: Seq<(u8, Vec<Rail>)>) -> Seq<(u8, Seq<Rail>)> {
    v.map_values(|p: (u8, Vec<Rail>)| (p.0, p.1@))
}

/// The derivation's contract: every field of the derived facts, from the shot's facts and the
/// balls' frozen rails at shot start.
pub open spec fn derived_from(f: ShotFacts, facts: Seq<Fact>, balls: Seq<(u8, Seq<Rail>)>) -> bool {
    let order = first_touch_order(facts);
    &&& f.rail_contacts_total == count_facts(facts, |x: Fact| counted(x) is Some)
    &&& f.frozen_contacts_suppressed == count_facts(facts, |x: Fact| suppressed(x))
    &&& rails_view(f.per_ball_rails@) == order.map_values(|b: u8| (b, rails_of(facts, b)))
    &&& f.distinct_object_balls_to_rails == order.len()
    &&& f.rail_pairs_total == new_pairs(facts)
    &&& f.pocketed@ == ids_below(|b: u8| b != 0 && pocketed_by(facts, b), 256)
    &&& f.off_table@ == ids_below(|b: u8| b != 0 && off_by(facts, b), 256)
    &&& f.cue_ball_pocketed == (pocketed_by(facts, 0) || off_by(facts, 0))
    &&& f.cue_ball_contacts == ids_below(|b: u8| met_by_cue(facts, b), 256).len()
    &&& f.ball_ball_contacts == count_facts(facts, |x: Fact| x.kind is BallBall)
    &&& f.frozen_at_start@ == frozen_pairs(balls)
    &&& f.frozen_left_and_returned@ == Seq::<u8>::empty()
}

proof fn lemma_rails_nonempty(facts: Seq<Fact>, b: u8)
    ensures
        first_touch_order(facts).contains(b) <==> rails_of(facts, b).len() > 0,
    decreases facts.len(),
{
    if facts.len() > 0 {
        lemma_rails_nonempty(facts.drop_last(), b);
        let prev = first_touch_order(facts.drop_last());
        match counted(facts.last()) {
            Some((ball, rail)) => {
                if ball == b && !prev.contains(ball) {
                    assert(first_touch_order(facts)[prev.len() as int] == b);
                }
                if ball != b && !prev.contains(ball) {
                    assert(first_touch_order(facts) == prev.push(ball));
                    if first_touch_order(facts).contains(b) {
                        let k = choose|k: int| 0 <= k < prev.len() + 1 && first_touch_order(facts)[k] == b;
                        assert(k < prev.len());
                        assert(prev[k] == b);
                    }
                    if prev.contains(b) {
                        let k = choose|k: int| 0 <= k < prev.len() && prev[k] == b;
                        assert(first_touch_order(facts)[k] == b);
                    }
                }
                if ball == b && prev.contains(ball) {
                    if !rails_of(facts.drop_last(), b).contains(rail) {
                        assert(rails_of(facts, b).len() > 0);
                    }
                }
            },
            None => {},
        }
    }
}

fn contains_rail(rails: &Vec<Rail>, rail: Rail) -> (r: bool)
    ensures
        r == rails@.contains(rail),
{
    let mut i: usize = 0;
    while i < rails.len()
        invariant
            0 <= i <= rails.len(),
            forall|j: int| 0 <= j < i ==> rails@[j] != rail,
        decreases rails.len() - i,
    {
        if rails[i] == rail {
            return true;
        }
        i = i + 1;
    }
    false
}

fn contains_id(ids: &Vec<u8>, id: u8) -> (r: bool)
    ensures
        r == ids@.contains(id),
{
    let mut i: usize = 0;
    while i < ids.len()
        invariant
            0 <= i <= ids.len(),
            forall|j: int| 0 <= j < i ==> ids@[j] != id,
        decreases ids.len() - i,
    {
        if ids[i] == id {
            return true;
        }
        i = i + 1;
    }
    false
}

/// The ids below 256 whose flag is set, ascending.
fn flagged_ids(flags: &Vec<bool>, Ghost(p): Ghost<spec_fn(u8) -> bool>) -> (out: Vec<u8>)
    requires
        flags@.len() == 256,
        forall|k: int| 0 <= k < 256 ==> #[trigger] flags@[k] == p(k as u8),
    ensures
        out@ == ids_below(p, 256),
{
    let mut out: Vec<u8> = Vec::new();
    let mut k: usize = 0;
    while k < 256
        invariant
            0 <= k <= 256,
            flags@.len() == 256,
            forall|j: int| 0 <= j < 256 ==> #[trigger] flags@[j] == p(j as u8),
            out@ == ids_below(p, k as int),
        decreases 256 - k,
    {
        assert(flags@[k as int] == p(k as u8));
        if flags[k] {
            out.push(k as u8);
        }
        k = k + 1;
    }
    out
}

/// Derive the shot's facts from its fact stream and, for each ball, its id and the rails it was
/// frozen to at shot start.
pub fn derive(facts: &[Fact], balls: &[(u8, Vec<Rail>)]) -> (f: ShotFacts)
    ensures
        derived_from(f, facts@, rails_view(balls@)),
{
    let ghost all = facts@;
    let mut by_ball: Vec<Vec<Rail>> = Vec::new();
    let mut pocket_flags: Vec<bool> = Vec::new();
    let mut off_flags: Vec<bool> = Vec::new();
    let mut partner_flags: Vec<bool> = Vec::new();
    let mut k: usize = 0;
    while k < 256
        invariant
            0 <= k <= 256,
            by_ball@.len() == k,
            pocket_flags@.len() == k,
            off_flags@.len() == k,
            partner_flags@.len() == k,
            forall|j: int| 0 <= j < k ==> (#[trigger] by_ball@[j])@ == Seq::<Rail>::empty(),
            forall|j: int| 0 <= j < k ==> !#[trigger] pocket_flags@[j],
            forall|j: int| 0 <= j < k ==> !#[trigger] off_flags@[j],
            forall|j: int| 0 <= j < k ==> !#[trigger] partner_flags@[j],
        decreases 256 - k,
    {
        by_ball.push(Vec::new());
        pocket_flags.push(false);
        off_flags.push(false);
        partner_flags.push(false);
        k = k + 1;
    }
    let mut order: Vec<u8> = Vec::new();
    let mut rail_contacts_total: usize = 0;
    let mut frozen_contacts_suppressed: usize = 0;
    let mut rail_pairs_total: usize = 0;
    let mut ball_ball_contacts: usize = 0;
    let mut i: usize = 0;
    while i < facts.len()
        invariant
            0 <= i <= facts@.len(),
            all == facts@,
            by_ball@.len() == 256,
            pocket_flags@.len() == 256,
            off_flags@.len() == 256,
            partner_flags@.len() == 256,
            rail_contacts_total == count_facts(all.subrange(0, i as int), |x: Fact| counted(x) is Some),
            frozen_contacts_suppressed == count_facts(all.subrange(0, i as int), |x: Fact| suppressed(x)),
            rail_pairs_total == new_pairs(all.subrange(0, i as int)),
            ball_ball_contacts == count_facts(all.subrange(0, i as int), |x: Fact| x.kind is BallBall),
            rail_contacts_total <= i,
            frozen_contacts_suppressed <= i,
            rail_pairs_total <= i,
            ball_ball_contacts <= i,
            order@ == first_touch_order(all.subrange(0, i as int)),
            forall|j: int|
                0 <= j < 256 ==> (#[trigger] by_ball@[j])@ == rails_of(all.subrange(0, i as int), j as u8),
            forall|j: int|
                0 <= j < 256 ==> #[trigger] pocket_flags@[j] == pocketed_by(all.subrange(0, i as int), j as u8),
            forall|j: int|
                0 <= j < 256 ==> #[trigger] off_flags@[j] == off_by(all.subrange(0, i as int), j as u8),
            forall|j: int|
                0 <= j < 256 ==> #[trigger] partner_flags@[j] == met_by_cue(all.subrange(0, i as int), j as u8),
        decreases facts@.len() - i,
    {
        let ghost pre = all.subrange(0, i as int);
        let ghost next = all.subrange(0, i + 1);
        assert(next.drop_last() =~= pre);
        assert(next.last() == all[i as int]);
        let fact = facts[i];
        assert forall|b: u8| #[trigger] pocketed_by(next, b) <==> pocketed_by(pre, b) || pocketed_ball(fact) == Some(b) by {
            if pocketed_by(next, b) {
                let w = choose|w: int| 0 <= w < next.len() && pocketed_ball(next[w]) == Some(b);
                if w < pre.len() {
                    assert(pre[w] == next[w]);
                }
            }
            if pocketed_by(pre, b) {
                let w = choose|w: int| 0 <= w < pre.len() && pocketed_ball(pre[w]) == Some(b);
                assert(pre[w] == next[w]);
            }
            if pocketed_ball(fact) == Some(b) {
                assert(next[i as int] == fact);
            }
        }
        assert forall|b: u8| #[trigger] off_by(next, b) <==> off_by(pre, b) || off_ball(fact) == Some(b) by {
            if off_by(next, b) {
                let w = choose|w: int| 0 <= w < next.len() && off_ball(next[w]) == Some(b);
                if w < pre.len() {
                    assert(pre[w] == next[w]);
                }
            }
            if off_by(pre, b) {
                let w = choose|w: int| 0 <= w < pre.len() && off_ball(pre[w]) == Some(b);
                assert(pre[w] == next[w]);
            }
            if off_ball(fact) == Some(b) {
                assert(next[i as int] == fact);
            }
        }
        assert forall|b: u8| #[trigger] met_by_cue(next, b) <==> met_by_cue(pre, b) || cue_partner(fact) == Some(b) by {
            if met_by_cue(next, b) {
                let w = choose|w: int| 0 <= w < next.len() && cue_partner(next[w]) == Some(b);
                if w < pre.len() {
                    assert(pre[w] == next[w]);
                }
            }
            if met_by_cue(pre, b) {
                let w = choose|w: int| 0 <= w < pre.len() && cue_partner(pre[w]) == Some(b);
                assert(pre[w] == next[w]);
            }
            if cue_partner(fact) == Some(b) {
                assert(next[i as int] == fact);
            }
        }
        match fact.kind {
            FactKind::RailContact { ball, rail, frozen_no_count } => {
                if ball != 0 {
                    if frozen_no_count {
                        frozen_contacts_suppressed = frozen_contacts_suppressed + 1;
                    } else {
                        rail_contacts_total = rail_contacts_total + 1;
                        let mut rails = by_ball[ball as usize].clone();
                        assert(rails@ =~= by_ball@[ball as int]@);
                        if !contains_rail(&rails, rail) {
                            rails.push(rail);
                            rail_pairs_total = rail_pairs_total + 1;
                        }
                        by_ball.set(ball as usize, rails);
                        if !contains_id(&order, ball) {
                            order.push(ball);
                        }
                    }
                }
            },
            FactKind::Pocketed { ball, .. } => {
                pocket_flags.set(ball as usize, true);
            },
            FactKind::OffTable { ball } => {
                off_flags.set(ball as usize, true);
            },
            FactKind::BallBall { a, b } => {
                ball_ball_contacts = ball_ball_contacts + 1;
                if a == 0 {
                    partner_flags.set(b as usize, true);
                } else if b == 0 {
                    partner_flags.set(a as usize, true);
                }
            },
            _ => {},
        }
        assert forall|j: int| 0 <= j < 256 implies (#[trigger] by_ball@[j])@ == rails_of(next, j as u8) by {
            assert((j as u8) as int == j);
        }
        assert forall|j: int| 0 <= j < 256 implies #[trigger] pocket_flags@[j] == pocketed_by(next, j as u8) by {
            assert((j as u8) as int == j);
        }
        assert forall|j: int| 0 <= j < 256 implies #[trigger] off_flags@[j] == off_by(next, j as u8) by {
            assert((j as u8) as int == j);
        }
        assert forall|j: int| 0 <= j < 256 implies #[trigger] partner_flags@[j] == met_by_cue(next, j as u8) by {
            assert((j as u8) as int == j);
        }
        i = i + 1;
    }
    assert(all.subrange(0, all.len() as int) =~= all);
    // The per-ball rail lists, in first-contact order.
    let mut per_ball_rails: Vec<(u8, Vec<Rail>)> = Vec::new();
    let mut n: usize = 0;
    while n < order.len()
        invariant
            0 <= n <= order@.len(),
            order@ == first_touch_order(all),
            by_ball@.len() == 256,
            forall|j: int| 0 <= j < 256 ==> (#[trigger] by_ball@[j])@ == rails_of(all, j as u8),
            rails_view(per_ball_rails@) == order@.subrange(0, n as int).map_values(|b: u8| (b, rails_of(all, b))),
        decreases order@.len() - n,
    {
        let b = order[n];
        let rails = by_ball[b as usize].clone();
        assert(rails@ =~= by_ball@[b as int]@);
        let ghost before = per_ball_rails@;
        per_ball_rails.push((b, rails));
        proof {
            let lhs = rails_view(per_ball_rails@);
            let rhs = order@.subrange(0, n + 1).map_values(|x: u8| (x, rails_of(all, x)));
            let old_rhs = order@.subrange(0, n as int).map_values(|x: u8| (x, rails_of(all, x)));
            assert(rails_view(before).len() == before.len());
            assert(before.len() == n);
            assert forall|k: int| 0 <= k < lhs.len() implies lhs[k] == rhs[k] by {
                if k < n {
                    assert(lhs[k] == rails_view(before)[k]);
                    assert(rails_view(before)[k] == old_rhs[k]);
                } else {
                    assert((b as u8) as int == b as int);
                }
            }
            assert(lhs =~= rhs);
        }
        n = n + 1;
    }
    assert(order@.subrange(0, order@.len() as int) =~= order@);
    // The cue ball is reported apart from the object balls.
    let cue_ball_pocketed = pocket_flags[0] || off_flags[0];
    pocket_flags.set(0, false);
    off_flags.set(0, false);
    assert forall|j: int| 0 <= j < 256 implies #[trigger] pocket_flags@[j] == (j as u8 != 0 && pocketed_by(all, j as u8)) by {
        assert((j as u8) as int == j);
    }
    assert forall|j: int| 0 <= j < 256 implies #[trigger] off_flags@[j] == (j as u8 != 0 && off_by(all, j as u8)) by {
        assert((j as u8) as int == j);
    }
    let pocketed = flagged_ids(&pocket_flags, Ghost(|b: u8| b != 0 && pocketed_by(all, b)));
    let off_table = flagged_ids(&off_flags, Ghost(|b: u8| b != 0 && off_by(all, b)));
    let cue_partners = flagged_ids(&partner_flags, Ghost(|b: u8| met_by_cue(all, b)));
    // Frozen rails at shot start, ball by ball.
    let mut frozen_at_start: Vec<(u8, Rail)> = Vec::new();
    let mut m: usize = 0;
    while m < balls.len()
        invariant
            0 <= m <= balls@.len(),
            frozen_at_start@ == frozen_pairs(rails_view(balls@.subrange(0, m as int))),
        decreases balls@.len() - m,
    {
        let id = balls[m].0;
        let rails = &balls[m].1;
        let ghost base = frozen_at_start@;
        let mut r: usize = 0;
        while r < rails.len()
            invariant
                0 <= r <= rails@.len(),
                frozen_at_start@ == base + rails@.subrange(0, r as int).map_values(|x: Rail| (id, x)),
            decreases rails@.len() - r,
        {
            frozen_at_start.push((id, rails[r]));
            assert(rails@.subrange(0, r + 1).map_values(|x: Rail| (id, x)) =~= rails@.subrange(0, r as int).map_values(
                |x: Rail| (id, x),
            ).push((id, rails@[r as int])));
            r = r + 1;
        }
        proof {
            let v = rails_view(balls@.subrange(0, m + 1));
            assert(v.drop_last() =~= rails_view(balls@.subrange(0, m as int)));
            assert(v.last() == (id, rails@));
            assert(rails@.subrange(0, rails@.len() as int) =~= rails@);
        }
        m = m + 1;
    }
    assert(balls@.subrange(0, balls@.len() as int) =~= balls@);
    proof {
        assert forall|x: u8| #[trigger] first_touch_order(all).contains(x) implies rails_of(all, x).len() > 0 by {
            lemma_rails_nonempty(all, x);
        }
    }
    ShotFacts {
        distinct_object_balls_to_rails: order.len(),
        rail_contacts_total,
        rail_pairs_total,
        frozen_contacts_suppressed,
        pocketed,
        off_table,
        cue_ball_pocketed,
        cue_ball_contacts: cue_partners.len(),
        frozen_at_start,
        frozen_left_and_returned: Vec::new(),
        per_ball_rails,
        ball_ball_contacts,
    }
}


// ------------------------------------------------------------------ readings of the counts

/// The balls of a per-ball list whose rail set is not empty, in list order.
pub open spec fn rail_balls(pb: Seq<(u8, Seq<Rail>)>) -> Seq<u8>
    decreases pb.len(),
{
    if pb.len() == 0 {
        Seq::empty()
    } else {
        let prev = rail_balls(pb.drop_last());
        if pb.last().1.len() > 0 {
            prev.push(pb.last().0)
        } else {
            prev
        }
    }
}

/// `base` followed by each element of `xs` not already present, in order.
pub open spec fn add_new(base: Seq<u8>, xs: Seq<u8>) -> Seq<u8>
    decreases xs.len(),
{
    if xs.len() == 0 {
        base
    } else {
        let prev = add_new(base, xs.drop_last());
        if prev.contains(xs.last()) {
            prev
        } else {
            prev.push(xs.last())
        }
    }
}

/// The rule-2.7 count of a shot's facts.
pub open spec fn rule_2_7_spec(f: ShotFacts) -> nat {
    add_new(rail_balls(rails_view(f.per_ball_rails@)), f.pocketed@ + f.off_table@).len()
}

impl ShotFacts {
    /// Physical-count reading of the corpus field: the corpus rows count rail contacts, so a
    /// pocketed ball contributes no rail.
    pub fn distinct_physical(&self) -> (n: usize)
        ensures
            n == self.distinct_object_balls_to_rails,
    {
        self.distinct_object_balls_to_rails
    }

    /// Rules 2.7 reading: pocketed and off-table balls also count. The balls with a rail, then each
    /// pocketed and each off-table ball not already among them.
    pub fn distinct_rule_2_7(&self) -> (n: usize)
        ensures
            n == rule_2_7_spec(*self),
    {
        let mut set: Vec<u8> = Vec::new();
        let mut i: usize = 0;
        while i < self.per_ball_rails.len()
            invariant
                0 <= i <= self.per_ball_rails@.len(),
                set@ == rail_balls(rails_view(self.per_ball_rails@.subrange(0, i as int))),
                set@.len() <= i,
            decreases self.per_ball_rails@.len() - i,
        {
            proof {
                let v = rails_view(self.per_ball_rails@.subrange(0, i + 1));
                assert(v.drop_last() =~= rails_view(self.per_ball_rails@.subrange(0, i as int)));
            }
            if self.per_ball_rails[i].1.len() > 0 {
                set.push(self.per_ball_rails[i].0);
            }
            i = i + 1;
        }
        assert(self.per_ball_rails@.subrange(0, self.per_ball_rails@.len() as int) =~= self.per_ball_rails@);
        let ghost base = set@;
        let ghost xs = self.pocketed@ + self.off_table@;
        let mut k: usize = 0;
        while k < self.pocketed.len()
            invariant
                0 <= k <= self.pocketed@.len(),
                xs == self.pocketed@ + self.off_table@,
                set@ == add_new(base, xs.subrange(0, k as int)),
            decreases self.pocketed@.len() - k,
        {
            let b = self.pocketed[k];
            assert(b == xs[k as int]);
            assert(xs.subrange(0, k + 1).drop_last() =~= xs.subrange(0, k as int));
            if !contains_id(&set, b) {
                set.push(b);
            }
            k = k + 1;
        }
        let mut k2: usize = 0;
        while k2 < self.off_table.len()
            invariant
                0 <= k2 <= self.off_table@.len(),
                xs == self.pocketed@ + self.off_table@,
                set@ == add_new(base, xs.subrange(0, self.pocketed@.len() + k2)),
            decreases self.off_table@.len() - k2,
        {
            let b = self.off_table[k2];
            let ghost at = self.pocketed@.len() + k2;
            assert(b == xs[at]);
            assert(xs.subrange(0, at + 1).drop_last() =~= xs.subrange(0, at));
            if !contains_id(&set, b) {
                set.push(b);
            }
            k2 = k2 + 1;
        }
        assert(xs.subrange(0, xs.len() as int) =~= xs);
        set.len()
    }
}

proof fn lemma_add_new_grows(base: Seq<u8>, xs: Seq<u8>)
    ensures
        add_new(base, xs).len() >= base.len(),
    decreases xs.len(),
{
    if xs.len() > 0 {
        lemma_add_new_grows(base, xs.drop_last());
    }
}

proof fn lemma_rail_balls_all(pb: Seq<(u8, Seq<Rail>)>)
    requires
        forall|k: int| 0 <= k < pb.len() ==> (#[trigger] pb[k]).1.len() > 0,
    ensures
        rail_balls(pb).len() == pb.len(),
    decreases pb.len(),
{
    if pb.len() > 0 {
        lemma_rail_balls_all(pb.drop_last());
    }
}

/// For the facts of a shot, the physical count never exceeds the rule-2.7 count: every ball the
/// physical reading counts, the rule reading counts too.
pub proof fn physical_count_is_at_most_rule_count(f: ShotFacts, facts: Seq<Fact>, balls: Seq<(u8, Seq<Rail>)>)
    requires
        derived_from(f, facts, balls),
    ensures
        f.distinct_object_balls_to_rails <= rule_2_7_spec(f),
{
    let order = first_touch_order(facts);
    let pb = rails_view(f.per_ball_rails@);
    assert(pb == order.map_values(|b: u8| (b, rails_of(facts, b))));
    assert forall|k: int| 0 <= k < pb.len() implies (#[trigger] pb[k]).1.len() > 0 by {
        assert(pb[k] == (order[k], rails_of(facts, order[k])));
        assert(order.contains(order[k]));
        lemma_rails_nonempty(facts, order[k]);
    }
    lemma_rail_balls_all(pb);
    lemma_add_new_grows(rail_balls(pb), f.pocketed@ + f.off_table@);
}

proof fn lemma_rail_balls_members(pb: Seq<(u8, Seq<Rail>)>)
    requires
        forall|a: int, c: int| 0 <= a < c < pb.len() ==> (#[trigger] pb[a]).0 != (#[trigger] pb[c]).0,
    ensures
        rail_balls(pb).no_duplicates(),
        forall|b: u8|
            rail_balls(pb).contains(b) <==> exists|i: int|
                0 <= i < pb.len() && (#[trigger] pb[i]).0 == b && pb[i].1.len() > 0,
    decreases pb.len(),
{
    if pb.len() > 0 {
        let p = pb.drop_last();
        assert forall|a: int, c: int| 0 <= a < c < p.len() implies (#[trigger] p[a]).0 != (
        #[trigger] p[c]).0 by {
            assert(p[a] == pb[a] && p[c] == pb[c]);
        }
        lemma_rail_balls_members(p);
        let prev = rail_balls(p);
        let last = pb.last();
        assert(last == pb[pb.len() - 1]);
        assert forall|b: u8| rail_balls(pb).contains(b) <==> exists|i: int|
            0 <= i < pb.len() && (#[trigger] pb[i]).0 == b && pb[i].1.len() > 0 by {
            if exists|i: int| 0 <= i < p.len() && (#[trigger] p[i]).0 == b && p[i].1.len() > 0 {
                let i = choose|i: int| 0 <= i < p.len() && (#[trigger] p[i]).0 == b && p[i].1.len() > 0;
                assert(pb[i] == p[i]);
            }
            if exists|i: int| 0 <= i < pb.len() && (#[trigger] pb[i]).0 == b && pb[i].1.len() > 0 {
                let i = choose|i: int| 0 <= i < pb.len() && (#[trigger] pb[i]).0 == b && pb[i].1.len() > 0;
                if i < p.len() {
                    assert(p[i] == pb[i]);
                }
            }
            if last.1.len() > 0 {
                let r = prev.push(last.0);
                if prev.contains(b) {
                    let k = choose|k: int| 0 <= k < prev.len() && prev[k] == b;
                    assert(r[k] == b);
                }
                if r.contains(b) && b != last.0 {
                    let k = choose|k: int| 0 <= k < r.len() && r[k] == b;
                    assert(prev[k] == b);
                }
                assert(r[prev.len() as int] == last.0);
            }
        }
        if last.1.len() > 0 {
            let r = prev.push(last.0);
            if prev.contains(last.0) {
                let i = choose|i: int| 0 <= i < p.len() && (#[trigger] p[i]).0 == last.0 && p[i].1.len() > 0;
                assert(pb[i] == p[i]);
            }
            assert forall|x: int, y: int| 0 <= x < r.len() && 0 <= y < r.len() && x != y implies r[x]
                != r[y] by {
                if x == prev.len() {
                    assert(prev.contains(r[y]));
                } else if y == prev.len() {
                    assert(prev.contains(r[x]));
                }
            }
        }
    }
}

proof fn lemma_add_new_members(base: Seq<u8>, xs: Seq<u8>)
    requires
        base.no_duplicates(),
    ensures
        add_new(base, xs).no_duplicates(),
        forall|b: u8| add_new(base, xs).contains(b) <==> (base.contains(b) || xs.contains(b)),
    decreases xs.len(),
{
    if xs.len() > 0 {
        let p = xs.drop_last();
        lemma_add_new_members(base, p);
        let prev = add_new(base, p);
        let x = xs.last();
        assert(xs =~= p.push(x));
        assert forall|b: u8| add_new(base, xs).contains(b) <==> (base.contains(b) || xs.contains(b)) by {
            if p.contains(b) {
                let k = choose|k: int| 0 <= k < p.len() && p[k] == b;
                assert(xs[k] == b);
            }
            if xs.contains(b) && b != x {
                let k = choose|k: int| 0 <= k < xs.len() && xs[k] == b;
                assert(p[k] == b);
            }
            assert(xs[xs.len() - 1] == x);
            if !prev.contains(x) {
                let r = prev.push(x);
                if prev.contains(b) {
                    let k = choose|k: int| 0 <= k < prev.len() && prev[k] == b;
                    assert(r[k] == b);
                }
                if r.contains(b) && b != x {
                    let k = choose|k: int| 0 <= k < r.len() && r[k] == b;
                    assert(prev[k] == b);
                }
                assert(r[prev.len() as int] == x);
            }
        }
        if !prev.contains(x) {
            let r = prev.push(x);
            assert forall|i: int, j: int| 0 <= i < r.len() && 0 <= j < r.len() && i != j implies r[i]
                != r[j] by {
                if i == prev.len() {
                    assert(prev.contains(r[j]));
                } else if j == prev.len() {
                    assert(prev.contains(r[i]));
                }
            }
        }
    }
}

/// The rule-2.7 count is the number of distinct balls among those with a non-empty rail set, the
/// pocketed balls and the off-table balls: a ball in two or three of these lists counts once. (The
/// per-ball rail list names each ball once, as `derive` makes it.)
pub proof fn rule_2_7_counts_each_ball_once(f: ShotFacts)
    requires
        forall|a: int, c: int|
            0 <= a < c < f.per_ball_rails@.len() ==> (#[trigger] f.per_ball_rails@[a]).0 != (
            #[trigger] f.per_ball_rails@[c]).0,
    ensures
        rule_2_7_spec(f) == Set::new(
            |b: u8|
                (exists|i: int|
                    0 <= i < f.per_ball_rails@.len() && (#[trigger] f.per_ball_rails@[i]).0 == b
                        && f.per_ball_rails@[i].1@.len() > 0) || f.pocketed@.contains(b)
                    || f.off_table@.contains(b),
        ).len(),
{
    let pb = rails_view(f.per_ball_rails@);
    assert forall|a: int, c: int| 0 <= a < c < pb.len() implies (#[trigger] pb[a]).0 != (
    #[trigger] pb[c]).0 by {
        assert(pb[a].0 == f.per_ball_rails@[a].0 && pb[c].0 == f.per_ball_rails@[c].0);
    }
    lemma_rail_balls_members(pb);
    let base = rail_balls(pb);
    let xs = f.pocketed@ + f.off_table@;
    lemma_add_new_members(base, xs);
    let all = add_new(base, xs);
    let target = Set::new(
        |b: u8|
            (exists|i: int|
                0 <= i < f.per_ball_rails@.len() && (#[trigger] f.per_ball_rails@[i]).0 == b
                    && f.per_ball_rails@[i].1@.len() > 0) || f.pocketed@.contains(b)
                || f.off_table@.contains(b),
    );
    assert forall|b: u8| all.to_set().contains(b) <==> target.contains(b) by {
        assert(all.to_set().contains(b) <==> all.contains(b));
        if exists|i: int| 0 <= i < pb.len() && (#[trigger] pb[i]).0 == b && pb[i].1.len() > 0 {
            let i = choose|i: int| 0 <= i < pb.len() && (#[trigger] pb[i]).0 == b && pb[i].1.len() > 0;
            assert(f.per_ball_rails@[i].0 == b && f.per_ball_rails@[i].1@.len() > 0);
        }
        if exists|i: int|
            0 <= i < f.per_ball_rails@.len() && (#[trigger] f.per_ball_rails@[i]).0 == b
                && f.per_ball_rails@[i].1@.len() > 0 {
            let i = choose|i: int|
                0 <= i < f.per_ball_rails@.len() && (#[trigger] f.per_ball_rails@[i]).0 == b
                    && f.per_ball_rails@[i].1@.len() > 0;
            assert(pb[i].0 == b && pb[i].1.len() > 0);
        }
        if f.pocketed@.contains(b) {
            let k = choose|k: int| 0 <= k < f.pocketed@.len() && f.pocketed@[k] == b;
            assert(xs[k] == b);
        }
        if f.off_table@.contains(b) {
            let k = choose|k: int| 0 <= k < f.off_table@.len() && f.off_table@[k] == b;
            assert(xs[f.pocketed@.len() + k] == b);
        }
        if xs.contains(b) {
            let k = choose|k: int| 0 <= k < xs.len() && xs[k] == b;
            if k < f.pocketed@.len() {
                assert(f.pocketed@[k] == b);
            } else {
                assert(f.off_table@[k - f.pocketed@.len()] == b);
            }
        }
    }
    assert(all.to_set() =~= target);
    all.unique_seq_to_set();
}

proof fn lemma_first_touch_unique(facts: Seq<Fact>)
    ensures
        first_touch_order(facts).no_duplicates(),
    decreases facts.len(),
{
    if facts.len() > 0 {
        lemma_first_touch_unique(facts.drop_last());
        let prev = first_touch_order(facts.drop_last());
        match counted(facts.last()) {
            Some((ball, _)) => if !prev.contains(ball) {
                let r = prev.push(ball);
                assert forall|x: int, y: int| 0 <= x < r.len() && 0 <= y < r.len() && x != y implies r[x]
                    != r[y] by {
                    if x == prev.len() {
                        assert(prev.contains(r[y]));
                    } else if y == prev.len() {
                        assert(prev.contains(r[x]));
                    }
                }
            },
            None => {},
        }
    }
}

/// The derived per-ball rail list names each ball once.
pub proof fn derived_rail_list_names_each_ball_once(
    f: ShotFacts,
    facts: Seq<Fact>,
    balls: Seq<(u8, Seq<Rail>)>,
)
    requires
        derived_from(f, facts, balls),
    ensures
        forall|a: int, c: int|
            0 <= a < c < f.per_ball_rails@.len() ==> (#[trigger] f.per_ball_rails@[a]).0 != (
            #[trigger] f.per_ball_rails@[c]).0,
{
    let order = first_touch_order(facts);
    lemma_first_touch_unique(facts);
    let pb = rails_view(f.per_ball_rails@);
    assert(pb == order.map_values(|b: u8| (b, rails_of(facts, b))));
    assert(pb.len() == order.len());
    assert forall|a: int, c: int| 0 <= a < c < f.per_ball_rails@.len() implies (
    #[trigger] f.per_ball_rails@[a]).0 != (#[trigger] f.per_ball_rails@[c]).0 by {
        assert(pb[a] == (order[a], rails_of(facts, order[a])));
        assert(pb[c] == (order[c], rails_of(facts, order[c])));
        assert(pb[a].0 == f.per_ball_rails@[a].0);
        assert(pb[c].0 == f.per_ball_rails@[c].0);
    }
}

proof fn lemma_count_facts_filter(facts: Seq<Fact>, p: spec_fn(Fact) -> bool)
    ensures
        count_facts(facts, p) == facts.filter(p).len(),
    decreases facts.len(),
{
    broadcast use Seq::lemma_filter_len_push;
    if facts.len() > 0 {
        lemma_count_facts_filter(facts.drop_last(), p);
        assert(facts =~= facts.drop_last().push(facts.last()));
    } else {
        reveal(Seq::filter);
    }
}

proof fn lemma_ids_below(p: spec_fn(u8) -> bool, n: int)
    requires
        0 <= n <= 256,
    ensures
        forall|x: u8| ids_below(p, n).contains(x) <==> ((x as int) < n && p(x)),
        forall|a: int, c: int|
            0 <= a < c < ids_below(p, n).len() ==> #[trigger] ids_below(p, n)[a] < #[trigger] ids_below(
                p,
                n,
            )[c],
        forall|a: int| 0 <= a < ids_below(p, n).len() ==> (#[trigger] ids_below(p, n)[a] as int) < n,
    decreases n,
{
    if n > 0 {
        lemma_ids_below(p, n - 1);
        let prev = ids_below(p, n - 1);
        let t = ids_below(p, n);
        assert(((n - 1) as u8) as int == n - 1);
        if p((n - 1) as u8) {
            assert(t == prev.push((n - 1) as u8));
            assert forall|x: u8| t.contains(x) <==> ((x as int) < n && p(x)) by {
                if prev.contains(x) {
                    let k = choose|k: int| 0 <= k < prev.len() && prev[k] == x;
                    assert(t[k] == x);
                }
                if t.contains(x) && x != (n - 1) as u8 {
                    let k = choose|k: int| 0 <= k < t.len() && t[k] == x;
                    assert(prev[k] == x);
                }
                assert(t[prev.len() as int] == (n - 1) as u8);
            }
            assert forall|a: int, c: int| 0 <= a < c < t.len() implies #[trigger] t[a] < #[trigger] t[c] by {
                assert(t[a] == prev[a]);
                if c < prev.len() {
                    assert(t[c] == prev[c]);
                }
            }
            assert forall|a: int| 0 <= a < t.len() implies (#[trigger] t[a] as int) < n by {
                if a < prev.len() {
                    assert(t[a] == prev[a]);
                }
            }
        } else {
            assert(t == prev);
        }
    }
}

proof fn lemma_ascending_len(s: Seq<u8>)
    requires
        forall|a: int, c: int| 0 <= a < c < s.len() ==> #[trigger] s[a] < #[trigger] s[c],
    ensures
        s.len() == s.to_set().len(),
{
    assert forall|a: int, c: int| 0 <= a < s.len() && 0 <= c < s.len() && a != c implies s[a] != s[c] by {
        if a < c {
            assert(s[a] < s[c]);
        } else {
            assert(s[c] < s[a]);
        }
    }
    s.unique_seq_to_set();
}

/// What `derive` reads from the fact stream, by the facts themselves: the rail-contact total counts
/// the rail contacts of object balls not suppressed by the frozen clause, the suppressed total
/// those it suppressed, the ball-ball total every ball-ball contact; an object ball is in
/// `pocketed` (`off_table`) exactly when some fact pockets it (drives it off), both lists
/// ascending; the cue ball counts as pocketed when a fact pockets it or drives it off; and
/// `cue_ball_contacts` is the number of distinct balls the cue ball met.
pub proof fn derive_reads_the_stream(
    f: ShotFacts,
    facts: Seq<Fact>,
    balls: Seq<(u8, Seq<Rail>)>,
    x: u8,
)
    requires
        derived_from(f, facts, balls),
    ensures
        f.rail_contacts_total == facts.filter(
            |g: Fact|
                match g.kind {
                    FactKind::RailContact { ball, frozen_no_count, .. } => ball != 0 && !frozen_no_count,
                    _ => false,
                },
        ).len(),
        f.frozen_contacts_suppressed == facts.filter(
            |g: Fact|
                match g.kind {
                    FactKind::RailContact { ball, frozen_no_count, .. } => ball != 0 && frozen_no_count,
                    _ => false,
                },
        ).len(),
        f.ball_ball_contacts == facts.filter(|g: Fact| g.kind is BallBall).len(),
        f.pocketed@.contains(x) <==> x != 0 && exists|i: int|
            0 <= i < facts.len() && (#[trigger] facts[i].kind matches FactKind::Pocketed { ball, .. } && ball == x),
        f.off_table@.contains(x) <==> x != 0 && exists|i: int|
            0 <= i < facts.len() && (#[trigger] facts[i].kind matches FactKind::OffTable { ball } && ball == x),
        forall|a: int, c: int| 0 <= a < c < f.pocketed@.len() ==> #[trigger] f.pocketed@[a] < #[trigger] f.pocketed@[c],
        forall|a: int, c: int| 0 <= a < c < f.off_table@.len() ==> #[trigger] f.off_table@[a] < #[trigger] f.off_table@[c],
        f.cue_ball_pocketed <==> exists|i: int|
            0 <= i < facts.len() && ((#[trigger] facts[i].kind matches FactKind::Pocketed { ball, .. } && ball == 0)
                || (facts[i].kind matches FactKind::OffTable { ball } && ball == 0)),
        f.cue_ball_contacts == Set::new(
            |y: u8|
                exists|i: int|
                    0 <= i < facts.len() && (#[trigger] facts[i].kind matches FactKind::BallBall { a, b } && (
                    (a == 0 && b == y) || (a != 0 && b == 0 && a == y))),
        ).len(),
{
    lemma_count_facts_filter(facts, |g: Fact| counted(g) is Some);
    lemma_count_facts_filter(facts, |g: Fact| suppressed(g));
    lemma_count_facts_filter(facts, |g: Fact| g.kind is BallBall);
    assert(facts.filter(|g: Fact| counted(g) is Some) =~= facts.filter(
        |g: Fact|
            match g.kind {
                FactKind::RailContact { ball, frozen_no_count, .. } => ball != 0 && !frozen_no_count,
                _ => false,
            },
    )) by {
        assert((|g: Fact| counted(g) is Some) =~= (|g: Fact|
            match g.kind {
                FactKind::RailContact { ball, frozen_no_count, .. } => ball != 0 && !frozen_no_count,
                _ => false,
            }));
    }
    assert(facts.filter(|g: Fact| suppressed(g)) =~= facts.filter(
        |g: Fact|
            match g.kind {
                FactKind::RailContact { ball, frozen_no_count, .. } => ball != 0 && frozen_no_count,
                _ => false,
            },
    )) by {
        assert((|g: Fact| suppressed(g)) =~= (|g: Fact|
            match g.kind {
                FactKind::RailContact { ball, frozen_no_count, .. } => ball != 0 && frozen_no_count,
                _ => false,
            }));
    }
    let pp = |b: u8| b != 0 && pocketed_by(facts, b);
    let po = |b: u8| b != 0 && off_by(facts, b);
    let pc = |b: u8| met_by_cue(facts, b);
    lemma_ids_below(pp, 256);
    lemma_ids_below(po, 256);
    lemma_ids_below(pc, 256);
    if pocketed_by(facts, x) {
        let i = choose|i: int| 0 <= i < facts.len() && pocketed_ball(facts[i]) == Some(x);
        assert(facts[i].kind matches FactKind::Pocketed { ball, .. } && ball == x);
    }
    if exists|i: int| 0 <= i < facts.len() && (#[trigger] facts[i].kind matches FactKind::Pocketed { ball, .. } && ball == x) {
        let i = choose|i: int| 0 <= i < facts.len() && (#[trigger] facts[i].kind matches FactKind::Pocketed { ball, .. } && ball == x);
        assert(pocketed_ball(facts[i]) == Some(x));
    }
    if off_by(facts, x) {
        let i = choose|i: int| 0 <= i < facts.len() && off_ball(facts[i]) == Some(x);
        assert(facts[i].kind matches FactKind::OffTable { ball } && ball == x);
    }
    if exists|i: int| 0 <= i < facts.len() && (#[trigger] facts[i].kind matches FactKind::OffTable { ball } && ball == x) {
        let i = choose|i: int| 0 <= i < facts.len() && (#[trigger] facts[i].kind matches FactKind::OffTable { ball } && ball == x);
        assert(off_ball(facts[i]) == Some(x));
    }
    if pocketed_by(facts, 0) {
        let i = choose|i: int| 0 <= i < facts.len() && pocketed_ball(facts[i]) == Some(0u8);
        assert(facts[i].kind matches FactKind::Pocketed { ball, .. } && ball == 0);
    }
    if off_by(facts, 0) {
        let i = choose|i: int| 0 <= i < facts.len() && off_ball(facts[i]) == Some(0u8);
        assert(facts[i].kind matches FactKind::OffTable { ball } && ball == 0);
    }
    if exists|i: int|
        0 <= i < facts.len() && ((#[trigger] facts[i].kind matches FactKind::Pocketed { ball, .. } && ball == 0)
            || (facts[i].kind matches FactKind::OffTable { ball } && ball == 0)) {
        let i = choose|i: int|
            0 <= i < facts.len() && ((#[trigger] facts[i].kind matches FactKind::Pocketed { ball, .. } && ball == 0)
                || (facts[i].kind matches FactKind::OffTable { ball } && ball == 0));
        if facts[i].kind is Pocketed {
            assert(pocketed_ball(facts[i]) == Some(0u8));
        } else {
            assert(off_ball(facts[i]) == Some(0u8));
        }
    }
    let met = ids_below(pc, 256);
    lemma_ascending_len(met);
    let target = Set::new(
        |y: u8|
            exists|i: int|
                0 <= i < facts.len() && (#[trigger] facts[i].kind matches FactKind::BallBall { a, b } && (
                (a == 0 && b == y) || (a != 0 && b == 0 && a == y))),
    );
    assert forall|y: u8| met.to_set().contains(y) <==> target.contains(y) by {
        assert((y as int) < 256);
        if met_by_cue(facts, y) {
            let i = choose|i: int| 0 <= i < facts.len() && cue_partner(facts[i]) == Some(y);
            assert(facts[i].kind matches FactKind::BallBall { a, b } && ((a == 0 && b == y) || (a != 0
                && b == 0 && a == y)));
        }
        if target.contains(y) {
            let i = choose|i: int|
                0 <= i < facts.len() && (#[trigger] facts[i].kind matches FactKind::BallBall { a, b } && (
                (a == 0 && b == y) || (a != 0 && b == 0 && a == y)));
            assert(cue_partner(facts[i]) == Some(y));
        }
    }
    assert(met.to_set() =~= target);
}

// ------------------------------------------------------------------ the precedence table

/// The pinned precedence table, as (legal break, tree, rule).
pub open spec fn classify_spec(pocketed: Seq<u8>, off_table: Seq<u8>, distinct: nat, cue_off: bool) -> (
    bool,
    Tree,
    Seq<char>,
) {
    let eight_off = off_table.contains(8);
    let rattled = pocketed.contains(8);
    if rattled || eight_off {
        (
            !cue_off && !eight_off,
            Tree::EightOnBreak,
            if eight_off {
                "4.3(g)"@
            } else if cue_off {
                "4.3(f)"@
            } else {
                "4.3(e)"@
            },
        )
    } else if pocketed.len() > 0 {
        (
            !cue_off && off_table.len() == 0,
            if cue_off || off_table.len() > 0 {
                Tree::BreakFoul
            } else {
                Tree::LegalPocketed
            },
            if cue_off {
                "4.3(h)"@
            } else if off_table.len() > 0 {
                "4.3(g)"@
            } else {
                "4.3(c)"@
            },
        )
    } else if distinct < 4 {
        (false, Tree::IllegalBreak, "4.3(d)"@)
    } else {
        (
            !cue_off && off_table.len() == 0,
            if cue_off || off_table.len() > 0 {
                Tree::BreakFoul
            } else {
                Tree::LegalClean
            },
            if cue_off {
                "4.3(h)"@
            } else if off_table.len() > 0 {
                "4.3(g)"@
            } else {
                "4.3(d)"@
            },
        )
    }
}

/// The pinned precedence table, evaluated from the facts.
pub fn classify(f: &ShotFacts, cue_ball_pocketed_or_off: bool) -> (c: Classification)
    ensures
        (c.legal_break, c.tree, c.rule@) == classify_spec(
            f.pocketed@,
            f.off_table@,
            f.distinct_object_balls_to_rails as nat,
            cue_ball_pocketed_or_off,
        ),
{
    let eight_off = contains_id(&f.off_table, 8);
    let rattled = contains_id(&f.pocketed, 8);
    if rattled || eight_off {
        return Classification {
            legal_break: !cue_ball_pocketed_or_off && !eight_off,
            tree: Tree::EightOnBreak,
            rule: if eight_off {
                "4.3(g)"
            } else if cue_ball_pocketed_or_off {
                "4.3(f)"
            } else {
                "4.3(e)"
            },
        };
    }
    if f.pocketed.len() > 0 {
        // 4.3(c): pocketing makes the break legal; a foul still routes to 4.3(h)
        return Classification {
            legal_break: !cue_ball_pocketed_or_off && f.off_table.len() == 0,
            tree: if cue_ball_pocketed_or_off || f.off_table.len() > 0 {
                Tree::BreakFoul
            } else {
                Tree::LegalPocketed
            },
            rule: if cue_ball_pocketed_or_off {
                "4.3(h)"
            } else if f.off_table.len() > 0 {
                "4.3(g)"
            } else {
                "4.3(c)"
            },
        };
    }
    if f.distinct_object_balls_to_rails < 4 {
        return Classification { legal_break: false, tree: Tree::IllegalBreak, rule: "4.3(d)" };
    }
    Classification {
        legal_break: !cue_ball_pocketed_or_off && f.off_table.len() == 0,
        tree: if cue_ball_pocketed_or_off || f.off_table.len() > 0 {
            Tree::BreakFoul
        } else {
            Tree::LegalClean
        },
        rule: if cue_ball_pocketed_or_off {
            "4.3(h)"
        } else if f.off_table.len() > 0 {
            "4.3(g)"
        } else {
            "4.3(d)"
        },
    }
}

/// The precedence table's promises: a scratch never leaves a legal break, nor does a ball off the
/// table unless the 8 decided the break; the 8 pocketed or off always lands in the 8-on-break tree; a clean
/// legal break needs four object balls to a rail; and a legal break is exactly a break in one of
/// the two legal trees or an 8 pocketed without a scratch.
pub proof fn classification_laws(pocketed: Seq<u8>, off_table: Seq<u8>, distinct: nat, cue_off: bool)
    ensures
        ({
            let (legal, tree, rule) = classify_spec(pocketed, off_table, distinct, cue_off);
            &&& cue_off ==> !legal
            &&& off_table.len() > 0 && tree != Tree::EightOnBreak ==> !legal
            &&& (tree == Tree::EightOnBreak) == (pocketed.contains(8) || off_table.contains(8))
            &&& tree == Tree::LegalClean ==> distinct >= 4 && pocketed.len() == 0 && legal
            &&& tree == Tree::LegalPocketed ==> pocketed.len() > 0 && legal
            &&& (tree == Tree::BreakFoul || tree == Tree::IllegalBreak) ==> !legal
            &&& legal ==> (tree == Tree::LegalClean || tree == Tree::LegalPocketed || tree == Tree::EightOnBreak)
        }),
{
    if off_table.len() > 0 && off_table.contains(8) {
    }
    if off_table.len() == 0 {
        assert(!off_table.contains(8));
    }
}

/// The precedence table case by case. The 8 pocketed or off the table decides first (the
/// 8-on-break tree; legal exactly when the 8 stayed on the table and the cue ball did not scratch).
/// Otherwise a pocketed ball makes the break legal unless the cue ball scratched (4.3(h)) or a
/// ball left the table (4.3(g)). Otherwise fewer than four object balls to a rail is an illegal
/// break under 4.3(d), whatever the cue ball did. Otherwise the break is clean and legal unless
/// the cue ball scratched (4.3(h)) or a ball left the table (4.3(g)).
pub proof fn precedence_table_by_cases(
    pocketed: Seq<u8>,
    off_table: Seq<u8>,
    distinct: nat,
    cue_off: bool,
)
    ensures
        ({
            let (legal, tree, rule) = classify_spec(pocketed, off_table, distinct, cue_off);
            let eight = pocketed.contains(8) || off_table.contains(8);
            &&& off_table.contains(8) ==> tree == Tree::EightOnBreak && !legal && rule == "4.3(g)"@
            &&& pocketed.contains(8) && !off_table.contains(8) ==> tree == Tree::EightOnBreak
                && legal == !cue_off && rule == (if cue_off { "4.3(f)"@ } else { "4.3(e)"@ })
            &&& !eight && pocketed.len() > 0 && cue_off ==> tree == Tree::BreakFoul && !legal
                && rule == "4.3(h)"@
            &&& !eight && pocketed.len() > 0 && !cue_off && off_table.len() > 0 ==> tree
                == Tree::BreakFoul && !legal && rule == "4.3(g)"@
            &&& !eight && pocketed.len() > 0 && !cue_off && off_table.len() == 0 ==> tree
                == Tree::LegalPocketed && legal && rule == "4.3(c)"@
            &&& !eight && pocketed.len() == 0 && distinct < 4 ==> tree == Tree::IllegalBreak && !legal
                && rule == "4.3(d)"@
            &&& !eight && pocketed.len() == 0 && distinct >= 4 && cue_off ==> tree == Tree::BreakFoul
                && !legal && rule == "4.3(h)"@
            &&& !eight && pocketed.len() == 0 && distinct >= 4 && !cue_off && off_table.len() > 0
                ==> tree == Tree::BreakFoul && !legal && rule == "4.3(g)"@
            &&& !eight && pocketed.len() == 0 && distinct >= 4 && !cue_off && off_table.len() == 0
                ==> tree == Tree::LegalClean && legal && rule == "4.3(d)"@
        }),
{
    if pocketed.len() == 0 {
        assert(!pocketed.contains(8));
    }
}

/// The corpus name of a rail.
pub fn rail_name(r: Rail) -> (s: &'static str)
    ensures
        s@ == rail_name_spec(r),
{
    match r {
        Rail::HeadShort => "head_short",
        Rail::FootShort => "foot_short",
        Rail::LeftLong => "left_long",
        Rail::RightLong => "right_long",
    }
}

/// The corpus name of a rail.
pub open spec fn rail_name_spec(r: Rail) -> Seq<char> {
    match r {
        Rail::HeadShort => "head_short"@,
        Rail::FootShort => "foot_short"@,
        Rail::LeftLong => "left_long"@,
        Rail::RightLong => "right_long"@,
    }
}

/// The corpus name of a legality tree.
pub fn tree_name(t: Tree) -> (s: &'static str)
    ensures
        s@ == match t {
            Tree::LegalClean => "legal_clean"@,
            Tree::LegalPocketed => "legal_pocketed"@,
            Tree::IllegalBreak => "illegal_break"@,
            Tree::BreakFoul => "break_foul"@,
            Tree::EightOnBreak => "eight_on_break"@,
        },
{
    match t {
        Tree::LegalClean => "legal_clean",
        Tree::LegalPocketed => "legal_pocketed",
        Tree::IllegalBreak => "illegal_break",
        Tree::BreakFoul => "break_foul",
        Tree::EightOnBreak => "eight_on_break",
    }
}

/// The one-line spelling of a fact kind: a word, then the ball ids, then the rail name or the
/// pocket index.
pub open spec fn fact_name_spec(k: FactKind) -> Seq<char> {
    match k {
        FactKind::BallBall { a, b } => "ball_ball "@ + decimal(a as nat) + " "@ + decimal(b as nat),
        FactKind::RailContact { ball, rail, .. } => "rail "@ + decimal(ball as nat) + " "@ + rail_name_spec(rail),
        FactKind::JawContact { ball, pocket } => "jaw "@ + decimal(ball as nat) + " "@ + decimal(pocket as nat),
        FactKind::Pocketed { ball, pocket } => "pocketed "@ + decimal(ball as nat) + " "@ + decimal(pocket as nat),
        FactKind::OffTable { ball } => "off_table "@ + decimal(ball as nat),
        FactKind::Kick { ball, .. } => "kick "@ + decimal(ball as nat),
        FactKind::Rest { ball } => "rest "@ + decimal(ball as nat),
        FactKind::SlideToRoll { ball } => "slide_to_roll "@ + decimal(ball as nat),
        FactKind::RollToStop { ball } => "roll_to_stop "@ + decimal(ball as nat),
        FactKind::SpinDown { ball } => "spin_down "@ + decimal(ball as nat),
        FactKind::Freeze { ball } => "freeze "@ + decimal(ball as nat),
        FactKind::Depenetration { a, b } => "depenetration "@ + decimal(a as nat) + " "@ + decimal(b as nat),
    }
}

/// The one-line spelling of a fact kind.
pub fn fact_name(k: &FactKind) -> (s: String)
    ensures
        s@ == fact_name_spec(*k),
{
    let mut s = String::new();
    match *k {
        FactKind::BallBall { a, b } => {
            push_str(&mut s, "ball_ball ");
            push_decimal(&mut s, a as u64);
            push_str(&mut s, " ");
            push_decimal(&mut s, b as u64);
        },
        FactKind::RailContact { ball, rail, .. } => {
            push_str(&mut s, "rail ");
            push_decimal(&mut s, ball as u64);
            push_str(&mut s, " ");
            push_str(&mut s, rail_name(rail));
        },
        FactKind::JawContact { ball, pocket } => {
            push_str(&mut s, "jaw ");
            push_decimal(&mut s, ball as u64);
            push_str(&mut s, " ");
            push_decimal(&mut s, pocket as u64);
        },
        FactKind::Pocketed { ball, pocket } => {
            push_str(&mut s, "pocketed ");
            push_decimal(&mut s, ball as u64);
            push_str(&mut s, " ");
            push_decimal(&mut s, pocket as u64);
        },
        FactKind::OffTable { ball } => {
            push_str(&mut s, "off_table ");
            push_decimal(&mut s, ball as u64);
        },
        FactKind::Kick { ball, .. } => {
            push_str(&mut s, "kick ");
            push_decimal(&mut s, ball as u64);
        },
        FactKind::Rest { ball } => {
            push_str(&mut s, "rest ");
            push_decimal(&mut s, ball as u64);
        },
        FactKind::SlideToRoll { ball } => {
            push_str(&mut s, "slide_to_roll ");
            push_decimal(&mut s, ball as u64);
        },
        FactKind::RollToStop { ball } => {
            push_str(&mut s, "roll_to_stop ");
            push_decimal(&mut s, ball as u64);
        },
        FactKind::SpinDown { ball } => {
            push_str(&mut s, "spin_down ");
            push_decimal(&mut s, ball as u64);
        },
        FactKind::Freeze { ball } => {
            push_str(&mut s, "freeze ");
            push_decimal(&mut s, ball as u64);
        },
        FactKind::Depenetration { a, b } => {
            push_str(&mut s, "depenetration ");
            push_decimal(&mut s, a as u64);
            push_str(&mut s, " ");
            push_decimal(&mut s, b as u64);
        },
    }
    assert(s@ =~= fact_name_spec(*k));
    s
}

} // verus!
