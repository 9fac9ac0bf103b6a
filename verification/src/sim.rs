//! The event bookkeeping of the event-driven core: the canonical resolution order of candidate
//! events inside a simultaneity group, and the rest-block record of supported balls.

use vstd::prelude::*;
use crate::facts::{Fact, FactKind};

verus! {

/// A candidate event.
#[derive(Clone, Copy, Debug, PartialEq, Eq, Structural)]
pub enum Ev {
    /// A ball meets a cushion or jaw face.
    Wall { ball: u8, wall: u8 },
    /// A ball meets a jaw tip.
    Tip { ball: u8, tip: u8 },
    /// Two balls meet.
    Pair { i: u8, j: u8 },
    /// An airborne ball lands.
    Land { ball: u8 },
    /// A ball's centre crosses into a mouth.
    Drop { ball: u8, pocket: u8 },
    /// Sliding turns to rolling.
    SlideToRoll { ball: u8 },
    /// Rolling turns to spinning or stationary.
    RollToStop { ball: u8 },
    /// Spin decays below the sleep threshold.
    SpinDown { ball: u8 },
}

/// The rank of an event: contact type first, then the ball id, then the face, tip, partner or
/// pocket.
pub open spec fn rank_spec(e: Ev) -> (u8, u8, u16) {
    match e {
        Ev::Pair { i, j } => (0, i, j as u16),
        Ev::Wall { ball, wall } => (1, ball, wall as u16),
        Ev::Tip { ball, tip } => (2, ball, tip as u16),
        Ev::Drop { ball, pocket } => (3, ball, pocket as u16),
        Ev::Land { ball } => (4, ball, 0),
        Ev::SlideToRoll { ball } => (5, ball, 0),
        Ev::RollToStop { ball } => (6, ball, 0),
        Ev::SpinDown { ball } => (7, ball, 0),
    }
}

/// The kind of an event in resolution order: ball-ball contacts, then wall contacts, jaw-tip
/// contacts, drops, landings, slide-to-roll, roll-to-stop and spin-down.
pub open spec fn resolution_kind(e: Ev) -> int {
    match e {
        Ev::Pair { .. } => 0,
        Ev::Wall { .. } => 1,
        Ev::Tip { .. } => 2,
        Ev::Drop { .. } => 3,
        Ev::Land { .. } => 4,
        Ev::SlideToRoll { .. } => 5,
        Ev::RollToStop { .. } => 6,
        Ev::SpinDown { .. } => 7,
    }
}

/// The ball an event is about (for a pair, its first ball).
pub open spec fn event_ball(e: Ev) -> u8 {
    match e {
        Ev::Pair { i, .. } => i,
        Ev::Wall { ball, .. } => ball,
        Ev::Tip { ball, .. } => ball,
        Ev::Drop { ball, .. } => ball,
        Ev::Land { ball } => ball,
        Ev::SlideToRoll { ball } => ball,
        Ev::RollToStop { ball } => ball,
        Ev::SpinDown { ball } => ball,
    }
}

/// The event's second index: the partner, wall, tip or pocket; 0 for a mode change or a landing.
pub open spec fn event_index(e: Ev) -> int {
    match e {
        Ev::Pair { j, .. } => j as int,
        Ev::Wall { wall, .. } => wall as int,
        Ev::Tip { tip, .. } => tip as int,
        Ev::Drop { pocket, .. } => pocket as int,
        _ => 0,
    }
}

/// Does rank `a` come strictly before rank `b`, comparing component by component?
pub open spec fn rank_before(a: (u8, u8, u16), b: (u8, u8, u16)) -> bool {
    a.0 < b.0 || (a.0 == b.0 && (a.1 < b.1 || (a.1 == b.1 && a.2 < b.2)))
}

/// The resolution order the rank gives: ball-ball contacts come first (their kind component is
/// 0), an event of an earlier kind comes before any event of a later kind whatever the balls, and
/// two events of one kind come in order of ball id, then of their second index.
pub proof fn rank_orders_by_kind_then_ball(e1: Ev, e2: Ev)
    ensures
        (e1 is Pair) == (rank_spec(e1).0 == 0),
        rank_spec(e1).0 as int == resolution_kind(e1),
        rank_spec(e1).1 == event_ball(e1),
        rank_spec(e1).2 as int == event_index(e1),
        resolution_kind(e1) < resolution_kind(e2) ==> rank_before(rank_spec(e1), rank_spec(e2)),
        resolution_kind(e1) == resolution_kind(e2) ==> (rank_before(rank_spec(e1), rank_spec(e2))
            <==> (event_ball(e1) < event_ball(e2) || (event_ball(e1) == event_ball(e2)
            && event_index(e1) < event_index(e2)))),
{
}

impl Ev {
    /// The canonical resolution order inside a simultaneity group: contact type first, then ball
    /// ids.
    pub fn rank(self) -> (r: (u8, u8, u16))
        ensures
            r == rank_spec(self),
    {
        match self {
            Ev::Pair { i, j } => (0, i, j as u16),
            Ev::Wall { ball, wall } => (1, ball, wall as u16),
            Ev::Tip { ball, tip } => (2, ball, tip as u16),
            Ev::Drop { ball, pocket } => (3, ball, pocket as u16),
            Ev::Land { ball } => (4, ball, 0),
            Ev::SlideToRoll { ball } => (5, ball, 0),
            Ev::RollToStop { ball } => (6, ball, 0),
            Ev::SpinDown { ball } => (7, ball, 0),
        }
    }
}

/// Distinct events have distinct ranks, so the rank orders every simultaneity group totally and
/// the resolution order does not depend on the order the candidates were found in.
pub proof fn rank_is_injective(e1: Ev, e2: Ev)
    ensures
        rank_spec(e1) == rank_spec(e2) ==> e1 == e2,
{
}

/// A ball that is at rest over a pocket mouth, held up by another ball: the rules layer counts it
/// as pocketed.
#[derive(Clone, Debug, PartialEq, Eq)]
pub struct SupportedOverMouth {
    /// The ball whose centre lies inside the mouth.
    pub ball: u8,
    /// The balls it is in contact with — its support.
    pub supporting_balls: Vec<u8>,
}

/// The fact bookkeeping of a shot: the facts reported so far, the next sequence number, the time
/// of the events being resolved (as the bit pattern of seconds) and their simultaneity group.
pub struct FactLog {
    /// The facts, in the order they were reported.
    pub facts: Vec<Fact>,
    /// The next fact's sequence number.
    pub seq: u64,
    /// The current event time, as a bit pattern.
    pub t: u64,
    /// The current simultaneity group.
    pub group: u32,
}

impl FactLog {
    /// The facts are numbered 0, 1, 2, … in the order they were reported, and the next number is
    /// their count.
    pub open spec fn wf(&self) -> bool {
        &&& self.seq == self.facts@.len()
        &&& forall|k: int| 0 <= k < self.facts@.len() ==> (#[trigger] self.facts@[k]).seq == k
    }

    /// An empty log at time `t` (a bit pattern), in group 0.
    pub fn new(t: u64) -> (log: Self)
        ensures
            log.wf(),
            log.facts@.len() == 0,
            log.t == t,
            log.group == 0,
    {
        FactLog { facts: Vec::new(), seq: 0, t, group: 0 }
    }

    /// Reports a fact of the current group's events.
    pub fn push_event_fact(&mut self, kind: FactKind)
        requires
            old(self).wf(),
            old(self).seq < u64::MAX,
        ensures
            final(self).wf(),
            final(self).facts@ == old(self).facts@.push(
                Fact { seq: old(self).seq, t: old(self).t, group: Some(old(self).group), kind },
            ),
            final(self).t == old(self).t,
            final(self).group == old(self).group,
    {
        self.facts.push(Fact { seq: self.seq, t: self.t, group: Some(self.group), kind });
        self.seq = self.seq + 1;
    }

    /// Reports a fact at a group boundary, outside the group's event set.
    pub fn push_boundary_fact(&mut self, kind: FactKind)
        requires
            old(self).wf(),
            old(self).seq < u64::MAX,
        ensures
            final(self).wf(),
            final(self).facts@ == old(self).facts@.push(
                Fact { seq: old(self).seq, t: old(self).t, group: None, kind },
            ),
            final(self).t == old(self).t,
            final(self).group == old(self).group,
    {
        self.facts.push(Fact { seq: self.seq, t: self.t, group: None, kind });
        self.seq = self.seq + 1;
    }
}

} // verus!
