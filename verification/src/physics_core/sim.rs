//! The prototype core's vocabulary: motion modes, facts, and the canonical event order.

use vstd::prelude::*;
use crate::physics_core::table::Rail;

verus! {

/// The motion mode in force for a ball.
#[derive(Clone, Copy, Debug, PartialEq, Eq, Structural)]
pub enum Mode {
    /// The contact point slips.
    Sliding,
    /// Rolling without slipping.
    Rolling,
    /// Spinning in place.
    Spinning,
    /// At rest.
    Stationary,
    /// Off the cloth.
    Airborne,
}

/// Why a ball left the cloth vertically.
#[derive(Clone, Copy, Debug, PartialEq, Eq, Structural)]
pub enum KickCause {
    /// A cushion contact's tilted normal drove the ball down.
    CushionPop,
    /// An airborne ball landed and bounced.
    Landing,
}

/// A fact's kind. Pockets are named by their construction index.
#[derive(Clone, Copy, Debug, PartialEq, Eq, Structural)]
pub enum FactKind {
    /// Two balls touched.
    BallBall { a: u8, b: u8 },
    /// A ball touched a cushion; `frozen_no_count` marks a contact the frozen clause suppresses.
    RailContact { ball: u8, rail: Rail, frozen_no_count: bool },
    /// A ball touched a jaw.
    JawContact { ball: u8, pocket: usize },
    /// A ball crossed into a mouth.
    Pocketed { ball: u8, pocket: usize },
    /// A ball left the playing surface.
    OffTable { ball: u8 },
    /// A ball left the cloth vertically.
    Kick { ball: u8, cause: KickCause },
    /// A ball came to rest.
    Rest { ball: u8 },
    /// Sliding turned to rolling.
    SlideToRoll { ball: u8 },
    /// Rolling turned to spinning or stationary.
    RollToStop { ball: u8 },
    /// Spin decayed below the sleep threshold.
    SpinDown { ball: u8 },
    /// A ball was annotated frozen.
    Freeze { ball: u8 },
    /// The separation step ran for two overlapping balls.
    Depenetration { a: u8, b: u8 },
}

/// One fact; `t` is the bit pattern of the event time (s).
#[derive(Clone, Copy, Debug, PartialEq, Eq)]
pub struct Fact {
    /// The fact's index within its shot.
    pub seq: u64,
    /// The event time (s), as the bit pattern of the `f64`.
    pub t: u64,
    /// The simultaneity group.
    pub group: u32,
    /// What happened.
    pub kind: FactKind,
}

/// A candidate event of the prototype core.
#[derive(Clone, Copy, Debug, PartialEq, Eq, Structural)]
pub enum Ev {
    /// A ball meets a wall.
    Wall { ball: u8, wall: usize },
    /// A ball meets a jaw tip.
    Tip { ball: u8, tip: usize },
    /// Two balls meet.
    Pair { i: u8, j: u8 },
    /// An airborne ball lands.
    Land { ball: u8 },
    /// A ball drops into a pocket.
    Drop { ball: u8, pocket: usize },
    /// Sliding turns to rolling.
    SlideToRoll { ball: u8 },
    /// Rolling turns to spinning or stationary.
    RollToStop { ball: u8 },
    /// Spin decays below the sleep threshold.
    SpinDown { ball: u8 },
}

/// The rank of an event: contact type, ball id, then the partner, wall, tip or pocket (indices
/// kept modulo 2^16).
pub open spec fn rank_spec(e: Ev) -> (u8, u8, u16) {
    match e {
        Ev::Pair { i, j } => (0, i, j as u16),
        Ev::Wall { ball, wall } => (1, ball, wall as u16),
        Ev::Tip { ball, tip } => (2, ball, tip as u16),
        Ev::Drop { ball, pocket } => (3, ball, pocket as u16),
        Ev::Land { ball } => (4, ball, 0),
        Ev::SlideToRoll { ball } => (5, ball, 0),
        Ev::RollToStop { ball } => (6, ball, 0),
        Ev::SpinDown { ball } => (7, ball, 0),
    }
}

/// Are the wall, tip and pocket indices of an event below 2^16?
pub open spec fn small_indices(e: Ev) -> bool {
    match e {
        Ev::Wall { wall, .. } => wall < 0x1_0000,
        Ev::Tip { tip, .. } => tip < 0x1_0000,
        Ev::Drop { pocket, .. } => pocket < 0x1_0000,
        _ => true,
    }
}

/// The kind of an event in resolution order: ball-ball contacts, then wall contacts, jaw-tip
/// contacts, drops, landings, slide-to-roll, roll-to-stop and spin-down.
pub open spec fn resolution_kind(e: Ev) -> int {
    match e {
        Ev::Pair { .. } => 0,
        Ev::Wall { .. } => 1,
        Ev::Tip { .. } => 2,
        Ev::Drop { .. } => 3,
        Ev::Land { .. } => 4,
        Ev::SlideToRoll { .. } => 5,
        Ev::RollToStop { .. } => 6,
        Ev::SpinDown { .. } => 7,
    }
}

/// The ball an event is about (for a pair, its first ball).
pub open spec fn event_ball(e: Ev) -> u8 {
    match e {
        Ev::Pair { i, .. } => i,
        Ev::Wall { ball, .. } => ball,
        Ev::Tip { ball, .. } => ball,
        Ev::Drop { ball, .. } => ball,
        Ev::Land { ball } => ball,
        Ev::SlideToRoll { ball } => ball,
        Ev::RollToStop { ball } => ball,
        Ev::SpinDown { ball } => ball,
    }
}

/// The event's second index: the partner, wall, tip or pocket; 0 for a mode change or a landing.
pub open spec fn event_index(e: Ev) -> int {
    match e {
        Ev::Pair { j, .. } => j as int,
        Ev::Wall { wall, .. } => wall as int,
        Ev::Tip { tip, .. } => tip as int,
        Ev::Drop { pocket, .. } => pocket as int,
        _ => 0,
    }
}

/// Does rank `a` come strictly before rank `b`, comparing component by component?
pub open spec fn rank_before(a: (u8, u8, u16), b: (u8, u8, u16)) -> bool {
    a.0 < b.0 || (a.0 == b.0 && (a.1 < b.1 || (a.1 == b.1 && a.2 < b.2)))
}

/// The resolution order the rank gives: ball-ball contacts come first (their kind component is
/// 0), an event of an earlier kind comes before any event of a later kind whatever the balls, and
/// two events of one kind come in order of ball id, then of their second index.
pub proof fn rank_orders_by_kind_then_ball(e1: Ev, e2: Ev)
    requires
        small_indices(e1),
        small_indices(e2),
    ensures
        (e1 is Pair) == (rank_spec(e1).0 == 0),
        rank_spec(e1).0 as int == resolution_kind(e1),
        rank_spec(e1).1 == event_ball(e1),
        rank_spec(e1).2 as int == event_index(e1),
        resolution_kind(e1) < resolution_kind(e2) ==> rank_before(rank_spec(e1), rank_spec(e2)),
        resolution_kind(e1) == resolution_kind(e2) ==> (rank_before(rank_spec(e1), rank_spec(e2))
            <==> (event_ball(e1) < event_ball(e2) || (event_ball(e1) == event_ball(e2)
            && event_index(e1) < event_index(e2)))),
{
}

impl Ev {
    /// Canonical resolution order inside a simultaneity group: contact type first, then ball ids.
    pub fn rank(&self) -> (r: (u8, u8, u16))
        ensures
            r == rank_spec(*self),
    {
        match self {
            Ev::Pair { i, j } => (0, *i, *j as u16),
            Ev::Wall { ball, wall } => (1, *ball, *wall as u16),
            Ev::Tip { ball, tip } => (2, *ball, *tip as u16),
            Ev::Drop { ball, pocket } => (3, *ball, *pocket as u16),
            Ev::Land { ball } => (4, *ball, 0),
            Ev::SlideToRoll { ball } => (5, *ball, 0),
            Ev::RollToStop { ball } => (6, *ball, 0),
            Ev::SpinDown { ball } => (7, *ball, 0),
        }
    }
}

/// Events whose indices fit in 16 bits have distinct ranks, so the rank orders a simultaneity
/// group totally.
pub proof fn rank_is_injective(e1: Ev, e2: Ev)
    requires
        small_indices(e1),
        small_indices(e2),
    ensures
        rank_spec(e1) == rank_spec(e2) ==> e1 == e2,
{
}

/// The fact bookkeeping of a shot: the facts reported so far, the next sequence number, the time
/// of the events being resolved (as the bit pattern of seconds) and their simultaneity group.
pub struct FactLog {
    /// The facts, in the order they were reported.
    pub facts: Vec<Fact>,
    /// The next fact's sequence number.
    pub seq: u64,
    /// The current event time, as a bit pattern.
    pub t: u64,
    /// The current simultaneity group.
    pub group: u32,
}

impl FactLog {
    /// The facts are numbered 0, 1, 2, … in the order they were reported, and the next number is
    /// their count.
    pub open spec fn wf(&self) -> bool {
        &&& self.seq == self.facts@.len()
        &&& forall|k: int| 0 <= k < self.facts@.len() ==> (#[trigger] self.facts@[k]).seq == k
    }

    /// An empty log at time `t` (a bit pattern), in group 0.
    pub fn new(t: u64) -> (log: Self)
        ensures
            log.wf(),
            log.facts@.len() == 0,
            log.t == t,
            log.group == 0,
    {
        FactLog { facts: Vec::new(), seq: 0, t, group: 0 }
    }

    /// Reports a fact at the current time, in the current group.
    pub fn push_fact(&mut self, kind: FactKind)
        requires
            old(self).wf(),
            old(self).seq < u64::MAX,
        ensures
            final(self).wf(),
            final(self).facts@ == old(self).facts@.push(
                Fact { seq: old(self).seq, t: old(self).t, group: old(self).group, kind },
            ),
            final(self).t == old(self).t,
            final(self).group == old(self).group,
    {
        self.facts.push(Fact { seq: self.seq, t: self.t, group: self.group, kind });
        self.seq = self.seq + 1;
    }
}

} // verus!
