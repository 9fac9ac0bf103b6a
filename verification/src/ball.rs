//! Ball state and motion modes. Coordinates are carried as the IEEE-754 bit patterns of the
//! double-precision values, which is all the hashing and bookkeeping here read.

use vstd::prelude::*;

verus! {

/// The motion mode a ball is in between events. The mode is part of the hashed state.
#[derive(Debug, Clone, Copy, PartialEq, Eq, Structural)]
pub enum MotionMode {
    /// Ballistic: gravity only, no cloth contact.
    Airborne,
    /// The contact point slips; Coulomb sliding deceleration.
    Sliding,
    /// Rolling without slipping; linear rolling resistance.
    Rolling,
    /// Translating as good as not, but still spinning about the vertical: spin decay only.
    Spinning,
    /// Below the sleep thresholds; the state snaps here.
    Stationary,
}

/// One ball's state: position, velocity, angular velocity (each as the bit patterns of three
/// `f64` components: mm, mm/s, rad/s), mode, and the two terminal flags. The cue ball is index 0;
/// object balls are 1..=15 in ball-number order.
#[derive(Debug, Clone, Copy, PartialEq, Eq)]
pub struct BallState {
    /// Centre position (mm) in the table frame: x long, y across, z up.
    pub pos_mm: [u64; 3],
    /// Linear velocity (mm/s).
    pub vel_mm_s: [u64; 3],
    /// Angular velocity (rad/s).
    pub spin_rad_s: [u64; 3],
    /// The mode in force between the surrounding events.
    pub mode: MotionMode,
    /// True once the ball has crossed into a pocket mouth.
    pub pocketed: bool,
    /// True once the ball has left the playing surface.
    pub off_table: bool,
}

impl BallState {
    /// Whether the ball is in play: on the surface and not pocketed.
    pub open spec fn in_play_spec(&self) -> bool {
        !self.pocketed && !self.off_table
    }

    /// A ball at rest at `pos_mm`, on the cloth: zero velocity and spin (`+0.0`, whose bit
    /// pattern is 0), stationary, in play.
    pub fn at_rest(pos_mm: [u64; 3]) -> (s: Self)
        ensures
            s.pos_mm == pos_mm,
            s.vel_mm_s@ == seq![0u64, 0u64, 0u64],
            s.spin_rad_s@ == seq![0u64, 0u64, 0u64],
            s.mode == MotionMode::Stationary,
            !s.pocketed,
            !s.off_table,
    {
        let s = BallState {
            pos_mm,
            vel_mm_s: [0, 0, 0],
            spin_rad_s: [0, 0, 0],
            mode: MotionMode::Stationary,
            pocketed: false,
            off_table: false,
        };
        assert(s.vel_mm_s@ =~= seq![0u64, 0u64, 0u64]);
        assert(s.spin_rad_s@ =~= seq![0u64, 0u64, 0u64]);
        s
    }

    /// Whether the ball is in play: on the surface and not pocketed.
    pub fn in_play(&self) -> (b: bool)
        ensures
            b == self.in_play_spec(),
    {
        !self.pocketed && !self.off_table
    }
}

} // verus!
