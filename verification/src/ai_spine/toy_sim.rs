//! The toy simulator's event vocabulary and its state hash.

use vstd::prelude::*;
use crate::state_hash::{feed, feed_word, fnv1a, fnv1a_append, le_bytes, FNV_OFFSET_BASIS};

verus! {

/// One event of a toy shot, by the balls' indices.
#[derive(Clone, Copy, Debug, PartialEq, Eq, Structural)]
pub enum Event {
    /// The ball came to rest.
    Stop(usize),
    /// Two balls collided.
    BallBall(usize, usize),
    /// The ball struck a cushion.
    Cushion(usize),
    /// The ball dropped into a pocket.
    Pocket(usize),
}

/// A toy ball as the hash reads it: the bit patterns of its position and velocity (`x` then `y`)
/// and whether it is still on the table.
#[derive(Clone, Copy, Debug, PartialEq, Eq)]
pub struct Ball {
    /// Position (mm), as the bit patterns of `x` and `y`.
    pub p: [u64; 2],
    /// Velocity (mm/s), as the bit patterns of `x` and `y`.
    pub v: [u64; 2],
    /// Still on the table?
    pub alive: bool,
}

/// One ball's part of the hashed stream: the little-endian bytes of its four words, then its
/// `alive` flag as a byte.
pub open spec fn toy_ball_bytes(b: Ball) -> Seq<u8> {
    le_bytes(b.p@[0]) + le_bytes(b.p@[1]) + le_bytes(b.v@[0]) + le_bytes(b.v@[1]) + seq![
        (if b.alive { 1u8 } else { 0u8 }),
    ]
}

/// The hashed stream of a sequence of balls.
pub open spec fn toy_bytes(s: Seq<Ball>) -> Seq<u8>
    decreases s.len(),
{
    if s.len() == 0 {
        Seq::empty()
    } else {
        toy_bytes(s.drop_last()) + toy_ball_bytes(s.last())
    }
}

fn feed_toy_ball(h: u64, b: &Ball) -> (r: u64)
    ensures
        r == fnv1a(h, toy_ball_bytes(*b)),
{
    let h0 = feed_word(h, b.p[0]);
    let h1 = feed_word(h0, b.p[1]);
    let h2 = feed_word(h1, b.v[0]);
    let h3 = feed_word(h2, b.v[1]);
    let alive: u8 = if b.alive { 1 } else { 0 };
    let h4 = feed(h3, alive);
    proof {
        let w0 = le_bytes(b.p@[0]);
        let w1 = le_bytes(b.p@[1]);
        let w2 = le_bytes(b.v@[0]);
        let w3 = le_bytes(b.v@[1]);
        fnv1a_append(h, w0, w1);
        fnv1a_append(h, w0 + w1, w2);
        fnv1a_append(h, w0 + w1 + w2, w3);
        fnv1a_append(h, w0 + w1 + w2 + w3, seq![alive]);
        assert(seq![alive].drop_last() =~= Seq::<u8>::empty());
        assert(fnv1a(h3, Seq::<u8>::empty()) == h3);
        assert(fnv1a(h3, seq![alive]) == h4);
    }
    h4
}

/// FNV-1a 64 over the balls' canonical bytes: two identical positions hash alike.
pub fn state_hash(balls: &[Ball]) -> (h: u64)
    ensures
        h == fnv1a(FNV_OFFSET_BASIS, toy_bytes(balls@)),
{
    let mut h = FNV_OFFSET_BASIS;
    let mut i: usize = 0;
    while i < balls.len()
        invariant
            i <= balls@.len(),
            h == fnv1a(FNV_OFFSET_BASIS, toy_bytes(balls@.subrange(0, i as int))),
        decreases balls@.len() - i,
    {
        proof {
            let next = balls@.subrange(0, i + 1);
            assert(next.drop_last() =~= balls@.subrange(0, i as int));
            fnv1a_append(
                FNV_OFFSET_BASIS,
                toy_bytes(balls@.subrange(0, i as int)),
                toy_ball_bytes(balls@[i as int]),
            );
        }
        h = feed_toy_ball(h, &balls[i]);
        i = i + 1;
    }
    assert(balls@.subrange(0, balls@.len() as int) =~= balls@);
    h
}

} // verus!
