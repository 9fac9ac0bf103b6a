//! `state_hash`: FNV-1a 64 over the canonical byte stream of a position.
//!
//! The stream is, per ball in id order (cue, 1–15): the little-endian bytes of the bit patterns of
//! position, velocity and angular velocity, then the motion mode and the pocketed / off-table
//! flags.

use vstd::prelude::*;
use crate::ball::{BallState, MotionMode};
use crate::rng::mul64;
use vstd::arithmetic::div_mod::{lemma_mod_multiples_vanish, lemma_mul_mod_noop_left};
use vstd::arithmetic::mul::lemma_mul_is_associative;
use crate::text::{hex_fixed, push_hex_fixed};

verus! {

/// The FNV-1a 64 offset basis.
pub const FNV_OFFSET_BASIS: u64 = 0xcbf2_9ce4_8422_2325;
/// The FNV-1a 64 prime.
pub const FNV_PRIME: u64 = 0x0000_0100_0000_01b3;

/// FNV-1a over `bytes`, from the running hash `h`.
pub open spec fn fnv1a(h: u64, bytes: Seq<u8>) -> u64
    decreases bytes.len(),
{
    if bytes.len() == 0 {
        h
    } else {
        mul64(fnv1a(h, bytes.drop_last()) ^ (bytes.last() as u64), FNV_PRIME)
    }
}

/// The eight little-endian bytes of a word.
pub open spec fn le_bytes(w: u64) -> Seq<u8> {
    Seq::new(8, |i: int| ((w >> ((8 * i) as u64)) & 0xff) as u8)
}

/// The byte a motion mode is hashed as.
pub open spec fn mode_byte(m: MotionMode) -> u8 {
    match m {
        MotionMode::Airborne => 0,
        MotionMode::Sliding => 1,
        MotionMode::Rolling => 2,
        MotionMode::Spinning => 3,
        MotionMode::Stationary => 4,
    }
}

/// The bytes of three words, in order.
pub open spec fn words_bytes(w: [u64; 3]) -> Seq<u8> {
    le_bytes(w@[0]) + le_bytes(w@[1]) + le_bytes(w@[2])
}

/// One ball's part of the canonical stream.
pub open spec fn ball_bytes(b: BallState) -> Seq<u8> {
    words_bytes(b.pos_mm) + words_bytes(b.vel_mm_s) + words_bytes(b.spin_rad_s) + seq![
        mode_byte(b.mode),
        (if b.pocketed { 1u8 } else { 0u8 }),
        (if b.off_table { 1u8 } else { 0u8 }),
    ]
}

/// The canonical stream of a sequence of balls.
pub open spec fn states_bytes(s: Seq<BallState>) -> Seq<u8>
    decreases s.len(),
{
    if s.len() == 0 {
        Seq::empty()
    } else {
        states_bytes(s.drop_last()) + ball_bytes(s.last())
    }
}

/// Hashing a concatenation continues from the hash of the first part.
pub proof fn fnv1a_append(h: u64, a: Seq<u8>, b: Seq<u8>)
    ensures
        fnv1a(h, a + b) == fnv1a(fnv1a(h, a), b),
    decreases b.len(),
{
    if b.len() == 0 {
        assert(a + b =~= a);
    } else {
        assert((a + b).drop_last() =~= a + b.drop_last());
        fnv1a_append(h, a, b.drop_last());
    }
}

/// One FNV-1a step.
pub(crate) fn feed(h: u64, byte: u8) -> (r: u64)
    ensures
        r == mul64(h ^ (byte as u64), FNV_PRIME),
{
    reveal(mul64);
    (h ^ (byte as u64)).wrapping_mul(FNV_PRIME)
}

/// Feeds the little-endian bytes of a word.
pub(crate) fn feed_word(h: u64, w: u64) -> (r: u64)
    ensures
        r == fnv1a(h, le_bytes(w)),
{
    let mut hash = h;
    let mut k: u64 = 0;
    while k < 8
        invariant
            k <= 8,
            hash == fnv1a(h, le_bytes(w).subrange(0, k as int)),
        decreases 8 - k,
    {
        let byte = ((w >> (8 * k)) & 0xff) as u8;
        proof {
            let pre = le_bytes(w).subrange(0, k as int);
            let next = le_bytes(w).subrange(0, k + 1);
            assert(next.drop_last() =~= pre);
            assert(next.last() == byte);
        }
        hash = feed(hash, byte);
        k = k + 1;
    }
    assert(le_bytes(w).subrange(0, 8) =~= le_bytes(w));
    hash
}

/// Feeds the bytes of three words.
fn feed_words(h: u64, w: &[u64; 3]) -> (r: u64)
    ensures
        r == fnv1a(h, words_bytes(*w)),
{
    let h0 = feed_word(h, w[0]);
    let h1 = feed_word(h0, w[1]);
    let h2 = feed_word(h1, w[2]);
    proof {
        fnv1a_append(h, le_bytes(w@[0]), le_bytes(w@[1]));
        fnv1a_append(h, le_bytes(w@[0]) + le_bytes(w@[1]), le_bytes(w@[2]));
    }
    h2
}

/// Feeds one ball's part of the stream.
fn feed_ball(h: u64, ball: &BallState) -> (r: u64)
    ensures
        r == fnv1a(h, ball_bytes(*ball)),
{
    let h0 = feed_words(h, &ball.pos_mm);
    let h1 = feed_words(h0, &ball.vel_mm_s);
    let h2 = feed_words(h1, &ball.spin_rad_s);
    let mode: u8 = match ball.mode {
        MotionMode::Airborne => 0,
        MotionMode::Sliding => 1,
        MotionMode::Rolling => 2,
        MotionMode::Spinning => 3,
        MotionMode::Stationary => 4,
    };
    let pocketed: u8 = if ball.pocketed { 1 } else { 0 };
    let off_table: u8 = if ball.off_table { 1 } else { 0 };
    let h3 = feed(h2, mode);
    let h4 = feed(h3, pocketed);
    let h5 = feed(h4, off_table);
    proof {
        let a = words_bytes(ball.pos_mm);
        let b = words_bytes(ball.vel_mm_s);
        let c = words_bytes(ball.spin_rad_s);
        let t = seq![mode, pocketed, off_table];
        fnv1a_append(h, a, b);
        fnv1a_append(h, a + b, c);
        fnv1a_append(h, a + b + c, t);
        assert(t.drop_last() =~= seq![mode, pocketed]);
        assert(t.drop_last().drop_last() =~= seq![mode]);
        assert(t.drop_last().drop_last().drop_last() =~= Seq::<u8>::empty());
        assert(fnv1a(h2, Seq::<u8>::empty()) == h2);
        assert(seq![mode].drop_last() =~= Seq::<u8>::empty());
        assert(fnv1a(h2, seq![mode]) == h3);
        assert(seq![mode, pocketed].drop_last() =~= seq![mode]);
        assert(fnv1a(h2, seq![mode, pocketed]) == h4);
        assert(fnv1a(h2, t) == h5);
    }
    h5
}

/// Hash one position: 16 ball states, cue first.
pub fn state_hash(states: &[BallState; 16]) -> (h: u64)
    ensures
        h == fnv1a(FNV_OFFSET_BASIS, states_bytes(states@)),
{
    let mut hash = FNV_OFFSET_BASIS;
    let mut i: usize = 0;
    while i < 16
        invariant
            0 <= i <= 16,
            states@.len() == 16,
            hash == fnv1a(FNV_OFFSET_BASIS, states_bytes(states@.subrange(0, i as int))),
        decreases 16 - i,
    {
        proof {
            let next = states@.subrange(0, i + 1);
            assert(next.drop_last() =~= states@.subrange(0, i as int));
            fnv1a_append(FNV_OFFSET_BASIS, states_bytes(states@.subrange(0, i as int)), ball_bytes(states@[i as int]));
        }
        hash = feed_ball(hash, &states[i]);
        i = i + 1;
    }
    assert(states@.subrange(0, 16) =~= states@);
    hash
}

/// The hash rendered as the 16 lower-case hex digits the goldens carry.
pub fn state_hash_hex(states: &[BallState; 16]) -> (s: String)
    ensures
        s@ == hex_fixed(fnv1a(FNV_OFFSET_BASIS, states_bytes(states@)) as nat, 16),
{
    let h = state_hash(states);
    let mut s = String::new();
    push_hex_fixed(&mut s, h, 16);
    assert(Seq::<char>::empty() + hex_fixed(h as nat, 16) =~= hex_fixed(h as nat, 16));
    s
}

/// Multiplying by the FNV prime modulo 2^64 is undone by multiplying by its inverse.
proof fn lemma_prime_invertible(x: u64)
    ensures
        mul64(mul64(x, FNV_PRIME), 0xce96_5057_aff6_957b) == x,
{
    reveal(mul64);
    let m: int = 0x1_0000_0000_0000_0000;
    let p: int = FNV_PRIME as int;
    let q: int = 0xce96_5057_aff6_957b;
    let k: int = 887285111055;
    let a: int = x as int * p;
    lemma_mul_mod_noop_left(a, q, m);
    lemma_mul_is_associative(x as int, p, q);
    assert(p * q == k * m + 1);
    assert(x as int * (k * m + 1) == m * (x as int * k) + x as int) by (nonlinear_arith);
    lemma_mod_multiples_vanish(x as int * k, x as int, m);
}

proof fn lemma_step_injective(a: u64, b: u64, c: u8, d: u8)
    requires
        a != b || c != d,
        a == b || c == d,
    ensures
        mul64(a ^ (c as u64), FNV_PRIME) != mul64(b ^ (d as u64), FNV_PRIME),
{
    assert(a != b || c != d ==> (a == b || c == d) ==> (a ^ (c as u64)) != (b ^ (d as u64))) by (bit_vector);
    lemma_prime_invertible(a ^ (c as u64));
    lemma_prime_invertible(b ^ (d as u64));
}

/// FNV-1a tells apart any two equally long streams that differ in exactly one byte.
pub proof fn fnv1a_detects_a_single_byte_change(h: u64, a: Seq<u8>, b: Seq<u8>, k: int)
    requires
        a.len() == b.len(),
        0 <= k < a.len(),
        a[k] != b[k],
        forall|i: int| 0 <= i < a.len() && i != k ==> a[i] == b[i],
    ensures
        fnv1a(h, a) != fnv1a(h, b),
    decreases a.len(),
{
    let n = a.len() - 1;
    if k == n {
        assert(a.drop_last() =~= b.drop_last());
        lemma_step_injective(fnv1a(h, a.drop_last()), fnv1a(h, b.drop_last()), a.last(), b.last());
    } else {
        fnv1a_detects_a_single_byte_change(h, a.drop_last(), b.drop_last(), k);
        lemma_step_injective(fnv1a(h, a.drop_last()), fnv1a(h, b.drop_last()), a.last(), b.last());
    }
}

/// Two positions whose canonical streams differ in exactly one byte hash differently: the hash is
/// sensitive to every position, velocity and spin bit, the mode and both flags.
pub proof fn state_hash_detects_a_single_byte_change(a: [BallState; 16], b: [BallState; 16], k: int)
    requires
        states_bytes(a@).len() == states_bytes(b@).len(),
        0 <= k < states_bytes(a@).len(),
        states_bytes(a@)[k] != states_bytes(b@)[k],
        forall|i: int|
            0 <= i < states_bytes(a@).len() && i != k ==> states_bytes(a@)[i] == states_bytes(b@)[i],
    ensures
        fnv1a(FNV_OFFSET_BASIS, states_bytes(a@)) != fnv1a(FNV_OFFSET_BASIS, states_bytes(b@)),
{
    fnv1a_detects_a_single_byte_change(FNV_OFFSET_BASIS, states_bytes(a@), states_bytes(b@), k);
}

/// Word `w` (0..9) of a ball's state: position x, y, z, then velocity x, y, z, then spin x, y, z.
pub open spec fn state_word(b: BallState, w: int) -> u64 {
    if w < 3 {
        b.pos_mm@[w]
    } else if w < 6 {
        b.vel_mm_s@[w - 3]
    } else {
        b.spin_rad_s@[w - 6]
    }
}

proof fn lemma_ball_bytes_layout(b: BallState, j: int)
    requires
        0 <= j < 75,
    ensures
        ball_bytes(b).len() == 75,
        j < 72 ==> ball_bytes(b)[j] == ((state_word(b, j / 8) >> ((8 * (j % 8)) as u64)) & 0xff) as u8,
        j == 72 ==> ball_bytes(b)[j] == mode_byte(b.mode),
        j == 73 ==> ball_bytes(b)[j] == (if b.pocketed { 1u8 } else { 0u8 }),
        j == 74 ==> ball_bytes(b)[j] == (if b.off_table { 1u8 } else { 0u8 }),
{
    let p = words_bytes(b.pos_mm);
    let v = words_bytes(b.vel_mm_s);
    let w = words_bytes(b.spin_rad_s);
    assert(p.len() == 24 && v.len() == 24 && w.len() == 24);
    let all = ball_bytes(b);
    if j < 72 {
        let wi = j / 8;
        let bi = j % 8;
        let ws = if wi < 3 { p } else if wi < 6 { v } else { w };
        let arr = if wi < 3 { b.pos_mm } else if wi < 6 { b.vel_mm_s } else { b.spin_rad_s };
        let off = if wi < 3 { 0int } else if wi < 6 { 24int } else { 48int };
        let inner = j - off;
        assert(all[j] == ws[inner]);
        let k = inner / 8;
        assert(0 <= k < 3);
        assert(inner % 8 == bi);
        assert(ws == le_bytes(arr@[0]) + le_bytes(arr@[1]) + le_bytes(arr@[2]));
        if k == 0 {
            assert(ws[inner] == le_bytes(arr@[0])[inner]);
        } else if k == 1 {
            assert(ws[inner] == le_bytes(arr@[1])[inner - 8]);
        } else {
            assert(ws[inner] == le_bytes(arr@[2])[inner - 16]);
        }
        assert(state_word(b, wi) == arr@[k]);
    }
}

proof fn lemma_states_bytes_layout(s: Seq<BallState>, k: int, j: int)
    requires
        0 <= k < s.len(),
        0 <= j < 75,
    ensures
        states_bytes(s).len() == 75 * s.len(),
        states_bytes(s)[75 * k + j] == ball_bytes(s[k])[j],
    decreases s.len(),
{
    lemma_ball_bytes_layout(s.last(), j);
    lemma_states_len(s.drop_last());
    if k < s.len() - 1 {
        lemma_states_bytes_layout(s.drop_last(), k, j);
        assert(s.drop_last()[k] == s[k]);
    }
}

proof fn lemma_states_len(s: Seq<BallState>)
    ensures
        states_bytes(s).len() == 75 * s.len(),
    decreases s.len(),
{
    if s.len() > 0 {
        lemma_states_len(s.drop_last());
        lemma_ball_bytes_layout(s.last(), 0);
    }
}

/// The hashed stream: 75 bytes per ball, balls in order. Ball `k`'s bytes `0..72` are the eight
/// little-endian bytes of each of its nine words (position, velocity, spin, each x y z); byte 72
/// is its mode (airborne 0, sliding 1, rolling 2, spinning 3, stationary 4); byte 73 is 1 exactly
/// when it is pocketed and byte 74 is 1 exactly when it is off the table, 0 otherwise.
pub proof fn state_stream_layout(s: Seq<BallState>, k: int, j: int)
    requires
        0 <= k < s.len(),
        0 <= j < 72,
    ensures
        states_bytes(s).len() == 75 * s.len(),
        states_bytes(s)[75 * k + j] == ((state_word(s[k], j / 8) >> ((8 * (j % 8)) as u64)) & 0xff) as u8,
        states_bytes(s)[75 * k + 72] == (match s[k].mode {
            MotionMode::Airborne => 0u8,
            MotionMode::Sliding => 1u8,
            MotionMode::Rolling => 2u8,
            MotionMode::Spinning => 3u8,
            MotionMode::Stationary => 4u8,
        }),
        states_bytes(s)[75 * k + 73] == (if s[k].pocketed { 1u8 } else { 0u8 }),
        states_bytes(s)[75 * k + 74] == (if s[k].off_table { 1u8 } else { 0u8 }),
{
    lemma_states_bytes_layout(s, k, j);
    lemma_states_bytes_layout(s, k, 72);
    lemma_states_bytes_layout(s, k, 73);
    lemma_states_bytes_layout(s, k, 74);
    lemma_ball_bytes_layout(s[k], j);
    lemma_ball_bytes_layout(s[k], 72);
    lemma_ball_bytes_layout(s[k], 73);
    lemma_ball_bytes_layout(s[k], 74);
}

/// FNV-1a 64: the empty stream leaves the running hash as it is, and each further byte is xored
/// in and the result multiplied by 0x100000001b3 modulo 2^64; a position starts from
/// 0xcbf29ce484222325.
pub proof fn fnv1a_steps(h: u64, bytes: Seq<u8>, x: u8)
    ensures
        fnv1a(h, Seq::empty()) == h,
        fnv1a(h, bytes.push(x)) as int == ((fnv1a(h, bytes) ^ (x as u64)) as int * 0x100000001b3int)
            % 0x1_0000_0000_0000_0000int,
        FNV_OFFSET_BASIS == 0xcbf2_9ce4_8422_2325,
{
    reveal(mul64);
    assert(bytes.push(x).drop_last() =~= bytes);
}

} // verus!
