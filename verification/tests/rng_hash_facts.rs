use pool_sim::ball::{BallState, MotionMode};
use pool_sim::facts::{rail_summary, Fact, FactKind};
use pool_sim::rng::SplitMix64;
use pool_sim::state_hash::{state_hash, state_hash_hex};
use pool_sim::table::{PocketId, Rail};

#[test]
fn splitmix64_reproduces_the_reference_stream() {
    let mut r = SplitMix64::new(0);
    assert_eq!(r.next_u64(), 0xe220_a839_7b1d_cdaf);
    assert_eq!(r.next_u64(), 0x6e78_9e6a_a1b9_65f4);
    assert_eq!(r.next_u64(), 0x06c4_5d18_8009_454f);
    let mut r = SplitMix64::new(42);
    assert_eq!(r.next_u64(), 0xbdd7_3226_2feb_6e95);
    assert_eq!(r.next_u64(), 0x28ef_e333_b266_f103);
}

#[test]
fn next_below_draws_stay_below_their_bound() {
    let mut r = SplitMix64::new(7);
    let draws: Vec<u64> = (0..5).map(|_| r.next_below(10)).collect();
    assert_eq!(draws, vec![3, 0, 9, 5, 4]);
    let mut r = SplitMix64::new(99);
    for n in 1..200_u64 {
        assert!(r.next_below(n) < n);
    }
    let mut one = SplitMix64::new(5);
    assert_eq!(one.next_below(1), 0);
}

#[test]
fn shuffle_is_a_permutation_and_deterministic() {
    let mut a: Vec<u8> = (1..=12).collect();
    let mut b = a.clone();
    SplitMix64::new(3).shuffle(&mut a);
    SplitMix64::new(3).shuffle(&mut b);
    assert_eq!(a, b);
    let mut sorted = a.clone();
    sorted.sort_unstable();
    assert_eq!(sorted, (1..=12).collect::<Vec<u8>>());
    let mut single = vec![9_u8];
    SplitMix64::new(3).shuffle(&mut single);
    assert_eq!(single, vec![9]);
}

fn bits(x: f64) -> u64 {
    x.to_bits()
}

fn states_at(offset: f64) -> [BallState; 16] {
    let mut states = [BallState::at_rest([0, 0, 0]); 16];
    for (i, s) in states.iter_mut().enumerate() {
        let x = i as f64;
        *s = BallState::at_rest([bits(x + offset), bits(-x), bits(28.575)]);
    }
    states
}

/// The rest states of an arrangement: the cue ball above the head string, the object balls at
/// their slot centres (mm).
fn rest_states(arrangement: &pool_sim::rack::Arrangement) -> [BallState; 16] {
    const R: f64 = 28.575;
    let step = R * 1.732_050_807_568_877_2;
    let mut states = [BallState::at_rest([0; 3]); 16];
    states[0] = BallState::at_rest([bits(-800.0), bits(0.0), bits(R)]);
    for index in 0..15 {
        let slot = pool_sim::frame::Slot::from_canonical_index(index);
        let x = 635.0 + f64::from(slot.row - 1) * step;
        let y = (f64::from(slot.index) - f64::from(slot.row - 1) / 2.0) * (2.0 * R);
        states[usize::from(arrangement.slots[index])] = BallState::at_rest([bits(x), bits(y), bits(R)]);
    }
    states
}

#[test]
fn hash_is_stable_and_position_sensitive() {
    let arrangement = pool_sim::rack::generate(0);
    let states = rest_states(&arrangement);
    let first = state_hash(&states);
    assert_eq!(first, state_hash(&states));

    let mut moved = states;
    moved[3].pos_mm[0] = bits(f64::from_bits(moved[3].pos_mm[0]) + 1e-9);
    assert_ne!(first, state_hash(&moved), "a 1e-9 mm move must change the hash");
}

#[test]
fn hash_of_made_up_states_is_pinned() {
    let states = states_at(0.0);
    assert_eq!(state_hash(&states), 0x12f6_5e37_2284_eba5);
    let mut moved = states;
    moved[7].pos_mm[0] = bits(7.0 + 1e-9);
    assert_ne!(state_hash(&states), state_hash(&moved));
}

#[test]
fn hash_of_the_zero_position_and_its_hex_form() {
    let states = [BallState::at_rest([0, 0, 0]); 16];
    assert_eq!(state_hash(&states), 0x1c52_5195_20c3_dc25);
    assert_eq!(state_hash_hex(&states), "1c52519520c3dc25");
    let mut flagged = states;
    flagged[3].pocketed = true;
    assert_ne!(state_hash(&flagged), state_hash(&states));
    let mut rolling = states;
    rolling[3].mode = MotionMode::Rolling;
    assert_ne!(state_hash(&rolling), state_hash(&states));
}

fn rail(seq: u64, ball: u8, rail: Rail, frozen: bool, left: bool) -> Fact {
    Fact {
        seq,
        t: 0,
        group: None,
        kind: FactKind::RailContact {
            ball,
            rail,
            frozen_at_shot_start: frozen,
            left_since_shot_start: left,
        },
    }
}

#[test]
fn rail_summary_counts_contacts_per_ball() {
    let facts = vec![
        rail(0, 3, Rail::HeadShort, false, false),
        Fact { seq: 1, t: 0, group: Some(1), kind: FactKind::BallBall { a: 0, b: 3 } },
        rail(2, 3, Rail::FootShort, false, false),
        rail(3, 3, Rail::HeadShort, false, false),
        rail(4, 0, Rail::LeftLong, false, false),
        rail(5, 5, Rail::RightLong, true, false),
        rail(6, 5, Rail::RightLong, true, true),
        rail(7, 2, Rail::LeftLong, false, false),
        Fact { seq: 8, t: 0, group: None, kind: FactKind::Pocketed { ball: 2, pocket: PocketId::SidePlusY } },
    ];
    let mut rest = [BallState::at_rest([0, 0, 0]); 16];
    rest[2].pocketed = true;
    let s = rail_summary(&facts, &rest);
    assert_eq!(s.contacts, 5);
    assert_eq!(s.suppressed_frozen, 1);
    assert_eq!(s.distinct_object_balls, 2);
    assert_eq!(
        s.per_ball,
        vec![
            (2, vec![Rail::LeftLong]),
            (3, vec![Rail::HeadShort, Rail::FootShort]),
            (5, vec![Rail::RightLong]),
        ]
    );
}

#[test]
fn rail_summary_of_no_facts_is_empty() {
    let rest = [BallState::at_rest([0, 0, 0]); 16];
    let s = rail_summary(&[], &rest);
    assert_eq!(s.contacts, 0);
    assert_eq!(s.suppressed_frozen, 0);
    assert_eq!(s.distinct_object_balls, 0);
    assert!(s.per_ball.is_empty());
}

#[test]
fn pocket_indices_follow_construction_order() {
    let all = PocketId::all();
    for (i, p) in all.iter().enumerate() {
        assert_eq!(p.index(), i);
    }
    assert_eq!(PocketId::SidePlusY.index(), 5);
    assert!(BallState::at_rest([0, 0, 0]).in_play());
}

use pool_sim::sim::FactLog;

#[test]
fn the_fact_log_numbers_facts_from_zero() {
    let mut log = FactLog::new(0);
    log.push_event_fact(FactKind::BallBall { a: 0, b: 1 });
    log.group = 3;
    log.t = 2.5_f64.to_bits();
    log.push_boundary_fact(FactKind::Pocketed { ball: 1, pocket: PocketId::FootPlusY });
    log.push_event_fact(FactKind::Pocketed { ball: 2, pocket: PocketId::HeadMinusY });
    assert_eq!(log.seq, 3);
    let seqs: Vec<u64> = log.facts.iter().map(|f| f.seq).collect();
    assert_eq!(seqs, vec![0, 1, 2]);
    assert_eq!(log.facts[0].group, Some(0));
    assert_eq!(log.facts[1].group, None);
    assert_eq!(log.facts[2].group, Some(3));
    assert_eq!(f64::from_bits(log.facts[2].t), 2.5);
}
