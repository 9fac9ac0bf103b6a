use pool_sim::frame::Slot;
use pool_sim::rack::{self, Arrangement};

const SEED1: [(u8, &str); 15] = [
    (1, "1.0"),
    (2, "4.1"),
    (3, "3.2"),
    (4, "2.0"),
    (5, "5.2"),
    (6, "5.3"),
    (7, "5.4"),
    (8, "3.1"),
    (9, "2.1"),
    (10, "5.1"),
    (11, "4.0"),
    (12, "4.3"),
    (13, "4.2"),
    (14, "5.0"),
    (15, "3.0"),
];

fn arrangement_from_pairs(pairs: &[(u8, &str)]) -> Arrangement {
    let mut slots = [0_u8; 15];
    for (ball, label) in pairs {
        let slot = Slot::parse(label).expect("slot label");
        slots[slot.canonical_index()] = *ball;
    }
    Arrangement { slots }
}

#[test]
fn the_hand_derived_golden_matches() {
    let expected = arrangement_from_pairs(&SEED1);
    assert_eq!(rack::generate(1), expected, "the hand-derived golden (seed 1)");
}

#[test]
fn the_invariant_sweep_holds_over_the_fixture_list_and_the_property_range() {
    for seed in 0..=255_u64 {
        let arrangement = rack::generate(seed);
        rack::check_invariants(&arrangement)
            .unwrap_or_else(|e| panic!("seed {seed} violates an invariant: {e}"));
        assert_eq!(arrangement, rack::generate(seed), "seed {seed} is not generate-twice equal");
    }
}

#[test]
fn generated_racks_for_known_seeds() {
    assert_eq!(rack::generate(0).slots, [2, 4, 6, 13, 8, 10, 7, 11, 9, 14, 12, 5, 3, 15, 1]);
    assert_eq!(rack::generate(2).slots, [3, 1, 15, 10, 8, 11, 6, 2, 7, 9, 14, 13, 4, 12, 5]);
    assert_eq!(rack::generate(255).slots, [11, 5, 12, 4, 8, 13, 15, 6, 2, 9, 7, 3, 1, 10, 14]);
}

#[test]
fn ball_at_slot_of_and_labelled_agree() {
    let a = rack::generate(1);
    assert_eq!(a.ball_at(Slot::new(3, 1)), 8);
    assert_eq!(a.ball_at(Slot::new(1, 0)), 1);
    assert_eq!(a.slot_of(8), Slot::new(3, 1));
    assert_eq!(a.slot_of(14).label(), "5.0");
    let labelled = a.labelled();
    assert_eq!(labelled.len(), 15);
    assert_eq!(labelled[0], ("1.0".to_string(), 1));
    assert_eq!(labelled[4], ("3.1".to_string(), 8));
    assert_eq!(labelled[14], ("5.4".to_string(), 7));
}

#[test]
fn each_violation_is_named() {
    let good = rack::generate(1);
    assert_eq!(rack::check_invariants(&good), Ok(()));

    let mut empty_apex = good;
    empty_apex.slots[0] = 0;
    assert_eq!(rack::check_invariants(&empty_apex), Err("slot (1,0) is empty".to_string()));

    let mut eight_moved = good;
    eight_moved.slots.swap(4, 0);
    assert_eq!(
        rack::check_invariants(&eight_moved),
        Err("ball 8 is in slot 1.0, not (3,1)".to_string())
    );

    let mut same_group = good;
    // slot (5,0) holds 14; put a second group-B ball in (5,4).
    same_group.slots[14] = 15;
    same_group.slots[5] = 7;
    assert_eq!(
        rack::check_invariants(&same_group),
        Err("corner slots hold 14 and 15, not one per group".to_string())
    );

    let mut invalid = good;
    invalid.slots[1] = 16;
    assert_eq!(
        rack::check_invariants(&invalid),
        Err("slot holds invalid ball number 16".to_string())
    );

    let mut twice = good;
    twice.slots[1] = 1;
    assert_eq!(rack::check_invariants(&twice), Err("ball 1 appears twice".to_string()));

    let no_eight = Arrangement { slots: [1; 15] };
    assert_eq!(
        rack::check_invariants(&no_eight),
        Err("ball 8 is in no slot, not (3,1)".to_string())
    );
    let mut eight_replaced = good;
    eight_replaced.slots[4] = 3;
    assert_eq!(
        rack::check_invariants(&eight_replaced),
        Err("ball 8 is in no slot, not (3,1)".to_string())
    );
}

#[test]
fn slot_index_and_label_round_trip() {
    for i in 0..15 {
        let s = Slot::from_canonical_index(i);
        assert_eq!(s.canonical_index(), i);
        assert_eq!(Slot::parse(&s.label()), Some(s));
    }
    assert_eq!(Slot::from_canonical_index(4), Slot::new(3, 1));
    assert_eq!(Slot::new(5, 4).canonical_index(), 14);
    assert_eq!(Slot::new(4, 2).label(), "4.2");
}

#[test]
fn slot_parse_accepts_the_from_str_grammar_only() {
    assert_eq!(Slot::parse("3.1"), Some(Slot::new(3, 1)));
    assert_eq!(Slot::parse("+3.01"), Some(Slot::new(3, 1)));
    assert_eq!(Slot::parse("5.4"), Some(Slot::new(5, 4)));
    assert_eq!(Slot::parse("5.5"), None);
    assert_eq!(Slot::parse("0.0"), None);
    assert_eq!(Slot::parse("6.0"), None);
    assert_eq!(Slot::parse("31"), None);
    assert_eq!(Slot::parse("3."), None);
    assert_eq!(Slot::parse(".1"), None);
    assert_eq!(Slot::parse("3.1.0"), None);
    assert_eq!(Slot::parse("+.1"), None);
    assert_eq!(Slot::parse("-3.1"), None);
    assert_eq!(Slot::parse("256.0"), None);
}

#[test]
fn neighbours_follow_the_lattice_order() {
    let n = Slot::new(3, 1).neighbours();
    assert_eq!(
        n,
        vec![
            Slot::new(3, 0),
            Slot::new(3, 2),
            Slot::new(4, 1),
            Slot::new(4, 2),
            Slot::new(2, 0),
            Slot::new(2, 1),
        ]
    );
    assert_eq!(Slot::new(1, 0).neighbours(), vec![Slot::new(2, 0), Slot::new(2, 1)]);
    assert_eq!(
        Slot::new(5, 0).neighbours(),
        vec![Slot::new(5, 1), Slot::new(4, 0)]
    );
    for i in 0..15 {
        let s = Slot::from_canonical_index(i);
        for t in s.neighbours() {
            assert!(t.neighbours().contains(&s), "{:?} and {:?} are neighbours both ways", s, t);
        }
    }
}

#[test]
fn slot_of_and_ball_at_undo_each_other() {
    for seed in [0_u64, 1, 2, 99, 255] {
        let a = rack::generate(seed);
        for b in 1..=15_u8 {
            assert_eq!(a.ball_at(a.slot_of(b)), b);
        }
        for i in 0..15 {
            let s = Slot::from_canonical_index(i);
            assert_eq!(a.slot_of(a.ball_at(s)), s);
        }
    }
}
