use pool_sim::ai_spine::encode::ObsCtx;
use pool_sim::ai_spine::gen::{chains, kind_idx, rail_idx, GenStats, Kind};
use pool_sim::ai_spine::geom::Rail;
use pool_sim::ai_spine::measure::out_dir;
use pool_sim::ai_spine::toy_sim::Event;
use pool_sim::profile::Provenance;
use pool_sim::rng::SplitMix64;

const KINDS: [Kind; 7] = [
    Kind::Direct,
    Kind::Bank,
    Kind::Kick,
    Kind::Combo,
    Kind::SafetyEscape,
    Kind::SafetyRollUp,
    Kind::SafetyTwoWay,
];

#[test]
fn kinds_have_names_indices_and_safety_flags() {
    let names = ["direct", "bank", "kick", "combo", "safety_escape", "safety_rollup", "safety_twoway"];
    for (i, k) in KINDS.iter().enumerate() {
        assert_eq!(kind_idx(*k), i);
        assert_eq!(k.as_str(), names[i]);
        assert_eq!(k.is_safety(), i >= 4);
    }
}

#[test]
fn rails_have_indices_and_axes() {
    let all = Rail::all();
    assert_eq!(all, [Rail::Left, Rail::Right, Rail::Bottom, Rail::Top]);
    for (i, r) in all.iter().enumerate() {
        assert_eq!(rail_idx(*r) as usize, i);
    }
    assert!(Rail::Left.is_x() && Rail::Right.is_x());
    assert!(!Rail::Bottom.is_x() && !Rail::Top.is_x());
}

#[test]
fn chains_enumerate_every_non_repeating_sequence() {
    assert!(chains(0).is_empty());
    assert_eq!(
        chains(1),
        vec![vec![Rail::Left], vec![Rail::Right], vec![Rail::Bottom], vec![Rail::Top]]
    );
    let c2 = chains(2);
    assert_eq!(c2.len(), 4 + 12);
    assert_eq!(c2[4], vec![Rail::Left, Rail::Right]);
    assert_eq!(c2[5], vec![Rail::Left, Rail::Bottom]);
    assert_eq!(c2[7], vec![Rail::Right, Rail::Left]);
    assert_eq!(c2[15], vec![Rail::Top, Rail::Bottom]);
    let c3 = chains(3);
    assert_eq!(c3.len(), 4 + 12 + 36);
    for c in &c3 {
        assert!(!c.is_empty() && c.len() <= 3);
        for w in c.windows(2) {
            assert_ne!(w[0], w[1]);
        }
    }
    for (i, a) in c3.iter().enumerate() {
        for b in &c3[i + 1..] {
            assert_ne!(a, b);
        }
    }
    assert_eq!(chains(4).len(), 4 + 12 + 36 + 108);
}

#[test]
fn gen_stats_start_at_zero() {
    let s = GenStats::default();
    assert_eq!(s.constructed + s.rej_geometry + s.rej_los + s.kept + s.after_dedup, 0);
    assert_eq!(s.by_kind, [0; 7]);
    assert_eq!(s.bank_by_rails, [0; 4]);
    assert_eq!(s.kick_by_rails, [0; 4]);
    assert_eq!(s.bank_chain_ok + s.bank_cut_ok + s.kick_chain_ok + s.kick_cut_ok, 0);
}

#[test]
fn out_dir_reads_the_option_or_falls_back() {
    let to_args = |v: &[&str]| v.iter().map(|s| s.to_string()).collect::<Vec<String>>();
    assert_eq!(out_dir(&to_args(&["measure", "--out-dir", "runs/a"])), "runs/a");
    assert_eq!(out_dir(&to_args(&["measure", "eval"])), "results");
    assert_eq!(out_dir(&to_args(&["measure", "--out-dir"])), "results");
    assert_eq!(
        out_dir(&to_args(&["--out-dir", "first", "--out-dir", "second"])),
        "first"
    );
}

#[test]
fn events_and_context_are_plain_values() {
    assert_eq!(Event::BallBall(0, 3), Event::BallBall(0, 3));
    assert_ne!(Event::Stop(1), Event::Pocket(1));
    let ctx = ObsCtx { shot_index: 2, max_shots: 10, n_initial: 6 };
    assert_eq!(ctx.max_shots - ctx.shot_index, 8);
}

#[test]
fn the_prototype_stream_is_splitmix64() {
    let mut r = SplitMix64::new(0);
    assert_eq!(r.next_u64(), 0xe220_a839_7b1d_cdaf);
}

#[test]
fn the_default_provenance_record() {
    let p = Provenance::default_record();
    assert_eq!(p.sources.len(), 4);
    assert_eq!(p.sources[0], "Dr. Dave / TP A-28 (μb fit)");
    assert_eq!(p.sources[3], "prototype #8 (sleep thresholds, ε)");
    assert_eq!(p.label, "fitted (e_n) / carried (μb, e_slate) / not identifiable (μs, μr)");
    assert_eq!(p.caveats.len(), 3);
    assert_eq!(p.caveats[1], "e_slate is carried, not fitted: pinned by the ball-drop test");
    assert_eq!(p, Provenance::default_record());
}

use pool_sim::ai_spine::toy_sim::{state_hash, Ball};

#[test]
fn toy_state_hash_reads_positions_velocities_and_liveness() {
    let b = |x: f64| x.to_bits();
    let balls = [
        Ball { p: [b(1.0), b(2.0)], v: [b(0.0), b(0.0)], alive: true },
        Ball { p: [b(-3.5), b(0.25)], v: [b(10.0), b(-1.0)], alive: false },
    ];
    assert_eq!(state_hash(&balls), 0x2f00_c957_d811_8251);
    assert_eq!(state_hash(&balls), state_hash(&balls.clone()));
    assert_eq!(state_hash(&[]), 0xcbf2_9ce4_8422_2325);
    let mut dead = balls;
    dead[0].alive = false;
    assert_ne!(state_hash(&dead), state_hash(&balls));
}

use pool_sim::ai_spine::measure::kind_slot;

#[test]
fn report_columns_follow_the_kind_order() {
    for (i, k) in KINDS.iter().enumerate() {
        assert_eq!(kind_slot(*k), i);
        assert_eq!(kind_slot(*k), kind_idx(*k));
    }
}
