use pool_sim::physics_core::cli::arg;
use pool_sim::physics_core::diag::seed1_arrangement;
use pool_sim::physics_core::diff::seed1;
use pool_sim::physics_core::facts::{
    classify, fact_name, rail_name, tree_name, ShotFacts, Tree,
};
use pool_sim::physics_core::json::{parse_str, skip_ws};
use pool_sim::physics_core::ladder::StageReport;
use pool_sim::physics_core::render::{
    adler32, ball_colour, ball_colour_dark, chunk, crc32, palette_bytes, zlib_stored_exec, Canvas,
    Rgb,
};
use pool_sim::physics_core::sim::{Ev, Fact, FactKind, KickCause};
use pool_sim::physics_core::table::{parse_slot, Rail};
use pool_sim::frame::Slot;
use pool_sim::rack;

fn fact(seq: u64, kind: FactKind) -> Fact {
    Fact { seq, t: 0, group: 0, kind }
}

fn rail(seq: u64, ball: u8, r: Rail, frozen: bool) -> Fact {
    fact(seq, FactKind::RailContact { ball, rail: r, frozen_no_count: frozen })
}

fn sample_facts() -> Vec<Fact> {
    vec![
        fact(0, FactKind::BallBall { a: 0, b: 1 }),
        fact(1, FactKind::BallBall { a: 1, b: 2 }),
        rail(2, 2, Rail::FootShort, false),
        rail(3, 2, Rail::LeftLong, false),
        rail(4, 2, Rail::FootShort, false),
        rail(5, 0, Rail::HeadShort, false),
        rail(6, 3, Rail::RightLong, true),
        fact(7, FactKind::BallBall { a: 3, b: 0 }),
        fact(8, FactKind::BallBall { a: 0, b: 1 }),
        rail(9, 4, Rail::RightLong, false),
        fact(10, FactKind::Pocketed { ball: 9, pocket: 2 }),
        fact(11, FactKind::Pocketed { ball: 5, pocket: 0 }),
        fact(12, FactKind::Pocketed { ball: 9, pocket: 2 }),
        fact(13, FactKind::OffTable { ball: 0 }),
        fact(14, FactKind::OffTable { ball: 12 }),
        fact(15, FactKind::Kick { ball: 4, cause: KickCause::Landing }),
        fact(16, FactKind::Rest { ball: 4 }),
    ]
}

#[test]
fn derive_reads_the_fact_stream() {
    let balls = vec![(0_u8, vec![]), (3_u8, vec![Rail::RightLong]), (6_u8, vec![Rail::HeadShort, Rail::LeftLong])];
    let f = pool_sim::physics_core::facts::derive(&sample_facts(), &balls);
    assert_eq!(f.distinct_object_balls_to_rails, 2);
    assert_eq!(f.rail_contacts_total, 4);
    assert_eq!(f.rail_pairs_total, 3);
    assert_eq!(f.frozen_contacts_suppressed, 1);
    assert_eq!(f.pocketed, vec![5, 9]);
    assert_eq!(f.off_table, vec![12]);
    assert!(f.cue_ball_pocketed);
    assert_eq!(f.cue_ball_contacts, 2);
    assert_eq!(f.ball_ball_contacts, 4);
    assert_eq!(
        f.per_ball_rails,
        vec![(2, vec![Rail::FootShort, Rail::LeftLong]), (4, vec![Rail::RightLong])]
    );
    assert_eq!(
        f.frozen_at_start,
        vec![(3, Rail::RightLong), (6, Rail::HeadShort), (6, Rail::LeftLong)]
    );
    assert!(f.frozen_left_and_returned.is_empty());
    assert_eq!(f.distinct_physical(), 2);
    // balls 2 and 4 touched rails; 5 and 9 were pocketed; 12 went off.
    assert_eq!(f.distinct_rule_2_7(), 5);
}

#[test]
fn derive_of_nothing_is_the_default() {
    let f = pool_sim::physics_core::facts::derive(&[], &[]);
    let d = ShotFacts::default();
    assert_eq!(f.distinct_object_balls_to_rails, d.distinct_object_balls_to_rails);
    assert_eq!(f.rail_contacts_total, 0);
    assert!(f.pocketed.is_empty() && f.off_table.is_empty() && f.per_ball_rails.is_empty());
    assert!(!f.cue_ball_pocketed);
    assert_eq!(f.distinct_rule_2_7(), 0);
}

fn facts_with(pocketed: Vec<u8>, off_table: Vec<u8>, rails: usize) -> ShotFacts {
    let mut f = ShotFacts::default();
    f.pocketed = pocketed;
    f.off_table = off_table;
    f.distinct_object_balls_to_rails = rails;
    f
}

#[test]
fn classify_follows_the_precedence_table() {
    let c = classify(&facts_with(vec![8], vec![], 0), false);
    assert_eq!((c.legal_break, c.tree, c.rule), (true, Tree::EightOnBreak, "4.3(e)"));
    let c = classify(&facts_with(vec![8], vec![], 0), true);
    assert_eq!((c.legal_break, c.tree, c.rule), (false, Tree::EightOnBreak, "4.3(f)"));
    let c = classify(&facts_with(vec![], vec![8], 0), false);
    assert_eq!((c.legal_break, c.tree, c.rule), (false, Tree::EightOnBreak, "4.3(g)"));
    let c = classify(&facts_with(vec![3], vec![], 0), false);
    assert_eq!((c.legal_break, c.tree, c.rule), (true, Tree::LegalPocketed, "4.3(c)"));
    let c = classify(&facts_with(vec![3], vec![], 0), true);
    assert_eq!((c.legal_break, c.tree, c.rule), (false, Tree::BreakFoul, "4.3(h)"));
    let c = classify(&facts_with(vec![3], vec![11], 0), false);
    assert_eq!((c.legal_break, c.tree, c.rule), (false, Tree::BreakFoul, "4.3(g)"));
    let c = classify(&facts_with(vec![], vec![], 3), false);
    assert_eq!((c.legal_break, c.tree, c.rule), (false, Tree::IllegalBreak, "4.3(d)"));
    let c = classify(&facts_with(vec![], vec![], 4), false);
    assert_eq!((c.legal_break, c.tree, c.rule), (true, Tree::LegalClean, "4.3(d)"));
    let c = classify(&facts_with(vec![], vec![], 4), true);
    assert_eq!((c.legal_break, c.tree, c.rule), (false, Tree::BreakFoul, "4.3(h)"));
    let c = classify(&facts_with(vec![], vec![2], 5), false);
    assert_eq!((c.legal_break, c.tree, c.rule), (false, Tree::BreakFoul, "4.3(g)"));
}

#[test]
fn names_of_rails_trees_and_facts() {
    assert_eq!(rail_name(Rail::HeadShort), "head_short");
    assert_eq!(rail_name(Rail::FootShort), "foot_short");
    assert_eq!(rail_name(Rail::LeftLong), "left_long");
    assert_eq!(rail_name(Rail::RightLong), "right_long");
    assert_eq!(tree_name(Tree::LegalClean), "legal_clean");
    assert_eq!(tree_name(Tree::LegalPocketed), "legal_pocketed");
    assert_eq!(tree_name(Tree::IllegalBreak), "illegal_break");
    assert_eq!(tree_name(Tree::BreakFoul), "break_foul");
    assert_eq!(tree_name(Tree::EightOnBreak), "eight_on_break");
    assert_eq!(fact_name(&FactKind::BallBall { a: 0, b: 12 }), "ball_ball 0 12");
    assert_eq!(
        fact_name(&FactKind::RailContact { ball: 3, rail: Rail::LeftLong, frozen_no_count: true }),
        "rail 3 left_long"
    );
    assert_eq!(fact_name(&FactKind::JawContact { ball: 7, pocket: 4 }), "jaw 7 4");
    assert_eq!(fact_name(&FactKind::Pocketed { ball: 15, pocket: 10 }), "pocketed 15 10");
    assert_eq!(fact_name(&FactKind::OffTable { ball: 2 }), "off_table 2");
    assert_eq!(fact_name(&FactKind::Kick { ball: 1, cause: KickCause::CushionPop }), "kick 1");
    assert_eq!(fact_name(&FactKind::Rest { ball: 255 }), "rest 255");
    assert_eq!(fact_name(&FactKind::SlideToRoll { ball: 4 }), "slide_to_roll 4");
    assert_eq!(fact_name(&FactKind::RollToStop { ball: 4 }), "roll_to_stop 4");
    assert_eq!(fact_name(&FactKind::SpinDown { ball: 4 }), "spin_down 4");
    assert_eq!(fact_name(&FactKind::Freeze { ball: 0 }), "freeze 0");
    assert_eq!(fact_name(&FactKind::Depenetration { a: 5, b: 6 }), "depenetration 5 6");
}

#[test]
fn event_ranks_order_by_type_then_ball() {
    assert_eq!(Ev::Pair { i: 1, j: 2 }.rank(), (0, 1, 2));
    assert_eq!(Ev::Wall { ball: 3, wall: 9 }.rank(), (1, 3, 9));
    assert_eq!(Ev::Tip { ball: 3, tip: 4 }.rank(), (2, 3, 4));
    assert_eq!(Ev::Drop { ball: 3, pocket: 5 }.rank(), (3, 3, 5));
    assert_eq!(Ev::Land { ball: 3 }.rank(), (4, 3, 0));
    assert_eq!(Ev::SlideToRoll { ball: 3 }.rank(), (5, 3, 0));
    assert_eq!(Ev::RollToStop { ball: 3 }.rank(), (6, 3, 0));
    assert_eq!(Ev::SpinDown { ball: 3 }.rank(), (7, 3, 0));
    let mut evs = vec![Ev::Land { ball: 1 }, Ev::Wall { ball: 2, wall: 0 }, Ev::Pair { i: 4, j: 5 }];
    evs.sort_by_key(|e| e.rank());
    assert_eq!(evs, vec![Ev::Pair { i: 4, j: 5 }, Ev::Wall { ball: 2, wall: 0 }, Ev::Land { ball: 1 }]);
}

#[test]
fn parse_slot_reads_row_and_index() {
    assert_eq!(parse_slot("3.1"), (3, 1));
    assert_eq!(parse_slot("12.07.9"), (12, 7));
    assert_eq!(parse_slot("+5.0"), (5, 0));
}

#[test]
fn checksums_match_their_references() {
    assert_eq!(crc32(b"IEND"), 0xAE42_6082);
    assert_eq!(crc32(b""), 0);
    assert_eq!(crc32(b"123456789"), 0xCBF4_3926);
    assert_eq!(adler32(b"Wikipedia"), 0x11E6_0398);
    assert_eq!(adler32(b""), 1);
}

#[test]
fn a_chunk_is_length_kind_data_crc() {
    let mut out = vec![0xAA_u8];
    chunk(&mut out, b"IEND", &[]);
    assert_eq!(out, vec![0xAA, 0, 0, 0, 0, b'I', b'E', b'N', b'D', 0xAE, 0x42, 0x60, 0x82]);
}

#[test]
fn stored_zlib_stream_frames_its_input() {
    let raw = vec![1_u8, 1, 4, 252, 0, 1, 5, 1];
    assert_eq!(
        zlib_stored_exec(&raw),
        vec![120, 1, 1, 8, 0, 247, 255, 1, 1, 4, 252, 0, 1, 5, 1, 5, 41, 1, 10]
    );
    assert_eq!(zlib_stored_exec(&vec![]), vec![120, 1, 0, 0, 0, 1]);
    let long = vec![7_u8; 70000];
    let z = zlib_stored_exec(&long);
    assert_eq!(z.len(), 2 + 5 + 65535 + 5 + 4465 + 4);
    assert_eq!(&z[2..7], &[0, 0xff, 0xff, 0, 0]);
    assert_eq!(&z[65542..65547], &[1, 0x71, 0x11, 0x8e, 0xee]);
}

#[test]
fn canvas_put_clips_and_png_bytes_are_exact() {
    let mut c = Canvas::new(3, 2, Rgb(1));
    assert_eq!(c.px, vec![1; 6]);
    c.put(1, 0, Rgb(5));
    c.put(1, 1, Rgb(5));
    c.put(-1, 0, Rgb(9));
    c.put(3, 0, Rgb(9));
    c.put(0, 2, Rgb(9));
    assert_eq!(c.px, vec![1, 5, 1, 1, 5, 1]);
    let png = c.png_bytes();
    assert_eq!(png.len(), 184);
    assert_eq!(
        &png[..33],
        &[137, 80, 78, 71, 13, 10, 26, 10, 0, 0, 0, 13, 73, 72, 68, 82, 0, 0, 0, 3, 0, 0, 0, 2, 8, 3, 0, 0, 0, 170, 170, 150, 40]
    );
    assert_eq!(crc32(&png), 0x3e05_89a8);
    assert_eq!(&png[172..], &[0, 0, 0, 0, b'I', b'E', b'N', b'D', 0xAE, 0x42, 0x60, 0x82]);

    // A buffer longer than w·h: only its first w·h indices are the image.
    let mut longer = Canvas { w: 3, h: 2, px: vec![1, 5, 1, 1, 5, 1, 9, 9] };
    assert_eq!(longer.png_bytes(), png);
    longer.put(2, 1, Rgb(7));
    assert_eq!(longer.px, vec![1, 5, 1, 1, 5, 7, 9, 9]);
}

#[test]
fn palette_and_ball_colours() {
    let p = palette_bytes();
    assert_eq!(p.len(), 96);
    assert_eq!(&p[..6], &[28, 28, 34, 22, 84, 48]);
    assert_eq!(&p[54..57], &[20, 20, 20]);
    assert_eq!(ball_colour(0).0, 5);
    assert_eq!(ball_colour(1).0, 11);
    assert_eq!(ball_colour(9).0, 11);
    assert_eq!(ball_colour(7).0, 17);
    assert_eq!(ball_colour(15).0, 17);
    assert_eq!(ball_colour(8).0, 18);
    assert_eq!(ball_colour(200).0, 18);
    for id in 0..=15_u8 {
        assert_eq!(ball_colour_dark(id), matches!(id, 2 | 4 | 8 | 10 | 12));
    }
}

#[test]
fn json_strings_and_whitespace() {
    let b = b"  \t\"a\\n\\\"b\\u0041\\u00e9c\\x\" tail";
    let mut i = 0;
    skip_ws(b, &mut i);
    assert_eq!(i, 3);
    let mut i = 0;
    assert_eq!(parse_str(b, &mut i), Ok("a\n\"bA\u{e9}cx".to_string()));
    assert_eq!(b[i], b' ');
    let mut i = 0;
    assert_eq!(parse_str(b"  x", &mut i), Err("expected string at 2".to_string()));
    assert_eq!(i, 2);
    let mut i = 0;
    assert_eq!(parse_str(b"\"abc", &mut i), Err("unterminated string".to_string()));
    let mut i = 0;
    assert_eq!(parse_str(b"\"ab\\", &mut i), Err("unterminated string".to_string()));
    let mut i = 0;
    assert_eq!(parse_str(b"\"\\ud800\\uzz12\\u+041\"", &mut i), Ok("?\u{0}A".to_string()));
    let mut i = 0;
    assert_eq!(parse_str(b"\"\\u12\"", &mut i), Ok("12".to_string()));
    let mut i = 0;
    assert_eq!(parse_str(b"\"\xe9\"", &mut i), Ok("\u{e9}".to_string()));
}

#[test]
fn option_values_are_looked_up_by_name() {
    let args: Vec<String> =
        ["prog", "break", "--out", "dir", "--out", "second", "--seed"].iter().map(|s| s.to_string()).collect();
    assert_eq!(arg(&args, "--out"), Some("dir".to_string()));
    assert_eq!(arg(&args, "--seed"), None);
    assert_eq!(arg(&args, "--missing"), None);
    assert_eq!(arg(&[], "--out"), None);
}

#[test]
fn stage_reports_collect_lines() {
    let mut r = StageReport::new("stage1-draw-follow");
    assert_eq!(r.name, "stage1-draw-follow");
    assert!(r.lines.is_empty() && r.rows.is_empty());
    r.push("one".to_string());
    r.push("two".to_string());
    assert_eq!(r.lines, vec!["one".to_string(), "two".to_string()]);
    assert!(r.rows.is_empty());
}

#[test]
fn the_seed1_table_is_the_generated_seed1_rack() {
    let arr = seed1_arrangement();
    assert_eq!(arr.len(), 15);
    assert_eq!(arr[0], ("1".to_string(), "1.0".to_string()));
    assert_eq!(arr[1], ("10".to_string(), "5.1".to_string()));
    assert_eq!(arr[13], ("8".to_string(), "3.1".to_string()));
    let mut keys: Vec<&String> = arr.iter().map(|(k, _)| k).collect();
    let before = keys.clone();
    keys.sort();
    assert_eq!(keys, before);
    assert_eq!(seed1(), arr);
    let generated = rack::generate(1);
    for (ball, label) in &arr {
        let b: u8 = ball.parse().unwrap();
        assert_eq!(generated.slot_of(b), Slot::parse(label).unwrap());
    }
}

use pool_sim::physics_core::json::{parse, Json};

fn num(s: &str) -> Json {
    Json::Num(s.to_string())
}

/// Same shape, same texts (numbers compared by their text, as the reader keeps them).
fn same(a: &Json, b: &Json) -> bool {
    match (a, b) {
        (Json::Null, Json::Null) => true,
        (Json::Bool(x), Json::Bool(y)) => x == y,
        (Json::Num(x), Json::Num(y)) => x == y,
        (Json::Str(x), Json::Str(y)) => x == y,
        (Json::Arr(x), Json::Arr(y)) => x.len() == y.len() && x.iter().zip(y).all(|(p, q)| same(p, q)),
        (Json::Obj(x), Json::Obj(y)) => {
            x.len() == y.len() && x.iter().zip(y).all(|(p, q)| p.0 == q.0 && same(&p.1, &q.1))
        }
        _ => false,
    }
}

fn parses_to(src: &str, expected: &Json) -> bool {
    match parse(src) {
        Ok(v) => same(&v, expected),
        Err(_) => false,
    }
}

#[test]
fn json_documents_parse_into_values() {
    let doc = parse(" { \"b\": [1, -2.5e3, true, false, null, \"x\"], \"a\": {\"k\": \"v\"}, \"a\": 7 } ")
        .expect("parses");
    let entries = doc.as_obj().expect("an object");
    assert_eq!(entries.len(), 2);
    assert_eq!(entries[0].0, "a");
    assert!(same(&entries[0].1, &num("7")));
    assert_eq!(entries[1].0, "b");
    assert!(same(
        doc.get("b").unwrap(),
        &Json::Arr(vec![
            num("1"),
            num("-2.5e3"),
            Json::Bool(true),
            Json::Bool(false),
            Json::Null,
            Json::Str("x".to_string()),
        ])
    ));
    assert!(doc.get("missing").is_none());
    assert_eq!(doc.arr("b").len(), 6);
    assert!(doc.arr("a").is_empty());
    assert!(same(doc.get("b").unwrap().idx(1).unwrap(), &num("-2.5e3")));
    assert!(doc.get("b").unwrap().idx(6).is_none());
    assert_eq!(doc.get("b").unwrap().idx(5).unwrap().as_str(), Some("x"));
    assert_eq!(doc.s("b"), "");
    assert!(!doc.b("b"));
    assert!(num("1").get("a").is_none());
    assert!(num("1").idx(0).is_none());
    assert!(Json::Null.as_arr().is_none());
}

#[test]
fn json_member_helpers() {
    let doc = parse("{\"name\":\"r1\",\"ok\":true,\"no\":false,\"pts\":[[1,2],[3]]}").unwrap();
    assert_eq!(doc.s("name"), "r1");
    assert_eq!(doc.s("ok"), "");
    assert!(doc.b("ok"));
    assert!(!doc.b("no"));
    assert!(!doc.b("name"));
    let pts = doc.arr("pts");
    assert_eq!(pts.len(), 2);
    assert!(same(&pts[0], &Json::Arr(vec![num("1"), num("2")])));
    let keys: Vec<&str> = doc.as_obj().unwrap().iter().map(|(k, _)| k.as_str()).collect();
    assert_eq!(keys, vec!["name", "no", "ok", "pts"]);
}

#[test]
fn json_numbers_follow_the_float_grammar() {
    for good in ["0", "-1", "+1", "1.", ".5", "1e5", "1E+5", "-.5e-3", "007", "1.5E10"] {
        assert!(parses_to(good, &num(good)), "{good}");
    }
    for bad in ["-", "+", ".", "e5", "1e", "1e+", "1..2", "1.2.3", "--1", "1e5e5", "1-2"] {
        assert_eq!(parse(bad).err(), Some(format!("bad number {bad}")), "{bad}");
    }
    assert_eq!(parse("x").err(), Some("bad number ".to_string()));
    assert!(parses_to("12abc", &num("12")));
}

#[test]
fn json_errors_name_their_cause() {
    assert_eq!(parse("").err(), Some("eof".to_string()));
    assert_eq!(parse("   ").err(), Some("eof".to_string()));
    assert_eq!(parse("[1, 2").err(), Some("eof".to_string()));
    assert_eq!(parse("{\"a\": 1").err(), Some("expected string at 7".to_string()));
    assert_eq!(parse("{1: 2}").err(), Some("expected string at 1".to_string()));
    assert_eq!(parse("[\"abc").err(), Some("unterminated string".to_string()));
    assert_eq!(parse("[t").err(), Some("eof".to_string()));
    assert_eq!(parse("{\"a\": t").err(), Some("expected string at 10".to_string()));
    assert!(parses_to("{\"a\" 1 \"b\" 2}", &Json::Obj(vec![("a".to_string(), num("1")), ("b".to_string(), num("2"))])));
    assert_eq!(parse("[1 2,,]").err(), Some("bad number ".to_string()));
    assert!(parses_to("tru", &Json::Bool(true)));
    assert!(parses_to("[]", &Json::Arr(vec![])));
    assert!(parses_to("{}", &Json::Obj(vec![])));
}

#[test]
fn json_keys_sort_by_code_point() {
    let doc = parse("{\"b\":1,\"a\":2,\"ab\":3,\"\":4,\"B\":5,\"\\u00e9\":6}").unwrap();
    let keys: Vec<&str> = doc.as_obj().unwrap().iter().map(|(k, _)| k.as_str()).collect();
    let mut sorted = keys.clone();
    sorted.sort();
    assert_eq!(keys, sorted);
    assert_eq!(keys, vec!["", "B", "a", "ab", "b", "\u{e9}"]);
}

use pool_sim::physics_core::shots::read_arrangement;

#[test]
fn arrangements_are_read_from_objects() {
    let doc = parse("{\"8\": \"3.1\", \"1\": \"1.0\", \"10\": 5, \"2\": \"4.1\"}").unwrap();
    assert_eq!(
        read_arrangement(&doc),
        vec![
            ("1".to_string(), "1.0".to_string()),
            ("10".to_string(), "".to_string()),
            ("2".to_string(), "4.1".to_string()),
            ("8".to_string(), "3.1".to_string()),
        ]
    );
    assert_eq!(read_arrangement(&Json::Null), vec![]);
    let seed1_doc = parse(
        "{\"1\":\"1.0\",\"2\":\"4.1\",\"3\":\"3.2\",\"4\":\"2.0\",\"5\":\"5.2\",\"6\":\"5.3\",\"7\":\"5.4\",\"8\":\"3.1\",\"9\":\"2.1\",\"10\":\"5.1\",\"11\":\"4.0\",\"12\":\"4.3\",\"13\":\"4.2\",\"14\":\"5.0\",\"15\":\"3.0\"}",
    )
    .unwrap();
    assert_eq!(read_arrangement(&seed1_doc), seed1_arrangement());
}

#[test]
fn the_prototype_fact_log_numbers_facts_from_zero() {
    let mut log = pool_sim::physics_core::sim::FactLog::new(0);
    log.push_fact(FactKind::Rest { ball: 4 });
    log.group = 1;
    log.push_fact(FactKind::Freeze { ball: 4 });
    assert_eq!(log.seq, 2);
    assert_eq!((log.facts[0].seq, log.facts[0].group), (0, 0));
    assert_eq!((log.facts[1].seq, log.facts[1].group), (1, 1));
}

#[test]
fn json_values_clone_deeply() {
    let doc = parse("{\"a\": [1, {\"b\": \"c\"}], \"d\": null}").unwrap();
    let copy = doc.clone();
    assert!(same(&copy, &doc));
    assert_eq!(copy.get("a").unwrap().idx(1).unwrap().s("b"), "c");
}
