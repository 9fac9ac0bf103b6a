use pool_sim::cue_ux::Args;

fn args(v: &[&str]) -> Vec<String> {
    v.iter().map(|s| s.to_string()).collect()
}

#[test]
fn options_default_when_absent() {
    let (a, ignored) = Args::from_args(&args(&["cue-ux"]));
    assert_eq!(a.screenshot, None);
    assert_eq!(a.state, "all");
    assert_eq!(a.frames, 30);
    assert!(ignored.is_empty());
    let (a, _) = Args::from_args(&[]);
    assert_eq!((a.screenshot, a.state.as_str(), a.frames), (None, "all", 30));
}

#[test]
fn options_take_the_next_argument() {
    let (a, ignored) = Args::from_args(&args(&[
        "cue-ux", "--state", "draw", "-v", "--screenshot", "out/a.png", "--frames", "+12", "x",
    ]));
    assert_eq!(a.screenshot.as_deref(), Some("out/a.png"));
    assert_eq!(a.state, "draw");
    assert_eq!(a.frames, 12);
    assert_eq!(ignored, args(&["-v", "x"]));
}

#[test]
fn bad_or_missing_values_fall_back() {
    let (a, _) = Args::from_args(&args(&["cue-ux", "--frames", "many"]));
    assert_eq!(a.frames, 30);
    let (a, _) = Args::from_args(&args(&["cue-ux", "--frames", "4294967296"]));
    assert_eq!(a.frames, 30);
    let (a, _) = Args::from_args(&args(&["cue-ux", "--frames", "4294967295"]));
    assert_eq!(a.frames, 4_294_967_295);
    let (a, _) = Args::from_args(&args(&["cue-ux", "--state", "cut", "--state"]));
    assert_eq!(a.state, "all");
    let (a, _) = Args::from_args(&args(&["cue-ux", "--screenshot", "a.png", "--screenshot"]));
    assert_eq!(a.screenshot, None);
    let (a, ignored) = Args::from_args(&args(&["cue-ux", "--state", "--frames"]));
    assert_eq!(a.state, "--frames");
    assert_eq!(a.frames, 30);
    assert!(ignored.is_empty());
}
