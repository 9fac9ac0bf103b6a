//! The cue-input prototype's command line: which screenshot to take, which scripted state to show
//! and for how many frames.

use vstd::prelude::*;
use vstd::utf8::encode_utf8;
use crate::text::{parse_uint, parse_uint_spec};

verus! {

/// The prototype's options.
pub struct Args {
    /// Where to save a screenshot, if one is asked for.
    pub screenshot: Option<String>,
    /// The scripted state to show (`all` walks every one).
    pub state: String,
    /// How many frames to let settle before a capture.
    pub frames: u32,
}

/// The options by their texts: screenshot path, state, frames.
pub type ArgsV = (Option<Seq<char>>, Seq<char>, u32);

/// The options as their texts.
pub open spec fn args_view(a: Args) -> ArgsV {
    (
        match a.screenshot {
            Some(p) => Some(p@),
            None => None,
        },
        a.state@,
        a.frames,
    )
}

/// The frame count an option value asks for: its `u32` reading, or 30 when it has none.
pub open spec fn frames_of(v: Seq<char>) -> u32 {
    match parse_uint_spec(encode_utf8(v), 0xFFFF_FFFF) {
        Some(n) => n as u32,
        None => 30,
    }
}

/// Reading the arguments from position `k` on, with the options `st` and the unknown arguments
/// `ignored` so far: `--screenshot`, `--state` and `--frames` each take the next argument as
/// their value (a missing value gives no screenshot, state `all`, 30 frames); any other argument
/// is set aside.
pub open spec fn args_from(args: Seq<Seq<char>>, k: int, st: ArgsV, ignored: Seq<Seq<char>>) -> (
    ArgsV,
    Seq<Seq<char>>,
)
    decreases args.len() - k,
{
    if k < 0 || k >= args.len() {
        (st, ignored)
    } else if args[k] == "--screenshot"@ {
        if k + 1 < args.len() {
            args_from(args, k + 2, (Some(args[k + 1]), st.1, st.2), ignored)
        } else {
            ((None, st.1, st.2), ignored)
        }
    } else if args[k] == "--state"@ {
        if k + 1 < args.len() {
            args_from(args, k + 2, (st.0, args[k + 1], st.2), ignored)
        } else {
            ((st.0, "all"@, st.2), ignored)
        }
    } else if args[k] == "--frames"@ {
        if k + 1 < args.len() {
            args_from(args, k + 2, (st.0, st.1, frames_of(args[k + 1])), ignored)
        } else {
            ((st.0, st.1, 30), ignored)
        }
    } else {
        args_from(args, k + 1, st, ignored.push(args[k]))
    }
}

/// The texts of a list of strings.
pub open spec fn arg_texts(v: Seq<String>) -> Seq<Seq<char>> {
    v.map_values(|s: String| s@)
}

/// The options of a command line: its arguments after the program name, read from no
/// screenshot, state `all` and 30 frames.
pub open spec fn args_spec(args: Seq<String>) -> (ArgsV, Seq<Seq<char>>) {
    args_from(arg_texts(args), 1, (None, "all"@, 30), Seq::empty())
}

fn frames_value(v: &String) -> (n: u32)
    ensures
        n == frames_of(v@),
{
    let bytes = v.as_str().as_bytes();
    match parse_uint(bytes, 0, bytes.len(), 0xFFFF_FFFF) {
        Some(n) => {
            assert(bytes@.subrange(0, bytes@.len() as int) =~= bytes@);
            n as u32
        },
        None => {
            assert(bytes@.subrange(0, bytes@.len() as int) =~= bytes@);
            30
        },
    }
}

impl Args {
    /// The options of a command line (the program name first), and the arguments it does not
    /// know, in order.
    pub fn from_args(args: &[String]) -> (r: (Args, Vec<String>))
        ensures
            (args_view(r.0), arg_texts(r.1@)) == args_spec(args@),
    {
        let ghost texts = arg_texts(args@);
        let screenshot_key = "--screenshot".to_owned();
        let state_key = "--state".to_owned();
        let frames_key = "--frames".to_owned();
        let mut out = Args { screenshot: None, state: "all".to_owned(), frames: 30 };
        let mut ignored: Vec<String> = Vec::new();
        let mut k: usize = 1;
        assert(arg_texts(ignored@) =~= Seq::<Seq<char>>::empty());
        while k < args.len()
            invariant
                1 <= k,
                texts == arg_texts(args@),
                screenshot_key@ == "--screenshot"@,
                state_key@ == "--state"@,
                frames_key@ == "--frames"@,
                args_from(texts, k as int, args_view(out), arg_texts(ignored@)) == args_spec(args@),
            decreases args@.len() - k,
        {
            assert(texts[k as int] == args@[k as int]@);
            if args[k] == screenshot_key {
                if k + 1 < args.len() {
                    assert(texts[k + 1] == args@[k + 1]@);
                    out.screenshot = Some(args[k + 1].clone());
                    k = k + 2;
                } else {
                    out.screenshot = None;
                    k = args.len();
                }
            } else if args[k] == state_key {
                if k + 1 < args.len() {
                    assert(texts[k + 1] == args@[k + 1]@);
                    out.state = args[k + 1].clone();
                    k = k + 2;
                } else {
                    out.state = "all".to_owned();
                    k = args.len();
                }
            } else if args[k] == frames_key {
                if k + 1 < args.len() {
                    assert(texts[k + 1] == args@[k + 1]@);
                    out.frames = frames_value(&args[k + 1]);
                    k = k + 2;
                } else {
                    out.frames = 30;
                    k = args.len();
                }
            } else {
                let ghost before = ignored@;
                ignored.push(args[k].clone());
                assert(arg_texts(ignored@) =~= arg_texts(before).push(texts[k as int]));
                k = k + 1;
            }
        }
        (out, ignored)
    }
}

} // verus!
