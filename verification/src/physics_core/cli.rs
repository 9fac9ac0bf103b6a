//! Command-line option lookup for the prototype's subcommands.

use vstd::prelude::*;

verus! {

/// The first position in `args` whose text is `name`, if any.
pub open spec fn first_match(args: Seq<String>, name: Seq<char>) -> Option<int>
    decreases args.len(),
{
    if args.len() == 0 {
        None
    } else {
        match first_match(args.drop_last(), name) {
            Some(i) => Some(i),
            None => if args.last()@ == name {
                Some(args.len() - 1)
            } else {
                None
            },
        }
    }
}

/// The value of option `name`: the argument right after its first occurrence, or `None` when the
/// option is absent or is the last argument.
pub open spec fn arg_spec(args: Seq<String>, name: Seq<char>) -> Option<Seq<char>> {
    match first_match(args, name) {
        Some(i) => if i + 1 < args.len() {
            Some(args[i + 1]@)
        } else {
            None
        },
        None => None,
    }
}

proof fn lemma_first_match_extend(args: Seq<String>, name: Seq<char>, i: int)
    requires
        0 <= i < args.len(),
        first_match(args.take(i), name) is None,
    ensures
        first_match(args.take(i + 1), name) == (if args[i]@ == name {
            Some(i)
        } else {
            None::<int>
        }),
{
    assert(args.take(i + 1).drop_last() =~= args.take(i));
}

proof fn lemma_first_match_prefix(args: Seq<String>, name: Seq<char>, n: int)
    requires
        0 <= n <= args.len(),
        first_match(args.take(n), name) is Some,
    ensures
        first_match(args, name) == first_match(args.take(n), name),
    decreases args.len() - n,
{
    if n < args.len() {
        assert(args.take(n + 1).drop_last() =~= args.take(n));
        lemma_first_match_prefix(args, name, n + 1);
    } else {
        assert(args.take(n) =~= args);
    }
}

/// The value of option `name` in `args`: the argument after its first occurrence.
pub fn arg(args: &[String], name: &str) -> (r: Option<String>)
    ensures
        match r {
            Some(v) => arg_spec(args@, name@) == Some(v@),
            None => arg_spec(args@, name@) is None,
        },
{
    let key = name.to_owned();
    let mut i: usize = 0;
    while i < args.len()
        invariant
            i <= args@.len(),
            key@ == name@,
            first_match(args@.take(i as int), name@) is None,
        decreases args@.len() - i,
    {
        proof {
            lemma_first_match_extend(args@, name@, i as int);
        }
        if args[i] == key {
            proof {
                lemma_first_match_prefix(args@, name@, i + 1);
            }
            if i + 1 < args.len() {
                return Some(args[i + 1].clone());
            }
            return None;
        }
        i = i + 1;
    }
    assert(args@.take(args@.len() as int) =~= args@);
    None
}

} // verus!
