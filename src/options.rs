//! The switches and roots of a scan, read from its arguments.
use vstd::prelude::*;
use crate::stages::Config;

verus! {

/// What a scan is asked to do: its switches, whether to print JSON, and the
/// directories to walk, in the order given.
#[derive(Debug)]
pub struct Options {
    pub config: Config,
    pub json: bool,
    pub roots: Vec<String>,
}

/// Whether `args` holds the argument `flag`.
pub open spec fn given(args: Seq<String>, flag: Seq<char>) -> bool {
    exists|i: int| 0 <= i < args.len() && #[trigger] args[i]@ == flag
}

/// Whether `a` is one of the switches `-t`, `-e` and `-j`.
pub open spec fn is_switch(a: Seq<char>) -> bool {
    a == "-t"@ || a == "-e"@ || a == "-j"@
}

/// The arguments that are not switches, in order.
pub open spec fn roots_of(args: Seq<String>) -> Seq<String>
    decreases args.len(),
{
    if args.len() == 0 {
        Seq::empty()
    } else {
        let earlier = roots_of(args.drop_last());
        if is_switch(args.last()@) {
            earlier
        } else {
            earlier.push(args.last())
        }
    }
}

/// Reads the arguments of a scan (without the program's name): `-t` asks for
/// whole-file fingerprints, `-e` for a full-content confirmation, `-j` for
/// JSON output, each independently of the others; every other argument is
/// a directory to walk.
pub fn parse_args(args: &Vec<String>) -> (r: Options)
    ensures
        r.config.thorough == given(args@, "-t"@),
        r.config.exhaustive == given(args@, "-e"@),
        r.json == given(args@, "-j"@),
        r.roots@ == roots_of(args@),
{
    let flag_t = "-t".to_owned();
    let flag_e = "-e".to_owned();
    let flag_j = "-j".to_owned();
    let mut thorough = false;
    let mut exhaustive = false;
    let mut json = false;
    let mut roots: Vec<String> = Vec::new();
    let mut i: usize = 0;
    while i < args.len()
        invariant
            i <= args.len(),
            flag_t@ == "-t"@,
            flag_e@ == "-e"@,
            flag_j@ == "-j"@,
            thorough == given(args@.take(i as int), "-t"@),
            exhaustive == given(args@.take(i as int), "-e"@),
            json == given(args@.take(i as int), "-j"@),
            roots@ == roots_of(args@.take(i as int)),
        decreases args.len() - i,
    {
        proof {
            reveal_strlit("-t");
            reveal_strlit("-e");
            reveal_strlit("-j");
            assert("-t"@[1] != "-e"@[1] && "-t"@[1] != "-j"@[1] && "-e"@[1] != "-j"@[1]);
        }
        let ghost before = args@.take(i as int);
        let ghost after = args@.take(i + 1);
        assert(after.drop_last() == before);
        assert(after.last() == args@[i as int]);
        assert forall|flag: Seq<char>| given(after, flag) == (given(before, flag) || args@[i as int]@
            == flag) by {
            if given(after, flag) {
                let w = choose|w: int| 0 <= w < after.len() && #[trigger] after[w]@ == flag;
                if w < i {
                    assert(before[w]@ == flag);
                }
            }
            if given(before, flag) {
                let w = choose|w: int| 0 <= w < before.len() && #[trigger] before[w]@ == flag;
                assert(after[w]@ == flag);
            }
            if args@[i as int]@ == flag {
                assert(after[i as int]@ == flag);
            }
        }
        let a = &args[i];
        if a.eq(&flag_t) {
            thorough = true;
        } else if a.eq(&flag_e) {
            exhaustive = true;
        } else if a.eq(&flag_j) {
            json = true;
        } else {
            roots.push(a.clone());
        }
        i += 1;
    }
    assert(args@.take(args.len() as int) == args@);
    Options { config: Config { thorough, exhaustive }, json, roots }
}

} // verus!
