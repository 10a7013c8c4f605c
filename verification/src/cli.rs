use vstd::prelude::*;

use crate::text::{char_at, chars_of};

verus! {

/// What the command line asks for.
#[derive(Debug, PartialEq, Eq)]
pub enum Command {
    /// Print the usage text.
    Help,
    /// Scan `path` (or the current directory where it is `None`) and either
    /// print a summary or open the explorer.
    Run { summary: bool, path: Option<String> },
}

/// Whether two texts are equal, character by character.
pub fn same_text(a: &str, b: &str) -> (r: bool)
    ensures
        r == (a@ == b@),
{
    let x = chars_of(a);
    let y = chars_of(b);
    if x.len() != y.len() {
        return false;
    }
    let mut i: usize = 0;
    while i < x.len()
        invariant
            x@ == a@,
            y@ == b@,
            x@.len() == y@.len(),
            i <= x@.len(),
            forall|j: int| 0 <= j < i ==> x@[j] == y@[j],
        decreases x.len() - i,
    {
        if char_at(&x, i) != char_at(&y, i) {
            return false;
        }
        i = i + 1;
    }
    assert(x@ =~= y@);
    true
}

/// Whether an argument is an option: it starts with `-`.
pub open spec fn is_option(arg: Seq<char>) -> bool {
    arg.len() > 0 && arg[0] == '-'
}

/// Whether some argument equals `word`.
pub open spec fn has_arg(args: Seq<String>, word: Seq<char>) -> bool {
    exists|i: int| 0 <= i < args.len() && (#[trigger] args[i])@ == word
}

/// The first argument that is not an option, if any.
pub open spec fn first_path(args: Seq<String>) -> Option<Seq<char>>
    decreases args.len(),
{
    if args.len() == 0 {
        None
    } else if !is_option(args[0]@) {
        Some(args[0]@)
    } else {
        first_path(args.drop_first())
    }
}

/// What the arguments ask for: help where `-h` or `--help` is among them;
/// else a run, a summary where `--summary` is among them, of the first
/// argument that is not an option.
pub open spec fn command_of(args: Seq<String>) -> (bool, bool, Option<Seq<char>>) {
    (has_arg(args, "-h"@) || has_arg(args, "--help"@), has_arg(args, "--summary"@), first_path(args))
}

fn has_word(args: &Vec<String>, word: &str) -> (r: bool)
    ensures
        r == has_arg(args@, word@),
{
    let mut i: usize = 0;
    while i < args.len()
        invariant
            i <= args@.len(),
            forall|j: int| 0 <= j < i ==> (#[trigger] args@[j])@ != word@,
        decreases args.len() - i,
    {
        if same_text(args[i].as_str(), word) {
            return true;
        }
        i = i + 1;
    }
    false
}

fn find_path(args: &Vec<String>) -> (r: Option<String>)
    ensures
        match r {
            Some(p) => first_path(args@) == Some(p@),
            None => first_path(args@) is None,
        },
{
    let mut i: usize = 0;
    assert(args@.skip(0) =~= args@);
    while i < args.len()
        invariant
            i <= args@.len(),
            first_path(args@) == first_path(args@.skip(i as int)),
        decreases args.len() - i,
    {
        let chars = chars_of(args[i].as_str());
        proof {
            assert(args@.skip(i as int)[0] == args@[i as int]);
        }
        if chars.len() == 0 || char_at(&chars, 0) != '-' {
            return Some(args[i].clone());
        }
        proof {
            assert(args@.skip(i as int).drop_first() =~= args@.skip(i + 1));
        }
        i = i + 1;
    }
    None
}

/// Reads the command line (without the program's name).
pub fn parse_args(args: &Vec<String>) -> (c: Command)
    ensures
        match c {
            Command::Help => command_of(args@).0,
            Command::Run { summary, path } => {
                &&& !command_of(args@).0
                &&& summary == command_of(args@).1
                &&& match path {
                    Some(p) => command_of(args@).2 == Some(p@),
                    None => command_of(args@).2 is None,
                }
            },
        },
{
    if has_word(args, "-h") || has_word(args, "--help") {
        return Command::Help;
    }
    let summary = has_word(args, "--summary");
    let path = find_path(args);
    Command::Run { summary, path }
}

/// The usage text.
pub fn help_text() -> (s: &'static str)
    ensures
        s@ == "dustbunny - terminal disk usage explorer\n\nUsage:\n  dustbunny [PATH]\n  dustbunny --summary [PATH]\n\nKeys:\n  q/Esc quit, Enter drill in, Backspace parent, arrows select,\n  Tab switch focus, r rescan, o open, ? help"@,
{
    "dustbunny - terminal disk usage explorer\n\nUsage:\n  dustbunny [PATH]\n  dustbunny --summary [PATH]\n\nKeys:\n  q/Esc quit, Enter drill in, Backspace parent, arrows select,\n  Tab switch focus, r rescan, o open, ? help"
}

} // verus!
