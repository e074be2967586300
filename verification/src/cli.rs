//! Command-line arguments.

use crate::text::same_text;
use vstd::prelude::*;

verus! {

/// Command-line flags passed to the applet.
#[derive(Debug, Clone, Copy, PartialEq, Eq, Structural)]
pub struct Flags {
    /// Launch directly into colour-picker mode (`--pick`).
    pub pick: bool,
}

impl Default for Flags {
    fn default() -> (r: Self)
        ensures
            r == (Flags { pick: false }),
    {
        Flags { pick: false }
    }
}

/// What the arguments ask for.
#[derive(Debug, Clone, PartialEq, Eq)]
pub enum Request {
    /// Run the applet.
    Run(Flags),
    /// Print the help and exit.
    Help,
    /// Report the argument, print the help and exit with a failure code.
    Unknown(String),
}

/// Whether an argument asks for colour-picker mode.
pub open spec fn is_pick(arg: Seq<char>) -> bool {
    arg == "--pick"@ || arg == "-p"@
}

/// Whether an argument asks for the help.
pub open spec fn is_help(arg: Seq<char>) -> bool {
    arg == "--help"@ || arg == "-h"@
}

/// Reads the arguments that follow the program's name. The first one that does
/// not ask for colour-picker mode decides; without one the applet runs, in
/// colour-picker mode if there was an argument.
pub fn parse_args(args: &Vec<String>) -> (r: Request)
    ensures
        match r {
            Request::Run(flags) => {
                &&& forall|i: int| 0 <= i < args@.len() ==> is_pick(#[trigger] args@[i]@)
                &&& flags.pick == (args@.len() > 0)
            },
            Request::Help => exists|i: int|
                0 <= i < args@.len() && is_help(#[trigger] args@[i]@) && forall|j: int|
                    0 <= j < i ==> is_pick(#[trigger] args@[j]@),
            Request::Unknown(text) => exists|i: int|
                0 <= i < args@.len() && !is_pick(#[trigger] args@[i]@) && !is_help(args@[i]@)
                    && text@ == args@[i]@ && forall|j: int|
                    0 <= j < i ==> is_pick(#[trigger] args@[j]@),
        },
{
    let mut pick: bool = false;
    let mut i: usize = 0;
    while i < args.len()
        invariant
            i <= args@.len(),
            forall|j: int| 0 <= j < i ==> is_pick(#[trigger] args@[j]@),
            pick == (i > 0),
        decreases args@.len() - i,
    {
        let arg = args[i].as_str();
        if same_text(arg, "--pick") || same_text(arg, "-p") {
            pick = true;
        } else if same_text(arg, "--help") || same_text(arg, "-h") {
            proof {
                reveal_strlit("--pick");
                reveal_strlit("-p");
                reveal_strlit("--help");
                reveal_strlit("-h");
                assert(is_help(args@[i as int]@));
            }
            return Request::Help;
        } else {
            assert(!is_pick(args@[i as int]@) && !is_help(args@[i as int]@));
            return Request::Unknown(arg.to_owned());
        }
        i = i + 1;
    }
    Request::Run(Flags { pick })
}

} // verus!
