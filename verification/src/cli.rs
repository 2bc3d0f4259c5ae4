//! The command-line decision: which operation a given invocation asks for.
//! Anything but exactly four arguments with a literal `unpack` or `pack`
//! mode asks only for the usage text, with no action taken.

use vstd::prelude::*;

verus! {

/// What an invocation asks for.
#[derive(Clone, Copy, Debug, PartialEq, Eq, Structural)]
pub enum Action {
    Unpack,
    Pack,
    Usage,
}

/// The action an invocation selects: four arguments (program name included)
/// and a literal `unpack` or `pack` mode run that operation; any other arity
/// or mode only prints usage.
pub open spec fn select_action_spec(arg_count: int, mode: Seq<char>) -> Action {
    if arg_count != 4 {
        Action::Usage
    } else if mode == "unpack"@ {
        Action::Unpack
    } else if mode == "pack"@ {
        Action::Pack
    } else {
        Action::Usage
    }
}

/// Whether two strings hold the same characters.
fn str_eq(s: &str, t: &str) -> (r: bool)
    ensures
        r == (s@ == t@),
{
    let n = s.unicode_len();
    let m = t.unicode_len();
    if n != m {
        return false;
    }
    let mut i: usize = 0;
    while i < n
        invariant
            i <= n,
            n == s@.len() == t@.len(),
            forall|k: int| 0 <= k < i ==> s@[k] == t@[k],
        decreases n - i,
    {
        if s.get_char(i) != t.get_char(i) {
            return false;
        }
        i += 1;
    }
    proof {
        assert(s@ =~= t@);
    }
    true
}

/// Decides what to do from the argument count and the first positional
/// argument.
pub fn select_action(arg_count: usize, mode: &str) -> (r: Action)
    ensures
        r == select_action_spec(arg_count as int, mode@),
{
    if arg_count != 4 {
        Action::Usage
    } else if str_eq(mode, "unpack") {
        Action::Unpack
    } else if str_eq(mode, "pack") {
        Action::Pack
    } else {
        Action::Usage
    }
}

} // verus!
