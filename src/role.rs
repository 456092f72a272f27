//! Choosing the process's role from its command line.

use crate::components::IsServer;
use vstd::prelude::*;

verus! {

/// The role option was none of the accepted spellings.
#[derive(Clone, Copy, Debug, PartialEq, Eq, Structural)]
pub enum RoleError {
    InvalidOption,
}

impl RoleError {
    /// The text shown when the process stops on this error.
    pub fn message(&self) -> (r: &'static str)
        ensures
            r@ == "Invalid option provided. Use one of the following: --server (-s), --client (-c)."@,
    {
        "Invalid option provided. Use one of the following: --server (-s), --client (-c)."
    }
}

/// The role that an option names: `Some(true)` for the server, `Some(false)`
/// for a client, `None` for anything else.
pub open spec fn role_of(arg: Seq<char>) -> Option<bool> {
    if arg == "--server"@ || arg == "-s"@ {
        Some(true)
    } else if arg == "--client"@ || arg == "-c"@ {
        Some(false)
    } else {
        None
    }
}

fn same_text(a: &str, b: &str) -> (r: bool)
    ensures
        r == (a@ == b@),
{
    let n = a.unicode_len();
    if n != b.unicode_len() {
        return false;
    }
    let mut i: usize = 0;
    while i < n
        invariant
            n == a@.len(),
            n == b@.len(),
            i <= n,
            forall|k: int| 0 <= k < i ==> a@[k] == b@[k],
        decreases n - i,
    {
        if a.get_char(i) != b.get_char(i) {
            return false;
        }
        i += 1;
    }
    assert(a@ =~= b@);
    true
}

/// Reads the role from the command line `args` (the program's name first):
/// the server when no option is given, otherwise the role the first option
/// names, and an error when it names none.
pub fn parse_args(args: &Vec<String>) -> (r: Result<IsServer, RoleError>)
    ensures
        args@.len() < 2 ==> r == Ok::<IsServer, RoleError>(IsServer(true)),
        args@.len() >= 2 ==> match role_of(args@[1]@) {
            Some(b) => r == Ok::<IsServer, RoleError>(IsServer(b)),
            None => r == Err::<IsServer, RoleError>(RoleError::InvalidOption),
        },
{
    if args.len() < 2 {
        return Ok(IsServer(true));
    }
    let arg = args[1].as_str();
    if same_text(arg, "--server") || same_text(arg, "-s") {
        Ok(IsServer(true))
    } else if same_text(arg, "--client") || same_text(arg, "-c") {
        Ok(IsServer(false))
    } else {
        Err(RoleError::InvalidOption)
    }
}

} // verus!
