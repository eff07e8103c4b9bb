//! Command dispatch data: what a dispatched handler hands back, and the
//! argument-list rewrite that implements default commands.

use vstd::prelude::*;

verus! {

/// What a dispatched command produced.
#[derive(Debug)]
pub enum DispatchOutput {
    /// Text output (a rendered template or serialized data).
    Text(String),
    /// Binary output: the bytes and a file name for them.
    Binary(Vec<u8>, String),
    /// No output.
    Silent,
}

/// Inserts a command name at position 1 (after the program name) in an
/// argument list, or as the only entry when the list is empty. This
/// implements default commands: when no subcommand was given, the default's
/// name is inserted and the arguments are parsed again.
pub fn insert_default_command(args: Vec<String>, command: &str) -> (r: Vec<String>)
    ensures
        args@.len() == 0 ==> r@.len() == 1 && r@.map_values(|s: String| s@) == seq![command@],
        args@.len() > 0 ==> r@.map_values(|s: String| s@) == args@.map_values(
            |s: String| s@,
        ).insert(1, command@),
{
    let mut result = args;
    if result.len() > 0 {
        result.insert(1, command.to_owned());
        proof {
            assert(result@.map_values(|s: String| s@) =~= old_args_view(result@, 1).insert(
                1,
                command@,
            ));
        }
    } else {
        result.push(command.to_owned());
        proof {
            assert(result@.map_values(|s: String| s@) =~= seq![command@]);
        }
    }
    result
}

/// The mapped view of an argument list with the entry at `at` removed
/// (helper for the insertion proof).
pub open spec fn old_args_view(args: Seq<String>, at: int) -> Seq<Seq<char>> {
    args.map_values(|s: String| s@).remove(at)
}

} // verus!
