//! The commands a log records and the command-line front end dispatches.

use vstd::prelude::*;
use vstd::string::StringExecFns;
use crate::errors::KvsError;
use crate::kv::{rm_rec, set_rec, KvStore};

verus! {

/// Arguments of the `get` subcommand.
#[derive(Debug, Clone, PartialEq)]
pub struct GetArgs {
    /// Key whose value is looked up.
    pub key: String,
}

/// Arguments of the `set` subcommand.
#[derive(Debug, Clone, PartialEq)]
pub struct SetArgs {
    /// Key that will hold the value.
    pub key: String,
    /// Value associated with the key.
    pub value: String,
}

/// Arguments of the `rm` subcommand.
#[derive(Debug, Clone, PartialEq)]
pub struct RmArgs {
    /// Key to remove.
    pub key: String,
}

/// One command: the unit the record codec encodes and decodes.
///
/// Segment files contain only `Set` and `Rm` records; decoding a `Get` from
/// a log makes the engine fail with `UnexpectedCommand`.
#[derive(Debug, Clone, PartialEq)]
pub enum Command {
    /// Look a key up.
    Get(GetArgs),
    /// Bind a key to a value.
    SetCmd(SetArgs),
    /// Remove a key.
    Rm(RmArgs),
}

/// The command-line front end's parsed arguments: one subcommand.
#[derive(Debug, Clone, PartialEq)]
pub struct Opt {
    /// The subcommand to run.
    pub command: Command,
}

/// What one command-line invocation should do once the store has spoken:
/// the line to print, the stream it belongs on, and the exit code.
#[derive(Debug, Clone, PartialEq)]
pub struct RunOutcome {
    /// The line to print, if any.
    pub line: Option<String>,
    /// Whether the line goes to standard error rather than standard out.
    pub to_stderr: bool,
    /// The process exit code: zero on success.
    pub exit_code: u8,
}

/// Runs one subcommand against the store and says what to print and how to
/// exit: a found value or `Key not found` on standard out with code 0 for
/// `get`; nothing with code 0 for a successful `set` or `rm`; the error's
/// message with code 1 otherwise.
pub fn run(command: Command, store: &mut KvStore) -> (out: RunOutcome)
    requires
        old(store).wf(),
        command matches Command::SetCmd(a) ==> old(store).can_write(set_rec(a.key@, a.value@)),
        command matches Command::Rm(a) ==> (old(store)@.contains_key(a.key@) ==> old(
            store,
        ).can_write(rm_rec(a.key@))),
    ensures
        final(store).wf(),
        command matches Command::Get(a) ==> *final(store) == *old(store) && out.exit_code == 0
            && !out.to_stderr && (if old(store)@.contains_key(a.key@) {
            out.line matches Some(l) && l@ == old(store)@[a.key@]
        } else {
            out.line matches Some(l) && l@ == "Key not found"@
        }),
        command matches Command::SetCmd(a) ==> final(store)@ == old(store)@.insert(
            a.key@,
            a.value@,
        ) && out.exit_code == 0 && out.line is None,
        command matches Command::Rm(a) ==> (if old(store)@.contains_key(a.key@) {
            final(store)@ == old(store)@.remove(a.key@) && out.exit_code == 0 && out.line is None
        } else {
            *final(store) == *old(store) && out.exit_code == 1 && (out.line matches Some(l) && l@
                == "Key not found"@) && !out.to_stderr
        }),
{
    match command {
        Command::Get(args) => match store.get(args.key) {
            Ok(Some(value)) => RunOutcome { line: Some(value), to_stderr: false, exit_code: 0 },
            Ok(None) => RunOutcome {
                line: Some("Key not found".to_owned()),
                to_stderr: false,
                exit_code: 0,
            },
            Err(e) => RunOutcome { line: Some(e.message()), to_stderr: true, exit_code: 1 },
        },
        Command::SetCmd(args) => match store.set(args.key, args.value) {
            Ok(()) => RunOutcome { line: None, to_stderr: false, exit_code: 0 },
            Err(e) => RunOutcome { line: Some(e.message()), to_stderr: true, exit_code: 1 },
        },
        Command::Rm(args) => match store.remove(args.key) {
            Ok(()) => RunOutcome { line: None, to_stderr: false, exit_code: 0 },
            // a removal of an absent key reports on standard out, not
            // standard error
            Err(e) => RunOutcome { line: Some(e.message()), to_stderr: false, exit_code: 1 },
        },
    }
}

} // verus!
