//! The server's side of the protocol: which engine to run and how one
//! client command is answered.

use vstd::prelude::*;
use vstd::string::StrSliceExecFns;
use vstd::string::StringExecFns;
use crate::client::Command;
use crate::errors::KvsError;
use crate::kv::{rm_rec, set_rec, KvStore};
use crate::response::CommandResponse;

verus! {

/// The storage engines the server can run.
#[derive(Debug, Clone, Copy, PartialEq, Eq)]
pub enum Engine {
    /// This crate's log-structured engine.
    Kvs,
    /// The embedded B-tree database engine.
    Sled,
}

impl Engine {
    /// The names an engine can be chosen by.
    pub fn variants() -> (v: [&'static str; 2])
        ensures
            v@.len() == 2,
    {
        ["kvs", "sled"]
    }
}

/// Whether two strings hold the same characters.
fn str_equal(a: &str, b: &str) -> (r: bool)
    ensures
        r == (a@ == b@),
{
    let n = a.unicode_len();
    if n != b.unicode_len() {
        return false;
    }
    let mut i: usize = 0;
    while i < n
        invariant
            i <= n,
            n == a@.len(),
            n == b@.len(),
            forall|x: int| 0 <= x < i ==> a@[x] == b@[x],
        decreases n - i,
    {
        if a.get_char(i) != b.get_char(i) {
            return false;
        }
        i = i + 1;
    }
    proof {
        assert(a@ =~= b@);
    }
    true
}

/// Parses an engine name: exactly `kvs` or `sled`, anything else is
/// `UnknownEngine`.
pub fn parse_engine(s: &str) -> (r: Result<Engine, KvsError>)
    ensures
        s@ == "kvs"@ ==> r == Ok::<Engine, KvsError>(Engine::Kvs),
        s@ == "sled"@ ==> r == Ok::<Engine, KvsError>(Engine::Sled),
        (s@ != "kvs"@ && s@ != "sled"@) ==> (r matches Err(e) && e is UnknownEngine),
{
    proof {
        reveal_strlit("kvs");
        reveal_strlit("sled");
        assert("kvs"@.len() == 3);
        assert("sled"@.len() == 4);
        assert("kvs"@ != "sled"@);
    }
    if str_equal(s, "kvs") {
        Ok(Engine::Kvs)
    } else if str_equal(s, "sled") {
        Ok(Engine::Sled)
    } else {
        Err(KvsError::UnknownEngine)
    }
}

impl core::str::FromStr for Engine {
    type Err = KvsError;

    fn from_str(s: &str) -> Result<Engine, KvsError> {
        parse_engine(s)
    }
}

impl Engine {
    /// The engine's name, as the configuration file records it.
    pub fn name(&self) -> (s: &'static str)
        ensures
            self is Kvs ==> s@ == "kvs"@,
            self is Sled ==> s@ == "sled"@,
    {
        match self {
            Engine::Kvs => "kvs",
            Engine::Sled => "sled",
        }
    }
}

/// Answers one client command against the store: a hit returns its value,
/// a miss `KeyNotFound`, a mutation `Success`, and a failed removal the
/// engine's error wrapped in an `Error` response, while the store itself
/// stays well-formed.
pub fn serve_command(store: &mut KvStore, cmd: Command) -> (resp: CommandResponse)
    requires
        old(store).wf(),
        cmd matches Command::SetCmd { key, value } ==> old(store).can_write(
            set_rec(key@, value@),
        ),
        cmd matches Command::Remove { key } ==> (old(store)@.contains_key(key@) ==> old(
            store,
        ).can_write(rm_rec(key@))),
    ensures
        final(store).wf(),
        cmd matches Command::Get { key } ==> *final(store) == *old(store) && (if old(
            store,
        )@.contains_key(key@) {
            resp matches CommandResponse::Value(v) && v@ == old(store)@[key@]
        } else {
            resp is KeyNotFound
        }),
        cmd matches Command::SetCmd { key, value } ==> final(store)@ == old(store)@.insert(
            key@,
            value@,
        ) && resp is Success,
        cmd matches Command::Remove { key } ==> (if old(store)@.contains_key(key@) {
            final(store)@ == old(store)@.remove(key@) && resp is Success
        } else {
            *final(store) == *old(store) && (resp matches CommandResponse::Error(m) && m@
                == "Remove command error: "@ + "Key not found"@)
        }),
{
    match cmd {
        Command::Get { key } => match store.get(key) {
            Ok(Some(value)) => CommandResponse::Value(value),
            Ok(None) => CommandResponse::KeyNotFound,
            Err(e) => {
                let mut m = "Get command error: ".to_owned();
                m.append(e.message().as_str());
                CommandResponse::Error(m)
            },
        },
        Command::SetCmd { key, value } => match store.set(key, value) {
            Ok(()) => CommandResponse::Success,
            Err(e) => {
                let mut m = "Set command error: ".to_owned();
                m.append(e.message().as_str());
                CommandResponse::Error(m)
            },
        },
        Command::Remove { key } => match store.remove(key) {
            Ok(()) => CommandResponse::Success,
            Err(e) => {
                let mut m = "Remove command error: ".to_owned();
                m.append(e.message().as_str());
                CommandResponse::Error(m)
            },
        },
    }
}

} // verus!
