//! The record codec: how one command is written to and read back from a
//! segment file.
//!
//! Each record is a self-delimiting textual object such as
//! `{"Set":{"key":"k","value":"v"}}` or `{"Rm":{"key":"k"}}`, with `"` and
//! `\` escaped inside strings by a backslash.  Offsets and lengths are in
//! bytes; keys and values travel as UTF-8.  The decoder reports the exact
//! byte offset at which the next record begins, which is what lets the
//! engine turn a decoded record into a log pointer.

use vstd::prelude::*;
use vstd::utf8::*;
use crate::commands::{Command, GetArgs, RmArgs, SetArgs};
use crate::errors::KvsError;

verus! {

/// The mathematical shape of one record: the raw UTF-8 bytes of its key
/// and, for a `Set`, of its value.
pub enum LogRecord {
    /// A `Set` record binding `key` to `value`.
    RecSet { key: Seq<u8>, value: Seq<u8> },
    /// A `Remove` record (tombstone) for `key`.
    RecRm { key: Seq<u8> },
    /// A `Get` record; never written to a log by the engine.
    RecGet { key: Seq<u8> },
}

/// The record a command encodes to.
pub open spec fn rec_of(cmd: Command) -> LogRecord {
    match cmd {
        Command::Get(a) => LogRecord::RecGet { key: encode_utf8(a.key@) },
        Command::SetCmd(a) => LogRecord::RecSet {
            key: encode_utf8(a.key@),
            value: encode_utf8(a.value@),
        },
        Command::Rm(a) => LogRecord::RecRm { key: encode_utf8(a.key@) },
    }
}

/// Whether the record's key (and value) are valid UTF-8, so that decoding
/// can hand them back as strings.
pub open spec fn rec_utf8(r: LogRecord) -> bool {
    match r {
        LogRecord::RecSet { key, value } => valid_utf8(key) && valid_utf8(value),
        LogRecord::RecRm { key } => valid_utf8(key),
        LogRecord::RecGet { key } => valid_utf8(key),
    }
}

/// How one byte of a string is written: `"` and `\` get a backslash in
/// front, every other byte stands for itself.  UTF-8 continuation bytes are
/// never `"` or `\`, so escaping bytewise never splits a character.
pub open spec fn esc_byte(b: u8) -> Seq<u8> {
    if b == 34 {
        seq![92u8, 34u8]
    } else if b == 92 {
        seq![92u8, 92u8]
    } else {
        seq![b]
    }
}

/// The escaped form of a whole string.
pub open spec fn esc(s: Seq<u8>) -> Seq<u8>
    decreases s.len(),
{
    if s.len() == 0 {
        Seq::empty()
    } else {
        esc_byte(s[0]) + esc(s.drop_first())
    }
}

/// The bytes of `{"Set":{"key":"`.
pub open spec fn set_head() -> Seq<u8> {
    seq![123u8, 34u8, 83u8, 101u8, 116u8, 34u8, 58u8, 123u8, 34u8, 107u8, 101u8, 121u8, 34u8, 58u8, 34u8]
}

/// The bytes of `{"Rm":{"key":"`.
pub open spec fn rm_head() -> Seq<u8> {
    seq![123u8, 34u8, 82u8, 109u8, 34u8, 58u8, 123u8, 34u8, 107u8, 101u8, 121u8, 34u8, 58u8, 34u8]
}

/// The bytes of `{"Get":{"key":"`.
pub open spec fn get_head() -> Seq<u8> {
    seq![123u8, 34u8, 71u8, 101u8, 116u8, 34u8, 58u8, 123u8, 34u8, 107u8, 101u8, 121u8, 34u8, 58u8, 34u8]
}

/// The bytes of `,"value":"`, which follow the key's closing quote in a
/// `Set` record.
pub open spec fn val_mid() -> Seq<u8> {
    seq![44u8, 34u8, 118u8, 97u8, 108u8, 117u8, 101u8, 34u8, 58u8, 34u8]
}

/// The bytes of `}}`, which follow the last closing quote of a record.
pub open spec fn obj_tail() -> Seq<u8> {
    seq![125u8, 125u8]
}

/// The encoded form of a record.
pub open spec fn enc(r: LogRecord) -> Seq<u8> {
    match r {
        LogRecord::RecSet { key, value } => set_head() + esc(key) + seq![34u8] + val_mid() + esc(
            value,
        ) + seq![34u8] + obj_tail(),
        LogRecord::RecRm { key } => rm_head() + esc(key) + seq![34u8] + obj_tail(),
        LogRecord::RecGet { key } => get_head() + esc(key) + seq![34u8] + obj_tail(),
    }
}

/// Whether `pat` occurs in `t` starting at offset `pos`.
pub open spec fn match_at(t: Seq<u8>, pos: int, pat: Seq<u8>) -> bool {
    0 <= pos && pos + pat.len() <= t.len() && t.subrange(pos, pos + pat.len()) == pat
}

/// Scans the escaped contents of a string from `pos` up to and including
/// its closing quote; yields the unescaped bytes and the offset just after
/// the quote.  `None` on a dangling backslash, an escape other than `\"` or
/// `\\`, or a missing closing quote.
pub open spec fn scan_str(t: Seq<u8>, pos: int) -> Option<(Seq<u8>, int)>
    decreases t.len() - pos when 0 <= pos <= t.len()
{
    if pos >= t.len() {
        None
    } else if t[pos] == 34 {
        Some((Seq::empty(), pos + 1))
    } else if t[pos] == 92 {
        if pos + 1 < t.len() && (t[pos + 1] == 34 || t[pos + 1] == 92) {
            match scan_str(t, pos + 2) {
                Some(p) => Some((seq![t[pos + 1]] + p.0, p.1)),
                None => None,
            }
        } else {
            None
        }
    } else {
        match scan_str(t, pos + 1) {
            Some(p) => Some((seq![t[pos]] + p.0, p.1)),
            None => None,
        }
    }
}

/// Parses exactly one record of `t` starting at `pos`; yields the record
/// and the offset at which the next record begins.
pub open spec fn parse_one(t: Seq<u8>, pos: int) -> Option<(LogRecord, int)> {
    if match_at(t, pos, set_head()) {
        match scan_str(t, pos + set_head().len()) {
            Some(kp) => if match_at(t, kp.1, val_mid()) {
                match scan_str(t, kp.1 + val_mid().len()) {
                    Some(vp) => if match_at(t, vp.1, obj_tail()) {
                        Some((LogRecord::RecSet { key: kp.0, value: vp.0 }, vp.1 + obj_tail().len()))
                    } else {
                        None
                    },
                    None => None,
                }
            } else {
                None
            },
            None => None,
        }
    } else if match_at(t, pos, rm_head()) {
        match scan_str(t, pos + rm_head().len()) {
            Some(kp) => if match_at(t, kp.1, obj_tail()) {
                Some((LogRecord::RecRm { key: kp.0 }, kp.1 + obj_tail().len()))
            } else {
                None
            },
            None => None,
        }
    } else if match_at(t, pos, get_head()) {
        match scan_str(t, pos + get_head().len()) {
            Some(kp) => if match_at(t, kp.1, obj_tail()) {
                Some((LogRecord::RecGet { key: kp.0 }, kp.1 + obj_tail().len()))
            } else {
                None
            },
            None => None,
        }
    } else {
        None
    }
}

/// Parses the whole tail of a segment from `pos` as a sequence of records;
/// `None` if anything between `pos` and the end is malformed.
pub open spec fn parse_all_from(t: Seq<u8>, pos: int) -> Option<Seq<LogRecord>>
    decreases t.len() - pos when 0 <= pos <= t.len()
{
    if pos == t.len() {
        Some(Seq::empty())
    } else {
        match parse_one(t, pos) {
            Some(re) => if pos < re.1 <= t.len() {
                match parse_all_from(t, re.1) {
                    Some(rs) => Some(seq![re.0] + rs),
                    None => None,
                }
            } else {
                None
            },
            None => None,
        }
    }
}

/// The records of a whole segment.
pub open spec fn parse_all(t: Seq<u8>) -> Option<Seq<LogRecord>> {
    parse_all_from(t, 0)
}

// ---------------------------------------------------------------------------
// Facts about the grammar: a pattern can be matched piecewise, escaping can
// be undone, and a record's encoding parses back to the record, no matter
// what follows it.
// ---------------------------------------------------------------------------

/// `pat1 + pat2` occurs at `pos` exactly when `pat1` occurs at `pos` and
/// `pat2` right after it.
pub proof fn lemma_match_cat(t: Seq<u8>, pos: int, a: Seq<u8>, b: Seq<u8>)
    ensures
        match_at(t, pos, a + b) <==> (match_at(t, pos, a) && match_at(t, pos + a.len(), b)),
{
    let n = a.len() as int;
    let m = b.len() as int;
    if match_at(t, pos, a + b) {
        let s = t.subrange(pos, pos + n + m);
        assert(t.subrange(pos, pos + n) =~= a) by {
            assert forall|i: int| 0 <= i < n implies t.subrange(pos, pos + n)[i] == a[i] by {
                assert(s[i] == (a + b)[i]);
            }
        }
        assert(t.subrange(pos + n, pos + n + m) =~= b) by {
            assert forall|i: int| 0 <= i < m implies t.subrange(pos + n, pos + n + m)[i]
                == b[i] by {
                assert(s[n + i] == (a + b)[n + i]);
            }
        }
    }
    if match_at(t, pos, a) && match_at(t, pos + n, b) {
        assert(t.subrange(pos, pos + n + m) =~= a + b) by {
            assert forall|i: int| 0 <= i < n + m implies t.subrange(pos, pos + n + m)[i] == (a
                + b)[i] by {
                if i < n {
                    assert(t.subrange(pos, pos + n)[i] == a[i]);
                } else {
                    assert(t.subrange(pos + n, pos + n + m)[i - n] == b[i - n]);
                }
            }
        }
    }
}

/// A match inside `t` survives appending more bytes to `t`.
pub proof fn lemma_match_ext(t: Seq<u8>, s: Seq<u8>, pos: int, pat: Seq<u8>)
    requires
        match_at(t, pos, pat),
    ensures
        match_at(t + s, pos, pat),
{
    assert((t + s).subrange(pos, pos + pat.len()) =~= t.subrange(pos, pos + pat.len()));
}

/// Scanning the escaped form of `s` followed by a closing quote recovers
/// exactly `s` and stops right after the quote.
pub proof fn lemma_scan_of_esc(t: Seq<u8>, pos: int, s: Seq<u8>)
    requires
        match_at(t, pos, esc(s) + seq![34u8]),
    ensures
        scan_str(t, pos) == Some((s, pos + esc(s).len() + 1)),
    decreases s.len(),
{
    if s.len() == 0 {
        assert(esc(s) + seq![34u8] =~= seq![34u8]);
        assert(t[pos] == t.subrange(pos, pos + 1)[0]);
    } else {
        let b = s[0];
        let rest = s.drop_first();
        assert(esc(s) + seq![34u8] =~= esc_byte(b) + (esc(rest) + seq![34u8]));
        lemma_match_cat(t, pos, esc_byte(b), esc(rest) + seq![34u8]);
        let w = esc_byte(b).len() as int;
        if b == 34 || b == 92 {
            assert(t[pos] == t.subrange(pos, pos + 2)[0]);
            assert(t[pos + 1] == t.subrange(pos, pos + 2)[1]);
            lemma_scan_of_esc(t, pos + 2, rest);
            assert(seq![t[pos + 1]] + rest =~= s);
        } else {
            assert(t[pos] == t.subrange(pos, pos + 1)[0]);
            lemma_scan_of_esc(t, pos + 1, rest);
            assert(seq![t[pos]] + rest =~= s);
        }
    }
}

/// What a successful scan promises: it consumed the escaped form of what it
/// returned, closing quote included.
pub proof fn lemma_scan_sound(t: Seq<u8>, pos: int, s: Seq<u8>, end: int)
    requires
        0 <= pos <= t.len(),
        scan_str(t, pos) == Some((s, end)),
    ensures
        pos < end <= t.len(),
        end == pos + esc(s).len() + 1,
        match_at(t, pos, esc(s) + seq![34u8]),
    decreases t.len() - pos,
{
    if t[pos] == 34 {
        assert(esc(s) + seq![34u8] =~= seq![34u8]);
        assert(t.subrange(pos, pos + 1) =~= seq![34u8]);
    } else if t[pos] == 92 {
        if let Some((s0, e0)) = scan_str(t, pos + 2) {
            lemma_scan_sound(t, pos + 2, s0, e0);
            assert(s == seq![t[pos + 1]] + s0);
            assert(s.len() > 0 && s[0] == t[pos + 1]);
            assert(s.drop_first() =~= s0);
            assert(esc(s) =~= esc_byte(s[0]) + esc(s0));
            assert(t.subrange(pos, pos + 2) =~= esc_byte(s[0]));
            lemma_match_cat(t, pos, esc_byte(s[0]), esc(s0) + seq![34u8]);
            assert(esc(s) + seq![34u8] =~= esc_byte(s[0]) + (esc(s0) + seq![34u8]));
        }
    } else {
        if let Some((s0, e0)) = scan_str(t, pos + 1) {
            lemma_scan_sound(t, pos + 1, s0, e0);
            assert(s == seq![t[pos]] + s0);
            assert(s.len() > 0 && s[0] == t[pos]);
            assert(s.drop_first() =~= s0);
            assert(esc(s) =~= esc_byte(s[0]) + esc(s0));
            assert(t.subrange(pos, pos + 1) =~= esc_byte(s[0]));
            lemma_match_cat(t, pos, esc_byte(s[0]), esc(s0) + seq![34u8]);
            assert(esc(s) + seq![34u8] =~= esc_byte(s[0]) + (esc(s0) + seq![34u8]));
        }
    }
}

/// A record's encoding, wherever it occurs, parses back to the record, and
/// the parse ends exactly where the encoding does.
pub proof fn lemma_parse_of_enc(t: Seq<u8>, pos: int, r: LogRecord)
    requires
        match_at(t, pos, enc(r)),
    ensures
        parse_one(t, pos) == Some((r, pos + enc(r).len())),
{
    match r {
        LogRecord::RecSet { key, value } => {
            let part1 = set_head() + esc(key) + seq![34u8];
            let part2 = part1 + val_mid() + esc(value) + seq![34u8];
            assert(enc(r) =~= set_head() + ((esc(key) + seq![34u8]) + (val_mid() + ((esc(value)
                + seq![34u8]) + obj_tail()))));
            lemma_match_cat(t, pos, set_head(), (esc(key) + seq![34u8]) + (val_mid() + ((esc(
                value,
            ) + seq![34u8]) + obj_tail())));
            let p1 = pos + set_head().len();
            lemma_match_cat(t, p1, esc(key) + seq![34u8], val_mid() + ((esc(value) + seq![34u8])
                + obj_tail()));
            lemma_scan_of_esc(t, p1, key);
            let p2 = p1 + esc(key).len() + 1;
            lemma_match_cat(t, p2, val_mid(), (esc(value) + seq![34u8]) + obj_tail());
            let p3 = p2 + val_mid().len();
            lemma_match_cat(t, p3, esc(value) + seq![34u8], obj_tail());
            lemma_scan_of_esc(t, p3, value);
            let p4 = p3 + esc(value).len() + 1;
            assert(match_at(t, p4, obj_tail()));
        },
        LogRecord::RecRm { key } => {
            assert(enc(r) =~= rm_head() + ((esc(key) + seq![34u8]) + obj_tail()));
            lemma_match_cat(t, pos, rm_head(), (esc(key) + seq![34u8]) + obj_tail());
            let p1 = pos + rm_head().len();
            lemma_match_cat(t, p1, esc(key) + seq![34u8], obj_tail());
            lemma_scan_of_esc(t, p1, key);
            // the heads differ in their third byte, so no other branch fires
            assert(t[pos + 2] == t.subrange(pos, pos + rm_head().len() as int)[2]);
            assert(t[pos + 2] == 82);
            if match_at(t, pos, set_head()) {
                assert(t[pos + 2] == t.subrange(pos, pos + set_head().len() as int)[2]);
            }
        },
        LogRecord::RecGet { key } => {
            assert(enc(r) =~= get_head() + ((esc(key) + seq![34u8]) + obj_tail()));
            lemma_match_cat(t, pos, get_head(), (esc(key) + seq![34u8]) + obj_tail());
            let p1 = pos + get_head().len();
            lemma_match_cat(t, p1, esc(key) + seq![34u8], obj_tail());
            lemma_scan_of_esc(t, p1, key);
            assert(t[pos + 2] == t.subrange(pos, pos + get_head().len() as int)[2]);
            assert(t[pos + 2] == 71);
            if match_at(t, pos, set_head()) {
                assert(t[pos + 2] == t.subrange(pos, pos + set_head().len() as int)[2]);
            }
            if match_at(t, pos, rm_head()) {
                assert(t[pos + 2] == t.subrange(pos, pos + rm_head().len() as int)[2]);
            }
        },
    }
}

/// What a successful parse promises: the bytes between `pos` and the
/// reported end are exactly the record's encoding.
#[verifier::rlimit(50)]
pub proof fn lemma_parse_sound(t: Seq<u8>, pos: int, r: LogRecord, end: int)
    requires
        parse_one(t, pos) == Some((r, end)),
    ensures
        match_at(t, pos, enc(r)),
        end == pos + enc(r).len(),
        pos < end <= t.len(),
{
    if match_at(t, pos, set_head()) {
        let p1 = pos + set_head().len();
        if let Some((k, p2)) = scan_str(t, p1) {
            lemma_scan_sound(t, p1, k, p2);
            if match_at(t, p2, val_mid()) {
                let p3 = p2 + val_mid().len();
                if let Some((v, p4)) = scan_str(t, p3) {
                    lemma_scan_sound(t, p3, v, p4);
                    lemma_match_cat(t, p3, esc(v) + seq![34u8], obj_tail());
                    lemma_match_cat(t, p2, val_mid(), (esc(v) + seq![34u8]) + obj_tail());
                    lemma_match_cat(t, p1, esc(k) + seq![34u8], val_mid() + ((esc(v) + seq![34u8])
                        + obj_tail()));
                    lemma_match_cat(t, pos, set_head(), (esc(k) + seq![34u8]) + (val_mid() + ((esc(
                        v,
                    ) + seq![34u8]) + obj_tail())));
                    assert(enc(r) =~= set_head() + ((esc(k) + seq![34u8]) + (val_mid() + ((esc(v)
                        + seq![34u8]) + obj_tail()))));
                }
            }
        }
    } else if match_at(t, pos, rm_head()) {
        let p1 = pos + rm_head().len();
        if let Some((k, p2)) = scan_str(t, p1) {
            lemma_scan_sound(t, p1, k, p2);
            lemma_match_cat(t, p1, esc(k) + seq![34u8], obj_tail());
            lemma_match_cat(t, pos, rm_head(), (esc(k) + seq![34u8]) + obj_tail());
            assert(enc(r) =~= rm_head() + ((esc(k) + seq![34u8]) + obj_tail()));
        }
    } else if match_at(t, pos, get_head()) {
        let p1 = pos + get_head().len();
        if let Some((k, p2)) = scan_str(t, p1) {
            lemma_scan_sound(t, p1, k, p2);
            lemma_match_cat(t, p1, esc(k) + seq![34u8], obj_tail());
            lemma_match_cat(t, pos, get_head(), (esc(k) + seq![34u8]) + obj_tail());
            assert(enc(r) =~= get_head() + ((esc(k) + seq![34u8]) + obj_tail()));
        }
    }
}

/// A parse that succeeded inside `t` is untouched by appending bytes.
pub proof fn lemma_parse_ext(t: Seq<u8>, s: Seq<u8>, pos: int, r: LogRecord, end: int)
    requires
        parse_one(t, pos) == Some((r, end)),
    ensures
        parse_one(t + s, pos) == Some((r, end)),
{
    lemma_parse_sound(t, pos, r, end);
    lemma_match_ext(t, s, pos, enc(r));
    lemma_parse_of_enc(t + s, pos, r);
}

/// Appending one record's encoding to a segment that parses appends the
/// record to what the segment parses to.
pub proof fn lemma_parse_all_push(t: Seq<u8>, pos: int, rs: Seq<LogRecord>, r: LogRecord)
    requires
        0 <= pos <= t.len(),
        parse_all_from(t, pos) == Some(rs),
    ensures
        parse_all_from(t + enc(r), pos) == Some(rs.push(r)),
    decreases t.len() - pos,
{
    let t2 = t + enc(r);
    if pos == t.len() {
        assert(t2.subrange(pos, pos + enc(r).len()) =~= enc(r));
        lemma_parse_of_enc(t2, pos, r);
        assert(enc(r).len() > 0) by {
            match r {
                LogRecord::RecSet { key, value } => {},
                LogRecord::RecRm { key } => {},
                LogRecord::RecGet { key } => {},
            }
        }
        assert(parse_all_from(t2, pos + enc(r).len() as int) == Some(Seq::<LogRecord>::empty()));
        assert(seq![r] + Seq::<LogRecord>::empty() =~= rs.push(r));
    } else {
        if let Some((r0, end0)) = parse_one(t, pos) {
            if pos < end0 <= t.len() {
                if let Some(rs0) = parse_all_from(t, end0) {
                    lemma_parse_ext(t, enc(r), pos, r0, end0);
                    lemma_parse_all_push(t, end0, rs0, r);
                    assert(rs == seq![r0] + rs0);
                    assert(seq![r0] + rs0.push(r) =~= rs.push(r));
                    assert(pos < t2.len());
                    assert(parse_all_from(t2, pos) == Some(rs.push(r)));
                }
            }
        }
    }
}

// ---------------------------------------------------------------------------
// The executable codec.
// ---------------------------------------------------------------------------

/// Appends a copy of `src` to `out`.
fn extend_from(out: &mut Vec<u8>, src: &Vec<u8>)
    ensures
        final(out)@ == old(out)@ + src@,
{
    let mut i: usize = 0;
    while i < src.len()
        invariant
            i <= src@.len(),
            out@ == old(out)@ + src@.take(i as int),
        decreases src@.len() - i,
    {
        out.push(src[i]);
        proof {
            assert(src@.take(i + 1) =~= src@.take(i as int).push(src@[i as int]));
        }
        i = i + 1;
    }
    proof {
        assert(src@.take(src@.len() as int) =~= src@);
    }
}

/// Escaping one more byte extends the escaped form by that byte's escape.
proof fn lemma_esc_snoc(s: Seq<u8>, b: u8)
    ensures
        esc(s.push(b)) == esc(s) + esc_byte(b),
    decreases s.len(),
{
    if s.len() == 0 {
        assert(s.push(b)[0] == b);
        assert(s.push(b).drop_first() =~= s);
        assert(esc(s.push(b)) =~= esc_byte(b));
        assert(esc(s) + esc_byte(b) =~= esc_byte(b));
    } else {
        lemma_esc_snoc(s.drop_first(), b);
        assert(s.push(b)[0] == s[0]);
        assert(s.push(b).drop_first() =~= s.drop_first().push(b));
        assert(esc_byte(s[0]) + (esc(s.drop_first()) + esc_byte(b)) =~= esc(s) + esc_byte(b));
    }
}

/// Appends the escaped form of `s` to `out`.
fn escape_into(out: &mut Vec<u8>, s: &Vec<u8>)
    ensures
        final(out)@ == old(out)@ + esc(s@),
{
    let mut i: usize = 0;
    while i < s.len()
        invariant
            i <= s@.len(),
            out@ == old(out)@ + esc(s@.take(i as int)),
        decreases s@.len() - i,
    {
        let b = s[i];
        proof {
            assert(s@.take(i + 1) =~= s@.take(i as int).push(b));
            lemma_esc_snoc(s@.take(i as int), b);
        }
        if b == 34 {
            out.push(92);
            out.push(34);
        } else if b == 92 {
            out.push(92);
            out.push(92);
        } else {
            out.push(b);
        }
        proof {
            assert(out@ =~= old(out)@ + esc(s@.take(i + 1)));
        }
        i = i + 1;
    }
    proof {
        assert(s@.take(s@.len() as int) =~= s@);
    }
}

/// The bytes of `{"Set":{"key":"` as a vector.
fn make_set_head() -> (v: Vec<u8>)
    ensures
        v@ == set_head(),
{
    let v: Vec<u8> = vec![123u8, 34, 83, 101, 116, 34, 58, 123, 34, 107, 101, 121, 34, 58, 34];
    proof {
        assert(v@ =~= set_head());
    }
    v
}

/// The bytes of `{"Rm":{"key":"` as a vector.
fn make_rm_head() -> (v: Vec<u8>)
    ensures
        v@ == rm_head(),
{
    let v: Vec<u8> = vec![123u8, 34, 82, 109, 34, 58, 123, 34, 107, 101, 121, 34, 58, 34];
    proof {
        assert(v@ =~= rm_head());
    }
    v
}

/// The bytes of `{"Get":{"key":"` as a vector.
fn make_get_head() -> (v: Vec<u8>)
    ensures
        v@ == get_head(),
{
    let v: Vec<u8> = vec![123u8, 34, 71, 101, 116, 34, 58, 123, 34, 107, 101, 121, 34, 58, 34];
    proof {
        assert(v@ =~= get_head());
    }
    v
}

/// The bytes of `,"value":"` as a vector.
fn make_val_mid() -> (v: Vec<u8>)
    ensures
        v@ == val_mid(),
{
    let v: Vec<u8> = vec![44u8, 34, 118, 97, 108, 117, 101, 34, 58, 34];
    proof {
        assert(v@ =~= val_mid());
    }
    v
}

/// Encodes one command as the bytes the log stores for it.
pub fn encode_command(cmd: &Command) -> (out: Vec<u8>)
    ensures
        out@ == enc(rec_of(*cmd)),
{
    match cmd {
        Command::SetCmd(a) => {
            let mut out = make_set_head();
            let kb = a.key.as_str().as_bytes_vec();
            escape_into(&mut out, &kb);
            out.push(34);
            let mid = make_val_mid();
            extend_from(&mut out, &mid);
            let vb = a.value.as_str().as_bytes_vec();
            escape_into(&mut out, &vb);
            out.push(34);
            out.push(125);
            out.push(125);
            proof {
                assert(out@ =~= enc(rec_of(*cmd)));
            }
            out
        },
        Command::Rm(a) => {
            let mut out = make_rm_head();
            let kb = a.key.as_str().as_bytes_vec();
            escape_into(&mut out, &kb);
            out.push(34);
            out.push(125);
            out.push(125);
            proof {
                assert(out@ =~= enc(rec_of(*cmd)));
            }
            out
        },
        Command::Get(a) => {
            let mut out = make_get_head();
            let kb = a.key.as_str().as_bytes_vec();
            escape_into(&mut out, &kb);
            out.push(34);
            out.push(125);
            out.push(125);
            proof {
                assert(out@ =~= enc(rec_of(*cmd)));
            }
            out
        },
    }
}

/// Whether `pat` occurs in `t` at `pos`.
fn match_vec(t: &Vec<u8>, pos: usize, pat: &Vec<u8>) -> (b: bool)
    ensures
        b == match_at(t@, pos as int, pat@),
{
    let tlen = t.len();
    if pos > tlen || pat.len() > tlen - pos {
        return false;
    }
    let mut j: usize = 0;
    while j < pat.len()
        invariant
            j <= pat@.len(),
            pos + pat@.len() <= t@.len(),
            t@.len() <= usize::MAX,
            forall|i: int| 0 <= i < j ==> t@[pos + i] == pat@[i],
        decreases pat@.len() - j,
    {
        if t[pos + j] != pat[j] {
            proof {
                if match_at(t@, pos as int, pat@) {
                    assert(t@.subrange(pos as int, pos + pat@.len())[j as int] == pat@[j as int]);
                }
            }
            return false;
        }
        j = j + 1;
    }
    proof {
        assert(t@.subrange(pos as int, pos + pat@.len()) =~= pat@);
    }
    true
}

/// Scans a string's escaped contents from `pos`, as `scan_str` describes.
fn scan_string(t: &Vec<u8>, pos: usize) -> (r: Result<(Vec<u8>, usize), KvsError>)
    requires
        pos <= t@.len(),
    ensures
        match r {
            Ok(p) => scan_str(t@, pos as int) == Some((p.0@, p.1 as int)) && p.1 <= t@.len(),
            Err(e) => scan_str(t@, pos as int) is None && e is SerializationError,
        },
{
    let mut cur: usize = pos;
    let mut acc: Vec<u8> = Vec::new();
    while cur < t.len()
        invariant
            pos <= cur <= t@.len(),
            scan_str(t@, pos as int) == (match scan_str(t@, cur as int) {
                Some(p) => Some::<(Seq<u8>, int)>((acc@ + p.0, p.1)),
                None => None::<(Seq<u8>, int)>,
            }),
        decreases t@.len() - cur,
    {
        let b = t[cur];
        if b == 34 {
            proof {
                assert(acc@ + Seq::<u8>::empty() =~= acc@);
            }
            return Ok((acc, cur + 1));
        } else if b == 92 {
            if cur + 1 < t.len() && (t[cur + 1] == 34 || t[cur + 1] == 92) {
                let ghost acc0 = acc@;
                acc.push(t[cur + 1]);
                proof {
                    if let Some(p) = scan_str(t@, cur + 2) {
                        assert(acc@ + p.0 =~= acc0 + (seq![t@[cur + 1]] + p.0));
                    }
                }
                cur = cur + 2;
            } else {
                return Err(KvsError::SerializationError);
            }
        } else {
            let ghost acc0 = acc@;
            acc.push(b);
            proof {
                if let Some(p) = scan_str(t@, cur + 1) {
                    assert(acc@ + p.0 =~= acc0 + (seq![t@[cur as int]] + p.0));
                }
            }
            cur = cur + 1;
        }
    }
    Err(KvsError::SerializationError)
}

/// Relies on `String::from_utf8`: it succeeds exactly when the bytes are
/// valid UTF-8, and then returns the string those bytes spell.
#[verifier::external_body]
pub(crate) fn bytes_to_string(v: Vec<u8>) -> (r: Result<String, KvsError>)
    ensures
        r is Ok <==> valid_utf8(v@),
        r matches Ok(s) ==> s@ == decode_utf8(v@),
        r matches Err(e) ==> e is SerializationError,
{
    match String::from_utf8(v) {
        Ok(s) => Ok(s),
        Err(_) => Err(KvsError::SerializationError),
    }
}

/// Decodes exactly one record of `t` starting at byte `pos`, reporting the
/// byte offset at which the next record begins.  Fails with
/// `SerializationError` when no record of the grammar starts at `pos` or
/// when a key or value is not valid UTF-8.
pub fn decode_record(t: &Vec<u8>, pos: usize) -> (r: Result<(Command, usize), KvsError>)
    requires
        pos <= t@.len(),
    ensures
        match parse_one(t@, pos as int) {
            Some(re) => {
                if rec_utf8(re.0) {
                    r matches Ok(p) && rec_of(p.0) == re.0 && p.1 as int == re.1
                } else {
                    r matches Err(e) && e is SerializationError
                }
            },
            None => r matches Err(e) && e is SerializationError,
        },
{
    let tlen = t.len();
    let sh = make_set_head();
    let rh = make_rm_head();
    let gh = make_get_head();
    if match_vec(t, pos, &sh) {
        let kp = match scan_string(t, pos + 15) {
            Ok(kp) => kp,
            Err(e) => {
                return Err(e);
            },
        };
        proof {
            lemma_scan_sound(t@, pos + 15, kp.0@, kp.1 as int);
        }
        let mid = make_val_mid();
        if !match_vec(t, kp.1, &mid) {
            return Err(KvsError::SerializationError);
        }
        let vp = match scan_string(t, kp.1 + 10) {
            Ok(vp) => vp,
            Err(e) => {
                return Err(e);
            },
        };
        proof {
            lemma_scan_sound(t@, kp.1 + 10, vp.0@, vp.1 as int);
        }
        if !(vp.1 < tlen && vp.1 + 1 < tlen && t[vp.1] == 125 && t[vp.1 + 1] == 125) {
            proof {
                if match_at(t@, vp.1 as int, obj_tail()) {
                    assert(t@.subrange(vp.1 as int, vp.1 + 2)[0] == obj_tail()[0]);
                    assert(t@.subrange(vp.1 as int, vp.1 + 2)[1] == obj_tail()[1]);
                }
            }
            return Err(KvsError::SerializationError);
        }
        proof {
            assert(t@.subrange(vp.1 as int, vp.1 + 2) =~= obj_tail());
        }
        let key = match bytes_to_string(kp.0) {
            Ok(s) => s,
            Err(_) => {
                return Err(KvsError::SerializationError);
            },
        };
        let value = match bytes_to_string(vp.0) {
            Ok(s) => s,
            Err(_) => {
                return Err(KvsError::SerializationError);
            },
        };
        proof {
            if let Some(re) = parse_one(t@, pos as int) {
                decode_utf8_encode_utf8(re.0->RecSet_key);
                decode_utf8_encode_utf8(re.0->RecSet_value);
            }
        }
        Ok((Command::SetCmd(SetArgs { key, value }), vp.1 + 2))
    } else if match_vec(t, pos, &rh) {
        let kp = match scan_string(t, pos + 14) {
            Ok(kp) => kp,
            Err(e) => {
                return Err(e);
            },
        };
        proof {
            lemma_scan_sound(t@, pos + 14, kp.0@, kp.1 as int);
        }
        if !(kp.1 < tlen && kp.1 + 1 < tlen && t[kp.1] == 125 && t[kp.1 + 1] == 125) {
            proof {
                if match_at(t@, kp.1 as int, obj_tail()) {
                    assert(t@.subrange(kp.1 as int, kp.1 + 2)[0] == obj_tail()[0]);
                    assert(t@.subrange(kp.1 as int, kp.1 + 2)[1] == obj_tail()[1]);
                }
            }
            return Err(KvsError::SerializationError);
        }
        proof {
            assert(t@.subrange(kp.1 as int, kp.1 + 2) =~= obj_tail());
        }
        let key = match bytes_to_string(kp.0) {
            Ok(s) => s,
            Err(_) => {
                return Err(KvsError::SerializationError);
            },
        };
        proof {
            if let Some(re) = parse_one(t@, pos as int) {
                decode_utf8_encode_utf8(re.0->RecRm_key);
            }
        }
        Ok((Command::Rm(RmArgs { key }), kp.1 + 2))
    } else if match_vec(t, pos, &gh) {
        let kp = match scan_string(t, pos + 15) {
            Ok(kp) => kp,
            Err(e) => {
                return Err(e);
            },
        };
        proof {
            lemma_scan_sound(t@, pos + 15, kp.0@, kp.1 as int);
        }
        if !(kp.1 < tlen && kp.1 + 1 < tlen && t[kp.1] == 125 && t[kp.1 + 1] == 125) {
            proof {
                if match_at(t@, kp.1 as int, obj_tail()) {
                    assert(t@.subrange(kp.1 as int, kp.1 + 2)[0] == obj_tail()[0]);
                    assert(t@.subrange(kp.1 as int, kp.1 + 2)[1] == obj_tail()[1]);
                }
            }
            return Err(KvsError::SerializationError);
        }
        proof {
            assert(t@.subrange(kp.1 as int, kp.1 + 2) =~= obj_tail());
        }
        let key = match bytes_to_string(kp.0) {
            Ok(s) => s,
            Err(_) => {
                return Err(KvsError::SerializationError);
            },
        };
        proof {
            if let Some(re) = parse_one(t@, pos as int) {
                decode_utf8_encode_utf8(re.0->RecGet_key);
            }
        }
        Ok((Command::Get(GetArgs { key }), kp.1 + 2))
    } else {
        Err(KvsError::SerializationError)
    }
}

} // verus!
