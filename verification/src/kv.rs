//! The storage engine: an append-only log split across numbered segments,
//! an in-memory index from each live key to its latest record, and
//! compaction that rewrites live records once enough bytes are stale.
//!
//! The engine holds the directory's contents in memory as plain byte
//! vectors, one per `<id>.log` segment; unverified callers read those
//! vectors from and persist them to the real files.  The abstract state is
//! the map from live keys to their values (`self@`); every public
//! operation's contract says exactly how it changes that map.

use vstd::prelude::*;
use vstd::utf8::*;
use crate::codec::{
    lemma_parse_ext,
    enc, lemma_parse_all_push, lemma_parse_of_enc, lemma_parse_sound, parse_all, parse_one,
    decode_record, encode_command, parse_all_from, rec_of, rec_utf8, LogRecord,
};
use crate::commands::{Command, RmArgs, SetArgs};
use crate::errors::KvsError;
use crate::log_pointer::LogPointer;
use crate::reader::BufReaderWithPos;
use crate::writer::BufWriterWithPos;

verus! {

/// Compaction runs once more than this many stale bytes sit in the log.
pub const COMPACTION_THRESHOLD: u64 = 1048576;

/// One segment: the decimal stem of its `<id>.log` file name and its full
/// contents.
#[derive(Debug)]
pub struct LogFile {
    /// The segment id.
    pub id: u64,
    /// The segment's bytes: a concatenation of encoded records.
    pub data: Vec<u8>,
}

/// Looks a segment's contents up by id in a directory listing.
pub open spec fn seg_lookup(d: Seq<(u64, Seq<u8>)>, id: u64) -> Option<Seq<u8>>
    decreases d.len(),
{
    if d.len() == 0 {
        None
    } else if d[0].0 == id {
        Some(d[0].1)
    } else {
        seg_lookup(d.drop_first(), id)
    }
}

/// Total number of bytes a directory holds.
pub open spec fn total_of(d: Seq<(u64, Seq<u8>)>) -> int
    decreases d.len(),
{
    if d.len() == 0 {
        0
    } else {
        total_of(d.drop_last()) + d.last().1.len()
    }
}

/// Segment ids strictly increase across a directory listing.
pub open spec fn ids_ascending(d: Seq<(u64, Seq<u8>)>) -> bool {
    forall|i: int, j: int| 0 <= i < j < d.len() ==> d[i].0 < d[j].0
}

/// The mapping an index (a list of key/pointer entries, later entries
/// winning) denotes.
pub open spec fn ptr_map(s: Seq<(String, LogPointer)>) -> Map<Seq<char>, LogPointer>
    decreases s.len(),
{
    if s.len() == 0 {
        Map::empty()
    } else {
        ptr_map(s.drop_last()).insert(s.last().0@, s.last().1)
    }
}

/// No two index entries name the same key.
pub open spec fn keys_unique(s: Seq<(String, LogPointer)>) -> bool {
    forall|i: int, j: int| 0 <= i < j < s.len() ==> s[i].0@ != s[j].0@
}

/// The number of live bytes: the sum of the lengths the index's pointers
/// name.
pub open spec fn live_sum(s: Seq<(String, LogPointer)>) -> int
    decreases s.len(),
{
    if s.len() == 0 {
        0
    } else {
        live_sum(s.drop_last()) + s.last().1.len
    }
}

/// A record the engine may replay from a log: a `Set` or `Remove` whose
/// strings are valid UTF-8.
pub open spec fn log_rec_ok(r: LogRecord) -> bool {
    rec_utf8(r) && !(r is RecGet)
}

/// A segment the engine accepts: it parses completely into records it may
/// replay.
pub open spec fn seg_ok(t: Seq<u8>) -> bool {
    parse_all(t) matches Some(rs) && (forall|i: int| 0 <= i < rs.len() ==> log_rec_ok(rs[i]))
}

/// The records of a whole directory, in segment order.
pub open spec fn dir_recs(d: Seq<(u64, Seq<u8>)>) -> Seq<LogRecord>
    decreases d.len(),
{
    if d.len() == 0 {
        Seq::empty()
    } else {
        dir_recs(d.drop_last()) + recs_of(d.last().1)
    }
}

/// The records one segment parses to (empty when it does not parse).
pub open spec fn recs_of(t: Seq<u8>) -> Seq<LogRecord> {
    if parse_all(t) is Some {
        parse_all(t)->0
    } else {
        Seq::empty()
    }
}

/// One replay step: a `Set` binds, a `Remove` erases, anything else is
/// ignored.
pub open spec fn apply_rec(
    m: Map<Seq<char>, Seq<char>>,
    r: LogRecord,
) -> Map<Seq<char>, Seq<char>> {
    match r {
        LogRecord::RecSet { key, value } => m.insert(decode_utf8(key), decode_utf8(value)),
        LogRecord::RecRm { key } => m.remove(decode_utf8(key)),
        LogRecord::RecGet { key } => m,
    }
}

/// Replaying a record sequence over a starting map.
pub open spec fn replay(m: Map<Seq<char>, Seq<char>>, rs: Seq<LogRecord>) -> Map<
    Seq<char>,
    Seq<char>,
>
    decreases rs.len(),
{
    if rs.len() == 0 {
        m
    } else {
        replay(apply_rec(m, rs[0]), rs.drop_first())
    }
}

/// The map a directory's records replay to, starting from nothing: what a
/// fresh `open` of that directory yields.
pub open spec fn replay_dir(d: Seq<(u64, Seq<u8>)>) -> Map<Seq<char>, Seq<char>> {
    replay(Map::empty(), dir_recs(d))
}

/// The value the record at pointer `p` carries in directory `d`.
pub open spec fn value_in(d: Seq<(u64, Seq<u8>)>, p: LogPointer) -> Seq<char> {
    match seg_lookup(d, p.log_file_id) {
        Some(t) => match parse_one(t, p.start_position as int) {
            Some(re) => match re.0 {
                LogRecord::RecSet { key, value } => decode_utf8(value),
                _ => Seq::empty(),
            },
            None => Seq::empty(),
        },
        None => Seq::empty(),
    }
}

/// A pointer is sound for a key in directory `d`: it names a present
/// segment, and exactly one `Set` record for that key sits in the pointed
/// range.
pub open spec fn ptr_sound(d: Seq<(u64, Seq<u8>)>, k: String, p: LogPointer) -> bool {
    seg_lookup(d, p.log_file_id) matches Some(t) && (parse_one(
        t,
        p.start_position as int,
    ) matches Some(re) && re.1 == p.start_position + p.len && (re.0 matches LogRecord::RecSet {
        key,
        value,
    } && key == encode_utf8(k@) && valid_utf8(value)))
}

/// Every segment of the directory parses into replayable records.
pub open spec fn dir_ok(d: Seq<(u64, Seq<u8>)>) -> bool {
    forall|i: int| 0 <= i < d.len() ==> seg_ok(#[trigger] d[i].1)
}

/// The id/contents pairs a list of segment files stands for.
pub open spec fn files_view(files: Seq<LogFile>) -> Seq<(u64, Seq<u8>)> {
    files.map_values(|f: LogFile| (f.id, f.data@))
}

/// The `KvStore` stores string key/value pairs.
///
/// Pairs live in append-only numbered log segments; an in-memory map holds
/// each live key's latest record location, and a stale-byte counter drives
/// compaction.
pub struct KvStore {
    /// The closed segments, ids strictly ascending, every id below
    /// `current_log_id`.
    sealed: Vec<LogFile>,
    /// The writer on the active segment `<current_log_id>.log`.
    writer: BufWriterWithPos,
    /// Id of the active segment.
    current_log_id: u64,
    /// The index: each live key and the pointer to its latest `Set` record.
    index: Vec<(String, LogPointer)>,
    /// Bytes of records no pointer reaches any more; reclaimed by
    /// compaction.
    uncompacted: u64,
}

impl View for KvStore {
    type V = Map<Seq<char>, Seq<char>>;

    /// The abstract state: each live key bound to the value its pointer's
    /// record carries.
    closed spec fn view(&self) -> Map<Seq<char>, Seq<char>> {
        Map::new(
            |k: Seq<char>| ptr_map(self.index@).contains_key(k),
            |k: Seq<char>| self.value_at(ptr_map(self.index@)[k]),
        )
    }
}

impl KvStore {
    /// The directory this engine stands for: every sealed segment, then the
    /// active one.
    pub closed spec fn dir(self) -> Seq<(u64, Seq<u8>)> {
        self.sealed@.map_values(|f: LogFile| (f.id, f.data@)).push(
            (self.current_log_id, self.writer@),
        )
    }

    /// The id of the active segment.
    pub closed spec fn active_id(self) -> u64 {
        self.current_log_id
    }

    /// The stale-byte count.
    pub closed spec fn stale(self) -> u64 {
        self.uncompacted
    }

    /// Total bytes the directory holds.
    pub open spec fn total_len(self) -> int {
        total_of(self.dir())
    }

    /// Bytes of live data: the summed lengths of the records the index
    /// points at.
    pub closed spec fn live_len(self) -> int {
        live_sum(self.index@)
    }

    /// The length of the record the index currently holds for `k`: what a
    /// `set` or `remove` of `k` makes stale (0 when `k` is not live).
    pub closed spec fn key_record_len(self, k: Seq<char>) -> int {
        if ptr_map(self.index@).contains_key(k) {
            ptr_map(self.index@)[k].len as int
        } else {
            0
        }
    }

    /// The value the record at pointer `p` carries.
    pub closed spec fn value_at(self, p: LogPointer) -> Seq<char> {
        value_in(self.dir(), p)
    }

    /// A pointer is sound for a key: it names a present segment, and
    /// exactly one `Set` record for that key sits in the pointed range.
    pub closed spec fn ptr_ok(self, k: String, p: LogPointer) -> bool {
        ptr_sound(self.dir(), k, p)
    }

    /// Index entry `j` is sound.
    pub closed spec fn entry_ok(self, j: int) -> bool {
        self.ptr_ok(self.index@[j].0, self.index@[j].1)
    }

    /// Replaying the directory from nothing yields exactly the engine's
    /// current map: what makes close-and-reopen lossless.
    #[verifier::opaque]
    pub closed spec fn replay_matches(self) -> bool {
        replay_dir(self.dir()) == self@
    }

    /// The engine's invariant, preserved by every public operation.
    pub closed spec fn wf(self) -> bool {
        &&& ids_ascending(self.dir())
        &&& self.writer.wf()
        &&& keys_unique(self.index@)
        &&& forall|j: int| 0 <= j < self.index@.len() ==> self.entry_ok(j)
        &&& forall|i: int| 0 <= i < self.dir().len() ==> seg_ok(#[trigger] self.dir()[i].1)
        &&& total_of(self.dir()) == live_sum(self.index@) + self.uncompacted
        &&& total_of(self.dir()) <= u64::MAX
        &&& self.replay_matches()
    }
}

// ---------------------------------------------------------------------------
// Facts about directory lookups and the index's mapping.
// ---------------------------------------------------------------------------

/// How a lookup behaves on a directory extended by one segment.
pub proof fn lemma_lookup_push(d: Seq<(u64, Seq<u8>)>, id: u64, t: Seq<u8>, q: u64)
    ensures
        seg_lookup(d.push((id, t)), q) == (if seg_lookup(d, q) is Some {
            seg_lookup(d, q)
        } else if q == id {
            Some(t)
        } else {
            None::<Seq<u8>>
        }),
    decreases d.len(),
{
    if d.len() == 0 {
        assert(d.push((id, t))[0] == (id, t));
        assert(d.push((id, t)).drop_first() =~= Seq::<(u64, Seq<u8>)>::empty());
    } else {
        assert(d.push((id, t))[0] == d[0]);
        assert(d.push((id, t)).drop_first() =~= d.drop_first().push((id, t)));
        lemma_lookup_push(d.drop_first(), id, t, q);
    }
}

/// An id no entry carries is not found.
pub proof fn lemma_lookup_none(d: Seq<(u64, Seq<u8>)>, q: u64)
    requires
        forall|i: int| 0 <= i < d.len() ==> d[i].0 != q,
    ensures
        seg_lookup(d, q) is None,
    decreases d.len(),
{
    if d.len() > 0 {
        lemma_lookup_none(d.drop_first(), q);
    }
}

/// With ascending ids, looking an entry's id up finds that entry.
pub proof fn lemma_lookup_in(d: Seq<(u64, Seq<u8>)>, i: int)
    requires
        ids_ascending(d),
        0 <= i < d.len(),
    ensures
        seg_lookup(d, d[i].0) == Some(d[i].1),
    decreases d.len(),
{
    if i > 0 {
        assert(d[0].0 != d[i].0);
        assert(ids_ascending(d.drop_first())) by {
            assert forall|x: int, y: int| 0 <= x < y < d.drop_first().len() implies d.drop_first()[x].0
                < d.drop_first()[y].0 by {
                assert(d[x + 1].0 < d[y + 1].0);
            }
        }
        lemma_lookup_in(d.drop_first(), i - 1);
    }
}

/// Which keys the index's mapping holds.
pub proof fn lemma_ptr_map_contains(s: Seq<(String, LogPointer)>, k: Seq<char>)
    ensures
        ptr_map(s).contains_key(k) <==> exists|j: int| 0 <= j < s.len() && s[j].0@ == k,
    decreases s.len(),
{
    if s.len() > 0 {
        lemma_ptr_map_contains(s.drop_last(), k);
        if ptr_map(s).contains_key(k) {
            if s.last().0@ != k {
                let j = choose|j: int| 0 <= j < s.drop_last().len() && s.drop_last()[j].0@ == k;
                assert(s[j].0@ == k);
            } else {
                assert(s[s.len() - 1].0@ == k);
            }
        }
        if exists|j: int| 0 <= j < s.len() && s[j].0@ == k {
            let j = choose|j: int| 0 <= j < s.len() && s[j].0@ == k;
            if j < s.len() - 1 {
                assert(s.drop_last()[j].0@ == k);
            }
        }
    }
}

/// With unique keys, the mapping sends each entry's key to its pointer.
pub proof fn lemma_ptr_map_get(s: Seq<(String, LogPointer)>, j: int)
    requires
        keys_unique(s),
        0 <= j < s.len(),
    ensures
        ptr_map(s).contains_key(s[j].0@),
        ptr_map(s)[s[j].0@] == s[j].1,
    decreases s.len(),
{
    if j < s.len() - 1 {
        assert(keys_unique(s.drop_last()));
        lemma_ptr_map_get(s.drop_last(), j);
        assert(s.last().0@ != s[j].0@);
    }
}

/// Removing entry `j` removes exactly its key from the mapping and its
/// pointer's length from the live byte count.
pub proof fn lemma_index_remove(s: Seq<(String, LogPointer)>, j: int)
    requires
        keys_unique(s),
        0 <= j < s.len(),
    ensures
        keys_unique(s.remove(j)),
        ptr_map(s.remove(j)) == ptr_map(s).remove(s[j].0@),
        live_sum(s.remove(j)) == live_sum(s) - s[j].1.len,
    decreases s.len(),
{
    let k = s[j].0@;
    if j == s.len() - 1 {
        assert(s.remove(j) =~= s.drop_last());
        lemma_ptr_map_contains(s.drop_last(), k);
        assert(ptr_map(s.drop_last()).insert(k, s[j].1).remove(k) =~= ptr_map(s.drop_last()));
    } else {
        assert(keys_unique(s.drop_last()));
        lemma_index_remove(s.drop_last(), j);
        assert(s.remove(j).drop_last() =~= s.drop_last().remove(j));
        assert(s.remove(j).last() == s.last());
        assert(ptr_map(s.remove(j)) == ptr_map(s.drop_last()).remove(k).insert(
            s.last().0@,
            s.last().1,
        ));
        assert(s.last().0@ != k);
        assert(ptr_map(s.drop_last()).remove(k).insert(s.last().0@, s.last().1) =~= ptr_map(
            s.drop_last(),
        ).insert(s.last().0@, s.last().1).remove(k));
        assert forall|a: int, b: int| 0 <= a < b < s.remove(j).len() implies s.remove(j)[a].0@ != s.remove(
            j,
        )[b].0@ by {
            let a2: int = if a < j {
                a
            } else {
                a + 1
            };
            let b2: int = if b < j {
                b
            } else {
                b + 1
            };
            assert(s[a2].0@ != s[b2].0@);
        }
    }
}

/// Replaying one more record applies it to the replayed map.
pub proof fn lemma_replay_snoc(m: Map<Seq<char>, Seq<char>>, rs: Seq<LogRecord>, r: LogRecord)
    ensures
        replay(m, rs.push(r)) == apply_rec(replay(m, rs), r),
    decreases rs.len(),
{
    if rs.len() == 0 {
        assert(rs.push(r)[0] == r);
        assert(rs.push(r).drop_first() =~= rs);
        assert(replay(m, rs.push(r)) == replay(apply_rec(m, r), rs));
    } else {
        assert(rs.push(r)[0] == rs[0]);
        assert(rs.push(r).drop_first() =~= rs.drop_first().push(r));
        assert(replay(m, rs.push(r)) == replay(apply_rec(m, rs[0]), rs.drop_first().push(r)));
        lemma_replay_snoc(apply_rec(m, rs[0]), rs.drop_first(), r);
        assert(replay(m, rs) == replay(apply_rec(m, rs[0]), rs.drop_first()));
    }
}

/// A directory's byte count only grows with a prefix.
pub proof fn lemma_total_take(d: Seq<(u64, Seq<u8>)>, i: int)
    requires
        0 <= i <= d.len(),
    ensures
        total_of(d) >= total_of(d.take(i)),
    decreases d.len(),
{
    if i == d.len() {
        assert(d.take(i) =~= d);
    } else {
        assert(d.drop_last().take(i) =~= d.take(i));
        lemma_total_take(d.drop_last(), i);
    }
}

/// The live byte count of a prefix of the index never exceeds the whole.
pub proof fn lemma_live_take(s: Seq<(String, LogPointer)>, i: int)
    requires
        0 <= i <= s.len(),
    ensures
        live_sum(s) >= live_sum(s.take(i)),
    decreases s.len(),
{
    if i == s.len() {
        assert(s.take(i) =~= s);
    } else {
        assert(s.drop_last().take(i) =~= s.take(i));
        lemma_live_take(s.drop_last(), i);
    }
}

/// What appending one record's encoding to the active segment does to the
/// directory: lookups elsewhere are untouched, the record list grows by the
/// record, and every segment still parses.
pub proof fn lemma_dir_append_active(d1: Seq<(u64, Seq<u8>)>, d2: Seq<(u64, Seq<u8>)>, r: LogRecord)
    requires
        d1.len() > 0,
        d2.len() == d1.len(),
        d2.drop_last() == d1.drop_last(),
        d2.last().0 == d1.last().0,
        d2.last().1 == d1.last().1 + enc(r),
        ids_ascending(d1),
        forall|i: int| 0 <= i < d1.len() ==> seg_ok(#[trigger] d1[i].1),
        log_rec_ok(r),
    ensures
        ids_ascending(d2),
        forall|q: u64|
            #[trigger] seg_lookup(d2, q) == (if q == d1.last().0 {
                Some(d2.last().1)
            } else {
                seg_lookup(d1, q)
            }),
        dir_recs(d2) == dir_recs(d1).push(r),
        total_of(d2) == total_of(d1) + enc(r).len(),
        forall|i: int| 0 <= i < d2.len() ==> seg_ok(#[trigger] d2[i].1),
{
    let n = d1.len() as int;
    let cur = d1.last().0;
    assert forall|i: int| 0 <= i < n implies d2[i].0 == d1[i].0 by {
        if i < n - 1 {
            assert(d2.drop_last()[i] == d1.drop_last()[i]);
        }
    }
    assert(ids_ascending(d2));
    assert(d1 =~= d1.drop_last().push(d1.last()));
    assert(d2 =~= d1.drop_last().push(d2.last()));
    assert forall|q: u64|
        #[trigger] seg_lookup(d2, q) == (if q == cur {
            Some(d2.last().1)
        } else {
            seg_lookup(d1, q)
        }) by {
        lemma_lookup_push(d1.drop_last(), d1.last().0, d1.last().1, q);
        lemma_lookup_push(d1.drop_last(), d2.last().0, d2.last().1, q);
        if q == cur {
            assert forall|i: int| 0 <= i < n - 1 implies d1.drop_last()[i].0 != q by {
                assert(d1[i].0 < d1[n - 1].0);
            }
            lemma_lookup_none(d1.drop_last(), q);
        }
    }
    let rs = parse_all(d1.last().1)->0;
    lemma_parse_all_push(d1.last().1, 0, rs, r);
    assert(recs_of(d2.last().1) == rs.push(r));
    assert(dir_recs(d2) == dir_recs(d2.drop_last()) + rs.push(r));
    assert(dir_recs(d1.drop_last()) + rs.push(r) =~= (dir_recs(d1.drop_last()) + rs).push(r));
    assert(dir_recs(d2) == dir_recs(d1).push(r));
    assert(total_of(d2) == total_of(d1) + enc(r).len());
    assert forall|i: int| 0 <= i < d2.len() implies seg_ok(#[trigger] d2[i].1) by {
        if i < n - 1 {
            assert(d2[i].1 == d1[i].1);
        } else {
            assert(forall|x: int|
                0 <= x < rs.push(r).len() ==> log_rec_ok(#[trigger] rs.push(r)[x]));
        }
    }
}

/// A directory never holds a negative number of bytes.
pub proof fn lemma_total_nonneg(d: Seq<(u64, Seq<u8>)>)
    ensures
        total_of(d) >= 0,
    decreases d.len(),
{
    if d.len() > 0 {
        lemma_total_nonneg(d.drop_last());
    }
}

/// An index never names a negative number of live bytes.
pub proof fn lemma_live_nonneg(s: Seq<(String, LogPointer)>)
    ensures
        live_sum(s) >= 0,
    decreases s.len(),
{
    if s.len() > 0 {
        lemma_live_nonneg(s.drop_last());
    }
}

/// The record a `set` of this key and value appends to the log.
pub open spec fn set_rec(key: Seq<char>, value: Seq<char>) -> LogRecord {
    LogRecord::RecSet { key: encode_utf8(key), value: encode_utf8(value) }
}

/// The tombstone a `remove` of this key appends to the log.
pub open spec fn rm_rec(key: Seq<char>) -> LogRecord {
    LogRecord::RecRm { key: encode_utf8(key) }
}

/// Directory `d2` is `d1` with one record's encoding appended to its last
/// (the active) segment; nothing else moved.
pub open spec fn appended_rec(
    d1: Seq<(u64, Seq<u8>)>,
    d2: Seq<(u64, Seq<u8>)>,
    r: LogRecord,
) -> bool {
    &&& d1.len() > 0
    &&& d2.len() == d1.len()
    &&& d2.drop_last() == d1.drop_last()
    &&& d2.last().0 == d1.last().0
    &&& d2.last().1 == d1.last().1 + enc(r)
}

/// What the invariant gives every caller: the space-accounting identity
/// and the directory facts needed to hand `directory()` back to `open`.
pub proof fn lemma_wf_accounting(e: KvStore)
    requires
        e.wf(),
    ensures
        e.total_len() == e.live_len() + e.stale(),
        0 <= e.total_len() <= u64::MAX,
        e.live_len() >= 0,
        ids_ascending(e.dir()),
        e.dir().len() > 0,
        e.dir().last().0 == e.active_id(),
{
    lemma_live_nonneg(e.index@);
    lemma_total_nonneg(e.dir());
}

// ---------------------------------------------------------------------------
// Discovering segments: which directory entries are `<id>.log` files.
// ---------------------------------------------------------------------------

/// The characters of the `.log` extension.
pub open spec fn log_suffix() -> Seq<char> {
    seq!['.', 'l', 'o', 'g']
}

/// The stem of a file name: the name with every trailing `.log` removed.
pub open spec fn log_stem(name: Seq<char>) -> Seq<char>
    decreases name.len(),
{
    if name.len() >= 4 && name.subrange(name.len() - 4, name.len() as int) == log_suffix() {
        log_stem(name.subrange(0, name.len() - 4))
    } else {
        name
    }
}

/// Whether every character is a decimal digit.
pub open spec fn all_digits(s: Seq<char>) -> bool {
    forall|i: int| 0 <= i < s.len() ==> 48 <= (#[trigger] s[i]) as int <= 57
}

/// The number a string of decimal digits spells.
pub open spec fn digits_val(s: Seq<char>) -> int
    decreases s.len(),
{
    if s.len() == 0 {
        0
    } else {
        digits_val(s.drop_last()) * 10 + (s.last() as int - 48)
    }
}

/// The segment id a directory entry's name denotes: the name must end in
/// `.log` and its stem must spell an unsigned 64-bit decimal integer.
/// Anything else is not a segment file.
pub open spec fn parse_log_name(name: Seq<char>) -> Option<u64> {
    if name.len() >= 4 && name.subrange(name.len() - 4, name.len() as int) == log_suffix()
        && all_digits(log_stem(name)) && log_stem(name).len() > 0 && digits_val(log_stem(name))
        <= u64::MAX {
        Some(digits_val(log_stem(name)) as u64)
    } else {
        None
    }
}

/// A digit string's value only grows as digits are appended.
proof fn lemma_digits_prefix(s: Seq<char>, i: int)
    requires
        all_digits(s),
        0 <= i <= s.len(),
    ensures
        digits_val(s) >= digits_val(s.take(i)) >= 0,
    decreases s.len() - i,
{
    if i == s.len() {
        assert(s.take(i) =~= s);
        lemma_digits_nonneg(s);
    } else {
        lemma_digits_prefix(s, i + 1);
        assert(s.take(i + 1).drop_last() =~= s.take(i));
        lemma_digits_nonneg(s.take(i));
    }
}

/// A digit string's value is never negative.
proof fn lemma_digits_nonneg(s: Seq<char>)
    requires
        all_digits(s),
    ensures
        digits_val(s) >= 0,
    decreases s.len(),
{
    if s.len() > 0 {
        assert(all_digits(s.drop_last()));
        lemma_digits_nonneg(s.drop_last());
    }
}

/// The id a file name denotes, when it names a segment file.
pub fn parse_log_file_id(name: &String) -> (r: Option<u64>)
    ensures
        r == parse_log_name(name@),
{
    let s = name.as_str();
    let n = s.unicode_len();
    // strip every trailing `.log`
    let mut e: usize = n;
    let mut stripped = false;
    proof {
        assert(name@.subrange(0, n as int) =~= name@);
    }
    while e >= 4 && s.get_char(e - 4) == '.' && s.get_char(e - 3) == 'l' && s.get_char(e - 2)
        == 'o' && s.get_char(e - 1) == 'g'
        invariant
            s@ == name@,
            e <= n,
            n == name@.len(),
            log_stem(name@) == log_stem(name@.subrange(0, e as int)),
            stripped <==> e < n,
            e < n ==> (name@.len() >= 4 && name@.subrange(name@.len() - 4, name@.len() as int)
                == log_suffix()),
        decreases e,
    {
        proof {
            let cur = name@.subrange(0, e as int);
            assert(cur.subrange(e - 4, e as int) =~= log_suffix());
            assert(cur.subrange(0, e - 4) =~= name@.subrange(0, e - 4));
            if e == n {
                assert(name@.subrange(name@.len() - 4, name@.len() as int) =~= log_suffix());
            }
        }
        e = e - 4;
        stripped = true;
    }
    if !stripped {
        proof {
            if name@.len() >= 4 && name@.subrange(name@.len() - 4, name@.len() as int)
                == log_suffix() {
                assert(false);
            }
        }
        return None;
    }
    if e == 0 {
        proof {
            assert(log_stem(name@) =~= Seq::<char>::empty());
        }
        return None;
    }
    let ghost stem = log_stem(name@);
    proof {
        assert(stem =~= name@.subrange(0, e as int));
    }
    // the stem must spell a decimal number that fits
    let mut val: u64 = 0;
    let mut i: usize = 0;
    while i < e
        invariant
            s@ == name@,
            i <= e,
            e <= n,
            n == name@.len(),
            stem == log_stem(name@),
            stem == name@.subrange(0, e as int),
            all_digits(stem.take(i as int)),
            val == digits_val(stem.take(i as int)),
        decreases e - i,
    {
        let c = s.get_char(i);
        let cu = c as u32;
        proof {
            assert(stem[i as int] == name@[i as int]);
            assert(stem.take(i + 1).drop_last() =~= stem.take(i as int));
            assert(stem.take(i + 1).last() == stem[i as int]);
        }
        if cu < 48 || cu > 57 {
            proof {
                assert(!all_digits(stem));
            }
            return None;
        }
        let d = (cu - 48) as u64;
        let next = match val.checked_mul(10) {
            Some(m) => m.checked_add(d),
            None => None,
        };
        match next {
            Some(v) => {
                val = v;
            },
            None => {
                proof {
                    assert(all_digits(stem.take(i + 1)));
                    assert(digits_val(stem.take(i + 1)) > u64::MAX);
                    if all_digits(stem) {
                        lemma_digits_prefix(stem, i + 1);
                    }
                }
                return None;
            },
        }
        i = i + 1;
    }
    proof {
        assert(stem.take(e as int) =~= stem);
    }
    Some(val)
}

/// The distinct ids of the segment files among the given directory entry
/// names, in ascending order: which `<id>.log` files a directory holds.
/// Names that are not segment files are dropped silently.
pub fn sort_log_files(names: &Vec<String>) -> (ids: Vec<u64>)
    ensures
        forall|a: int, b: int| 0 <= a < b < ids@.len() ==> ids@[a] < ids@[b],
        forall|v: u64|
            #[trigger] ids@.contains(v) <==> (exists|j: int|
                0 <= j < names@.len() && parse_log_name(#[trigger] names@[j]@) == Some(v)),
{
    let mut ids: Vec<u64> = Vec::new();
    let mut j: usize = 0;
    while j < names.len()
        invariant
            j <= names@.len(),
            forall|a: int, b: int| 0 <= a < b < ids@.len() ==> ids@[a] < ids@[b],
            forall|v: u64|
                #[trigger] ids@.contains(v) <==> (exists|x: int|
                    0 <= x < j && parse_log_name(#[trigger] names@[x]@) == Some(v)),
        decreases names@.len() - j,
    {
        match parse_log_file_id(&names[j]) {
            Some(id) => {
                insert_sorted(&mut ids, id);
                proof {
                    assert(parse_log_name(names@[j as int]@) == Some(id));
                    assert forall|v: u64| #[trigger] ids@.contains(v) implies (exists|x: int|
                        0 <= x < j + 1 && parse_log_name(#[trigger] names@[x]@) == Some(v)) by {
                        if v == id {
                            assert(parse_log_name(names@[j as int]@) == Some(v));
                        }
                    }
                }
            },
            None => {},
        }
        j = j + 1;
    }
    ids
}

/// Inserts `id` into an ascending list of distinct ids, keeping it
/// ascending and distinct.
fn insert_sorted(ids: &mut Vec<u64>, id: u64)
    requires
        forall|a: int, b: int| 0 <= a < b < old(ids)@.len() ==> old(ids)@[a] < old(ids)@[b],
    ensures
        forall|a: int, b: int| 0 <= a < b < final(ids)@.len() ==> final(ids)@[a] < final(ids)@[b],
        forall|v: u64| final(ids)@.contains(v) <==> (old(ids)@.contains(v) || v == id),
{
    let mut pos: usize = 0;
    while pos < ids.len() && ids[pos] < id
        invariant
            pos <= ids@.len(),
            forall|x: int| 0 <= x < pos ==> ids@[x] < id,
            *ids == *old(ids),
        decreases ids@.len() - pos,
    {
        pos = pos + 1;
    }
    if pos < ids.len() && ids[pos] == id {
        proof {
            assert(ids@.contains(id)) by {
                assert(ids@[pos as int] == id);
            }
        }
        return ;
    }
    let ghost ids0 = ids@;
    ids.insert(pos, id);
    proof {
        assert forall|a: int, b: int| 0 <= a < b < ids@.len() implies ids@[a] < ids@[b] by {
            if b < pos {
                assert(ids0[a] < ids0[b]);
            } else if a > pos {
                assert(ids0[a - 1] < ids0[b - 1]);
            } else if a < pos && b == pos {
                assert(ids0[a] < id);
            } else if a == pos && b > pos {
                assert(ids@[b] == ids0[b - 1]);
                if pos < ids0.len() {
                    if b - 1 > pos {
                        assert(ids0[pos as int] < ids0[b - 1]);
                    }
                    assert(id < ids0[pos as int] || id == ids0[pos as int]
                        || id > ids0[pos as int]);
                }
            } else if a < pos && b > pos {
                assert(ids0[a] < id);
                assert(ids@[b] == ids0[b - 1]);
                if pos < ids0.len() && b - 1 > pos {
                    assert(ids0[pos as int] < ids0[b - 1]);
                }
            }
        }
        assert forall|v: u64| ids@.contains(v) implies (ids0.contains(v) || v == id) by {
            let x = choose|x: int| 0 <= x < ids@.len() && ids@[x] == v;
            if x < pos {
                assert(ids0[x] == v);
            } else if x > pos {
                assert(ids0[x - 1] == v);
            }
        }
        assert(ids@.contains(id)) by {
            assert(ids@[pos as int] == id);
        }
        assert forall|v: u64| #[trigger] ids0.contains(v) implies ids@.contains(v) by {
            let x = choose|x: int| 0 <= x < ids0.len() && ids0[x] == v;
            if x < pos {
                assert(ids@[x] == v);
            } else {
                assert(ids@[x + 1] == v);
            }
        }
    }
}

// ---------------------------------------------------------------------------
// The laws the engine obeys, stated over the same views its contracts use.
// ---------------------------------------------------------------------------

/// One mutation of the store, as an abstract event.
pub enum KvOp {
    /// Bind `key` to `value`.
    OpSet { key: Seq<char>, value: Seq<char> },
    /// Erase `key`.
    OpRm { key: Seq<char> },
}

/// What a sequence of mutations does to the abstract map: exactly what the
/// contracts of `set` and `remove` say each one does.
pub open spec fn apply_ops(m: Map<Seq<char>, Seq<char>>, ops: Seq<KvOp>) -> Map<
    Seq<char>,
    Seq<char>,
>
    decreases ops.len(),
{
    if ops.len() == 0 {
        m
    } else {
        match ops.last() {
            KvOp::OpSet { key, value } => apply_ops(m, ops.drop_last()).insert(key, value),
            KvOp::OpRm { key } => apply_ops(m, ops.drop_last()).remove(key),
        }
    }
}

/// The fate of one key under a sequence of mutations: bound to the last
/// value set for it, erased, or untouched.
pub open spec fn last_write(ops: Seq<KvOp>, k: Seq<char>) -> Option<Option<Seq<char>>>
    decreases ops.len(),
{
    if ops.len() == 0 {
        None
    } else {
        match ops.last() {
            KvOp::OpSet { key, value } => if key == k {
                Some(Some(value))
            } else {
                last_write(ops.drop_last(), k)
            },
            KvOp::OpRm { key } => if key == k {
                Some(None)
            } else {
                last_write(ops.drop_last(), k)
            },
        }
    }
}

/// After any sequence of mutations, a key set last to `v` reads as `v`, a
/// key erased last reads as absent, and an untouched key reads as before:
/// reads observe the effects of all prior writes.
pub proof fn lemma_last_write_wins(m: Map<Seq<char>, Seq<char>>, ops: Seq<KvOp>, k: Seq<char>)
    ensures
        match last_write(ops, k) {
            Some(Some(v)) => apply_ops(m, ops).contains_key(k) && apply_ops(m, ops)[k] == v,
            Some(None) => !apply_ops(m, ops).contains_key(k),
            None => apply_ops(m, ops).contains_key(k) == m.contains_key(k) && (m.contains_key(k)
                ==> apply_ops(m, ops)[k] == m[k]),
        },
    decreases ops.len(),
{
    if ops.len() > 0 {
        lemma_last_write_wins(m, ops.drop_last(), k);
    }
}

/// Binding a key and reading it back yields that value.
pub proof fn lemma_set_get(m: Map<Seq<char>, Seq<char>>, k: Seq<char>, v: Seq<char>)
    ensures
        m.insert(k, v).contains_key(k),
        m.insert(k, v)[k] == v,
{
}

/// Binding a key twice keeps only the later value.
pub proof fn lemma_set_set_get(
    m: Map<Seq<char>, Seq<char>>,
    k: Seq<char>,
    v1: Seq<char>,
    v2: Seq<char>,
)
    ensures
        m.insert(k, v1).insert(k, v2)[k] == v2,
        m.insert(k, v1).insert(k, v2) == m.insert(k, v2),
{
    assert(m.insert(k, v1).insert(k, v2) =~= m.insert(k, v2));
}

/// Binding a key and then erasing it leaves it absent.
pub proof fn lemma_set_remove_get(m: Map<Seq<char>, Seq<char>>, k: Seq<char>, v: Seq<char>)
    ensures
        !m.insert(k, v).remove(k).contains_key(k),
{
}

/// The log never outgrows the live data by more than the compaction
/// threshold: once the stale count is at or under the threshold (as it is
/// after every `set`, `remove` and `compact`), the whole directory fits in
/// the live bytes plus the threshold.
pub proof fn lemma_bounded_size(e: KvStore)
    requires
        e.wf(),
        e.stale() <= COMPACTION_THRESHOLD,
    ensures
        e.total_len() <= e.live_len() + COMPACTION_THRESHOLD,
{
}

/// Close-and-reopen is lossless: a well-formed engine's directory parses,
/// and replaying it from nothing (which is what `open` does) rebuilds
/// exactly the engine's current map.
pub proof fn lemma_reopen(e: KvStore)
    requires
        e.wf(),
    ensures
        dir_ok(e.dir()),
        replay_dir(e.dir()) == e@,
{
    reveal(KvStore::replay_matches);
}

// ---------------------------------------------------------------------------
// Small executable helpers.
// ---------------------------------------------------------------------------

/// Copies `src[start..end]` into a fresh vector.
fn slice_range(src: &Vec<u8>, start: usize, end: usize) -> (out: Vec<u8>)
    requires
        start <= end <= src@.len(),
    ensures
        out@ == src@.subrange(start as int, end as int),
{
    let mut out: Vec<u8> = Vec::new();
    let mut i: usize = start;
    while i < end
        invariant
            start <= i <= end <= src@.len(),
            out@ == src@.subrange(start as int, i as int),
        decreases end - i,
    {
        out.push(src[i]);
        proof {
            assert(src@.subrange(start as int, i + 1) =~= src@.subrange(start as int, i as int).push(
                src@[i as int],
            ));
        }
        i = i + 1;
    }
    out
}

/// The per-key record lengths a record sequence replays to: each live
/// key's latest `Set` record length, exactly what the index's pointers
/// span.
pub open spec fn acct_lens(rs: Seq<LogRecord>) -> Map<Seq<char>, int>
    decreases rs.len(),
{
    if rs.len() == 0 {
        Map::empty()
    } else {
        match rs.last() {
            LogRecord::RecSet { key, value } => acct_lens(rs.drop_last()).insert(
                decode_utf8(key),
                enc(rs.last()).len() as int,
            ),
            LogRecord::RecRm { key } => acct_lens(rs.drop_last()).remove(decode_utf8(key)),
            LogRecord::RecGet { key } => acct_lens(rs.drop_last()),
        }
    }
}

/// The stale bytes a record sequence replays to: every displaced record's
/// length plus every tombstone's own length.
pub open spec fn acct_stale(rs: Seq<LogRecord>) -> int
    decreases rs.len(),
{
    if rs.len() == 0 {
        0
    } else {
        let prior = acct_lens(rs.drop_last());
        acct_stale(rs.drop_last()) + (match rs.last() {
            LogRecord::RecSet { key, value } => if prior.contains_key(decode_utf8(key)) {
                prior[decode_utf8(key)]
            } else {
                0
            },
            LogRecord::RecRm { key } => (if prior.contains_key(decode_utf8(key)) {
                prior[decode_utf8(key)]
            } else {
                0
            }) + enc(rs.last()).len(),
            LogRecord::RecGet { key } => 0,
        })
    }
}

/// What recovery has established after replaying some records over a fixed
/// directory `d`: the index is a one-entry-per-key list of sound pointers,
/// the replayed records denote exactly the index's map, and every byte
/// consumed so far is either live or stale.
pub open spec fn recovery_ok(
    d: Seq<(u64, Seq<u8>)>,
    recs: Seq<LogRecord>,
    ix: Seq<(String, LogPointer)>,
    unc: u64,
    consumed: int,
) -> bool {
    &&& keys_unique(ix)
    &&& (forall|x: int| 0 <= x < ix.len() ==> ptr_sound(d, #[trigger] ix[x].0, ix[x].1))
    &&& replay(Map::empty(), recs) == Map::new(
        |k: Seq<char>| ptr_map(ix).contains_key(k),
        |k: Seq<char>| value_in(d, ptr_map(ix)[k]),
    )
    &&& (forall|k: Seq<char>| #[trigger] acct_lens(recs).contains_key(k) <==> ptr_map(
        ix,
    ).contains_key(k))
    &&& (forall|k: Seq<char>| #[trigger] ptr_map(ix).contains_key(k) ==> acct_lens(recs)[k]
        == ptr_map(ix)[k].len)
    &&& unc == acct_stale(recs)
    &&& consumed == live_sum(ix) + unc
}

/// A recovery state is untouched by listing one more segment whose id is
/// fresh: no pointer names it, so nothing a pointer means changes.
pub proof fn lemma_recovery_push_seg(
    d: Seq<(u64, Seq<u8>)>,
    id: u64,
    t: Seq<u8>,
    recs: Seq<LogRecord>,
    ix: Seq<(String, LogPointer)>,
    unc: u64,
    consumed: int,
)
    requires
        recovery_ok(d, recs, ix, unc, consumed),
    ensures
        forall|x: int| 0 <= x < ix.len() ==> ptr_sound(d.push((id, t)), #[trigger] ix[x].0, ix[x].1),
        recovery_ok(d.push((id, t)), recs, ix, unc, consumed),
{
    let d2 = d.push((id, t));
    assert forall|x: int| 0 <= x < ix.len() implies ptr_sound(d2, #[trigger] ix[x].0, ix[x].1) by {
        lemma_lookup_push(d, id, t, ix[x].1.log_file_id);
    }
    assert(Map::new(
        |k: Seq<char>| ptr_map(ix).contains_key(k),
        |k: Seq<char>| value_in(d, ptr_map(ix)[k]),
    ) =~= Map::new(
        |k: Seq<char>| ptr_map(ix).contains_key(k),
        |k: Seq<char>| value_in(d2, ptr_map(ix)[k]),
    )) by {
        assert forall|k: Seq<char>| ptr_map(ix).contains_key(k) implies value_in(
            d2,
            ptr_map(ix)[k],
        ) == value_in(d, ptr_map(ix)[k]) by {
            lemma_ptr_map_contains(ix, k);
            let x = choose|x: int| 0 <= x < ix.len() && ix[x].0@ == k;
            lemma_ptr_map_get(ix, x);
            lemma_lookup_push(d, id, t, ix[x].1.log_file_id);
        }
    }
}

/// How one index update (move the key's entry to the end, pointing at
/// `ptr`) changes the index's mapping and live byte count.
pub proof fn lemma_index_update(
    ix0: Seq<(String, LogPointer)>,
    mid: Seq<(String, LogPointer)>,
    ix1: Seq<(String, LogPointer)>,
    disp: Option<LogPointer>,
    disp_j: int,
    keyv: Seq<char>,
    ptr: LogPointer,
)
    requires
        keys_unique(ix0),
        ix1.len() == mid.len() + 1,
        ix1.drop_last() == mid,
        ix1.last().0@ == keyv,
        ix1.last().1 == ptr,
        match disp {
            Some(op) => 0 <= disp_j < ix0.len() && ix0[disp_j].0@ == keyv && mid == ix0.remove(
                disp_j,
            ) && op == ix0[disp_j].1,
            None => mid == ix0 && (forall|x: int| 0 <= x < ix0.len() ==> ix0[x].0@ != keyv),
        },
    ensures
        keys_unique(ix1),
        ptr_map(ix1) == ptr_map(mid).insert(keyv, ptr),
        live_sum(ix1) == live_sum(mid) + ptr.len,
        forall|x: int|
            0 <= x < mid.len() ==> #[trigger] mid[x] == (match disp {
                Some(op) => ix0[if x < disp_j {
                    x
                } else {
                    x + 1
                }],
                None => ix0[x],
            }),
        match disp {
            Some(op) => ptr_map(mid) == ptr_map(ix0).remove(keyv) && live_sum(mid) == live_sum(ix0)
                - op.len,
            None => ptr_map(mid) == ptr_map(ix0) && !ptr_map(mid).contains_key(keyv) && live_sum(
                mid,
            ) == live_sum(ix0),
        },
{
    if let Some(op) = disp {
        lemma_ptr_map_get(ix0, disp_j);
        lemma_index_remove(ix0, disp_j);
    } else {
        lemma_ptr_map_contains(ix0, keyv);
    }
    assert forall|x: int|
        0 <= x < mid.len() implies #[trigger] mid[x] == (match disp {
        Some(op) => ix0[if x < disp_j {
            x
        } else {
            x + 1
        }],
        None => ix0[x],
    }) by {
        if disp is Some {
            let y: int = if x < disp_j {
                x
            } else {
                x + 1
            };
            assert(ix0.remove(disp_j)[x] == ix0[y]);
        }
    }
    assert forall|a: int, b: int| 0 <= a < b < ix1.len() implies ix1[a].0@ != ix1[b].0@ by {
        if b < ix1.len() - 1 {
            assert(mid[a].0@ != mid[b].0@);
        } else {
            if disp is Some {
                let y: int = if a < disp_j {
                    a
                } else {
                    a + 1
                };
                assert(ix0.remove(disp_j)[a] == ix0[y]);
                assert(ix0[y].0@ != ix0[disp_j].0@);
            } else {
                assert(ix0[a].0@ != keyv);
            }
        }
    }
    assert(ptr_map(ix1) == ptr_map(mid).insert(keyv, ptr));
    assert(live_sum(ix1) == live_sum(mid) + ptr.len);
}

/// Replaying one `Set` record during recovery: the index gains the
/// record's binding, a displaced record becomes stale, and everything
/// stays sound against the fixed directory.
#[verifier::rlimit(100)]
proof fn lemma_load_set_step(
    d2: Seq<(u64, Seq<u8>)>,
    data: Seq<u8>,
    id: u64,
    recs: Seq<LogRecord>,
    rec: LogRecord,
    ix0: Seq<(String, LogPointer)>,
    mid: Seq<(String, LogPointer)>,
    ix1: Seq<(String, LogPointer)>,
    disp: Option<LogPointer>,
    disp_j: int,
    keyv: Seq<char>,
    ptr: LogPointer,
    unc0: u64,
    unc1: u64,
    consumed0: int,
)
    requires
        recovery_ok(d2, recs, ix0, unc0, consumed0),
        seg_lookup(d2, id) == Some(data),
        rec matches LogRecord::RecSet { key, value } && key == encode_utf8(keyv) && valid_utf8(
            value,
        ),
        parse_one(data, ptr.start_position as int) == Some(
            (rec, ptr.start_position + ptr.len),
        ),
        ptr.log_file_id == id,
        ix1.len() == mid.len() + 1,
        ix1.drop_last() == mid,
        ix1.last().0@ == keyv,
        ix1.last().1 == ptr,
        match disp {
            Some(op) => 0 <= disp_j < ix0.len() && ix0[disp_j].0@ == keyv && mid == ix0.remove(
                disp_j,
            ) && op == ix0[disp_j].1,
            None => mid == ix0 && (forall|x: int| 0 <= x < ix0.len() ==> ix0[x].0@ != keyv),
        },
        unc1 == unc0 + (match disp {
            Some(op) => op.len as int,
            None => 0,
        }),
    ensures
        recovery_ok(
            d2,
            recs.push(rec),
            ix1,
            unc1,
            consumed0 + ptr.len,
        ),
        replay(Map::empty(), recs.push(rec)) == replay(Map::empty(), recs).insert(
            keyv,
            decode_utf8(rec->RecSet_value),
        ),
{
    lemma_index_update(ix0, mid, ix1, disp, disp_j, keyv, ptr);
    lemma_replay_snoc(Map::empty(), recs, rec);
    encode_utf8_decode_utf8(keyv);
    assert forall|x: int| 0 <= x < ix1.len() implies ptr_sound(
        d2,
        #[trigger] ix1[x].0,
        ix1[x].1,
    ) by {
        if x < ix1.len() - 1 {
            let y: int = match disp {
                Some(op) => if x < disp_j {
                    x
                } else {
                    x + 1
                },
                None => x,
            };
            assert(ix1[x] == mid[x]);
            assert(mid[x] == ix0[y]);
            assert(ptr_sound(d2, ix0[y].0, ix0[y].1));
        }
    }
    assert(replay(Map::empty(), recs.push(rec)) =~= Map::new(
        |k: Seq<char>| ptr_map(ix1).contains_key(k),
        |k: Seq<char>| value_in(d2, ptr_map(ix1)[k]),
    )) by {
        assert(value_in(d2, ptr) == decode_utf8(rec->RecSet_value));
    }
    // accounting: the key's recorded length becomes this record's length,
    // and the displaced length (if any) goes stale
    assert(recs.push(rec).drop_last() =~= recs);
    assert(recs.push(rec).last() == rec);
    lemma_parse_sound(data, ptr.start_position as int, rec, ptr.start_position + ptr.len);
    assert(enc(rec).len() == ptr.len);
    if let Some(op) = disp {
        lemma_ptr_map_get(ix0, disp_j);
    }
    assert(acct_lens(recs.push(rec)) == acct_lens(recs).insert(keyv, enc(rec).len() as int));
    assert forall|k: Seq<char>| #[trigger] acct_lens(recs.push(rec)).contains_key(k)
        <==> ptr_map(ix1).contains_key(k) by {
        if k != keyv {
            assert(acct_lens(recs).contains_key(k) <==> ptr_map(ix0).contains_key(k));
        }
    }
    assert forall|k: Seq<char>| #[trigger] ptr_map(ix1).contains_key(k) implies acct_lens(
        recs.push(rec),
    )[k] == ptr_map(ix1)[k].len by {
        if k != keyv {
            assert(ptr_map(ix1)[k] == ptr_map(ix0)[k]);
            assert(acct_lens(recs)[k] == ptr_map(ix0)[k].len);
        }
    }
    assert(acct_stale(recs.push(rec)) == unc1);
}

/// Replaying one `Remove` record during recovery: the key's record (if
/// any) and the tombstone itself both become stale.
#[verifier::rlimit(100)]
proof fn lemma_load_rm_step(
    d2: Seq<(u64, Seq<u8>)>,
    recs: Seq<LogRecord>,
    rec: LogRecord,
    ix0: Seq<(String, LogPointer)>,
    mid: Seq<(String, LogPointer)>,
    disp: Option<LogPointer>,
    disp_j: int,
    keyv: Seq<char>,
    rlen: int,
    unc0: u64,
    unc1: u64,
    consumed0: int,
)
    requires
        recovery_ok(d2, recs, ix0, unc0, consumed0),
        rec matches LogRecord::RecRm { key } && key == encode_utf8(keyv),
        rlen == enc(rec).len(),
        match disp {
            Some(op) => 0 <= disp_j < ix0.len() && ix0[disp_j].0@ == keyv && mid == ix0.remove(
                disp_j,
            ) && op == ix0[disp_j].1,
            None => mid == ix0 && (forall|x: int| 0 <= x < ix0.len() ==> ix0[x].0@ != keyv),
        },
        unc1 == unc0 + (match disp {
            Some(op) => op.len as int,
            None => 0,
        }) + rlen,
    ensures
        recovery_ok(d2, recs.push(rec), mid, unc1, consumed0 + rlen),
{
    if let Some(op) = disp {
        lemma_ptr_map_get(ix0, disp_j);
        lemma_index_remove(ix0, disp_j);
    } else {
        lemma_ptr_map_contains(ix0, keyv);
    }
    lemma_replay_snoc(Map::empty(), recs, rec);
    encode_utf8_decode_utf8(keyv);
    assert forall|x: int| 0 <= x < mid.len() implies ptr_sound(
        d2,
        #[trigger] mid[x].0,
        mid[x].1,
    ) by {
        if disp is Some {
            let y: int = if x < disp_j {
                x
            } else {
                x + 1
            };
            assert(ix0.remove(disp_j)[x] == ix0[y]);
            assert(ptr_sound(d2, ix0[y].0, ix0[y].1));
        } else {
            assert(ptr_sound(d2, ix0[x].0, ix0[x].1));
        }
    }
    assert(replay(Map::empty(), recs.push(rec)) =~= Map::new(
        |k: Seq<char>| ptr_map(mid).contains_key(k),
        |k: Seq<char>| value_in(d2, ptr_map(mid)[k]),
    ));
    // accounting: the key's recorded length and the tombstone's own bytes
    // both go stale
    assert(recs.push(rec).drop_last() =~= recs);
    assert(recs.push(rec).last() == rec);
    assert(acct_lens(recs.push(rec)) == acct_lens(recs).remove(keyv));
    assert forall|k: Seq<char>| #[trigger] acct_lens(recs.push(rec)).contains_key(k)
        <==> ptr_map(mid).contains_key(k) by {
        if k != keyv {
            assert(acct_lens(recs).contains_key(k) <==> ptr_map(ix0).contains_key(k));
        }
    }
    assert forall|k: Seq<char>| #[trigger] ptr_map(mid).contains_key(k) implies acct_lens(
        recs.push(rec),
    )[k] == ptr_map(mid)[k].len by {
        assert(k != keyv);
        assert(ptr_map(mid)[k] == ptr_map(ix0)[k]);
        assert(acct_lens(recs)[k] == ptr_map(ix0)[k].len);
    }
    assert(acct_stale(recs.push(rec)) == unc1);
}

/// Finds the position of `key` in an index.
fn find_key(ix: &Vec<(String, LogPointer)>, key: &String) -> (r: Option<usize>)
    ensures
        match r {
            Some(j) => j < ix@.len() && ix@[j as int].0@ == key@,
            None => forall|j: int| 0 <= j < ix@.len() ==> ix@[j].0@ != key@,
        },
{
    let mut j: usize = 0;
    while j < ix.len()
        invariant
            j <= ix@.len(),
            forall|i: int| 0 <= i < j ==> ix@[i].0@ != key@,
        decreases ix@.len() - j,
    {
        if ix[j].0 == *key {
            return Some(j);
        }
        j = j + 1;
    }
    None
}

impl KvStore {
    /// Finds the position of `key` in the index.
    fn index_find(&self, key: &String) -> (r: Option<usize>)
        ensures
            match r {
                Some(j) => j < self.index@.len() && self.index@[j as int].0@ == key@,
                None => forall|j: int| 0 <= j < self.index@.len() ==> self.index@[j].0@ != key@,
            },
    {
        find_key(&self.index, key)
    }

    /// Borrows the contents of segment `id`.
    fn seg_data(&self, id: u64) -> (r: Option<&Vec<u8>>)
        ensures
            match r {
                Some(v) => seg_lookup(self.dir(), id) == Some(v@),
                None => seg_lookup(self.dir(), id) is None,
            },
    {
        let ghost d = self.dir();
        proof {
            assert(d.subrange(0, d.len() as int) =~= d);
            assert(forall|x: int|
                0 <= x < d.len() - 1 ==> d[x] == (self.sealed@[x].id, self.sealed@[x].data@));
        }
        let mut i: usize = 0;
        while i < self.sealed.len()
            invariant
                i <= self.sealed@.len(),
                d == self.dir(),
                seg_lookup(d, id) == seg_lookup(d.subrange(i as int, d.len() as int), id),
                forall|x: int| 0 <= x < d.len() - 1 ==> d[x] == (self.sealed@[x].id,
                self.sealed@[x].data@),
                d.len() == self.sealed@.len() + 1,
                d.last() == (self.current_log_id, self.writer@),
            decreases self.sealed@.len() - i,
        {
            proof {
                assert(d.subrange(i as int, d.len() as int)[0] == d[i as int]);
                assert(d.subrange(i as int, d.len() as int).drop_first() =~= d.subrange(
                    i + 1,
                    d.len() as int,
                ));
            }
            if self.sealed[i].id == id {
                return Some(&self.sealed[i].data);
            }
            i = i + 1;
        }
        proof {
            assert(d.subrange(i as int, d.len() as int)[0] == d[i as int]);
            assert(d.subrange(i as int, d.len() as int).drop_first() =~= d.subrange(
                i + 1,
                d.len() as int,
            ));
            assert(seg_lookup(d.subrange(i + 1, d.len() as int), id) is None);
        }
        if self.current_log_id == id {
            return Some(&self.writer.data);
        }
        None
    }

    /// There is room in the machine's counters to append this record and,
    /// if that tips the stale count over the threshold, to compact.
    pub open spec fn can_write(self, r: LogRecord) -> bool {
        &&& self.total_len() + enc(r).len() <= u64::MAX
        &&& self.active_id() + 2 <= u64::MAX
    }

    /// What appending one record to the active segment leaves intact: the
    /// directory's shape, every sound pointer and the value it names, and
    /// the record list grows by exactly that record.
    proof fn lemma_append_active(pre: KvStore, post: KvStore, re0: LogRecord)
        requires
            ids_ascending(pre.dir()),
            forall|i: int| 0 <= i < pre.dir().len() ==> seg_ok(#[trigger] pre.dir()[i].1),
            post.sealed@ == pre.sealed@,
            post.current_log_id == pre.current_log_id,
            post.writer@ == pre.writer@ + enc(re0),
            log_rec_ok(re0),
        ensures
            ids_ascending(post.dir()),
            forall|i: int| 0 <= i < post.dir().len() ==> seg_ok(#[trigger] post.dir()[i].1),
            dir_recs(post.dir()) == dir_recs(pre.dir()).push(re0),
            total_of(post.dir()) == total_of(pre.dir()) + enc(re0).len(),
            parse_one(post.writer@, pre.writer@.len() as int) == Some(
                (re0, (pre.writer@.len() + enc(re0).len()) as int),
            ),
            seg_lookup(post.dir(), pre.current_log_id) == Some(post.writer@),
            forall|k: String, p: LogPointer|
                #[trigger] pre.ptr_ok(k, p) ==> post.ptr_ok(k, p) && post.value_at(p)
                    == pre.value_at(p),
    {
        let d1 = pre.dir();
        let d2 = post.dir();
        assert(d2.drop_last() =~= d1.drop_last());
        lemma_dir_append_active(d1, d2, re0);
        assert(post.writer@.subrange(
            pre.writer@.len() as int,
            (pre.writer@.len() + enc(re0).len()) as int,
        ) =~= enc(re0));
        lemma_parse_of_enc(post.writer@, pre.writer@.len() as int, re0);
        lemma_lookup_in(d1, d1.len() - 1);
        assert(seg_lookup(d1, pre.current_log_id) == Some(pre.writer@));
        assert(seg_lookup(d2, pre.current_log_id) == Some(post.writer@));
        assert forall|k: String, p: LogPointer| #[trigger] pre.ptr_ok(k, p) implies post.ptr_ok(
            k,
            p,
        ) && post.value_at(p) == pre.value_at(p) by {
            if p.log_file_id == pre.current_log_id {
                let re = parse_one(pre.writer@, p.start_position as int)->0;
                lemma_parse_ext(pre.writer@, enc(re0), p.start_position as int, re.0, re.1);
            } else {
                assert(seg_lookup(d2, p.log_file_id) == seg_lookup(d1, p.log_file_id));
            }
        }
    }

    /// If every sound pointer keeps its value across a state change, then
    /// every key the old index holds keeps its value too.
    proof fn lemma_values_preserved(pre: KvStore, post: KvStore)
        requires
            keys_unique(pre.index@),
            forall|j: int| 0 <= j < pre.index@.len() ==> pre.entry_ok(j),
            forall|k: String, p: LogPointer|
                #[trigger] pre.ptr_ok(k, p) ==> post.ptr_ok(k, p) && post.value_at(p)
                    == pre.value_at(p),
        ensures
            forall|k2: Seq<char>|
                #[trigger] ptr_map(pre.index@).contains_key(k2) ==> post.value_at(
                    ptr_map(pre.index@)[k2],
                ) == pre@[k2] && pre@.contains_key(k2),
    {
        assert forall|k2: Seq<char>| #[trigger] ptr_map(pre.index@).contains_key(k2) implies post.value_at(
            ptr_map(pre.index@)[k2],
        ) == pre@[k2] && pre@.contains_key(k2) by {
            lemma_ptr_map_contains(pre.index@, k2);
            let x = choose|x: int| 0 <= x < pre.index@.len() && pre.index@[x].0@ == k2;
            lemma_ptr_map_get(pre.index@, x);
            assert(pre.entry_ok(x));
            assert(pre.ptr_ok(pre.index@[x].0, pre.index@[x].1));
        }
    }

    /// What holds of entry `x` of the rebuilt index while compaction walks
    /// the old one: same key, same length, and the compaction segment holds
    /// that key's old record at the new pointer.
    spec fn compact_entry_ok(
        pre: KvStore,
        cid: u64,
        cwdata: Seq<u8>,
        nix: Seq<(String, LogPointer)>,
        recs: Seq<LogRecord>,
        x: int,
    ) -> bool {
        let k = nix[x].0;
        let p = nix[x].1;
        &&& k@ == pre.index@[x].0@
        &&& p.len == pre.index@[x].1.len
        &&& p.log_file_id == cid
        &&& p.start_position + p.len <= cwdata.len()
        &&& parse_one(cwdata, p.start_position as int) == Some((recs[x], p.start_position + p.len))
        &&& recs[x] matches LogRecord::RecSet { key, value } && key == encode_utf8(k@)
            && valid_utf8(value) && decode_utf8(value) == pre.value_at(pre.index@[x].1)
    }

    /// One compaction step, entry part: after the copy, every rebuilt
    /// entry (the fresh one included) still describes its record.
    #[verifier::rlimit(100)]
    proof fn lemma_compact_step_entries(
        pre: KvStore,
        cid: u64,
        cw0: Seq<u8>,
        nix0: Seq<(String, LogPointer)>,
        recs0: Seq<LogRecord>,
        j: int,
        re0: LogRecord,
        newp: LogPointer,
        key_copy: String,
    )
        requires
            pre.wf(),
            0 <= j < pre.index@.len(),
            nix0.len() == j,
            cw0.len() == live_sum(nix0),
            parse_all(cw0) == Some(recs0),
            recs0.len() == j,
            forall|x: int| 0 <= x < j ==> KvStore::compact_entry_ok(pre, cid, cw0, nix0, recs0, x),
            re0 matches LogRecord::RecSet { key, value } && key == encode_utf8(pre.index@[j].0@)
                && valid_utf8(value) && decode_utf8(value) == pre.value_at(pre.index@[j].1),
            enc(re0).len() == pre.index@[j].1.len,
            newp.log_file_id == cid,
            newp.start_position == cw0.len(),
            newp.len == pre.index@[j].1.len,
            key_copy@ == pre.index@[j].0@,
        ensures
            forall|x: int|
                0 <= x < j + 1 ==> KvStore::compact_entry_ok(
                    pre,
                    cid,
                    cw0 + enc(re0),
                    nix0.push((key_copy, newp)),
                    recs0.push(re0),
                    x,
                ),
    {
        let cw1 = cw0 + enc(re0);
        let nix1 = nix0.push((key_copy, newp));
        let recs1 = recs0.push(re0);
        assert(nix1.drop_last() =~= nix0);
        assert(cw1.subrange(cw0.len() as int, (cw0.len() + enc(re0).len()) as int) =~= enc(re0));
        lemma_parse_of_enc(cw1, cw0.len() as int, re0);
        assert forall|x: int|
            0 <= x < j + 1 implies KvStore::compact_entry_ok(pre, cid, cw1, nix1, recs1, x) by {
            if x < j {
                let px = nix1[x].1;
                assert(KvStore::compact_entry_ok(pre, cid, cw0, nix0, recs0, x));
                lemma_parse_ext(
                    cw0,
                    enc(re0),
                    px.start_position as int,
                    recs0[x],
                    px.start_position + px.len,
                );
            }
        }
    }

    /// One compaction step: copying entry `j`'s record to the end of the
    /// compaction segment extends every walk-tracking fact by one entry.
    proof fn lemma_compact_step(
        pre: KvStore,
        cid: u64,
        cw0: Seq<u8>,
        nix0: Seq<(String, LogPointer)>,
        recs0: Seq<LogRecord>,
        j: int,
        re0: LogRecord,
        newp: LogPointer,
        key_copy: String,
    )
        requires
            pre.wf(),
            0 <= j < pre.index@.len(),
            nix0.len() == j,
            cw0.len() == live_sum(nix0),
            live_sum(nix0) == live_sum(pre.index@.take(j)),
            parse_all(cw0) == Some(recs0),
            recs0.len() == j,
            forall|x: int| 0 <= x < j ==> KvStore::compact_entry_ok(pre, cid, cw0, nix0, recs0, x),
            replay(Map::empty(), recs0) == Map::new(
                |k: Seq<char>| ptr_map(pre.index@.take(j)).contains_key(k),
                |k: Seq<char>| pre@[k],
            ),
            re0 matches LogRecord::RecSet { key, value } && key == encode_utf8(pre.index@[j].0@)
                && valid_utf8(value) && decode_utf8(value) == pre.value_at(pre.index@[j].1),
            enc(re0).len() == pre.index@[j].1.len,
            newp.log_file_id == cid,
            newp.start_position == cw0.len(),
            newp.len == pre.index@[j].1.len,
            key_copy@ == pre.index@[j].0@,
        ensures
            (cw0 + enc(re0)).len() == live_sum(nix0.push((key_copy, newp))),
            live_sum(nix0.push((key_copy, newp))) == live_sum(pre.index@.take(j + 1)),
            parse_all(cw0 + enc(re0)) == Some(recs0.push(re0)),
            forall|x: int|
                0 <= x < j + 1 ==> KvStore::compact_entry_ok(
                    pre,
                    cid,
                    cw0 + enc(re0),
                    nix0.push((key_copy, newp)),
                    recs0.push(re0),
                    x,
                ),
            replay(Map::empty(), recs0.push(re0)) == Map::new(
                |k: Seq<char>| ptr_map(pre.index@.take(j + 1)).contains_key(k),
                |k: Seq<char>| pre@[k],
            ),
    {
        let cw1 = cw0 + enc(re0);
        let nix1 = nix0.push((key_copy, newp));
        let recs1 = recs0.push(re0);
        assert(nix1.drop_last() =~= nix0);
        assert(pre.index@.take(j + 1).drop_last() =~= pre.index@.take(j));
        assert(pre.index@.take(j + 1).last() == pre.index@[j]);
        lemma_parse_all_push(cw0, 0, recs0, re0);
        KvStore::lemma_compact_step_entries(
            pre,
            cid,
            cw0,
            nix0,
            recs0,
            j,
            re0,
            newp,
            key_copy,
        );
        lemma_replay_snoc(Map::empty(), recs0, re0);
        let k = pre.index@[j].0@;
        encode_utf8_decode_utf8(k);
        lemma_ptr_map_get(pre.index@, j);
        assert(pre@.contains_key(k));
        assert(pre@[k] == pre.value_at(pre.index@[j].1));
        assert(ptr_map(pre.index@.take(j + 1)) == ptr_map(pre.index@.take(j)).insert(
            k,
            pre.index@[j].1,
        ));
        assert(replay(Map::empty(), recs1) =~= Map::new(
            |k2: Seq<char>| ptr_map(pre.index@.take(j + 1)).contains_key(k2),
            |k2: Seq<char>| pre@[k2],
        ));
    }

    /// Compaction rewrites the live records, in index order, into the fresh
    /// segment `<active_id + 1>.log`, points the index at the copies,
    /// deletes every older segment, and appends from then on to the fresh
    /// segment `<active_id + 2>.log`.  The key/value map is unchanged and
    /// no stale byte remains.
    #[verifier::rlimit(100)]
    pub fn compact(&mut self) -> (r: Result<(), KvsError>)
        requires
            old(self).wf(),
            old(self).active_id() + 2 <= u64::MAX,
        ensures
            r is Ok,
            final(self).wf(),
            final(self)@ == old(self)@,
            final(self).stale() == 0,
            final(self).active_id() == old(self).active_id() + 2,
            final(self).total_len() == old(self).total_len() - old(self).stale(),
            final(self).total_len() == final(self).live_len(),
            final(self).dir().len() == 2,
            final(self).dir()[0].0 == old(self).active_id() + 1,
            final(self).dir()[1].0 == old(self).active_id() + 2,
            final(self).dir()[1].1 == Seq::<u8>::empty(),
            forall|i: int|
                0 <= i < final(self).dir().len() ==> #[trigger] final(self).dir()[i].0 >= old(
                    self,
                ).active_id() + 1,
    {
        let compact_id = self.current_log_id + 1;
        let new_active_id = self.current_log_id + 2;
        let mut cw = BufWriterWithPos::new(Vec::new());
        let mut new_index: Vec<(String, LogPointer)> = Vec::new();
        let ghost mut recs: Seq<LogRecord> = Seq::empty();
        let ghost pre = *self;
        proof {
            assert(pre.index@.take(0) =~= Seq::<(String, LogPointer)>::empty());
            assert(replay(Map::empty(), recs) =~= Map::new(
                |k: Seq<char>| ptr_map(pre.index@.take(0)).contains_key(k),
                |k: Seq<char>| pre@[k],
            ));
        }
        let mut j: usize = 0;
        while j < self.index.len()
            invariant
                *self == pre,
                pre.wf(),
                compact_id == pre.current_log_id + 1,
                pre.current_log_id + 2 <= u64::MAX,
                j <= pre.index@.len(),
                cw.wf(),
                new_index@.len() == j,
                cw@.len() == live_sum(new_index@),
                live_sum(new_index@) == live_sum(pre.index@.take(j as int)),
                parse_all(cw@) == Some(recs),
                recs.len() == j,
                forall|x: int|
                    0 <= x < j ==> KvStore::compact_entry_ok(
                        pre,
                        compact_id,
                        cw@,
                        new_index@,
                        recs,
                        x,
                    ),
                replay(Map::empty(), recs) == Map::new(
                    |k: Seq<char>| ptr_map(pre.index@.take(j as int)).contains_key(k),
                    |k: Seq<char>| pre@[k],
                ),
            decreases pre.index@.len() - j,
        {
            proof {
                assert(self.entry_ok(j as int));
                lemma_ptr_map_get(self.index@, j as int);
                encode_utf8_valid_utf8(self.index@[j as int].0@);
                lemma_live_take(pre.index@, j + 1);
                assert(pre.index@.take(j + 1).drop_last() =~= pre.index@.take(j as int));
                assert(pre.index@.take(j + 1).last() == pre.index@[j as int]);
            }
            let p = self.index[j].1;
            let t = match self.seg_data(p.log_file_id) {
                Some(t) => t,
                None => {
                    proof {
                        assert(false);
                    }
                    return Err(KvsError::UnexpectedCommand);
                },
            };
            let tl = t.len();
            proof {
                if let Some(re) = parse_one(t@, p.start_position as int) {
                    lemma_parse_sound(t@, p.start_position as int, re.0, re.1);
                }
                assert(p.start_position + p.len <= tl);
            }
            let start = p.start_position as usize;
            let end = (p.start_position + p.len) as usize;
            let slice = slice_range(t, start, end);
            let ghost re0 = (parse_one(t@, p.start_position as int)->0).0;
            proof {
                assert(slice@ =~= enc(re0));
                // the whole index is live, so the copy fits
                assert(live_sum(pre.index@.take(j + 1)) <= live_sum(pre.index@)) by {
                    lemma_live_take(pre.index@, j + 1);
                }
                assert(live_sum(pre.index@) <= total_of(pre.dir()));
            }
            let newp = LogPointer::from_range(compact_id, cw.pos, cw.pos + p.len);
            let ghost cw0 = cw@;
            let ghost nix0 = new_index@;
            cw.write_all(&slice);
            let key_copy = self.index[j].0.clone();
            new_index.push((key_copy, newp));
            proof {
                assert(enc(re0).len() == p.len);
                assert(decode_utf8(re0->RecSet_value) == pre.value_at(pre.index@[j as int].1));
                KvStore::lemma_compact_step(
                    pre,
                    compact_id,
                    cw0,
                    nix0,
                    recs,
                    j as int,
                    re0,
                    newp,
                    new_index@[j as int].0,
                );
                assert(cw@ == cw0 + enc(re0));
                assert(new_index@ =~= nix0.push((new_index@[j as int].0, newp)));
                recs = recs.push(re0);
            }
            j = j + 1;
        }
        proof {
            assert(pre.index@.take(j as int) =~= pre.index@);
            assert(replay(Map::empty(), recs) =~= pre@) by {
                assert forall|k: Seq<char>| pre@.contains_key(k) implies ptr_map(
                    pre.index@,
                ).contains_key(k) by {}
            }
        }
        // every pre-compaction segment (the old active one included) is
        // dropped; the compaction output and the fresh active segment remain
        let data = cw.into_data();
        let mut sealed2: Vec<LogFile> = Vec::new();
        sealed2.push(LogFile { id: compact_id, data });
        self.sealed = sealed2;
        self.writer = BufWriterWithPos::new(Vec::new());
        self.current_log_id = new_active_id;
        self.index = new_index;
        self.uncompacted = 0;
        proof {
            let ghost cwdata = cw@;
            let d2 = self.dir();
            assert(d2 =~= seq![(compact_id, cwdata), (new_active_id, Seq::<u8>::empty())]);
            assert(seg_lookup(d2, compact_id) == Some(cwdata));
            // directory structure: ids ascend, both segments parse
            assert(parse_all_from(Seq::<u8>::empty(), 0) == Some(Seq::<LogRecord>::empty()));
            assert(seg_ok(cwdata)) by {
                assert forall|x: int| 0 <= x < recs.len() implies log_rec_ok(recs[x]) by {
                    assert(KvStore::compact_entry_ok(pre, compact_id, cwdata, self.index@, recs, x));
                    encode_utf8_valid_utf8(self.index@[x].0@);
                }
            }
            assert(seg_ok(Seq::<u8>::empty()));
            let d1only = seq![(compact_id, cwdata)];
            assert(d2.last() == (new_active_id, Seq::<u8>::empty()));
            assert(dir_recs(d2) == dir_recs(d2.drop_last()) + recs_of(Seq::<u8>::empty()));
            assert(d2.drop_last() =~= d1only);
            assert(dir_recs(d1only) == dir_recs(d1only.drop_last()) + recs_of(cwdata));
            assert(d1only.drop_last() =~= Seq::<(u64, Seq<u8>)>::empty());
            assert(dir_recs(Seq::<(u64, Seq<u8>)>::empty()) == Seq::<LogRecord>::empty());
            assert(recs_of(Seq::<u8>::empty()) =~= Seq::<LogRecord>::empty());
            assert(recs_of(cwdata) == recs);
            assert(dir_recs(d2) =~= recs);
            // the index still denotes the same keys, now pointing at copies
            assert forall|x: int| 0 <= x < self.index@.len() implies self.index@[x].0@
                == pre.index@[x].0@ by {
                assert(KvStore::compact_entry_ok(pre, compact_id, cwdata, self.index@, recs, x));
            }
            assert forall|a: int, b: int|
                0 <= a < b < self.index@.len() implies self.index@[a].0@ != self.index@[b].0@ by {
                assert(pre.index@[a].0@ != pre.index@[b].0@);
            }
            assert forall|x: int| 0 <= x < self.index@.len() implies self.entry_ok(x) by {
                assert(KvStore::compact_entry_ok(pre, compact_id, cwdata, self.index@, recs, x));
            }
            // the abstract map is unchanged
            assert(self@ =~= pre@) by {
                assert forall|k: Seq<char>|
                    ptr_map(self.index@).contains_key(k) == ptr_map(pre.index@).contains_key(
                    k,
                ) by {
                    lemma_ptr_map_contains(self.index@, k);
                    lemma_ptr_map_contains(pre.index@, k);
                    if exists|x: int| 0 <= x < self.index@.len() && self.index@[x].0@ == k {
                        let x = choose|x: int|
                            0 <= x < self.index@.len() && self.index@[x].0@ == k;
                        assert(pre.index@[x].0@ == k);
                    }
                    if exists|x: int| 0 <= x < pre.index@.len() && pre.index@[x].0@ == k {
                        let x = choose|x: int| 0 <= x < pre.index@.len() && pre.index@[x].0@ == k;
                        assert(self.index@[x].0@ == k);
                    }
                }
                assert forall|k: Seq<char>| ptr_map(self.index@).contains_key(k) implies self@[k]
                    == pre@[k] by {
                    lemma_ptr_map_contains(self.index@, k);
                    let x = choose|x: int| 0 <= x < self.index@.len() && self.index@[x].0@ == k;
                    lemma_ptr_map_get(self.index@, x);
                    lemma_ptr_map_get(pre.index@, x);
                    assert(KvStore::compact_entry_ok(pre, compact_id, cwdata, self.index@, recs, x));
                }
            }
            // space accounting: only live bytes remain
            assert(total_of(d2) == cwdata.len()) by {
                assert(total_of(d1only) == total_of(d1only.drop_last()) + cwdata.len());
                assert(total_of(Seq::<(u64, Seq<u8>)>::empty()) == 0);
                assert(total_of(d2) == total_of(d2.drop_last()) + 0);
            }
            assert(live_sum(self.index@) == cwdata.len());
            reveal(KvStore::replay_matches);
            assert(replay_dir(d2) == self@);
            assert(self.wf());
        }
        Ok(())
    }

    /// The running count of stale bytes: what compaction could reclaim.
    pub fn stale_bytes(&self) -> (n: u64)
        ensures
            n == self.stale(),
    {
        self.uncompacted
    }

    /// The id of the segment the engine currently appends to.
    pub fn active_log_id(&self) -> (id: u64)
        ensures
            id == self.active_id(),
    {
        self.current_log_id
    }

    /// A copy of the directory this engine stands for: every segment's id
    /// and full contents, the active segment last.  Callers persist these
    /// as the `<id>.log` files and hand them back to `open`.
    pub fn directory(&self) -> (files: Vec<LogFile>)
        ensures
            files_view(files@) == self.dir(),
    {
        let mut files: Vec<LogFile> = Vec::new();
        let mut i: usize = 0;
        while i < self.sealed.len()
            invariant
                i <= self.sealed@.len(),
                files@.len() == i,
                forall|j: int|
                    0 <= j < i ==> #[trigger] files@[j].id == self.sealed@[j].id && files@[j].data@
                        == self.sealed@[j].data@,
            decreases self.sealed@.len() - i,
        {
            let len = self.sealed[i].data.len();
            let data = slice_range(&self.sealed[i].data, 0, len);
            proof {
                assert(data@ =~= self.sealed@[i as int].data@);
            }
            files.push(LogFile { id: self.sealed[i].id, data });
            i = i + 1;
        }
        let wlen = self.writer.data.len();
        let data = slice_range(&self.writer.data, 0, wlen);
        proof {
            assert(data@ =~= self.writer@);
        }
        files.push(LogFile { id: self.current_log_id, data });
        proof {
            assert(files_view(files@) =~= self.dir()) by {
                assert forall|j: int| 0 <= j < self.dir().len() implies files_view(files@)[j]
                    == self.dir()[j] by {
                    assert(files_view(files@)[j] == (files@[j].id, files@[j].data@));
                    if j < self.dir().len() - 1 {
                        assert(self.dir()[j] == (self.sealed@[j].id, self.sealed@[j].data@));
                    }
                }
            }
        }
        files
    }

    /// The directory's total size in bytes, or `None` when it does not fit
    /// the counter.
    fn total_bytes_checked(&self) -> (r: Option<u64>)
        ensures
            match r {
                Some(t) => t == total_of(self.dir()),
                None => total_of(self.dir()) > u64::MAX,
            },
    {
        let mut acc: u64 = 0;
        let mut i: usize = 0;
        proof {
            assert(self.dir().take(0) =~= Seq::<(u64, Seq<u8>)>::empty());
        }
        while i < self.sealed.len()
            invariant
                i <= self.sealed@.len(),
                acc == total_of(self.dir().take(i as int)),
                self.dir().len() == self.sealed@.len() + 1,
                forall|x: int| 0 <= x < self.dir().len() - 1 ==> #[trigger] self.dir()[x]
                    == (self.sealed@[x].id, self.sealed@[x].data@),
                self.dir().last() == (self.current_log_id, self.writer@),
            decreases self.sealed@.len() - i,
        {
            proof {
                assert(self.dir().take(i + 1).drop_last() =~= self.dir().take(i as int));
                assert(self.dir().take(i + 1).last() == self.dir()[i as int]);
            }
            let len = self.sealed[i].data.len() as u64;
            acc = match acc.checked_add(len) {
                Some(a) => a,
                None => {
                    proof {
                        lemma_total_take(self.dir(), i + 1);
                    }
                    return None;
                },
            };
            i = i + 1;
        }
        proof {
            assert(self.dir().take(self.dir().len() - 1) =~= self.dir().drop_last());
            assert(self.dir().take(i as int) =~= self.dir().drop_last());
        }
        let wlen = self.writer.data.len() as u64;
        match acc.checked_add(wlen) {
            Some(a) => Some(a),
            None => None,
        }
    }

    /// Whether the machine's counters have room to `set` this pair: the
    /// condition `set` requires.
    pub fn can_set(&self, key: &String, value: &String) -> (b: bool)
        ensures
            b == self.can_write(set_rec(key@, value@)),
    {
        let cmd = Command::SetCmd(SetArgs { key: key.clone(), value: value.clone() });
        let data = encode_command(&cmd);
        if self.current_log_id > u64::MAX - 2 {
            return false;
        }
        match self.total_bytes_checked() {
            Some(t) => match t.checked_add(data.len() as u64) {
                Some(_) => true,
                None => false,
            },
            None => false,
        }
    }

    /// Whether the machine's counters have room to `remove` this key: the
    /// condition `remove` requires.
    pub fn can_remove(&self, key: &String) -> (b: bool)
        ensures
            b == self.can_write(rm_rec(key@)),
    {
        let cmd = Command::Rm(RmArgs { key: key.clone() });
        let data = encode_command(&cmd);
        if self.current_log_id > u64::MAX - 2 {
            return false;
        }
        match self.total_bytes_checked() {
            Some(t) => match t.checked_add(data.len() as u64) {
                Some(_) => true,
                None => false,
            },
            None => false,
        }
    }

    /// Replays one segment file: for each `Set`, the key points at that
    /// record; for each `Remove`, the key is dropped, and the tombstone's
    /// own bytes are counted stale; the offset bounding each record comes
    /// from the decoder.  Fails with `SerializationError` on a malformed
    /// record and with `UnexpectedCommand` on a `Get` record in the log.
    #[verifier::rlimit(100)]
    fn load_log_file(
        id: u64,
        reader: &mut BufReaderWithPos,
        index: &mut Vec<(String, LogPointer)>,
        uncompacted: &mut u64,
        Ghost(d_prev): Ghost<Seq<(u64, Seq<u8>)>>,
    ) -> (r: Result<(), KvsError>)
        requires
            old(reader).pos == 0,
            old(reader).wf(),
            recovery_ok(
                d_prev.push((id, old(reader)@)),
                dir_recs(d_prev),
                old(index)@,
                *old(uncompacted),
                total_of(d_prev),
            ),
            seg_lookup(d_prev, id) is None,
            total_of(d_prev) >= 0,
            total_of(d_prev) + old(reader)@.len() <= u64::MAX,
        ensures
            final(reader)@ == old(reader)@,
            r is Ok <==> seg_ok(old(reader)@),
            r matches Err(e) ==> e is SerializationError || e is UnexpectedCommand,
            r is Ok ==> recovery_ok(
                d_prev.push((id, old(reader)@)),
                dir_recs(d_prev) + recs_of(old(reader)@),
                final(index)@,
                *final(uncompacted),
                total_of(d_prev) + old(reader)@.len(),
            ),
    {
        let ghost data = reader@;
        let ghost d2 = d_prev.push((id, data));
        let ghost mut done: Seq<LogRecord> = Seq::empty();
        proof {
            assert(dir_recs(d_prev) + done =~= dir_recs(d_prev));
            lemma_lookup_push(d_prev, id, data, id);
        }
        let total_len = reader.data.len();
        while (reader.pos as usize) < total_len
            invariant
                reader@ == data,
                data == old(reader)@,
                reader.wf(),
                total_len == data.len(),
                parse_all(data) == (match parse_all_from(data, reader.pos as int) {
                    Some(rs2) => Some(done + rs2),
                    None => None::<Seq<LogRecord>>,
                }),
                forall|x: int| 0 <= x < done.len() ==> log_rec_ok(#[trigger] done[x]),
                recovery_ok(
                    d2,
                    dir_recs(d_prev) + done,
                    index@,
                    *uncompacted,
                    total_of(d_prev) + reader.pos,
                ),
                seg_lookup(d2, id) == Some(data),
                d2 == d_prev.push((id, data)),
                total_of(d_prev) >= 0,
                total_of(d_prev) + data.len() <= u64::MAX,
            decreases data.len() - reader.pos,
        {
            let pos = reader.pos;
            match reader.read_record() {
                Err(e) => {
                    proof {
                        if seg_ok(data) {
                            let rs = parse_all(data)->0;
                            if let Some(re) = parse_one(data, pos as int) {
                                let rs2 = parse_all_from(data, pos as int)->0;
                                assert(rs2[0] == re.0);
                                assert(rs == done + rs2);
                                assert(rs[done.len() as int] == re.0);
                                assert(log_rec_ok(rs[done.len() as int]));
                                assert(false);
                            } else {
                                assert(parse_all_from(data, pos as int) is None);
                                assert(false);
                            }
                        }
                    }
                    return Err(e);
                },
                Ok(cp) => {
                    let (cmd, end) = cp;
                    let ghost re = parse_one(data, pos as int)->0;
                    proof {
                        lemma_parse_sound(data, pos as int, re.0, re.1);
                    }
                    match cmd {
                        Command::SetCmd(args) => {
                            let ghost keyv = args.key@;
                            let ghost unc0 = *uncompacted;
                            let ptr = LogPointer::from_range(id, pos, end);
                            let ghost ix0 = index@;
                            let mut displaced: Option<LogPointer> = None;
                            let ghost mut disp_j: int = 0;
                            let ghost mut mid = index@;
                            match find_key(index, &args.key) {
                                Some(j) => {
                                    proof {
                                        lemma_ptr_map_get(ix0, j as int);
                                        lemma_index_remove(ix0, j as int);
                                        lemma_live_nonneg(ix0.remove(j as int));
                                        disp_j = j as int;
                                    }
                                    let de = index.remove(j);
                                    displaced = Some(de.1);
                                    proof {
                                        mid = index@;
                                    }
                                },
                                None => {},
                            }
                            index.push((args.key, ptr));
                            match displaced {
                                Some(op) => {
                                    *uncompacted = *uncompacted + op.len;
                                },
                                None => {},
                            }
                            proof {
                                assert(index@.drop_last() =~= mid);
                                lemma_load_set_step(
                                    d2,
                                    data,
                                    id,
                                    dir_recs(d_prev) + done,
                                    re.0,
                                    ix0,
                                    mid,
                                    index@,
                                    displaced,
                                    disp_j,
                                    keyv,
                                    ptr,
                                    unc0,
                                    *uncompacted,
                                    total_of(d_prev) + pos,
                                );
                                done = done.push(re.0);
                                assert((dir_recs(d_prev) + done) =~= (dir_recs(d_prev)
                                    + done.drop_last()).push(re.0));
                                if let Some(rs2) = parse_all_from(data, end as int) {
                                    assert(done + rs2 =~= done.drop_last() + (seq![re.0] + rs2));
                                }
                            }
                        },
                        Command::Rm(args) => {
                            let ghost keyv = args.key@;
                            let ghost unc0 = *uncompacted;
                            let ghost ix0 = index@;
                            let mut displaced: Option<LogPointer> = None;
                            let ghost mut disp_j: int = 0;
                            match find_key(index, &args.key) {
                                Some(j) => {
                                    proof {
                                        lemma_ptr_map_get(ix0, j as int);
                                        lemma_index_remove(ix0, j as int);
                                        lemma_live_nonneg(ix0.remove(j as int));
                                        disp_j = j as int;
                                    }
                                    let de = index.remove(j);
                                    displaced = Some(de.1);
                                },
                                None => {},
                            }
                            match displaced {
                                Some(op) => {
                                    *uncompacted = *uncompacted + op.len;
                                },
                                None => {},
                            }
                            proof {
                                lemma_live_nonneg(ix0);
                                assert(*uncompacted + (end - pos) <= total_of(d_prev)
                                    + data.len());
                            }
                            *uncompacted = *uncompacted + (end - pos);
                            proof {
                                lemma_load_rm_step(
                                    d2,
                                    dir_recs(d_prev) + done,
                                    re.0,
                                    ix0,
                                    index@,
                                    displaced,
                                    disp_j,
                                    keyv,
                                    end - pos,
                                    unc0,
                                    *uncompacted,
                                    total_of(d_prev) + pos,
                                );
                                done = done.push(re.0);
                                assert((dir_recs(d_prev) + done) =~= (dir_recs(d_prev)
                                    + done.drop_last()).push(re.0));
                                if let Some(rs2) = parse_all_from(data, end as int) {
                                    assert(done + rs2 =~= done.drop_last() + (seq![re.0] + rs2));
                                }
                            }
                        },
                        Command::Get(_) => {
                            proof {
                                if seg_ok(data) {
                                    let rs = parse_all(data)->0;
                                    let rs2 = parse_all_from(data, pos as int)->0;
                                    assert(rs2[0] == re.0);
                                    assert(rs == done + rs2);
                                    assert(rs[done.len() as int] == re.0);
                                    assert(log_rec_ok(rs[done.len() as int]));
                                    assert(false);
                                }
                            }
                            return Err(KvsError::UnexpectedCommand);
                        },
                    }
                },
            }
        }
        proof {
            assert(reader.pos == data.len());
            assert(parse_all_from(data, reader.pos as int) == Some(Seq::<LogRecord>::empty()));
            assert(done + Seq::<LogRecord>::empty() =~= done);
            assert(parse_all(data) == Some(done));
            assert(seg_ok(data));
            assert(recs_of(data) == done);
        }
        Ok(())
    }

    /// Opens a `KvStore` over the given segment files, which the caller
    /// reads from the directory's `<id>.log` files in ascending id order.
    ///
    /// Every segment is replayed into the index in order, and a fresh
    /// active segment is created with id one past the highest existing id,
    /// or id 1 when the directory is empty.  Succeeds exactly when every
    /// segment parses into `Set` and `Remove` records; the resulting store
    /// holds precisely the map those records replay to.
    #[verifier::rlimit(100)]
    pub fn open(files: Vec<LogFile>) -> (r: Result<KvStore, KvsError>)
        requires
            ids_ascending(files_view(files@)),
            total_of(files_view(files@)) <= u64::MAX,
            files@.len() > 0 ==> files_view(files@).last().0 < u64::MAX,
        ensures
            r is Ok <==> dir_ok(files_view(files@)),
            r matches Err(e) ==> e is SerializationError || e is UnexpectedCommand,
            r matches Ok(e) ==> e.wf() && e@ == replay_dir(files_view(files@)) && e.active_id()
                == (if files@.len() == 0 {
                1u64
            } else {
                (files_view(files@).last().0 + 1) as u64
            }) && e.dir() == files_view(files@).push((e.active_id(), Seq::<u8>::empty()))
                && e.stale() == acct_stale(dir_recs(files_view(files@))),
    {
        let ghost fview = files_view(files@);
        let mut sealed: Vec<LogFile> = Vec::new();
        let mut index: Vec<(String, LogPointer)> = Vec::new();
        let mut uncompacted: u64 = 0;
        let mut last_id: u64 = 0;
        proof {
            assert(fview.take(0) =~= Seq::<(u64, Seq<u8>)>::empty());
            assert(files_view(sealed@) =~= fview.take(0));
            assert(replay(Map::empty(), dir_recs(fview.take(0))) =~= Map::new(
                |k: Seq<char>| ptr_map(index@).contains_key(k),
                |k: Seq<char>| value_in(fview.take(0), ptr_map(index@)[k]),
            ));
        }
        let mut i: usize = 0;
        while i < files.len()
            invariant
                i <= files@.len(),
                fview == files_view(files@),
                ids_ascending(fview),
                total_of(fview) <= u64::MAX,
                files@.len() > 0 ==> fview.last().0 < u64::MAX,
                files_view(sealed@) == fview.take(i as int),
                dir_ok(fview.take(i as int)),
                recovery_ok(
                    fview.take(i as int),
                    dir_recs(fview.take(i as int)),
                    index@,
                    uncompacted,
                    total_of(fview.take(i as int)),
                ),
                i > 0 ==> last_id == fview[i - 1].0,
            decreases files@.len() - i,
        {
            let ghost dpre = fview.take(i as int);
            proof {
                assert(fview[i as int] == (files@[i as int].id, files@[i as int].data@));
                lemma_total_nonneg(dpre);
                lemma_total_take(fview, i as int);
                assert(fview.take(i + 1).drop_last() =~= dpre);
                assert(fview.take(i + 1).last() == fview[i as int]);
                assert(total_of(fview.take(i + 1)) == total_of(dpre) + fview[i as int].1.len());
                lemma_total_take(fview, i + 1);
                assert forall|x: int| 0 <= x < dpre.len() implies dpre[x].0
                    != files@[i as int].id by {
                    assert(fview[x].0 < fview[i as int].0);
                }
                lemma_lookup_none(dpre, files@[i as int].id);
                lemma_recovery_push_seg(
                    dpre,
                    files@[i as int].id,
                    files@[i as int].data@,
                    dir_recs(dpre),
                    index@,
                    uncompacted,
                    total_of(dpre),
                );
            }
            let f_id = files[i].id;
            let flen = files[i].data.len();
            let data_copy = slice_range(&files[i].data, 0, flen);
            proof {
                assert(data_copy@ =~= files@[i as int].data@);
            }
            let mut rdr = BufReaderWithPos::new(data_copy);
            match KvStore::load_log_file(
                f_id,
                &mut rdr,
                &mut index,
                &mut uncompacted,
                Ghost(dpre),
            ) {
                Ok(()) => {},
                Err(e) => {
                    proof {
                        assert(!seg_ok(fview[i as int].1));
                    }
                    return Err(e);
                },
            }
            sealed.push(LogFile { id: f_id, data: rdr.into_data() });
            last_id = f_id;
            proof {
                assert(files_view(sealed@) =~= fview.take(i + 1));
                assert(dpre.push((files@[i as int].id, files@[i as int].data@)) =~= fview.take(
                    i + 1,
                ));
                assert(dir_recs(fview.take(i + 1)) == dir_recs(dpre) + recs_of(
                    fview[i as int].1,
                ));
                assert forall|x: int| 0 <= x < i + 1 implies seg_ok(
                    #[trigger] fview.take(i + 1)[x].1,
                ) by {
                    if x < i {
                        assert(seg_ok(dpre[x].1));
                    }
                }
            }
            i = i + 1;
        }
        proof {
            assert(fview.take(i as int) =~= fview);
        }
        let current_log_id: u64 = if files.len() == 0 {
            1
        } else {
            last_id + 1
        };
        let writer = BufWriterWithPos::new(Vec::new());
        let store = KvStore { sealed, writer, current_log_id, index, uncompacted };
        proof {
            let d2 = store.dir();
            assert(d2 =~= fview.push((current_log_id, Seq::<u8>::empty())));
            lemma_recovery_push_seg(
                fview,
                current_log_id,
                Seq::<u8>::empty(),
                dir_recs(fview),
                store.index@,
                store.uncompacted,
                total_of(fview),
            );
            assert forall|a: int, b: int| 0 <= a < b < d2.len() implies d2[a].0 < d2[b].0 by {
                if b == d2.len() - 1 {
                    if files@.len() > 0 {
                        assert(fview[a].0 <= fview[fview.len() - 1].0);
                    }
                }
            }
            assert(parse_all_from(Seq::<u8>::empty(), 0) == Some(Seq::<LogRecord>::empty()));
            assert(seg_ok(Seq::<u8>::empty()));
            assert forall|x: int| 0 <= x < d2.len() implies seg_ok(#[trigger] d2[x].1) by {
                if x < d2.len() - 1 {
                    assert(seg_ok(fview[x].1));
                }
            }
            assert(d2.drop_last() =~= fview);
            assert(total_of(d2) == total_of(d2.drop_last()) + 0);
            assert(dir_recs(d2) == dir_recs(fview) + recs_of(Seq::<u8>::empty()));
            assert(recs_of(Seq::<u8>::empty()) =~= Seq::<LogRecord>::empty());
            assert(dir_recs(d2) =~= dir_recs(fview));
            assert(store@ =~= Map::new(
                |k: Seq<char>| ptr_map(store.index@).contains_key(k),
                |k: Seq<char>| value_in(d2, ptr_map(store.index@)[k]),
            ));
            reveal(KvStore::replay_matches);
            assert(replay_dir(d2) == store@);
            assert(store.wf());
        }
        Ok(store)
    }

    /// Gets the string value of a given string key.
    ///
    /// Returns `None` exactly when the key is not live.
    pub fn get(&mut self, key: String) -> (r: Result<Option<String>, KvsError>)
        requires
            old(self).wf(),
        ensures
            *final(self) == *old(self),
            final(self).wf(),
            r matches Ok(o) && (o is Some <==> old(self)@.contains_key(key@)) && (o matches Some(v)
                ==> v@ == old(self)@[key@]),
    {
        proof {
            lemma_ptr_map_contains(self.index@, key@);
        }
        match self.index_find(&key) {
            None => Ok(None),
            Some(j) => {
                proof {
                    assert(self.entry_ok(j as int));
                    lemma_ptr_map_get(self.index@, j as int);
                    encode_utf8_valid_utf8(self.index@[j as int].0@);
                }
                let p = self.index[j].1;
                let t = match self.seg_data(p.log_file_id) {
                    Some(t) => t,
                    None => {
                        proof {
                            assert(false);
                        }
                        return Err(KvsError::UnexpectedCommand);
                    },
                };
                let tl = t.len();
                proof {
                    if let Some(re) = parse_one(t@, p.start_position as int) {
                        lemma_parse_sound(t@, p.start_position as int, re.0, re.1);
                    }
                    assert(p.start_position + p.len <= tl);
                }
                let start = p.start_position as usize;
                let end = (p.start_position + p.len) as usize;
                let slice = slice_range(t, start, end);
                proof {
                    let re = parse_one(t@, p.start_position as int)->0;
                    assert(slice@ =~= enc(re.0));
                    assert(slice@.subrange(0, enc(re.0).len() as int) =~= enc(re.0));
                    lemma_parse_of_enc(slice@, 0, re.0);
                }
                match decode_record(&slice, 0) {
                    Ok(cp) => match cp.0 {
                        Command::SetCmd(args) => {
                            proof {
                                encode_utf8_decode_utf8(args.value@);
                            }
                            Ok(Some(args.value))
                        },
                        _ => {
                            proof {
                                assert(false);
                            }
                            Err(KvsError::UnexpectedCommand)
                        },
                    },
                    Err(_) => {
                        proof {
                            assert(false);
                        }
                        Err(KvsError::SerializationError)
                    },
                }
            },
        }
    }

    /// Shared premises of the `set` bookkeeping lemmas: the record was
    /// appended to the active segment, and the key's entry was moved to the
    /// end of the index, displacing at most the entry `disp_j`.
    spec fn set_shape(
        pre: KvStore,
        post: KvStore,
        mid: Seq<(String, LogPointer)>,
        disp: Option<LogPointer>,
        disp_j: int,
        keyv: Seq<char>,
        valv: Seq<char>,
        ptr: LogPointer,
        re0: LogRecord,
    ) -> bool {
        &&& pre.wf()
        &&& re0 == set_rec(keyv, valv)
        &&& post.sealed@ == pre.sealed@
        &&& post.current_log_id == pre.current_log_id
        &&& post.writer@ == pre.writer@ + enc(re0)
        &&& post.writer.wf()
        &&& pre.writer.wf()
        &&& ptr.log_file_id == pre.current_log_id
        &&& ptr.start_position == pre.writer@.len()
        &&& ptr.len == enc(re0).len()
        &&& post.index@.len() == mid.len() + 1
        &&& post.index@.drop_last() == mid
        &&& post.index@.last().0@ == keyv
        &&& post.index@.last().1 == ptr
        &&& match disp {
            Some(op) => 0 <= disp_j < pre.index@.len() && pre.index@[disp_j].0@ == keyv && mid
                == pre.index@.remove(disp_j) && op == pre.index@[disp_j].1,
            None => mid == pre.index@ && (forall|x: int|
                0 <= x < pre.index@.len() ==> pre.index@[x].0@ != keyv),
        }
        &&& post.uncompacted == pre.uncompacted + (match disp {
            Some(op) => op.len as int,
            None => 0,
        })
        &&& total_of(pre.dir()) + enc(re0).len() <= u64::MAX
    }

    /// After a `set`'s index update, the index is still a one-entry-per-key
    /// list of sound pointers, and its mapping and live byte count moved as
    /// an insertion should.
    #[verifier::rlimit(100)]
    proof fn lemma_set_index(
        pre: KvStore,
        post: KvStore,
        mid: Seq<(String, LogPointer)>,
        disp: Option<LogPointer>,
        disp_j: int,
        keyv: Seq<char>,
        valv: Seq<char>,
        ptr: LogPointer,
        re0: LogRecord,
    )
        requires
            KvStore::set_shape(pre, post, mid, disp, disp_j, keyv, valv, ptr, re0),
        ensures
            keys_unique(post.index@),
            ptr_map(post.index@) == ptr_map(mid).insert(keyv, ptr),
            live_sum(post.index@) == live_sum(mid) + ptr.len,
            live_sum(mid) == live_sum(pre.index@) - (match disp {
                Some(op) => op.len as int,
                None => 0,
            }),
            (match disp {
                Some(op) => ptr_map(mid) == ptr_map(pre.index@).remove(keyv),
                None => ptr_map(mid) == ptr_map(pre.index@) && !ptr_map(mid).contains_key(keyv),
            }),
    {
        let nix = post.index@;
        if let Some(op) = disp {
            lemma_ptr_map_get(pre.index@, disp_j);
            lemma_index_remove(pre.index@, disp_j);
        } else {
            lemma_ptr_map_contains(pre.index@, keyv);
        }
        assert(ptr_map(nix) == ptr_map(mid).insert(keyv, ptr));
        assert forall|a: int, b: int| 0 <= a < b < nix.len() implies nix[a].0@ != nix[b].0@ by {
            if b < nix.len() - 1 {
                assert(mid[a].0@ != mid[b].0@);
            } else {
                if disp is Some {
                    let y: int = if a < disp_j {
                        a
                    } else {
                        a + 1
                    };
                    assert(pre.index@.remove(disp_j)[a] == pre.index@[y]);
                    assert(pre.index@[y].0@ != pre.index@[disp_j].0@);
                } else {
                    assert(pre.index@[a].0@ != keyv);
                }
            }
        }
    }

    /// After a `set`'s index update, every entry's pointer is sound again.
    #[verifier::rlimit(100)]
    proof fn lemma_set_entries(
        pre: KvStore,
        post: KvStore,
        mid: Seq<(String, LogPointer)>,
        disp: Option<LogPointer>,
        disp_j: int,
        keyv: Seq<char>,
        valv: Seq<char>,
        ptr: LogPointer,
        re0: LogRecord,
    )
        requires
            KvStore::set_shape(pre, post, mid, disp, disp_j, keyv, valv, ptr, re0),
        ensures
            forall|x: int| 0 <= x < post.index@.len() ==> post.entry_ok(x),
    {
        let nix = post.index@;
        encode_utf8_valid_utf8(keyv);
        encode_utf8_valid_utf8(valv);
        KvStore::lemma_append_active(pre, post, re0);
        lemma_index_update(pre.index@, mid, nix, disp, disp_j, keyv, ptr);
        assert forall|x: int| 0 <= x < nix.len() implies post.entry_ok(x) by {
            if x < nix.len() - 1 {
                let y: int = match disp {
                    Some(op) => if x < disp_j {
                        x
                    } else {
                        x + 1
                    },
                    None => x,
                };
                assert(mid[x] == pre.index@[y]);
                assert(pre.entry_ok(y));
                assert(pre.ptr_ok(mid[x].0, mid[x].1));
            } else {
                assert(parse_one(post.writer@, ptr.start_position as int) == Some(
                    (re0, ptr.start_position + ptr.len),
                ));
            }
        }
    }

    /// What `set`'s bookkeeping establishes in full: the engine is
    /// well-formed again and its map gained exactly the one binding.
    #[verifier::rlimit(100)]
    proof fn lemma_set_update(
        pre: KvStore,
        post: KvStore,
        mid: Seq<(String, LogPointer)>,
        disp: Option<LogPointer>,
        disp_j: int,
        keyv: Seq<char>,
        valv: Seq<char>,
        ptr: LogPointer,
        re0: LogRecord,
    )
        requires
            KvStore::set_shape(pre, post, mid, disp, disp_j, keyv, valv, ptr, re0),
        ensures
            post.wf(),
            post@ == pre@.insert(keyv, valv),
    {
        let nix = post.index@;
        encode_utf8_valid_utf8(keyv);
        encode_utf8_valid_utf8(valv);
        encode_utf8_decode_utf8(keyv);
        encode_utf8_decode_utf8(valv);
        KvStore::lemma_set_index(pre, post, mid, disp, disp_j, keyv, valv, ptr, re0);
        KvStore::lemma_set_entries(pre, post, mid, disp, disp_j, keyv, valv, ptr, re0);
        KvStore::lemma_append_active(pre, post, re0);
        KvStore::lemma_values_preserved(pre, post);
        assert(post@ =~= pre@.insert(keyv, valv)) by {
            assert(forall|k2: Seq<char>|
                k2 != keyv ==> (#[trigger] ptr_map(nix).contains_key(k2) <==> ptr_map(
                    pre.index@,
                ).contains_key(k2)));
            assert(forall|k2: Seq<char>|
                k2 != keyv && #[trigger] ptr_map(nix).contains_key(k2) ==> ptr_map(nix)[k2]
                    == ptr_map(pre.index@)[k2]);
            assert(post@.contains_key(keyv));
            assert(post@[keyv] == valv);
        }
        assert(total_of(post.dir()) == live_sum(nix) + post.uncompacted);
        reveal(KvStore::replay_matches);
        lemma_replay_snoc(Map::empty(), dir_recs(pre.dir()), re0);
        assert(replay_dir(post.dir()) == apply_rec(pre@, re0));
        assert(apply_rec(pre@, re0) =~= pre@.insert(keyv, valv));
        assert(post.wf());
    }

    /// Sets the value of a string key to a string.
    ///
    /// If the key already exists, the previous value is overwritten, and
    /// the bytes of the overwritten record become stale; crossing the
    /// stale-byte threshold triggers compaction.
    #[verifier::rlimit(100)]
    pub fn set(&mut self, key: String, value: String) -> (r: Result<(), KvsError>)
        requires
            old(self).wf(),
            old(self).can_write(set_rec(key@, value@)),
        ensures
            r is Ok,
            final(self).wf(),
            final(self)@ == old(self)@.insert(key@, value@),
            final(self).stale() <= COMPACTION_THRESHOLD,
            old(self).active_id() <= final(self).active_id() <= old(self).active_id() + 2,
            final(self).total_len() <= old(self).total_len() + enc(set_rec(key@, value@)).len(),
            old(self).stale() + old(self).key_record_len(key@) <= COMPACTION_THRESHOLD ==> ({
                &&& appended_rec(old(self).dir(), final(self).dir(), set_rec(key@, value@))
                &&& final(self).stale() == old(self).stale() + old(self).key_record_len(key@)
                &&& final(self).active_id() == old(self).active_id()
                &&& final(self).total_len() == old(self).total_len() + enc(
                    set_rec(key@, value@),
                ).len()
            }),
            old(self).stale() + old(self).key_record_len(key@) > COMPACTION_THRESHOLD ==> ({
                &&& final(self).stale() == 0
                &&& final(self).active_id() == old(self).active_id() + 2
                &&& final(self).total_len() == final(self).live_len()
            }),
    {
        let ghost pre = *self;
        let cmd = Command::SetCmd(SetArgs { key: key.clone(), value });
        let ghost re0 = rec_of(cmd);
        proof {
            assert(re0 == set_rec(key@, value@));
            encode_utf8_valid_utf8(key@);
            encode_utf8_valid_utf8(value@);
            lemma_total_nonneg(pre.dir().drop_last());
            assert(total_of(pre.dir()) == total_of(pre.dir().drop_last()) + pre.writer@.len());
        }
        let pos = self.writer.pos;
        let data = encode_command(&cmd);
        self.writer.write_all(&data);
        self.writer.flush();
        let end_pos = self.writer.pos;
        let ptr = LogPointer::from_range(self.current_log_id, pos, end_pos);
        proof {
            KvStore::lemma_append_active(pre, *self, re0);
        }
        let mut displaced: Option<LogPointer> = None;
        let ghost mut mid = self.index@;
        let ghost mut disp_j: int = 0;
        match self.index_find(&key) {
            Some(j) => {
                proof {
                    assert(pre.entry_ok(j as int));
                    lemma_ptr_map_get(pre.index@, j as int);
                    lemma_index_remove(pre.index@, j as int);
                    lemma_live_nonneg(pre.index@.remove(j as int));
                    disp_j = j as int;
                }
                let e = self.index.remove(j);
                displaced = Some(e.1);
                proof {
                    mid = self.index@;
                }
            },
            None => {
                proof {
                    lemma_ptr_map_contains(pre.index@, key@);
                }
            },
        }
        self.index.push((key, ptr));
        match displaced {
            Some(op) => {
                self.uncompacted = self.uncompacted + op.len;
            },
            None => {},
        }
        proof {
            assert(self.index@.drop_last() =~= mid);
            KvStore::lemma_set_update(
                pre,
                *self,
                mid,
                displaced,
                disp_j,
                key@,
                value@,
                ptr,
                re0,
            );
            // the record landed at the end of the active segment, and the
            // stale count rose by exactly the displaced record's length
            assert(self.uncompacted == pre.uncompacted + pre.key_record_len(key@));
            assert(self.dir().drop_last() =~= pre.dir().drop_last());
            assert(appended_rec(pre.dir(), self.dir(), re0));
        }
        if self.uncompacted > COMPACTION_THRESHOLD {
            match self.compact() {
                Ok(()) => {},
                Err(e) => {
                    proof {
                        assert(false);
                    }
                    return Err(e);
                },
            }
        }
        Ok(())
    }

    /// After a `remove`'s index update, every surviving entry's pointer is
    /// still sound.
    #[verifier::rlimit(100)]
    proof fn lemma_rm_entries(
        pre: KvStore,
        post: KvStore,
        disp_j: int,
        keyv: Seq<char>,
        re0: LogRecord,
    )
        requires
            pre.wf(),
            re0 == rm_rec(keyv),
            post.sealed@ == pre.sealed@,
            post.current_log_id == pre.current_log_id,
            post.writer@ == pre.writer@ + enc(re0),
            0 <= disp_j < pre.index@.len(),
            post.index@ == pre.index@.remove(disp_j),
        ensures
            forall|x: int| 0 <= x < post.index@.len() ==> post.entry_ok(x),
    {
        let mid = post.index@;
        encode_utf8_valid_utf8(keyv);
        KvStore::lemma_append_active(pre, post, re0);
        assert forall|x: int| 0 <= x < mid.len() implies post.entry_ok(x) by {
            let y: int = if x < disp_j {
                x
            } else {
                x + 1
            };
            assert(pre.index@.remove(disp_j)[x] == pre.index@[y]);
            assert(pre.entry_ok(y));
            assert(pre.ptr_ok(mid[x].0, mid[x].1));
        }
    }

    /// What `remove`'s bookkeeping establishes: dropping the key's entry,
    /// appending the tombstone, and counting both as stale leaves the
    /// engine well-formed with exactly that binding gone.
    #[verifier::rlimit(100)]
    proof fn lemma_rm_update(
        pre: KvStore,
        post: KvStore,
        disp_j: int,
        keyv: Seq<char>,
        re0: LogRecord,
    )
        requires
            pre.wf(),
            re0 == rm_rec(keyv),
            post.sealed@ == pre.sealed@,
            post.current_log_id == pre.current_log_id,
            post.writer@ == pre.writer@ + enc(re0),
            post.writer.wf(),
            pre.writer.wf(),
            0 <= disp_j < pre.index@.len(),
            pre.index@[disp_j].0@ == keyv,
            post.index@ == pre.index@.remove(disp_j),
            post.uncompacted == pre.uncompacted + pre.index@[disp_j].1.len + enc(re0).len(),
            total_of(pre.dir()) + enc(re0).len() <= u64::MAX,
        ensures
            post.wf(),
            post@ == pre@.remove(keyv),
    {
        let mid = post.index@;
        encode_utf8_valid_utf8(keyv);
        encode_utf8_decode_utf8(keyv);
        KvStore::lemma_append_active(pre, post, re0);
        lemma_ptr_map_get(pre.index@, disp_j);
        lemma_index_remove(pre.index@, disp_j);
        KvStore::lemma_rm_entries(pre, post, disp_j, keyv, re0);
        KvStore::lemma_values_preserved(pre, post);
        assert(post@ =~= pre@.remove(keyv)) by {
            assert(forall|k2: Seq<char>|
                #[trigger] ptr_map(mid).contains_key(k2) ==> ptr_map(mid)[k2] == ptr_map(
                    pre.index@,
                )[k2] && ptr_map(pre.index@).contains_key(k2));
        }
        assert(total_of(post.dir()) == live_sum(mid) + post.uncompacted);
        reveal(KvStore::replay_matches);
        lemma_replay_snoc(Map::empty(), dir_recs(pre.dir()), re0);
        assert(replay_dir(post.dir()) == apply_rec(pre@, re0));
        assert(apply_rec(pre@, re0) =~= pre@.remove(keyv));
        assert(post.wf());
    }

    /// Removes a given key.
    ///
    /// Fails with `KeyNotFound`, writing nothing and changing nothing, when
    /// the key is not live.  Otherwise the key's record and the tombstone
    /// itself both become stale; crossing the stale-byte threshold triggers
    /// compaction.
    #[verifier::rlimit(100)]
    pub fn remove(&mut self, key: String) -> (r: Result<(), KvsError>)
        requires
            old(self).wf(),
            old(self)@.contains_key(key@) ==> old(self).can_write(rm_rec(key@)),
        ensures
            final(self).wf(),
            old(self)@.contains_key(key@) ==> r is Ok && final(self)@ == old(self)@.remove(key@)
                && final(self).stale() <= COMPACTION_THRESHOLD
                && old(self).active_id() <= final(self).active_id() <= old(self).active_id() + 2
                && final(self).total_len() <= old(self).total_len() + enc(rm_rec(key@)).len(),
            old(self)@.contains_key(key@) && old(self).stale() + old(self).key_record_len(key@)
                + enc(rm_rec(key@)).len() <= COMPACTION_THRESHOLD ==> ({
                &&& appended_rec(old(self).dir(), final(self).dir(), rm_rec(key@))
                &&& final(self).stale() == old(self).stale() + old(self).key_record_len(key@)
                    + enc(rm_rec(key@)).len()
                &&& final(self).active_id() == old(self).active_id()
                &&& final(self).total_len() == old(self).total_len() + enc(rm_rec(key@)).len()
            }),
            old(self)@.contains_key(key@) && old(self).stale() + old(self).key_record_len(key@)
                + enc(rm_rec(key@)).len() > COMPACTION_THRESHOLD ==> ({
                &&& final(self).stale() == 0
                &&& final(self).active_id() == old(self).active_id() + 2
                &&& final(self).total_len() == final(self).live_len()
            }),
            !old(self)@.contains_key(key@) ==> (r matches Err(e) && e is KeyNotFound)
                && *final(self) == *old(self),
    {
        proof {
            lemma_ptr_map_contains(self.index@, key@);
        }
        let found = self.index_find(&key);
        match found {
            None => Err(KvsError::KeyNotFound),
            Some(j) => {
                let ghost pre = *self;
                let ghost jg = j as int;
                proof {
                    assert(pre@.contains_key(key@));
                    assert(pre.entry_ok(jg));
                    lemma_ptr_map_get(pre.index@, jg);
                    lemma_index_remove(pre.index@, jg);
                    lemma_live_nonneg(pre.index@.remove(jg));
                    lemma_total_nonneg(pre.dir().drop_last());
                    assert(total_of(pre.dir()) == total_of(pre.dir().drop_last())
                        + pre.writer@.len());
                }
                let e = self.index.remove(j);
                self.uncompacted = self.uncompacted + e.1.len;
                let cmd = Command::Rm(RmArgs { key: key.clone() });
                let ghost re0 = rec_of(cmd);
                proof {
                    assert(re0 == rm_rec(key@));
                    encode_utf8_valid_utf8(key@);
                }
                let pos = self.writer.pos;
                let data = encode_command(&cmd);
                self.writer.write_all(&data);
                self.writer.flush();
                let end_pos = self.writer.pos;
                self.uncompacted = self.uncompacted + (end_pos - pos);
                proof {
                    KvStore::lemma_rm_update(pre, *self, jg, key@, re0);
                    // the tombstone landed at the end of the active segment,
                    // and both the old record and the tombstone went stale
                    assert(self.uncompacted == pre.uncompacted + pre.key_record_len(key@) + enc(
                        re0,
                    ).len());
                    assert(self.dir().drop_last() =~= pre.dir().drop_last());
                    assert(appended_rec(pre.dir(), self.dir(), re0));
                }
                if self.uncompacted > COMPACTION_THRESHOLD {
                    match self.compact() {
                        Ok(()) => {},
                        Err(e2) => {
                            proof {
                                assert(false);
                            }
                            return Err(e2);
                        },
                    }
                }
                Ok(())
            },
        }
    }
}

} // verus!
