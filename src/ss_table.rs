use vstd::prelude::*;
use std::collections::BTreeMap;
use crate::bytes_order::{bytes_le, lemma_lex_transitive, lemma_lex_trichotomy, lex_le, lex_lt};
use crate::codec::{be_bytes, be_value, lemma_be_round_trip, push_be, read_be};
use crate::command::{CommandData, CommandView, frame_of, frames_of, parse_frame, views, zone_answer, parse_all, lemma_frames_concat, lemma_frames_push, frameable, body_of, lemma_parse_frame, lemma_parse_all, all_frameable, last_with_key};
use crate::error::KvsError;
use crate::score::{Score, ScoreView};

verus! {

/// A run of bytes in a table's file: where it starts and how long it is.
#[derive(Debug, Clone, Copy, PartialEq, Eq, Structural)]
pub struct Position {
    pub start: u64,
    pub len: u64,
}

/// The fixed-size footer at the end of a table's file.
#[derive(Debug, Clone, Copy, PartialEq, Eq, Structural)]
pub struct MetaInfo {
    pub level: u64,
    pub version: u64,
    pub data_len: u64,
    pub index_len: u64,
    pub part_size: u64,
}

/// The size of the footer: five numbers of eight bytes.
pub const META_INFO_SIZE: usize = 40;

/// One entry of the sparse index: the first key of a block and where the block is.
#[derive(Debug, Clone)]
pub struct IndexEntry {
    pub key: Vec<u8>,
    pub pos: Position,
}

/// A sparse index entry over plain values: first key, start, length.
pub type EntryView = (Seq<u8>, u64, u64);

pub open spec fn index_view(v: Seq<IndexEntry>) -> Seq<EntryView> {
    v.map_values(|e: IndexEntry| (e.key@, e.pos.start, e.pos.len))
}

/// The keys strictly ascend.
pub open spec fn strictly_sorted(e: Seq<EntryView>) -> bool {
    forall|i: int, j: int| 0 <= i < j < e.len() ==> lex_lt(#[trigger] e[i].0, #[trigger] e[j].0)
}

/// The footer's bytes.
pub open spec fn meta_bytes(m: MetaInfo) -> Seq<u8> {
    be_bytes(m.level) + be_bytes(m.version) + be_bytes(m.data_len) + be_bytes(m.index_len) + be_bytes(
        m.part_size,
    )
}

/// The footer held in the 40 bytes `b`.
pub open spec fn meta_of(b: Seq<u8>) -> MetaInfo {
    MetaInfo {
        level: be_value(b.subrange(0, 8)),
        version: be_value(b.subrange(8, 16)),
        data_len: be_value(b.subrange(16, 24)),
        index_len: be_value(b.subrange(24, 32)),
        part_size: be_value(b.subrange(32, 40)),
    }
}

/// The MessagePack encoding of a sparse index, as a map from first key to
/// `[start, len]`.
pub uninterp spec fn msgpack_of_index(entries: Seq<EntryView>) -> Seq<u8>;

/// The MessagePack encoding of a key range, as `[start, end]`.
pub uninterp spec fn msgpack_of_score(bounds: (Seq<u8>, Seq<u8>)) -> Seq<u8>;

/// Where `b` is the encoding of an index with ascending keys, `r` is that index.
pub open spec fn decodes_index<E>(r: Result<Vec<IndexEntry>, E>, b: Seq<u8>) -> bool {
    forall|e: Seq<EntryView>|
        strictly_sorted(e) && b == #[trigger] msgpack_of_index(e) ==> (r matches Ok(v) && index_view(v@) == e)
}

/// Where `b` is the encoding of a pair of keys, `r` is the range between them.
pub open spec fn decodes_score<E>(r: Result<Score, E>, b: Seq<u8>) -> bool {
    forall|s: (Seq<u8>, Seq<u8>)|
        b == #[trigger] msgpack_of_score(s) ==> (r matches Ok(v) && v.start@ == s.0 && v.end@ == s.1)
}

#[verifier::external_type_specification]
#[verifier::external_body]
pub struct ExEncodeError(rmp_serde::encode::Error);


/// Relies on rmp_serde::to_vec: the MessagePack encoding of the index as a
/// `BTreeMap<Vec<u8>, (u64, u64)>`, which depends on the entries alone. Writing
/// into a `Vec` does not fail, and maps and sequences are written with known
/// lengths, so the call succeeds.
#[verifier::external_body]
fn index_to_msgpack(entries: &Vec<IndexEntry>) -> (r: Result<Vec<u8>, rmp_serde::encode::Error>)
    ensures
        r is Ok,
        r matches Ok(b) ==> b@ == msgpack_of_index(index_view(entries@)),
{
    let m: BTreeMap<Vec<u8>, (u64, u64)> = entries.iter().map(|e| (e.key.clone(), (e.pos.start, e.pos.len))).collect();
    rmp_serde::to_vec(&m)
}

/// Relies on rmp_serde::to_vec: the MessagePack encoding of the pair
/// `(start, end)`, which depends on the keys alone. Writing into a `Vec` does not
/// fail, so the call succeeds.
#[verifier::external_body]
fn score_to_msgpack(score: &Score) -> (r: Result<Vec<u8>, rmp_serde::encode::Error>)
    ensures
        r is Ok,
        r matches Ok(b) ==> b@ == msgpack_of_score((score.start@, score.end@)),
{
    rmp_serde::to_vec(&(&score.start, &score.end))
}

/// Relies on rmp_serde::from_slice into a `BTreeMap<Vec<u8>, (u64, u64)>`:
/// the entries come out in ascending key order, and the encoding of an index
/// with ascending keys decodes to that index.
#[verifier::external_body]
fn index_from_msgpack(b: &[u8]) -> (r: Result<Vec<IndexEntry>, rmp_serde::decode::Error>)
    ensures
        r matches Ok(v) ==> strictly_sorted(index_view(v@)),
        decodes_index(r, b@),
{
    let m: BTreeMap<Vec<u8>, (u64, u64)> = rmp_serde::from_slice(b)?;
    Ok(m.into_iter().map(|(key, (start, len))| IndexEntry { key, pos: Position { start, len } }).collect())
}

/// Relies on rmp_serde::from_slice into a pair `(Vec<u8>, Vec<u8>)`: the
/// encoding of a pair decodes to that pair.
#[verifier::external_body]
fn score_from_msgpack(b: &[u8]) -> (r: Result<Score, rmp_serde::decode::Error>)
    ensures
        decodes_score(r, b@),
{
    let (start, end): (Vec<u8>, Vec<u8>) = rmp_serde::from_slice(b)?;
    Ok(Score { start, end })
}

/// A table on disk: its footer, sparse index, generation and key range.
pub struct SsTable {
    meta_info: MetaInfo,
    sparse_index: Vec<IndexEntry>,
    gen: i64,
    score: Score,
}

impl PartialEq for SsTable {
    fn eq(&self, other: &SsTable) -> (r: bool) {
        self.meta_info == other.meta_info
    }
}

impl vstd::std_specs::cmp::PartialEqSpecImpl for SsTable {
    open spec fn obeys_eq_spec() -> bool {
        true
    }

    open spec fn eq_spec(&self, other: &SsTable) -> bool {
        self@.meta == other@.meta
    }
}

pub struct TableView {
    pub meta: MetaInfo,
    pub index: Seq<EntryView>,
    pub gen: i64,
    pub score: ScoreView,
}

impl View for SsTable {
    type V = TableView;

    closed spec fn view(&self) -> TableView {
        TableView {
            meta: self.meta_info,
            index: index_view(self.sparse_index@),
            gen: self.gen,
            score: self.score@,
        }
    }
}

pub open spec fn min_int(a: int, b: int) -> int {
    if a <= b {
        a
    } else {
        b
    }
}

/// The sparse index of the blocks of `cs` from position `b` on, blocks of `p`
/// commands (the last may be shorter), the first written at offset `off`.
pub open spec fn block_entries(cs: Seq<CommandView>, p: int, b: int, off: int) -> Seq<EntryView>
    decreases cs.len() - b,
{
    if p <= 0 || b < 0 || b >= cs.len() {
        Seq::empty()
    } else {
        let e = min_int(b + p, cs.len() as int);
        let l = frames_of(cs.subrange(b, e)).len() as int;
        seq![(cs[b].key(), off as u64, l as u64)] + block_entries(cs, p, e, off + l)
    }
}

/// The index after adding the entry `x`: an entry with the same first key as
/// the last one replaces it; any other is appended.
pub open spec fn insert_entry(m: Seq<EntryView>, x: EntryView) -> Seq<EntryView> {
    if m.len() > 0 && m.last().0 == x.0 {
        m.update(m.len() - 1, x)
    } else {
        m.push(x)
    }
}

/// The index after adding the entries of `e` in order, one entry per first key.
pub open spec fn merge_keys(e: Seq<EntryView>) -> Seq<EntryView>
    decreases e.len(),
{
    if e.len() == 0 {
        e
    } else {
        insert_entry(merge_keys(e.drop_last()), e.last())
    }
}

/// The record that carries a table's sparse index and key range: a `Put` whose
/// key is the encoded index and whose value is the encoded range.
pub open spec fn index_record(index: Seq<EntryView>, score: ScoreView) -> CommandView {
    CommandView::Put { key: msgpack_of_index(index), value: msgpack_of_score((score.start, score.end)) }
}

/// `t` and `file` are what building a table from `cs` gives: the frames of the
/// commands, the index record, and the footer.
pub open spec fn built_from(t: TableView, file: Seq<u8>, cs: Seq<CommandView>, part_size: u64, gen: i64, level: u64) -> bool {
    let rec = index_record(t.index, t.score);
    &&& cs.len() > 0
    &&& t.gen == gen
    &&& t.score == (ScoreView { start: cs[0].key(), end: cs.last().key() })
    &&& t.index == merge_keys(block_entries(cs, part_size as int, 0, 0))
    &&& t.meta == (MetaInfo {
        level,
        version: 0,
        data_len: frames_of(cs).len() as u64,
        index_len: frame_of(rec).len() as u64,
        part_size,
    })
    &&& frameable(rec)
    &&& frames_of(cs).len() + frame_of(rec).len() + 40 <= u64::MAX
    &&& file == frames_of(cs) + frame_of(rec) + meta_bytes(t.meta)
}

/// The command framed in exactly the bytes `zone`.
pub open spec fn parse_record(zone: Seq<u8>) -> Option<CommandView> {
    match parse_frame(zone) {
        Some((c, n)) => if n == zone.len() {
            Some(c)
        } else {
            None
        },
        None => None,
    }
}

/// What reopening table `gen` gives from its footer `m` and the bytes `zone` of
/// its index record.
pub open spec fn restored_record(m: MetaInfo, zone: Seq<u8>, gen: i64, r: Result<SsTable, KvsError>) -> bool {
    match parse_record(zone) {
        None => r == Err::<SsTable, KvsError>(KvsError::KeyNotFound),
        Some(CommandView::Remove { .. }) => r == Err::<SsTable, KvsError>(KvsError::NotMatchCmd),
        Some(CommandView::Put { key, value }) => {
            &&& (r is Ok || r is Err && r->Err_0 is Serde)
            &&& r matches Ok(t) ==> t@.meta == m && t@.gen == gen && strictly_sorted(t@.index)
            &&& forall|e: Seq<EntryView>, s: ScoreView|
                strictly_sorted(e) && key == #[trigger] msgpack_of_index(e) && value == #[trigger] msgpack_of_score((s.start, s.end))
                    ==> (r matches Ok(t) && t@.index == e && t@.score == s)
        },
    }
}

/// What reopening `file` as table `gen` gives: the footer is its last 40 bytes,
/// and the index record the `index_len` bytes at `data_len`.
pub open spec fn restored(file: Seq<u8>, gen: i64, r: Result<SsTable, KvsError>) -> bool {
    if file.len() < 40 {
        r == Err::<SsTable, KvsError>(KvsError::KeyNotFound)
    } else {
        let m = meta_of(file.subrange(file.len() - 40, file.len() as int));
        let a = m.data_len as int;
        let l = m.index_len as int;
        if a + l > file.len() {
            r == Err::<SsTable, KvsError>(KvsError::KeyNotFound)
        } else {
            restored_record(m, file.subrange(a, a + l), gen, r)
        }
    }
}

/// The position of the last entry whose first key is at most `key`: the only
/// block that may hold `key`.
pub open spec fn covering(e: Seq<EntryView>, key: Seq<u8>) -> Option<int>
    decreases e.len(),
{
    if e.len() == 0 {
        None
    } else if lex_le(e.last().0, key) {
        Some(e.len() - 1)
    } else {
        covering(e.drop_last(), key)
    }
}

/// `r` answers a lookup of `key` in the table whose index is `index` and whose
/// file is `file`.
pub open spec fn query_answer(index: Seq<EntryView>, file: Seq<u8>, key: Seq<u8>, r: Result<Option<CommandData>, KvsError>) -> bool {
    match covering(index, key) {
        None => r == Ok::<Option<CommandData>, KvsError>(None),
        Some(i) => {
            let s = index[i].1 as int;
            let l = index[i].2 as int;
            if s + l > file.len() {
                r == Err::<Option<CommandData>, KvsError>(KvsError::OutOfRange)
            } else {
                zone_answer(file.subrange(s, s + l), key, r)
            }
        },
    }
}

/// The keys of `cs` strictly ascend.
pub open spec fn keys_ascending(cs: Seq<CommandView>) -> bool {
    forall|i: int, j: int| 0 <= i < j < cs.len() ==> lex_lt(#[trigger] cs[i].key(), #[trigger] cs[j].key())
}

/// The keys of `cs` ascend, equal keys allowed.
pub open spec fn keys_sorted(cs: Seq<CommandView>) -> bool {
    forall|i: int, j: int| 0 <= i < j < cs.len() ==> lex_le(#[trigger] cs[i].key(), #[trigger] cs[j].key())
}

pub open spec fn entries_sorted(e: Seq<EntryView>) -> bool {
    forall|i: int, j: int| 0 <= i < j < e.len() ==> lex_le(#[trigger] e[i].0, #[trigger] e[j].0)
}

proof fn lemma_merge_identity(e: Seq<EntryView>)
    requires
        strictly_sorted(e),
    ensures
        merge_keys(e) == e,
    decreases e.len(),
{
    if e.len() > 0 {
        let d = e.drop_last();
        assert(strictly_sorted(d)) by {
            assert forall|i: int, j: int| 0 <= i < j < d.len() implies lex_lt(#[trigger] d[i].0, #[trigger] d[j].0) by {
                assert(d[i] == e[i] && d[j] == e[j]);
            }
        }
        lemma_merge_identity(d);
        if d.len() > 0 {
            assert(lex_lt(e[e.len() - 2].0, e[e.len() - 1].0));
            lemma_lex_trichotomy(d.last().0, e.last().0);
        }
        assert(d.push(e.last()) =~= e);
    }
}

proof fn lemma_merge_sorted(e: Seq<EntryView>)
    requires
        entries_sorted(e),
    ensures
        strictly_sorted(merge_keys(e)),
        e.len() > 0 ==> merge_keys(e).len() > 0 && merge_keys(e).last().0 == e.last().0,
    decreases e.len(),
{
    if e.len() > 0 {
        let d = e.drop_last();
        let x = e.last();
        assert(entries_sorted(d)) by {
            assert forall|i: int, j: int| 0 <= i < j < d.len() implies lex_le(#[trigger] d[i].0, #[trigger] d[j].0) by {
                assert(d[i] == e[i] && d[j] == e[j]);
            }
        }
        lemma_merge_sorted(d);
        let m = merge_keys(d);
        if m.len() > 0 && m.last().0 != x.0 {
            assert(lex_le(e[e.len() - 2].0, e[e.len() - 1].0));
            assert(lex_lt(m.last().0, x.0));
            let r = m.push(x);
            assert forall|i: int, j: int| 0 <= i < j < r.len() implies lex_lt(#[trigger] r[i].0, #[trigger] r[j].0) by {
                if j == r.len() - 1 && i < m.len() - 1 {
                    assert(lex_lt(m[i].0, m[m.len() - 1].0));
                    lemma_lex_transitive(m[i].0, m.last().0, x.0);
                }
            }
        } else if m.len() > 0 {
            let r = m.update(m.len() - 1, x);
            assert forall|i: int, j: int| 0 <= i < j < r.len() implies lex_lt(#[trigger] r[i].0, #[trigger] r[j].0) by {
                assert(lex_lt(m[i].0, m[j].0));
            }
        }
    }
}

proof fn lemma_merge_members(e: Seq<EntryView>)
    ensures
        forall|k: int| 0 <= k < merge_keys(e).len() ==> exists|k2: int| 0 <= k2 < e.len() && #[trigger] merge_keys(e)[k] == e[k2],
    decreases e.len(),
{
    if e.len() > 0 {
        let d = e.drop_last();
        lemma_merge_members(d);
        let m = merge_keys(d);
        assert forall|k: int| 0 <= k < merge_keys(e).len() implies exists|k2: int| 0 <= k2 < e.len() && #[trigger] merge_keys(e)[k] == e[k2] by {
            if merge_keys(e)[k] == e.last() {
                assert(merge_keys(e)[k] == e[e.len() - 1]);
            } else {
                assert(k < m.len() && merge_keys(e)[k] == m[k]);
                let k2 = choose|k2: int| 0 <= k2 < d.len() && m[k] == d[k2];
                assert(e[k2] == d[k2]);
            }
        }
    }
}

proof fn lemma_block_entries_ordered(cs: Seq<CommandView>, p: int, b: int, off: int)
    requires
        keys_sorted(cs),
        p >= 1,
        0 <= b,
    ensures
        ({
            let e = block_entries(cs, p, b, off);
            &&& entries_sorted(e)
            &&& b < cs.len() ==> e.len() > 0 && e[0].0 == cs[b].key()
            &&& forall|k: int| 0 <= k < e.len() ==> lex_le(cs[b].key(), #[trigger] e[k].0)
        }),
    decreases cs.len() - b,
{
    if b < cs.len() {
        let en = min_int(b + p, cs.len() as int);
        let l = frames_of(cs.subrange(b, en)).len() as int;
        let rest = block_entries(cs, p, en, off + l);
        lemma_block_entries_ordered(cs, p, en, off + l);
        let e = block_entries(cs, p, b, off);
        assert(e == seq![(cs[b].key(), off as u64, l as u64)] + rest);
        assert forall|k: int| 0 <= k < e.len() implies lex_le(cs[b].key(), #[trigger] e[k].0) by {
            if k > 0 {
                assert(e[k] == rest[k - 1]);
                assert(en < cs.len());
                assert(lex_le(cs[b].key(), cs[en].key()));
                crate::bytes_order::lemma_lex_le_transitive(cs[b].key(), cs[en].key(), rest[k - 1].0);
            }
        }
        assert forall|i: int, j: int| 0 <= i < j < e.len() implies lex_le(#[trigger] e[i].0, #[trigger] e[j].0) by {
            if i > 0 {
                assert(e[i] == rest[i - 1]);
                assert(e[j] == rest[j - 1]);
            }
        }
    }
}

/// The sparse index built from a batch whose keys ascend, equal keys allowed,
/// has strictly ascending keys.
pub proof fn lemma_built_index_sorted(cs: Seq<CommandView>, p: int)
    requires
        keys_sorted(cs),
        p >= 1,
    ensures
        strictly_sorted(merge_keys(block_entries(cs, p, 0, 0))),
{
    lemma_block_entries_ordered(cs, p, 0, 0);
    lemma_merge_sorted(block_entries(cs, p, 0, 0));
}

pub proof fn lemma_meta_round_trip(m: MetaInfo)
    ensures
        meta_of(meta_bytes(m)) == m,
{
    let b = meta_bytes(m);
    assert(b.subrange(0, 8) =~= be_bytes(m.level));
    assert(b.subrange(8, 16) =~= be_bytes(m.version));
    assert(b.subrange(16, 24) =~= be_bytes(m.data_len));
    assert(b.subrange(24, 32) =~= be_bytes(m.index_len));
    assert(b.subrange(32, 40) =~= be_bytes(m.part_size));
    lemma_be_round_trip(m.level);
    lemma_be_round_trip(m.version);
    lemma_be_round_trip(m.data_len);
    lemma_be_round_trip(m.index_len);
    lemma_be_round_trip(m.part_size);
}

proof fn lemma_block_entries_sorted(cs: Seq<CommandView>, p: int, b: int, off: int)
    requires
        keys_ascending(cs),
        p >= 1,
        0 <= b,
    ensures
        ({
            let e = block_entries(cs, p, b, off);
            &&& strictly_sorted(e)
            &&& b < cs.len() ==> e.len() > 0 && e[0].0 == cs[b].key()
            &&& forall|k: int| 0 < k < e.len() ==> lex_lt(cs[b].key(), #[trigger] e[k].0)
        }),
    decreases cs.len() - b,
{
    if b < cs.len() {
        let en = min_int(b + p, cs.len() as int);
        let l = frames_of(cs.subrange(b, en)).len() as int;
        let rest = block_entries(cs, p, en, off + l);
        lemma_block_entries_sorted(cs, p, en, off + l);
        let e = block_entries(cs, p, b, off);
        assert(e == seq![(cs[b].key(), off as u64, l as u64)] + rest);
        assert forall|k: int| 0 < k < e.len() implies lex_lt(cs[b].key(), #[trigger] e[k].0) by {
            assert(e[k] == rest[k - 1]);
            assert(en < cs.len());
            assert(lex_lt(cs[b].key(), cs[en].key()));
            if k - 1 > 0 {
                lemma_lex_transitive(cs[b].key(), cs[en].key(), rest[k - 1].0);
            }
        }
        assert forall|i: int, j: int| 0 <= i < j < e.len() implies lex_lt(#[trigger] e[i].0, #[trigger] e[j].0) by {
            if i > 0 {
                assert(e[i] == rest[i - 1]);
                assert(e[j] == rest[j - 1]);
            }
        }
    }
}

/// Reopening the file that building a table gave brings back the same footer,
/// sparse index, key range and generation.
pub proof fn lemma_restore_after_create(
    t: TableView,
    file: Seq<u8>,
    cs: Seq<CommandView>,
    part_size: u64,
    gen: i64,
    level: u64,
    r: Result<SsTable, KvsError>,
)
    requires
        part_size >= 1,
        keys_sorted(cs),
        built_from(t, file, cs, part_size, gen, level),
        restored(file, gen, r),
    ensures
        r matches Ok(t2) && t2@ == t,
{
    let rec = index_record(t.index, t.score);
    let d = frames_of(cs);
    let f = frame_of(rec);
    assert(file.subrange(file.len() - 40, file.len() as int) =~= meta_bytes(t.meta));
    lemma_meta_round_trip(t.meta);
    assert(file.subrange(d.len() as int, (d.len() + f.len()) as int) =~= f + Seq::<u8>::empty());
    lemma_parse_frame(rec, Seq::<u8>::empty());
    assert(parse_record(file.subrange(d.len() as int, (d.len() + f.len()) as int)) == Some(rec));
    lemma_built_index_sorted(cs, part_size as int);
    let t2 = r->Ok_0@;
    assert(t2.index == t.index && t2.score == t.score && t2.meta == t.meta && t2.gen == t.gen);
}

/// The position in `cs` of the first command of block `k`, counting blocks of
/// `p` commands from position `b`.
pub open spec fn block_lo(cs: Seq<CommandView>, p: int, b: int, k: nat) -> int
    decreases k,
{
    if k == 0 {
        b
    } else {
        block_lo(cs, p, min_int(b + p, cs.len() as int), (k - 1) as nat)
    }
}

proof fn lemma_block_entry(cs: Seq<CommandView>, p: int, b: int, off: int, k: nat)
    requires
        p >= 1,
        0 <= b,
        k < block_entries(cs, p, b, off).len(),
    ensures
        ({
            let lo = block_lo(cs, p, b, k);
            let hi = min_int(lo + p, cs.len() as int);
            &&& b <= lo < hi <= cs.len()
            &&& block_entries(cs, p, b, off)[k as int] == (
                cs[lo].key(),
                (off + frames_of(cs.subrange(b, lo)).len()) as u64,
                frames_of(cs.subrange(lo, hi)).len() as u64,
            )
            &&& block_lo(cs, p, b, k + 1) == hi
        }),
    decreases k,
{
    let n = cs.len() as int;
    let e = min_int(b + p, n);
    let l = frames_of(cs.subrange(b, e)).len() as int;
    let rest = block_entries(cs, p, e, off + l);
    assert(b < n);
    assert(block_entries(cs, p, b, off) == seq![(cs[b].key(), off as u64, l as u64)] + rest);
    if k == 0 {
        assert(block_lo(cs, p, b, 1) == block_lo(cs, p, e, 0));
        assert(cs.subrange(b, b) =~= Seq::<CommandView>::empty());
        assert(frames_of(Seq::<CommandView>::empty()) =~= Seq::<u8>::empty());
    } else {
        lemma_block_entry(cs, p, e, off + l, (k - 1) as nat);
        let lo = block_lo(cs, p, b, k);
        assert(lo == block_lo(cs, p, e, (k - 1) as nat));
        assert(block_lo(cs, p, b, k + 1) == block_lo(cs, p, e, k as nat));
        lemma_frames_concat(cs.subrange(b, e), cs.subrange(e, lo));
        assert(cs.subrange(b, e) + cs.subrange(e, lo) =~= cs.subrange(b, lo));
    }
}

proof fn lemma_find_block(cs: Seq<CommandView>, p: int, b: int, off: int, j: int) -> (k: nat)
    requires
        p >= 1,
        0 <= b <= j < cs.len(),
    ensures
        k < block_entries(cs, p, b, off).len(),
        block_lo(cs, p, b, k) <= j < min_int(block_lo(cs, p, b, k) + p, cs.len() as int),
    decreases cs.len() - b,
{
    let n = cs.len() as int;
    let e = min_int(b + p, n);
    let l = frames_of(cs.subrange(b, e)).len() as int;
    assert(block_entries(cs, p, b, off) == seq![(cs[b].key(), off as u64, l as u64)] + block_entries(cs, p, e, off + l));
    if j < e {
        0
    } else {
        let k = lemma_find_block(cs, p, e, off + l, j);
        assert(block_lo(cs, p, b, k + 1) == block_lo(cs, p, e, k));
        k + 1
    }
}

proof fn lemma_later_blocks(cs: Seq<CommandView>, p: int, b: int, off: int, k: nat, i: nat)
    requires
        p >= 1,
        0 <= b,
        k < i < block_entries(cs, p, b, off).len(),
    ensures
        block_lo(cs, p, b, i) >= min_int(block_lo(cs, p, b, k) + p, cs.len() as int),
    decreases k,
{
    let n = cs.len() as int;
    let e = min_int(b + p, n);
    let l = frames_of(cs.subrange(b, e)).len() as int;
    assert(block_entries(cs, p, b, off) == seq![(cs[b].key(), off as u64, l as u64)] + block_entries(cs, p, e, off + l));
    assert(block_lo(cs, p, b, i) == block_lo(cs, p, e, (i - 1) as nat));
    lemma_block_entry(cs, p, e, off + l, (i - 1) as nat);
    if k > 0 {
        lemma_later_blocks(cs, p, e, off + l, (k - 1) as nat, (i - 1) as nat);
    }
}

proof fn lemma_covering_is(e: Seq<EntryView>, key: Seq<u8>, k: int)
    requires
        0 <= k < e.len(),
        lex_le(e[k].0, key),
        forall|i: int| k < i < e.len() ==> !lex_le(#[trigger] e[i].0, key),
    ensures
        covering(e, key) == Some(k),
    decreases e.len(),
{
    if k < e.len() - 1 {
        assert(!lex_le(e[e.len() - 1].0, key));
        lemma_covering_is(e.drop_last(), key, k);
    }
}

proof fn lemma_covering_in_range(e: Seq<EntryView>, key: Seq<u8>)
    ensures
        covering(e, key) matches Some(i) ==> 0 <= i < e.len(),
    decreases e.len(),
{
    if e.len() > 0 {
        lemma_covering_in_range(e.drop_last(), key);
    }
}

proof fn lemma_last_with_key_from(s: Seq<CommandView>, key: Seq<u8>)
    ensures
        last_with_key(s, key) matches Some(c) ==> exists|y: int| 0 <= y < s.len() && s[y] == c && c.key() == key,
    decreases s.len(),
{
    if s.len() > 0 {
        lemma_last_with_key_from(s.drop_last(), key);
        if last_with_key(s, key) is Some && s.last().key() != key {
            let c = last_with_key(s, key)->Some_0;
            let y = choose|y: int| 0 <= y < s.drop_last().len() && s.drop_last()[y] == c && c.key() == key;
            assert(s[y] == c);
        }
    }
}

proof fn lemma_last_with_key_unique(s: Seq<CommandView>, y: int)
    requires
        keys_ascending(s),
        0 <= y < s.len(),
    ensures
        last_with_key(s, s[y].key()) == Some(s[y]),
    decreases s.len(),
{
    if y < s.len() - 1 {
        assert(lex_lt(s[y].key(), s[s.len() - 1].key()));
        lemma_lex_trichotomy(s[y].key(), s.last().key());
        let d = s.drop_last();
        assert(keys_ascending(d)) by {
            assert forall|i: int, j: int| 0 <= i < j < d.len() implies lex_lt(#[trigger] d[i].key(), #[trigger] d[j].key()) by {
                assert(d[i] == s[i] && d[j] == s[j]);
            }
        }
        assert(d[y] == s[y]);
        lemma_last_with_key_unique(d, y);
    }
}

proof fn lemma_frames_split(cs: Seq<CommandView>, lo: int, hi: int)
    requires
        0 <= lo <= hi <= cs.len(),
    ensures
        frames_of(cs) == frames_of(cs.take(lo)) + frames_of(cs.subrange(lo, hi)) + frames_of(cs.skip(hi)),
{
    lemma_frames_concat(cs.take(lo), cs.subrange(lo, hi));
    lemma_frames_concat(cs.take(lo) + cs.subrange(lo, hi), cs.skip(hi));
    assert(cs.take(lo) + cs.subrange(lo, hi) + cs.skip(hi) =~= cs);
}

proof fn lemma_all_frameable(cs: Seq<CommandView>)
    requires
        frames_of(cs).len() <= u64::MAX,
    ensures
        all_frameable(cs),
{
    assert forall|i: int| 0 <= i < cs.len() implies frameable(#[trigger] cs[i]) by {
        lemma_frames_split(cs, i, i + 1);
        assert(cs.subrange(i, i + 1) =~= seq![cs[i]]);
        assert(frames_of(seq![cs[i]]) =~= frame_of(cs[i]) + frames_of(seq![cs[i]].drop_first()));
        reveal(frame_of);
    }
}

/// The bytes of block `[lo, hi)` of a built table's file, and what they parse to.
proof fn lemma_block_zone(t: TableView, file: Seq<u8>, cs: Seq<CommandView>, part_size: u64, gen: i64, level: u64, lo: int, hi: int)
    requires
        built_from(t, file, cs, part_size, gen, level),
        0 <= lo < hi <= cs.len(),
    ensures
        ({
            let s = frames_of(cs.take(lo)).len() as int;
            let l = frames_of(cs.subrange(lo, hi)).len() as int;
            &&& s + l <= frames_of(cs).len()
            &&& file.subrange(s, s + l) == frames_of(cs.subrange(lo, hi))
            &&& parse_all(file.subrange(s, s + l)) == Some(cs.subrange(lo, hi))
        }),
{
    lemma_frames_split(cs, lo, hi);
    let s = frames_of(cs.take(lo)).len() as int;
    let l = frames_of(cs.subrange(lo, hi)).len() as int;
    assert(file.subrange(s, s + l) =~= frames_of(cs.subrange(lo, hi)));
    lemma_frames_split(cs, lo, hi);
    lemma_all_frameable(cs);
    let sub = cs.subrange(lo, hi);
    assert(all_frameable(sub)) by {
        assert forall|i: int| 0 <= i < sub.len() implies frameable(#[trigger] sub[i]) by {
            assert(sub[i] == cs[lo + i]);
        }
    }
    lemma_parse_all(sub);
}

/// In a table built from commands with ascending keys, looking up the key of
/// any of them finds that command.
pub proof fn lemma_query_finds_member(
    t: TableView,
    file: Seq<u8>,
    cs: Seq<CommandView>,
    part_size: u64,
    gen: i64,
    level: u64,
    j: int,
    r: Result<Option<CommandData>, KvsError>,
)
    requires
        part_size >= 1,
        keys_ascending(cs),
        built_from(t, file, cs, part_size, gen, level),
        0 <= j < cs.len(),
        query_answer(t.index, file, cs[j].key(), r),
    ensures
        r matches Ok(Some(d)) && d@ == cs[j],
{
    let p = part_size as int;
    let n = cs.len() as int;
    lemma_block_entries_sorted(cs, p, 0, 0);
    lemma_merge_identity(block_entries(cs, p, 0, 0));
    let e = t.index;
    let key = cs[j].key();
    let k = lemma_find_block(cs, p, 0, 0, j);
    lemma_block_entry(cs, p, 0, 0, k);
    let lo = block_lo(cs, p, 0, k);
    let hi = min_int(lo + p, n);
    assert(cs.subrange(0, lo) =~= cs.take(lo));
    assert(lex_le(e[k as int].0, key)) by {
        if lo < j {
            assert(lex_lt(cs[lo].key(), cs[j].key()));
        }
    }
    assert forall|i: int| k < i < e.len() implies !lex_le(#[trigger] e[i].0, key) by {
        lemma_later_blocks(cs, p, 0, 0, k, i as nat);
        lemma_block_entry(cs, p, 0, 0, i as nat);
        let li = block_lo(cs, p, 0, i as nat);
        assert(lex_lt(cs[j].key(), cs[li].key()));
        lemma_lex_trichotomy(cs[j].key(), cs[li].key());
    }
    lemma_covering_is(e, key, k as int);
    lemma_block_zone(t, file, cs, part_size, gen, level, lo, hi);
    let sub = cs.subrange(lo, hi);
    assert(keys_ascending(sub)) by {
        assert forall|a: int, b: int| 0 <= a < b < sub.len() implies lex_lt(#[trigger] sub[a].key(), #[trigger] sub[b].key()) by {
            assert(sub[a] == cs[lo + a] && sub[b] == cs[lo + b]);
        }
    }
    assert(sub[j - lo] == cs[j]);
    lemma_last_with_key_unique(sub, j - lo);
}

proof fn lemma_covering_merge(e: Seq<EntryView>, key: Seq<u8>)
    ensures
        covering(e, key) is None <==> covering(merge_keys(e), key) is None,
        covering(e, key) matches Some(k) ==> (covering(merge_keys(e), key) matches Some(i)
            && 0 <= i < merge_keys(e).len() && merge_keys(e)[i] == e[k]),
    decreases e.len(),
{
    if e.len() > 0 {
        let d = e.drop_last();
        let x = e.last();
        let m = merge_keys(d);
        lemma_covering_merge(d, key);
        lemma_covering_in_range(m, key);
        lemma_covering_in_range(d, key);
        let me = merge_keys(e);
        assert(me == insert_entry(m, x));
        if lex_le(x.0, key) {
            assert(me.last() == x);
            assert(covering(me, key) == Some(me.len() - 1));
            assert(covering(e, key) == Some(e.len() - 1));
        } else if m.len() > 0 && m.last().0 == x.0 {
            assert(me.drop_last() =~= m.drop_last());
            assert(covering(m, key) == covering(m.drop_last(), key));
            assert(covering(me, key) == covering(m.drop_last(), key));
            assert(covering(e, key) == covering(d, key));
            lemma_covering_in_range(m.drop_last(), key);
            if let Some(k) = covering(d, key) {
                let i = covering(m, key)->Some_0;
                assert(me[i] == m[i]);
                assert(e[k] == d[k]);
            }
        } else {
            assert(me.drop_last() =~= m);
            assert(covering(me, key) == covering(m, key));
            assert(covering(e, key) == covering(d, key));
            if let Some(k) = covering(d, key) {
                let i = covering(m, key)->Some_0;
                assert(me[i] == m[i]);
                assert(e[k] == d[k]);
            }
        }
    }
}

proof fn lemma_last_equal_key(cs: Seq<CommandView>, j: int) -> (jl: int)
    requires
        keys_sorted(cs),
        0 <= j < cs.len(),
    ensures
        j <= jl < cs.len(),
        cs[jl].key() == cs[j].key(),
        forall|i: int| jl < i < cs.len() ==> lex_lt(cs[j].key(), #[trigger] cs[i].key()),
    decreases cs.len() - j,
{
    if j + 1 < cs.len() && cs[j + 1].key() == cs[j].key() {
        let jl = lemma_last_equal_key(cs, j + 1);
        jl
    } else {
        assert forall|i: int| j < i < cs.len() implies lex_lt(cs[j].key(), #[trigger] cs[i].key()) by {
            assert(lex_le(cs[j].key(), cs[j + 1].key()));
            assert(lex_lt(cs[j].key(), cs[j + 1].key()));
            if i > j + 1 {
                assert(lex_le(cs[j + 1].key(), cs[i].key()));
                if cs[j + 1].key() != cs[i].key() {
                    lemma_lex_transitive(cs[j].key(), cs[j + 1].key(), cs[i].key());
                }
            }
        }
        j
    }
}

proof fn lemma_last_with_key_found(s: Seq<CommandView>, key: Seq<u8>, y: int)
    requires
        0 <= y < s.len(),
        s[y].key() == key,
    ensures
        last_with_key(s, key) matches Some(c) && c.key() == key,
    decreases s.len(),
{
    if s.last().key() != key {
        assert(s.drop_last()[y] == s[y]);
        lemma_last_with_key_found(s.drop_last(), key, y);
    }
}

/// In a table built from commands whose keys ascend, equal keys allowed,
/// looking up the key of any of them finds a command with that key.
pub proof fn lemma_query_finds_key(
    t: TableView,
    file: Seq<u8>,
    cs: Seq<CommandView>,
    part_size: u64,
    gen: i64,
    level: u64,
    j: int,
    r: Result<Option<CommandData>, KvsError>,
)
    requires
        part_size >= 1,
        keys_sorted(cs),
        built_from(t, file, cs, part_size, gen, level),
        0 <= j < cs.len(),
        query_answer(t.index, file, cs[j].key(), r),
    ensures
        r matches Ok(Some(d)) && d@.key() == cs[j].key(),
{
    let p = part_size as int;
    let n = cs.len() as int;
    let be = block_entries(cs, p, 0, 0);
    let key = cs[j].key();
    let jl = lemma_last_equal_key(cs, j);
    let k = lemma_find_block(cs, p, 0, 0, jl);
    lemma_block_entry(cs, p, 0, 0, k);
    let lo = block_lo(cs, p, 0, k);
    let hi = min_int(lo + p, n);
    assert(lex_le(be[k as int].0, key)) by {
        if lo < jl {
            assert(lex_le(cs[lo].key(), cs[jl].key()));
        }
    }
    assert forall|i: int| k < i < be.len() implies !lex_le(#[trigger] be[i].0, key) by {
        lemma_later_blocks(cs, p, 0, 0, k, i as nat);
        lemma_block_entry(cs, p, 0, 0, i as nat);
        let li = block_lo(cs, p, 0, i as nat);
        assert(lex_lt(key, cs[li].key()));
        lemma_lex_trichotomy(key, cs[li].key());
    }
    lemma_covering_is(be, key, k as int);
    lemma_covering_merge(be, key);
    assert(cs.subrange(0, lo) =~= cs.take(lo));
    lemma_block_zone(t, file, cs, part_size, gen, level, lo, hi);
    let sub = cs.subrange(lo, hi);
    assert(sub[jl - lo] == cs[jl]);
    lemma_last_with_key_found(sub, key, jl - lo);
}

/// In a table built from any batch, looking up a key that no command has finds
/// nothing.
pub proof fn lemma_query_absent_key(
    t: TableView,
    file: Seq<u8>,
    cs: Seq<CommandView>,
    part_size: u64,
    gen: i64,
    level: u64,
    key: Seq<u8>,
    r: Result<Option<CommandData>, KvsError>,
)
    requires
        part_size >= 1,
        built_from(t, file, cs, part_size, gen, level),
        forall|j: int| 0 <= j < cs.len() ==> #[trigger] cs[j].key() != key,
        query_answer(t.index, file, key, r),
    ensures
        r == Ok::<Option<CommandData>, KvsError>(None),
{
    let p = part_size as int;
    let n = cs.len() as int;
    lemma_covering_in_range(t.index, key);
    if let Some(i) = covering(t.index, key) {
        lemma_merge_members(block_entries(cs, p, 0, 0));
        let k2 = choose|k2: int| 0 <= k2 < block_entries(cs, p, 0, 0).len() && #[trigger] t.index[i] == block_entries(cs, p, 0, 0)[k2];
        lemma_block_entry(cs, p, 0, 0, k2 as nat);
        let lo = block_lo(cs, p, 0, k2 as nat);
        let hi = min_int(lo + p, n);
        assert(cs.subrange(0, lo) =~= cs.take(lo));
        lemma_block_zone(t, file, cs, part_size, gen, level, lo, hi);
        let sub = cs.subrange(lo, hi);
        lemma_last_with_key_from(sub, key);
        if last_with_key(sub, key) is Some {
            let c = last_with_key(sub, key)->Some_0;
            let y = choose|y: int| 0 <= y < sub.len() && sub[y] == c && c.key() == key;
            assert(sub[y] == cs[lo + y]);
        }
    }
}

fn write_meta(out: &mut Vec<u8>, m: &MetaInfo)
    ensures
        final(out)@ == old(out)@ + meta_bytes(*m),
{
    push_be(out, m.level);
    push_be(out, m.version);
    push_be(out, m.data_len);
    push_be(out, m.index_len);
    push_be(out, m.part_size);
    assert(final(out)@ =~= old(out)@ + meta_bytes(*m));
}

fn read_meta(file: &[u8]) -> (r: MetaInfo)
    requires
        file@.len() >= 40,
    ensures
        r == meta_of(file@.subrange(file@.len() - 40, file@.len() as int)),
{
    let b = file.len() - META_INFO_SIZE;
    let ghost t = file@.subrange(file@.len() - 40, file@.len() as int);
    assert(file@.subrange(b as int, b + 8) =~= t.subrange(0, 8));
    assert(file@.subrange(b + 8, b + 16) =~= t.subrange(8, 16));
    assert(file@.subrange(b + 16, b + 24) =~= t.subrange(16, 24));
    assert(file@.subrange(b + 24, b + 32) =~= t.subrange(24, 32));
    assert(file@.subrange(b + 32, b + 40) =~= t.subrange(32, 40));
    MetaInfo {
        level: read_be(file, b),
        version: read_be(file, b + 8),
        data_len: read_be(file, b + 16),
        index_len: read_be(file, b + 24),
        part_size: read_be(file, b + 32),
    }
}

impl SsTable {
    /// Writes the commands `[b, e)` of a batch as one block: appends their frames
    /// to `data` and the block's index entry, first key and position, to
    /// `sparse_index`.
    fn write_data_part(vec_cmd_data: &Vec<CommandData>, b: usize, e: usize, data: &mut Vec<u8>, sparse_index: &mut Vec<IndexEntry>)
        requires
            b < e <= vec_cmd_data@.len(),
            old(data)@ == frames_of(views(vec_cmd_data@).take(b as int)),
        ensures
            final(data)@ == frames_of(views(vec_cmd_data@).take(e as int)),
            final(data)@.len() == old(data)@.len() + frames_of(views(vec_cmd_data@).subrange(b as int, e as int)).len(),
            index_view(final(sparse_index)@) == insert_entry(index_view(old(sparse_index)@), (
                vec_cmd_data@[b as int]@.key(),
                old(data)@.len() as u64,
                frames_of(views(vec_cmd_data@).subrange(b as int, e as int)).len() as u64,
            )),
    {
        let ghost cs = views(vec_cmd_data@);
        let start = data.len();
        let mut i = b;
        while i < e
            invariant
                cs == views(vec_cmd_data@),
                b <= i <= e <= vec_cmd_data@.len(),
                start == frames_of(cs.take(b as int)).len(),
                data@ == frames_of(cs.take(i as int)),
            decreases e - i,
        {
            proof {
                lemma_frames_push(cs.take(i as int), cs[i as int]);
                assert(cs.take(i as int).push(cs[i as int]) =~= cs.take(i + 1));
            }
            vec_cmd_data[i].write_to(data);
            i = i + 1;
        }
        proof {
            lemma_frames_concat(cs.take(b as int), cs.subrange(b as int, e as int));
            assert(cs.take(b as int) + cs.subrange(b as int, e as int) =~= cs.take(e as int));
        }
        let entry = IndexEntry {
            key: vec_cmd_data[b].get_key_clone(),
            pos: Position { start: start as u64, len: (data.len() - start) as u64 },
        };
        let ghost x = (cs[b as int].key(), start as u64, (data@.len() - start) as u64);
        let n = sparse_index.len();
        // A block that starts with the key of the previous block's entry takes
        // that entry over: the index holds one entry per key.
        if n > 0 && crate::bytes_order::bytes_eq(sparse_index[n - 1].key.as_slice(), entry.key.as_slice()) {
            sparse_index.set(n - 1, entry);
            assert(index_view(sparse_index@) =~= index_view(old(sparse_index)@).update(n - 1, x));
        } else {
            sparse_index.push(entry);
            assert(index_view(sparse_index@) =~= index_view(old(sparse_index)@).push(x));
        }
    }

    /// Builds a table from a non-empty batch of commands sorted by key: the
    /// commands framed in blocks of `part_size`, then the record of the sparse
    /// index and key range, then the footer. Returns the table and the bytes of
    /// its file.
    pub fn create_for_immutable_table(part_size: u64, gen: i64, vec_mem_data: &Vec<CommandData>, level: usize) -> (r: Result<(SsTable, Vec<u8>), KvsError>)
        requires
            part_size >= 1,
        ensures
            vec_mem_data.len() == 0 ==> r == Err::<(SsTable, Vec<u8>), KvsError>(KvsError::DataEmpty),
            vec_mem_data.len() > 0 ==> r is Ok,
            r matches Ok((t, file)) ==> built_from(t@, file@, views(vec_mem_data@), part_size, gen, level as u64),
            keys_sorted(views(vec_mem_data@)) ==> (r matches Ok((t, _)) ==> strictly_sorted(t@.index)),
    {
        let score = match Score::from_vec_cmd_data(vec_mem_data) {
            Ok(s) => s,
            Err(e) => return Err(e),
        };
        let ghost cs = views(vec_mem_data@);
        let ghost p = part_size as int;
        let n = vec_mem_data.len();
        let mut data: Vec<u8> = Vec::new();
        let mut sparse_index: Vec<IndexEntry> = Vec::new();
        let mut b: usize = 0;
        assert(cs.take(0) =~= Seq::<CommandView>::empty());
        let ghost mut done: Seq<EntryView> = Seq::empty();
        assert(done + block_entries(cs, p, 0, 0) =~= block_entries(cs, p, 0, 0));
        assert(index_view(sparse_index@) =~= merge_keys(done));
        while b < n
            invariant
                n == vec_mem_data@.len(),
                cs == views(vec_mem_data@),
                p == part_size as int,
                p >= 1,
                b <= n,
                data@ == frames_of(cs.take(b as int)),
                done + block_entries(cs, p, b as int, data@.len() as int) == block_entries(cs, p, 0, 0),
                index_view(sparse_index@) == merge_keys(done),
            decreases n - b,
        {
            let e = if ((n - b) as u64) <= part_size {
                n
            } else {
                b + part_size as usize
            };
            assert(e == min_int(b + p, n as int));
            let ghost old_len = data@.len();
            SsTable::write_data_part(vec_mem_data, b, e, &mut data, &mut sparse_index);
            proof {
                let x = (cs[b as int].key(), old_len as u64, (data@.len() - old_len) as u64);
                assert(block_entries(cs, p, b as int, old_len as int) == seq![x] + block_entries(cs, p, e as int, data@.len() as int));
                assert(done.push(x) + block_entries(cs, p, e as int, data@.len() as int) =~= done + block_entries(cs, p, b as int, old_len as int));
                assert(done.push(x).drop_last() =~= done);
                done = done.push(x);
            }
            b = e;
        }
        assert(cs.take(n as int) =~= cs);
        assert(done + block_entries(cs, p, n as int, data@.len() as int) =~= done);
        let data_len = data.len();
        let key_bytes = index_to_msgpack(&sparse_index).unwrap();
        let value_bytes = score_to_msgpack(&score).unwrap();
        let record = CommandData::Put { key: key_bytes, value: value_bytes };
        record.write_to(&mut data);
        let index_len = data.len() - data_len;
        let meta_info = MetaInfo {
            level: level as u64,
            version: 0,
            data_len: data_len as u64,
            index_len: index_len as u64,
            part_size,
        };
        proof {
            let rec = index_record(index_view(sparse_index@), score@);
            assert(record@ == rec);
            assert(body_of(rec).len() <= frame_of(rec).len()) by {
                reveal(frame_of);
            }
        }
        write_meta(&mut data, &meta_info);
        let t = SsTable { meta_info, sparse_index, gen, score };
        // The file's length is a `usize`, so every offset in it fits a `u64`.
        let _file_len = data.len();
        proof {
            let rec = index_record(t@.index, t@.score);
            assert(data@ == frames_of(cs) + frame_of(rec) + meta_bytes(t@.meta));
            if keys_sorted(cs) {
                lemma_built_index_sorted(cs, p);
            }
        }
        Ok((t, data))
    }

    /// Reopens a table from the bytes of its file: reads the footer, then the
    /// record at `data_len`, and decodes the sparse index and key range from it.
    pub fn restore_from_file(gen: i64, file: &[u8]) -> (r: Result<SsTable, KvsError>)
        ensures
            restored(file@, gen, r),
    {
        if file.len() < META_INFO_SIZE {
            return Err(KvsError::KeyNotFound);
        }
        let meta_info = read_meta(file);
        let a = meta_info.data_len;
        let l = meta_info.index_len;
        if a > file.len() as u64 || l > file.len() as u64 - a {
            return Err(KvsError::KeyNotFound);
        }
        let start = a as usize;
        let zone = crate::command::copy_range(file, start, start + l as usize);
        SsTable::restore_from_record(gen, meta_info, zone.as_slice())
    }

    /// The footer held in the 40 bytes `footer`; `None` for any other length.
    pub fn meta_from_footer(footer: &[u8]) -> (r: Option<MetaInfo>)
        ensures
            footer@.len() == 40 ==> r == Some(meta_of(footer@)),
            footer@.len() != 40 ==> r is None,
    {
        if footer.len() != META_INFO_SIZE {
            return None;
        }
        assert(footer@.subrange(0, 40) =~= footer@);
        Some(read_meta(footer))
    }

    /// Reopens table `gen` from its footer and the bytes of its index record,
    /// the `index_len` bytes at `data_len`: the data region is not needed.
    pub fn restore_from_record(gen: i64, meta_info: MetaInfo, zone: &[u8]) -> (r: Result<SsTable, KvsError>)
        ensures
            restored_record(meta_info, zone@, gen, r),
    {
        assert(zone@.skip(0) =~= zone@);
        let (data, next) = match CommandData::unpack_at(zone, 0) {
            Some(x) => x,
            None => return Err(KvsError::KeyNotFound),
        };
        if next != zone.len() {
            return Err(KvsError::KeyNotFound);
        }
        match data {
            CommandData::Put { key, value } => {
                let sparse_index = match index_from_msgpack(key.as_slice()) {
                    Ok(v) => v,
                    Err(e) => return Err(KvsError::Serde(e)),
                };
                let score = match score_from_msgpack(value.as_slice()) {
                    Ok(v) => v,
                    Err(e) => return Err(KvsError::Serde(e)),
                };
                Ok(SsTable { meta_info, sparse_index, gen, score })
            },
            CommandData::Remove { .. } => Err(KvsError::NotMatchCmd),
        }
    }

    /// Moves the table to another level.
    pub fn level(&mut self, level: u64)
        ensures
            final(self)@ == (TableView { meta: MetaInfo { level, ..old(self)@.meta }, ..old(self)@ }),
    {
        self.meta_info.level = level;
    }

    /// The table's level.
    pub fn get_level(&self) -> (r: usize)
        ensures
            r == self@.meta.level as usize,
    {
        self.meta_info.level as usize
    }

    pub fn get_version(&self) -> (r: u64)
        ensures
            r == self@.meta.version,
    {
        self.meta_info.version
    }

    pub fn get_gen(&self) -> (r: i64)
        ensures
            r == self@.gen,
    {
        self.gen
    }

    pub fn get_score(&self) -> (r: &Score)
        ensures
            r@ == self@.score,
    {
        &self.score
    }

    pub fn get_meta_info(&self) -> (r: MetaInfo)
        ensures
            r == self@.meta,
    {
        self.meta_info
    }

    /// The sparse index, in ascending order of first key.
    pub fn get_sparse_index(&self) -> (r: &Vec<IndexEntry>)
        ensures
            index_view(r@) == self@.index,
    {
        &self.sparse_index
    }

    /// Where the block that may hold `key` lies: that of the last entry whose
    /// first key is at most `key`.
    pub fn lookup_block(&self, key: &[u8]) -> (r: Option<Position>)
        ensures
            match covering(self@.index, key@) {
                None => r is None,
                Some(i) => r == Some(Position { start: self@.index[i].1, len: self@.index[i].2 }),
            },
    {
        let mut i = self.sparse_index.len();
        assert(index_view(self.sparse_index@).take(i as int) =~= self@.index);
        while i > 0
            invariant
                i <= self.sparse_index@.len(),
                covering(self@.index, key@) == covering(self@.index.take(i as int), key@),
                self@.index == index_view(self.sparse_index@),
            decreases i,
        {
            let ghost t = self@.index.take(i as int);
            assert(t.last() == self@.index[i - 1]);
            assert(t.drop_last() =~= self@.index.take(i - 1));
            let e = &self.sparse_index[i - 1];
            if bytes_le(e.key.as_slice(), key) {
                return Some(e.pos);
            }
            i = i - 1;
        }
        None
    }

    /// The last command for `key` in the table whose file holds `file`: the
    /// sparse index picks the one block that may hold it, and only that block is
    /// read.
    pub fn query_with_file(&self, file: &[u8], key: &[u8]) -> (r: Result<Option<CommandData>, KvsError>)
        ensures
            query_answer(self@.index, file@, key@, r),
    {
        match self.lookup_block(key) {
            None => Ok(None),
            Some(pos) => {
                if pos.start > file.len() as u64 || pos.len > file.len() as u64 - pos.start {
                    return Err(KvsError::OutOfRange);
                }
                let start = pos.start as usize;
                let zone = crate::command::copy_range(file, start, start + pos.len as usize);
                CommandData::find_key_with_zone_unpack(zone.as_slice(), key)
            },
        }
    }

    /// Every command of the data region, `[0, data_len)` of `file`, in file order.
    pub fn get_all_data(&self, file: &[u8]) -> (r: Result<Vec<CommandData>, KvsError>)
        ensures
            self@.meta.data_len > file@.len() ==> r == Err::<Vec<CommandData>, KvsError>(KvsError::OutOfRange),
            self@.meta.data_len <= file@.len() ==> match parse_all(file@.subrange(0, self@.meta.data_len as int)) {
                Some(cs) => r matches Ok(v) && views(v@) == cs,
                None => r == Err::<Vec<CommandData>, KvsError>(KvsError::Decode),
            },
    {
        if self.meta_info.data_len > file.len() as u64 {
            return Err(KvsError::OutOfRange);
        }
        let zone = crate::command::copy_range(file, 0, self.meta_info.data_len as usize);
        match CommandData::from_zone_to_vec(zone.as_slice()) {
            Some(v) => Ok(v),
            None => Err(KvsError::Decode),
        }
    }

    /// The generations of the given tables, in order.
    pub fn collect_gen(vec_ss_table: Vec<&SsTable>) -> (r: Result<Vec<i64>, KvsError>)
        ensures
            r matches Ok(v) && v@.len() == vec_ss_table@.len()
                && forall|i: int| 0 <= i < v@.len() ==> #[trigger] v@[i] == vec_ss_table@[i]@.gen,
    {
        let mut v: Vec<i64> = Vec::new();
        let mut i: usize = 0;
        while i < vec_ss_table.len()
            invariant
                i <= vec_ss_table@.len(),
                v@.len() == i,
                forall|j: int| 0 <= j < i ==> #[trigger] v@[j] == vec_ss_table@[j]@.gen,
            decreases vec_ss_table.len() - i,
        {
            v.push(vec_ss_table[i].get_gen());
            i = i + 1;
        }
        Ok(v)
    }

    /// The manifest position of the first table's generation at `level`, as
    /// `get_index` reports it; 0 for no table or an unknown generation.
    pub fn first_index_with_level<F>(vec_ss_table: &Vec<&SsTable>, get_index: F, level: usize) -> (r: usize)
        where
            F: Fn(usize, i64) -> Option<usize>,
        requires
            forall|l: usize, g: i64| get_index.requires((l, g)),
        ensures
            vec_ss_table@.len() == 0 ==> r == 0,
            vec_ss_table@.len() > 0 ==> exists|out: Option<usize>| {
                &&& #[trigger] get_index.ensures((level, vec_ss_table@[0]@.gen), out)
                &&& r == match out {
                    Some(x) => x,
                    None => 0,
                }
            },
    {
        if vec_ss_table.len() == 0 {
            0
        } else {
            let out = get_index(level, vec_ss_table[0].get_gen());
            match out {
                Some(x) => x,
                None => 0,
            }
        }
    }
}

pub open spec fn table_scores(v: Seq<&SsTable>) -> Seq<ScoreView> {
    v.map_values(|t: &SsTable| t@.score)
}

impl Score {
    /// The key ranges of the given tables, in order.
    pub fn get_vec_score<'a>(vec_ss_table: &'a Vec<&SsTable>) -> (r: Vec<&'a Score>)
        ensures
            r@.len() == vec_ss_table@.len(),
            crate::score::views_of(r@) == table_scores(vec_ss_table@),
    {
        let mut r: Vec<&'a Score> = Vec::new();
        let mut i: usize = 0;
        while i < vec_ss_table.len()
            invariant
                i <= vec_ss_table@.len(),
                r@.len() == i,
                forall|j: int| 0 <= j < i ==> (#[trigger] r@[j])@ == vec_ss_table@[j]@.score,
            decreases vec_ss_table.len() - i,
        {
            r.push(vec_ss_table[i].get_score());
            i = i + 1;
        }
        assert(crate::score::views_of(r@) =~= table_scores(vec_ss_table@));
        r
    }

    /// The key range that spans all the given tables.
    pub fn fusion_from_vec_ss_table(vec_ss_table: &Vec<&SsTable>) -> (r: Result<Score, KvsError>)
        ensures
            vec_ss_table@.len() == 0 <==> r == Err::<Score, KvsError>(KvsError::DataEmpty),
            vec_ss_table@.len() > 0 <==> r is Ok,
            r is Ok ==> r->Ok_0@ == crate::score::fuse(table_scores(vec_ss_table@)),
    {
        Score::fusion(Score::get_vec_score(vec_ss_table))
    }
}

} // verus!
