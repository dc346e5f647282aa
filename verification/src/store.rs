//! The storage engine.
//!
//! The store works on an explicit in-memory image of its segment files.
//! Every mutation appends an encoded record to the active segment, keeps the
//! index and the byte accounting in step, and queues the file operations
//! that a host must apply to the real directory ([`FileOp`]); the host
//! drains that queue with [`KvStore::take_pending`] after each call.
//!
//! The store's own invariant ties everything to one source of truth: the
//! result of replaying the segments in id order.  The in-memory index
//! equals the positions that replay yields, the abstract map of the store
//! equals the values that replay yields, and `uncompacted_bytes` equals the
//! bytes that replay finds superseded.

use vstd::prelude::*;
use vstd::bytes::lemma_auto_spec_u64_to_from_le_bytes;
use vstd::slice::{slice_subrange, slice_to_vec};
use vstd::utf8::encode_utf8;

use crate::codec::{decode_command, encode_command, lemma_parse_canonical, lemma_parse_encode,
    lemma_parse_stable, spec_encodable, spec_encode, spec_parse, Command, CommandView};
use crate::error::KvsError;
use crate::index::{distinct_keys, lemma_live_bytes_bound, lemma_live_bytes_nonneg,
    lemma_live_bytes_remove, lemma_live_bytes_update, lemma_seq_to_map_domain,
    lemma_seq_to_map_index, live_bytes, seq_to_map, CommandPosition, Index};
use crate::segment::Segment;

verus! {

/// Compaction fires when more than this many bytes are superseded.
pub const COMPACTION_THRESHOLD_BYTES: u64 = 1048576;

/// One operation on the store directory, queued for the host to apply.
#[derive(Debug, Clone, PartialEq)]
pub enum FileOp {
    /// Create the empty segment file with this id.
    Create(u64),
    /// Append these bytes to the segment file with this id, then flush.
    Append(u64, Vec<u8>),
    /// Delete the segment file with this id.
    Delete(u64),
}

/// The mathematical shape of a file operation.
pub enum FileOpView {
    Create(u64),
    Append(u64, Seq<u8>),
    Delete(u64),
}

impl View for FileOp {
    type V = FileOpView;

    open spec fn view(&self) -> FileOpView {
        match self {
            FileOp::Create(id) => FileOpView::Create(*id),
            FileOp::Append(id, bytes) => FileOpView::Append(*id, bytes@),
            FileOp::Delete(id) => FileOpView::Delete(*id),
        }
    }
}

/// What replaying a log prefix yields: for each live key the position of
/// its newest `Set` record and the value stored there, and the bytes that
/// later records rendered obsolete.
pub struct ReplayState {
    /// Key to (position of the newest `Set` record, its value).
    pub m: Map<Seq<char>, (CommandPosition, Seq<char>)>,
    /// Superseded `Set` payloads plus payloads of removed keys, in bytes.
    pub unc: int,
}

/// The state before any record has been replayed.
pub open spec fn empty_state() -> ReplayState {
    ReplayState { m: Map::empty(), unc: 0 }
}

/// One record applied to a replay state: a `Set` installs key and value and
/// counts a superseded predecessor, a `Remove` deletes the key and counts
/// the payload it removed.
pub open spec fn apply_cmd(st: ReplayState, c: CommandView, id: u64, off: int, len: int) -> ReplayState {
    match c {
        CommandView::Put(k, v) => ReplayState {
            m: st.m.insert(
                k,
                (CommandPosition { log_number: id, offset: off as u64, bytes: len as u64 }, v),
            ),
            unc: st.unc + if st.m.contains_key(k) {
                st.m[k].0.bytes as int
            } else {
                0
            },
        },
        CommandView::Remove(k) => if st.m.contains_key(k) {
            ReplayState { m: st.m.remove(k), unc: st.unc + st.m[k].0.bytes }
        } else {
            st
        },
    }
}

/// Replay the records of one segment from byte position `pos` on, or `None`
/// if a record is truncated or corrupt.
pub open spec fn replay_seg_from(st: ReplayState, id: u64, data: Seq<u8>, pos: int) -> Option<
    ReplayState,
>
    decreases data.len() - pos,
    via replay_seg_from_decreases
{
    if pos < 0 || pos >= data.len() {
        Some(st)
    } else {
        match spec_parse(data, pos) {
            Some((c, l)) => replay_seg_from(apply_cmd(st, c, id, pos, l), id, data, pos + l),
            None => None,
        }
    }
}

#[via_fn]
proof fn replay_seg_from_decreases(st: ReplayState, id: u64, data: Seq<u8>, pos: int) {
    if !(pos < 0 || pos >= data.len()) {
        if let Some((c, l)) = spec_parse(data, pos) {
            lemma_parse_canonical(data, pos, c, l);
        }
    }
}

/// Replay the segments from index `i` on, in order.
pub open spec fn replay_segs_from(st: ReplayState, segs: Seq<Segment>, i: int) -> Option<
    ReplayState,
>
    decreases segs.len() - i,
{
    if i < 0 || i >= segs.len() {
        Some(st)
    } else {
        match replay_seg_from(st, segs[i].log_number, segs[i].data@, 0) {
            Some(st2) => replay_segs_from(st2, segs, i + 1),
            None => None,
        }
    }
}

/// Replay a whole directory of segments, in id order.
pub open spec fn replay_all(segs: Seq<Segment>) -> Option<ReplayState> {
    replay_segs_from(empty_state(), segs, 0)
}

/// The position half of a replay result: what the index holds.
pub open spec fn positions_of(m: Map<Seq<char>, (CommandPosition, Seq<char>)>) -> Map<
    Seq<char>,
    CommandPosition,
> {
    m.map_values(|pv: (CommandPosition, Seq<char>)| pv.0)
}

/// The value half of a replay result: the abstract key/value map.
pub open spec fn values_of(m: Map<Seq<char>, (CommandPosition, Seq<char>)>) -> Map<
    Seq<char>,
    Seq<char>,
> {
    m.map_values(|pv: (CommandPosition, Seq<char>)| pv.1)
}

/// Segment ids strictly increase from left to right.
pub open spec fn ids_increasing(segs: Seq<Segment>) -> bool {
    forall|i: int, j: int|
        0 <= i < j < segs.len() ==> (#[trigger] segs[i]).log_number < (#[trigger] segs[j]).log_number
}

/// The bytes of all segments, summed.
pub open spec fn total_len(segs: Seq<Segment>) -> int
    decreases segs.len(),
{
    if segs.len() == 0 {
        0
    } else {
        total_len(segs.drop_last()) + segs.last().data@.len()
    }
}

proof fn lemma_total_len_nonneg(segs: Seq<Segment>)
    ensures
        total_len(segs) >= 0,
    decreases segs.len(),
{
    if segs.len() > 0 {
        lemma_total_len_nonneg(segs.drop_last());
    }
}

proof fn lemma_total_len_bound(segs: Seq<Segment>, i: int)
    requires
        0 <= i < segs.len(),
    ensures
        segs[i].data@.len() <= total_len(segs),
    decreases segs.len(),
{
    if i == segs.len() - 1 {
        lemma_total_len_nonneg(segs.drop_last());
    } else {
        lemma_total_len_bound(segs.drop_last(), i);
    }
}

proof fn lemma_total_len_take(segs: Seq<Segment>, i: int)
    requires
        0 <= i < segs.len(),
    ensures
        total_len(segs.subrange(0, i + 1)) == total_len(segs.subrange(0, i)) + segs[i].data@.len(),
    decreases segs.len(),
{
    let a = segs.subrange(0, i + 1);
    assert(a.drop_last() =~= segs.subrange(0, i));
    assert(a.last() == segs[i]);
}

/// A key's entry points at a well-formed `Set` record for that key in a
/// segment that is present.
pub open spec fn entry_valid(
    segs: Seq<Segment>,
    k: Seq<char>,
    p: CommandPosition,
    v: Seq<char>,
) -> bool {
    exists|j: int|
        0 <= j < segs.len() && (#[trigger] segs[j]).log_number == p.log_number && spec_parse(
            segs[j].data@,
            p.offset as int,
        ) == Some((CommandView::Put(k, v), p.bytes as int))
}

/// Every entry of the replay state is valid against the given segments.
pub open spec fn state_valid(segs: Seq<Segment>, st: ReplayState) -> bool {
    forall|k: Seq<char>|
        #[trigger] st.m.contains_key(k) ==> entry_valid(segs, k, st.m[k].0, st.m[k].1)
}

proof fn lemma_replay_seg_valid(
    st: ReplayState,
    id: u64,
    data: Seq<u8>,
    pos: int,
    segs: Seq<Segment>,
    j: int,
)
    requires
        replay_seg_from(st, id, data, pos) is Some,
        state_valid(segs, st),
        0 <= j < segs.len(),
        segs[j].log_number == id,
        segs[j].data@ == data,
        data.len() <= u64::MAX,
        0 <= pos,
    ensures
        state_valid(segs, replay_seg_from(st, id, data, pos).unwrap()),
    decreases data.len() - pos,
{
    if pos < 0 || pos >= data.len() {
    } else {
        let (c, l) = spec_parse(data, pos).unwrap();
        lemma_parse_canonical(data, pos, c, l);
        let st2 = apply_cmd(st, c, id, pos, l);
        assert(state_valid(segs, st2)) by {
            match c {
                CommandView::Put(k, v) => {
                    let p = CommandPosition {
                        log_number: id,
                        offset: pos as u64,
                        bytes: l as u64,
                    };
                    assert(p.offset as int == pos && p.bytes as int == l);
                    assert(entry_valid(segs, k, p, v));
                    assert forall|kk: Seq<char>| #[trigger] st2.m.contains_key(kk) implies
                        entry_valid(segs, kk, st2.m[kk].0, st2.m[kk].1) by {
                        if kk != k {
                            assert(st.m.contains_key(kk));
                        }
                    }
                },
                CommandView::Remove(k) => {
                    assert forall|kk: Seq<char>| #[trigger] st2.m.contains_key(kk) implies
                        entry_valid(segs, kk, st2.m[kk].0, st2.m[kk].1) by {
                        assert(st.m.contains_key(kk));
                    }
                },
            }
        }
        lemma_replay_seg_valid(st2, id, data, pos + l, segs, j);
    }
}

proof fn lemma_replay_segs_valid(st: ReplayState, segs: Seq<Segment>, i: int)
    requires
        replay_segs_from(st, segs, i) is Some,
        state_valid(segs, st),
        forall|j: int| 0 <= j < segs.len() ==> (#[trigger] segs[j]).data@.len() <= u64::MAX,
        0 <= i,
    ensures
        state_valid(segs, replay_segs_from(st, segs, i).unwrap()),
    decreases segs.len() - i,
{
    if i >= segs.len() {
    } else {
        let st2 = replay_seg_from(st, segs[i].log_number, segs[i].data@, 0).unwrap();
        lemma_replay_seg_valid(st, segs[i].log_number, segs[i].data@, 0, segs, i);
        lemma_replay_segs_valid(st2, segs, i + 1);
    }
}

/// Replay only ever points entries at well-formed `Set` records in present
/// segments: the first store invariant.
pub proof fn lemma_replay_valid(segs: Seq<Segment>)
    requires
        replay_all(segs) is Some,
        forall|j: int| 0 <= j < segs.len() ==> (#[trigger] segs[j]).data@.len() <= u64::MAX,
    ensures
        state_valid(segs, replay_all(segs).unwrap()),
{
    assert(state_valid(segs, empty_state()));
    lemma_replay_segs_valid(empty_state(), segs, 0);
}

/// Appending one encoded record to the end of the data replays as the
/// record applied to the state the unextended data replays to.
proof fn lemma_replay_seg_append(st: ReplayState, id: u64, data: Seq<u8>, pos: int, c: CommandView)
    requires
        0 <= pos <= data.len(),
        replay_seg_from(st, id, data, pos) is Some,
        spec_encodable(c),
    ensures
        replay_seg_from(st, id, data + spec_encode(c), pos) == Some(
            apply_cmd(
                replay_seg_from(st, id, data, pos).unwrap(),
                c,
                id,
                data.len() as int,
                spec_encode(c).len() as int,
            ),
        ),
    decreases data.len() - pos,
{
    let data2 = data + spec_encode(c);
    let enc = spec_encode(c);
    if pos == data.len() {
        assert(data2.subrange(pos, pos + enc.len() as int) =~= enc);
        lemma_parse_encode(data2, pos, c);
        assert(enc.len() >= 9) by {
            let (c2, l2) = spec_parse(data2, pos).unwrap();
            lemma_parse_canonical(data2, pos, c2, l2);
        }
        assert(replay_seg_from(apply_cmd(st, c, id, pos, enc.len() as int), id, data2, pos
            + enc.len()) == Some(apply_cmd(st, c, id, pos, enc.len() as int)));
    } else {
        let (c1, l1) = spec_parse(data, pos).unwrap();
        lemma_parse_canonical(data, pos, c1, l1);
        assert(data2.subrange(pos, pos + l1) =~= data.subrange(pos, pos + l1));
        lemma_parse_stable(data, data2, pos, c1, l1);
        lemma_replay_seg_append(apply_cmd(st, c1, id, pos, l1), id, data, pos + l1, c);
    }
}

/// The same, lifted to the whole directory: appending one record to the
/// last segment applies it to the replay of the whole directory.
proof fn lemma_replay_segs_append(
    st: ReplayState,
    segs: Seq<Segment>,
    segs2: Seq<Segment>,
    i: int,
    c: CommandView,
)
    requires
        segs.len() >= 1,
        segs2.len() == segs.len(),
        forall|j: int|
            0 <= j < segs.len() - 1 ==> (#[trigger] segs2[j]).log_number == segs[j].log_number
                && segs2[j].data@ == segs[j].data@,
        segs2.last().log_number == segs.last().log_number,
        segs2.last().data@ == segs.last().data@ + spec_encode(c),
        0 <= i < segs.len(),
        replay_segs_from(st, segs, i) is Some,
        spec_encodable(c),
    ensures
        replay_segs_from(st, segs2, i) == Some(
            apply_cmd(
                replay_segs_from(st, segs, i).unwrap(),
                c,
                segs.last().log_number,
                segs.last().data@.len() as int,
                spec_encode(c).len() as int,
            ),
        ),
    decreases segs.len() - i,
{
    if i == segs.len() - 1 {
        let id = segs.last().log_number;
        let data = segs.last().data@;
        assert(segs[i] == segs.last() && segs2[i] == segs2.last());
        lemma_replay_seg_append(st, id, data, 0, c);
        let st2 = apply_cmd(
            replay_seg_from(st, id, data, 0).unwrap(),
            c,
            id,
            data.len() as int,
            spec_encode(c).len() as int,
        );
        assert(replay_seg_from(st, id, segs2[i].data@, 0) == Some(st2));
        assert(replay_segs_from(st2, segs2, i + 1) == Some(st2));
        assert(replay_segs_from(st2, segs, i + 1) == Some(st2));
    } else {
        assert(segs2[i].log_number == segs[i].log_number && segs2[i].data@ == segs[i].data@);
        let r1 = replay_seg_from(st, segs[i].log_number, segs[i].data@, 0);
        assert(replay_seg_from(st, segs2[i].log_number, segs2[i].data@, 0) == r1);
        let st2 = r1.unwrap();
        lemma_replay_segs_append(st2, segs, segs2, i + 1, c);
    }
}

proof fn lemma_positions_insert(
    m: Map<Seq<char>, (CommandPosition, Seq<char>)>,
    k: Seq<char>,
    p: CommandPosition,
    v: Seq<char>,
)
    ensures
        positions_of(m.insert(k, (p, v))) == positions_of(m).insert(k, p),
        values_of(m.insert(k, (p, v))) == values_of(m).insert(k, v),
{
    assert(positions_of(m.insert(k, (p, v))) =~= positions_of(m).insert(k, p));
    assert(values_of(m.insert(k, (p, v))) =~= values_of(m).insert(k, v));
}

proof fn lemma_positions_remove(m: Map<Seq<char>, (CommandPosition, Seq<char>)>, k: Seq<char>)
    ensures
        positions_of(m.remove(k)) == positions_of(m).remove(k),
        values_of(m.remove(k)) == values_of(m).remove(k),
{
    assert(positions_of(m.remove(k)) =~= positions_of(m).remove(k));
    assert(values_of(m.remove(k)) =~= values_of(m).remove(k));
}

proof fn lemma_positions_empty()
    ensures
        positions_of(empty_state().m) == Map::<Seq<char>, CommandPosition>::empty(),
        values_of(empty_state().m) == Map::<Seq<char>, Seq<char>>::empty(),
{
    assert(positions_of(empty_state().m) =~= Map::<Seq<char>, CommandPosition>::empty());
    assert(values_of(empty_state().m) =~= Map::<Seq<char>, Seq<char>>::empty());
}

/// The byte length of an encoded `Set` record for this key and value.
pub open spec fn put_len(k: Seq<char>, v: Seq<char>) -> int {
    spec_encode(CommandView::Put(k, v)).len() as int
}

/// The byte length of an encoded `Remove` record for this key.
pub open spec fn remove_record_len(k: Seq<char>) -> int {
    spec_encode(CommandView::Remove(k)).len() as int
}

/// One `Delete` operation per segment, in order.
pub open spec fn delete_ops(segs: Seq<Segment>) -> Seq<FileOpView> {
    segs.map_values(|s: Segment| FileOpView::Delete(s.log_number))
}

/// The replay entries described by index pairs whose values come from the
/// given map: what a freshly compacted segment replays to.
spec fn repv(
    s: Seq<(Seq<char>, CommandPosition)>,
    vm: Map<Seq<char>, Seq<char>>,
) -> Map<Seq<char>, (CommandPosition, Seq<char>)>
    decreases s.len(),
{
    if s.len() == 0 {
        Map::empty()
    } else {
        repv(s.drop_last(), vm).insert(s.last().0, (s.last().1, vm[s.last().0]))
    }
}

proof fn lemma_repv(s: Seq<(Seq<char>, CommandPosition)>, vm: Map<Seq<char>, Seq<char>>)
    requires
        distinct_keys(s),
    ensures
        positions_of(repv(s, vm)) == seq_to_map(s),
        forall|k: Seq<char>| #[trigger] repv(s, vm).contains_key(k) <==> seq_to_map(
            s,
        ).contains_key(k),
        forall|k: Seq<char>| #[trigger] repv(s, vm).contains_key(k) ==> repv(s, vm)[k].1 == vm[k],
    decreases s.len(),
{
    if s.len() > 0 {
        assert(forall|x: int, y: int|
            0 <= x < y < s.drop_last().len() ==> (#[trigger] s.drop_last()[x]).0
                != (#[trigger] s.drop_last()[y]).0);
        lemma_repv(s.drop_last(), vm);
        assert(positions_of(repv(s, vm)) =~= seq_to_map(s));
    } else {
        assert(positions_of(repv(s, vm)) =~= seq_to_map(s));
    }
}

proof fn lemma_live_take(s: Seq<(Seq<char>, CommandPosition)>, i: int)
    requires
        0 <= i < s.len(),
    ensures
        live_bytes(s.subrange(0, i + 1)) == live_bytes(s.subrange(0, i)) + s[i].1.bytes,
{
    let a = s.subrange(0, i + 1);
    assert(a.drop_last() =~= s.subrange(0, i));
    assert(a.last() == s[i]);
}

proof fn lemma_live_prefix(s: Seq<(Seq<char>, CommandPosition)>, i: int)
    requires
        0 <= i <= s.len(),
    ensures
        live_bytes(s.subrange(0, i)) <= live_bytes(s),
    decreases s.len() - i,
{
    if i == s.len() {
        assert(s.subrange(0, i) =~= s);
    } else {
        lemma_live_take(s, i);
        lemma_live_prefix(s, i + 1);
    }
}

/// A fresh copy of the given bytes.
fn copy_bytes(v: &Vec<u8>) -> (r: Vec<u8>)
    ensures
        r@ == v@,
{
    slice_to_vec(v.as_slice())
}

proof fn lemma_live_bytes_congruent(
    s1: Seq<(Seq<char>, CommandPosition)>,
    s2: Seq<(Seq<char>, CommandPosition)>,
)
    requires
        s1.len() == s2.len(),
        forall|j: int| 0 <= j < s1.len() ==> (#[trigger] s1[j]).1.bytes == (#[trigger] s2[j]).1.bytes,
    ensures
        live_bytes(s1) == live_bytes(s2),
    decreases s1.len(),
{
    if s1.len() > 0 {
        lemma_live_bytes_congruent(s1.drop_last(), s2.drop_last());
    }
}

/// What a successful `open` over a nonempty directory guarantees: the
/// store is well formed, holds exactly the given segments, and its map,
/// and superseded-byte count are the ones their replay yields, with no file
/// operation queued.
pub open spec fn opened_from(s: KvStore, segs: Seq<Segment>) -> bool {
    &&& s.wf()
    &&& s.spec_segments() == segs
    &&& s.spec_log_number() == segs.last().log_number
    &&& s.spec_total_bytes() == total_len(segs)
    &&& replay_all(segs) matches Some(st) && s@ == values_of(st.m) && s.spec_uncompacted()
        == st.unc
    &&& s.pending_ops() =~= Seq::<FileOpView>::empty()
}

proof fn lemma_replay_congruent(st: ReplayState, a: Seq<Segment>, b: Seq<Segment>, i: int)
    requires
        a.len() == b.len(),
        forall|j: int|
            0 <= j < a.len() ==> (#[trigger] a[j]).log_number == b[j].log_number && a[j].data@
                == b[j].data@,
    ensures
        replay_segs_from(st, a, i) == replay_segs_from(st, b, i),
    decreases a.len() - i,
{
    if 0 <= i < a.len() {
        assert(replay_seg_from(st, a[i].log_number, a[i].data@, 0) == replay_seg_from(
            st,
            b[i].log_number,
            b[i].data@,
            0,
        ));
        match replay_seg_from(st, a[i].log_number, a[i].data@, 0) {
            Some(st2) => {
                lemma_replay_congruent(st2, a, b, i + 1);
            },
            None => {},
        }
    }
}

/// The persistent key/value store.
///
/// `segments` is the in-memory image of the log directory, in ascending id
/// order; the last segment is the active one.  `pending` queues the file
/// operations that the host has not applied yet.
pub struct KvStore {
    segments: Vec<Segment>,
    index: Index,
    log_number: u64,
    uncompacted_bytes: u64,
    total_bytes: u64,
    pending: Vec<FileOp>,
    model: Ghost<Map<Seq<char>, Seq<char>>>,
}

impl View for KvStore {
    type V = Map<Seq<char>, Seq<char>>;

    closed spec fn view(&self) -> Map<Seq<char>, Seq<char>> {
        self.model@
    }
}

impl KvStore {
    /// The segments as the specification sees them.
    pub closed spec fn spec_segments(self) -> Seq<Segment> {
        self.segments@
    }

    /// The id of the active segment.
    pub closed spec fn spec_log_number(self) -> u64 {
        self.log_number
    }

    /// The running estimate of superseded bytes.
    pub closed spec fn spec_uncompacted(self) -> u64 {
        self.uncompacted_bytes
    }

    /// The bytes of all segments, summed.
    pub closed spec fn spec_total_bytes(self) -> u64 {
        self.total_bytes
    }

    /// The file operations not yet applied by the host.
    pub closed spec fn pending_ops(self) -> Seq<FileOpView> {
        self.pending@.map_values(|op: FileOp| op@)
    }

    /// The store invariant.
    ///
    /// Replaying the segments in order succeeds and yields exactly the
    /// index, the abstract map, and the superseded-byte count the store
    /// holds; segment ids strictly increase and the last one is active; and
    /// the superseded bytes plus the live bytes never exceed the log's
    /// total size, which fits a `u64`.
    pub closed spec fn wf(self) -> bool {
        let segs = self.segments@;
        &&& segs.len() >= 1
        &&& ids_increasing(segs)
        &&& segs.last().log_number == self.log_number
        &&& self.index.wf()
        &&& replay_all(segs) matches Some(st) && self.index@ == positions_of(st.m) && self.model@
            == values_of(st.m) && self.uncompacted_bytes == st.unc
        &&& self.uncompacted_bytes + live_bytes(self.index.spec_entries()) <= total_len(segs)
        &&& total_len(segs) <= u64::MAX
        &&& self.total_bytes == total_len(segs)
    }

    /// The replay of the store's segments, as the invariant exposes it.
    pub open spec fn replay(self) -> Option<ReplayState> {
        replay_all(self.spec_segments())
    }

    /// How many superseded bytes the store currently counts.
    pub fn uncompacted_bytes(&self) -> (r: u64)
        ensures
            r == self.spec_uncompacted(),
    {
        self.uncompacted_bytes
    }

    /// The total size of the log in bytes.
    pub fn log_bytes(&self) -> (r: u64)
        ensures
            r == self.spec_total_bytes(),
    {
        self.total_bytes
    }

    /// The id of the active segment.
    pub fn active_log_number(&self) -> (r: u64)
        ensures
            r == self.spec_log_number(),
    {
        self.log_number
    }

    /// The in-memory image of the segment files.
    pub fn segments(&self) -> (r: &Vec<Segment>)
        ensures
            r@ == self.spec_segments(),
    {
        &self.segments
    }

    /// Hand the queued file operations to the host and clear the queue.
    pub fn take_pending(&mut self) -> (r: Vec<FileOp>)
        ensures
            r@.map_values(|op: FileOp| op@) == old(self).pending_ops(),
            final(self).pending_ops() == Seq::<FileOpView>::empty(),
            final(self).spec_segments() == old(self).spec_segments(),
            final(self)@ == old(self)@,
            final(self).spec_log_number() == old(self).spec_log_number(),
            final(self).spec_uncompacted() == old(self).spec_uncompacted(),
            final(self).spec_total_bytes() == old(self).spec_total_bytes(),
            old(self).wf() ==> final(self).wf(),
    {
        let mut out: Vec<FileOp> = Vec::new();
        core::mem::swap(&mut out, &mut self.pending);
        proof {
            assert(self.pending_ops() =~= Seq::<FileOpView>::empty());
        }
        out
    }

    /// The positions the index holds, keyed by the live keys.
    pub closed spec fn spec_index(self) -> Map<Seq<char>, CommandPosition> {
        self.index@
    }

    /// The bytes of all records the index points at, summed.
    pub closed spec fn live_size(self) -> int {
        live_bytes(self.index.spec_entries())
    }

    /// The index of the segment with the given id, if present.
    fn find_segment(&self, id: u64) -> (r: Option<usize>)
        ensures
            r matches Some(i) ==> i < self.segments@.len() && self.segments@[i as int].log_number
                == id,
            r is None ==> forall|j: int|
                0 <= j < self.segments@.len() ==> (#[trigger] self.segments@[j]).log_number != id,
    {
        let n = self.segments.len();
        let mut i: usize = 0;
        while i < n
            invariant
                n == self.segments@.len(),
                i <= n,
                forall|j: int|
                    0 <= j < i ==> (#[trigger] self.segments@[j]).log_number != id,
            decreases n - i,
        {
            if self.segments[i].log_number == id {
                return Some(i);
            }
            i = i + 1;
        }
        None
    }

    /// Every segment of a well-formed store is no larger than the log.
    proof fn lemma_segment_bounds(self)
        requires
            self.wf(),
        ensures
            forall|j: int|
                0 <= j < self.segments@.len() ==> (#[trigger] self.segments@[j]).data@.len()
                    <= u64::MAX,
            state_valid(self.segments@, replay_all(self.segments@).unwrap()),
    {
        assert forall|j: int|
            0 <= j < self.segments@.len() implies (#[trigger] self.segments@[j]).data@.len()
            <= u64::MAX by {
            lemma_total_len_bound(self.segments@, j);
        }
        lemma_replay_valid(self.segments@);
    }

    /// A well-formed store's segments always replay successfully, and its
    /// byte accounting is exact: the counter equals the summed segment
    /// sizes, which fit a `u64`, and the superseded plus the live bytes
    /// never exceed them.
    pub proof fn lemma_wf_facts(self)
        requires
            self.wf(),
        ensures
            replay_all(self.spec_segments()) is Some,
            self.spec_total_bytes() == total_len(self.spec_segments()),
            total_len(self.spec_segments()) <= u64::MAX,
            ids_increasing(self.spec_segments()),
            self.spec_segments().len() >= 1,
            self.spec_segments().last().log_number == self.spec_log_number(),
            0 <= self.live_size(),
            self.spec_uncompacted() + self.live_size() <= self.spec_total_bytes(),
    {
        lemma_live_bytes_nonneg(self.index.spec_entries());
    }

    /// Whether the key is live in the store.
    pub fn contains_key(&self, key: &String) -> (r: bool)
        requires
            self.wf(),
        ensures
            r == self@.contains_key(key@),
    {
        let ghost st = replay_all(self.segments@).unwrap();
        proof {
            assert(self.index@ == positions_of(st.m));
            assert(self@ == values_of(st.m));
        }
        match self.index.get(key) {
            Some(_p) => true,
            None => false,
        }
    }

    /// Get the string value of a string key.  A key that is not present
    /// yields `Ok(None)`.
    ///
    /// The store invariant guarantees that the index points at a
    /// well-formed `Set` record, so a well-formed store never returns the
    /// corruption errors that the signature allows for.
    pub fn get(&self, key: String) -> (r: Result<Option<String>, KvsError>)
        requires
            self.wf(),
        ensures
            self@.contains_key(key@) ==> (r matches Ok(o) && o matches Some(v) && v@
                == self@[key@]),
            !self@.contains_key(key@) ==> (r matches Ok(o) && o is None),
    {
        let ghost st = replay_all(self.segments@).unwrap();
        proof {
            assert(self.index@ == positions_of(st.m));
            assert(self@ == values_of(st.m));
        }
        let p = match self.index.get(&key) {
            Some(p) => p,
            None => {
                return Ok(None);
            },
        };
        proof {
            self.lemma_segment_bounds();
            assert(st.m.contains_key(key@));
            assert(entry_valid(self.segments@, key@, st.m[key@].0, st.m[key@].1));
            assert(p == st.m[key@].0);
        }
        let seg_idx = match self.find_segment(p.log_number) {
            Some(i) => i,
            None => {
                proof {
                    let j = choose|j: int|
                        0 <= j < self.segments@.len() && (#[trigger] self.segments@[j]).log_number
                            == p.log_number && spec_parse(
                            self.segments@[j].data@,
                            p.offset as int,
                        ) == Some((CommandView::Put(key@, st.m[key@].1), p.bytes as int));
                    assert(false);
                }
                return Err(KvsError::UnexpectedCommand);
            },
        };
        proof {
            let j = choose|j: int|
                0 <= j < self.segments@.len() && (#[trigger] self.segments@[j]).log_number
                    == p.log_number && spec_parse(self.segments@[j].data@, p.offset as int)
                    == Some((CommandView::Put(key@, st.m[key@].1), p.bytes as int));
            if j != seg_idx {
                assert(self.segments@[j].log_number == self.segments@[seg_idx as int].log_number);
                assert(false);
            }
            lemma_parse_canonical(
                self.segments@[seg_idx as int].data@,
                p.offset as int,
                CommandView::Put(key@, st.m[key@].1),
                p.bytes as int,
            );
        }
        let seg = &self.segments[seg_idx];
        let _seg_len: usize = seg.data.len();
        let off = p.offset as usize;
        match decode_command(&seg.data, off) {
            Ok(Some((cmd, _l))) => {
                match cmd {
                    Command::Put(_k, v) => Ok(Some(v)),
                    Command::Remove(_k) => {
                        proof {
                            assert(false);
                        }
                        Err(KvsError::UnexpectedCommand)
                    },
                }
            },
            Ok(None) => {
                proof {
                    assert(false);
                }
                Err(KvsError::UnexpectedCommand)
            },
            Err(e) => {
                proof {
                    assert(false);
                }
                Err(e)
            },
        }
    }

    /// Open a store over the segments read from a directory, replaying them
    /// in id order.
    ///
    /// An empty directory yields an empty store whose first segment, with
    /// id `0`, is queued for creation.  A directory whose segments replay
    /// cleanly yields the store they describe.  A truncated or corrupt
    /// record fails the open with the decode error.
    pub fn open(segments: Vec<Segment>) -> (r: Result<KvStore, KvsError>)
        requires
            ids_increasing(segments@),
            total_len(segments@) <= u64::MAX,
        ensures
            segments@.len() == 0 ==> (r matches Ok(s) && s.wf() && s@ == Map::<
                Seq<char>,
                Seq<char>,
            >::empty() && s.pending_ops() =~= seq![FileOpView::Create(0)]
                && s.spec_log_number() == 0 && s.spec_total_bytes() == 0
                && s.spec_uncompacted() == 0),
            segments@.len() > 0 ==> ((r is Ok <==> replay_all(segments@) is Some) && (r matches Ok(
                s,
            ) ==> opened_from(s, segments@))),
            r matches Err(e) ==> e is Decode,
    {
        let mut segvec = segments;
        let mut pending: Vec<FileOp> = Vec::new();
        let ghost was_empty = segments@.len() == 0;
        if segvec.len() == 0 {
            segvec.push(
                Segment { log_number: 0, data: Vec::new() },
            );
            pending.push(FileOp::Create(0));
            proof {
                let segs1 = segvec@;
                assert(segs1.len() == 1);
                assert(segs1.drop_last() =~= Seq::<Segment>::empty());
                assert(total_len(segs1.drop_last()) == 0);
                assert(segs1.last().data@.len() == 0);
                assert(total_len(segs1) == 0);
            }
        }
        let ghost segs = segvec@;
        proof {
            if was_empty {
                assert(replay_seg_from(empty_state(), segs[0].log_number, segs[0].data@, 0)
                    == Some(empty_state()));
                assert(replay_segs_from(empty_state(), segs, 1) == Some(empty_state()));
                assert(replay_all(segs) == Some(empty_state()));
            }
        }
        let mut index = Index::new();
        let mut uncompacted: u64 = 0;
        let mut total: u64 = 0;
        let ghost mut st = empty_state();
        proof {
            lemma_positions_empty();
            assert(segs.subrange(0, 0) =~= Seq::<Segment>::empty());
        }
        let mut i: usize = 0;
        while i < segvec.len()
            invariant
                segvec@ == segs,
                segs.len() >= 1,
                ids_increasing(segs),
                total_len(segs) <= u64::MAX,
                i <= segs.len(),
                index.wf(),
                was_empty <==> segments@.len() == 0,
                was_empty ==> segs.len() == 1 && segs[0].data@.len() == 0 && segs[0].log_number
                    == 0 && replay_all(segs) == Some(empty_state()),
                !was_empty ==> segs == segments@,
                replay_all(segs) == replay_segs_from(st, segs, i as int),
                index@ == positions_of(st.m),
                uncompacted == st.unc,
                st.unc + live_bytes(index.spec_entries()) <= total_len(segs.subrange(0, i as int)),
                total == total_len(segs.subrange(0, i as int)),
            decreases segs.len() - i,
        {
            let ghost st0 = st;
            let id = segvec[i].log_number;
            let n = segvec[i].data.len();
            let ghost data = segvec@[i as int].data@;
            proof {
                lemma_total_len_take(segs, i as int);
                lemma_total_len_bound(segs, i as int);
                lemma_total_len_nonneg(segs.subrange(0, i as int));
                assert(total_len(segs.subrange(0, i as int + 1)) <= total_len(segs)) by {
                    lemma_total_sub_prefix(segs, i as int + 1);
                }
            }
            let mut pos: usize = 0;
            while pos < n
                invariant
                    segvec@ == segs,
                    0 <= i < segs.len(),
                    id == segs[i as int].log_number,
                    data == segs[i as int].data@,
                    n == data.len(),
                    pos <= n,
                    index.wf(),
                    was_empty <==> segments@.len() == 0,
                    was_empty ==> replay_all(segs) == Some(empty_state()),
                    !was_empty ==> segs == segments@,
                    replay_all(segs) == (match replay_seg_from(st, id, data, pos as int) {
                        Some(s2) => replay_segs_from(s2, segs, i as int + 1),
                        None => None,
                    }),
                    index@ == positions_of(st.m),
                    uncompacted == st.unc,
                    st.unc + live_bytes(index.spec_entries()) <= total_len(
                        segs.subrange(0, i as int),
                    ) + pos,
                    total_len(segs.subrange(0, i as int)) + n == total_len(
                        segs.subrange(0, i as int + 1),
                    ),
                    total_len(segs.subrange(0, i as int + 1)) <= total_len(segs),
                    total_len(segs) <= u64::MAX,
                    total == total_len(segs.subrange(0, i as int)),
                decreases n - pos,
            {
                let ghost st_before = st;
                match decode_command(&segvec[i].data, pos) {
                    Ok(Some((cmd, l))) => {
                        let ghost cv = cmd@;
                        proof {
                            lemma_parse_canonical(data, pos as int, cv, l as int);
                            lemma_live_bytes_nonneg(index.spec_entries());
                        }
                        let p = CommandPosition {
                            log_number: id,
                            offset: pos as u64,
                            bytes: l as u64,
                        };
                        match cmd {
                            Command::Put(k, _v) => {
                                let ghost entries0 = index.spec_entries();
                                let prev = index.insert(k, p);
                                proof {
                                    let kk = cv->Put_0;
                                    lemma_positions_insert(st.m, kk, p, cv->Put_1);
                                    if st.m.contains_key(kk) {
                                        assert(prev == Some(st.m[kk].0));
                                        let jj = choose|j: int|
                                            0 <= j < entries0.len() && (#[trigger] entries0[j]).0
                                                == kk && index.spec_entries() == entries0.update(
                                                j,
                                                (kk, p),
                                            );
                                        lemma_seq_to_map_index(entries0, jj);
                                        lemma_live_bytes_bound(entries0, jj);
                                        lemma_live_bytes_update(entries0, jj, kk, p);
                                    } else {
                                        assert(prev is None);
                                        assert(index.spec_entries() == entries0.push((kk, p)));
                                        assert(index.spec_entries().drop_last() =~= entries0);
                                    }
                                    st = apply_cmd(st, cv, id, pos as int, l as int);
                                    if st_before.m.contains_key(kk) {
                                        uncompacted_add_ok(
                                            st_before.unc,
                                            st_before.m[kk].0.bytes as int,
                                            live_bytes(entries0),
                                            total_len(segs.subrange(0, i as int)) + pos,
                                        );
                                    }
                                }
                                if let Some(old_pos) = prev {
                                    uncompacted = uncompacted + old_pos.bytes;
                                }
                            },
                            Command::Remove(k) => {
                                let ghost entries0 = index.spec_entries();
                                let prev = index.remove(&k);
                                proof {
                                    let kk = cv->Remove_0;
                                    if st.m.contains_key(kk) {
                                        assert(prev == Some(st.m[kk].0));
                                        lemma_positions_remove(st.m, kk);
                                        let jj = choose|j: int|
                                            0 <= j < entries0.len() && (#[trigger] entries0[j]).0
                                                == kk && index.spec_entries() == entries0.remove(
                                                j,
                                            );
                                        lemma_seq_to_map_index(entries0, jj);
                                        lemma_live_bytes_bound(entries0, jj);
                                        lemma_live_bytes_remove(entries0, jj);
                                    } else {
                                        assert(prev is None);
                                    }
                                    st = apply_cmd(st, cv, id, pos as int, l as int);
                                    if st_before.m.contains_key(kk) {
                                        uncompacted_add_ok(
                                            st_before.unc,
                                            st_before.m[kk].0.bytes as int,
                                            live_bytes(entries0),
                                            total_len(segs.subrange(0, i as int)) + pos,
                                        );
                                    }
                                }
                                if let Some(old_pos) = prev {
                                    uncompacted = uncompacted + old_pos.bytes;
                                }
                            },
                        }
                        pos = pos + l;
                    },
                    Ok(None) => {
                        proof {
                            assert(false);
                        }
                    },
                    Err(e) => {
                        proof {
                            assert(replay_all(segs) is None);
                            assert(!was_empty);
                            assert(replay_all(segments@) is None);
                        }
                        return Err(e);
                    },
                }
            }
            proof {
                assert(replay_seg_from(st, id, data, pos as int) == Some(st));
                lemma_total_len_take(segs, i as int);
            }
            total = total + (n as u64);
            i = i + 1;
        }
        proof {
            assert(segs.subrange(0, segs.len() as int) =~= segs);
            assert(replay_segs_from(st, segs, segs.len() as int) == Some(st));
        }
        let log_number = segvec[segvec.len() - 1].log_number;
        let store = KvStore {
            segments: segvec,
            index,
            log_number,
            uncompacted_bytes: uncompacted,
            total_bytes: total,
            pending,
            model: Ghost(values_of(st.m)),
        };
        proof {
            assert(store.segments@.last() == segs[segs.len() - 1]);
            if was_empty {
                lemma_positions_empty();
                assert(replay_all(segs) == Some(st));
                assert(st == empty_state());
                assert(store@ =~= Map::<Seq<char>, Seq<char>>::empty());
                assert(total_len(segs) == 0) by {
                    assert(segs.drop_last() =~= Seq::<Segment>::empty());
                    assert(total_len(segs.drop_last()) == 0);
                    assert(segs.last().data@.len() == 0);
                }
            }
        }
        Ok(store)
    }

    /// How many superseded bytes a `set` of this key would leave before
    /// any compaction: the previous entry's record, if the key is live.
    pub open spec fn unc_after(self, k: Seq<char>) -> int {
        self.spec_uncompacted() + if self.spec_index().contains_key(k) {
            self.spec_index()[k].bytes as int
        } else {
            0
        }
    }

    /// Whether the log can grow by `n` more bytes: the machine bound on
    /// every append.
    pub open spec fn room_for(self, n: int) -> bool {
        &&& self.spec_total_bytes() + n <= u64::MAX
        &&& self.spec_log_number() < u64::MAX
    }

    /// Whether a `set` of this key and value fits the machine bounds.
    pub fn can_set(&self, key: &String, value: &String) -> (r: bool)
        ensures
            r == self.room_for(put_len(key@, value@)),
    {
        let kb = key.as_str().as_bytes().len();
        let vb = value.as_str().as_bytes().len();
        let need: u128 = 17u128 + (kb as u128) + (vb as u128);
        proof {
            lemma_auto_spec_u64_to_from_le_bytes();
            assert(put_len(key@, value@) == 17 + encode_utf8(key@).len() + encode_utf8(
                value@,
            ).len());
        }
        self.log_number < u64::MAX && need <= ((u64::MAX - self.total_bytes) as u128)
    }

    /// Whether a `remove` of this key fits the machine bounds.
    pub fn can_remove(&self, key: &String) -> (r: bool)
        ensures
            r == self.room_for(remove_record_len(key@)),
    {
        let kb = key.as_str().as_bytes().len();
        let need: u128 = 9u128 + (kb as u128);
        proof {
            lemma_auto_spec_u64_to_from_le_bytes();
            assert(remove_record_len(key@) == 9 + encode_utf8(key@).len());
        }
        self.log_number < u64::MAX && need <= ((u64::MAX - self.total_bytes) as u128)
    }

    /// Append one encoded record to the active segment and queue the
    /// matching file append, updating the replay state and byte total.
    fn append_record(&mut self, cmd: &Command)
        requires
            old(self).segments@.len() >= 1,
            ids_increasing(old(self).segments@),
            old(self).segments@.last().log_number == old(self).spec_log_number(),
            replay_all(old(self).segments@) is Some,
            total_len(old(self).segments@) == old(self).spec_total_bytes(),
            old(self).spec_total_bytes() + spec_encode(cmd@).len() <= u64::MAX,
        ensures
            final(self).segments@.len() == old(self).segments@.len(),
            forall|j: int|
                0 <= j < old(self).segments@.len() - 1 ==> #[trigger] final(self).segments@[j]
                    == old(self).segments@[j],
            final(self).segments@.last().log_number == old(self).segments@.last().log_number,
            final(self).segments@.last().data@ == old(self).segments@.last().data@ + spec_encode(
                cmd@,
            ),
            replay_all(final(self).segments@) == Some(
                apply_cmd(
                    replay_all(old(self).segments@).unwrap(),
                    cmd@,
                    old(self).spec_log_number(),
                    old(self).segments@.last().data@.len() as int,
                    spec_encode(cmd@).len() as int,
                ),
            ),
            final(self).index == old(self).index,
            final(self).log_number == old(self).log_number,
            final(self).uncompacted_bytes == old(self).uncompacted_bytes,
            final(self).model == old(self).model,
            final(self).total_bytes == old(self).total_bytes + spec_encode(cmd@).len(),
            final(self).pending_ops() == old(self).pending_ops() + seq![
                FileOpView::Append(old(self).spec_log_number(), spec_encode(cmd@)),
            ],
            ids_increasing(final(self).segments@),
            total_len(final(self).segments@) == total_len(old(self).segments@) + spec_encode(
                cmd@,
            ).len(),
            final(self).segments@.last().data@.len() == old(self).segments@.last().data@.len()
                + spec_encode(cmd@).len(),
    {
        let ghost segs0 = self.segments@;
        let ghost cv = cmd@;
        let mut enc = encode_command(cmd);
        let enc_copy = copy_bytes(&enc);
        let enc_len = enc.len();
        let ghost pend0 = self.pending_ops();
        let mut seg = match self.segments.pop() {
            Some(s) => s,
            None => {
                proof {
                    assert(false);
                }
                return ;
            },
        };
        seg.data.append(&mut enc);
        self.segments.push(seg);
        self.total_bytes = self.total_bytes + (enc_len as u64);
        self.pending.push(FileOp::Append(self.log_number, enc_copy));
        proof {
            let segs1 = self.segments@;
            assert(segs1.len() == segs0.len());
            assert forall|j: int| 0 <= j < segs0.len() - 1 implies #[trigger] segs1[j]
                == segs0[j] by {
                assert(segs1[j] == segs0.drop_last()[j]);
            }
            assert(segs1.last().data@ == segs0.last().data@ + spec_encode(cv));
            lemma_replay_segs_append(empty_state(), segs0, segs1, 0, cv);
            assert(segs1.drop_last() =~= segs0.drop_last());
            assert(total_len(segs1) == total_len(segs0) + spec_encode(cv).len());
            assert(self.pending_ops() =~= pend0 + seq![
                FileOpView::Append(self.log_number, spec_encode(cv)),
            ]);
            assert forall|a: int, b: int| 0 <= a < b < segs1.len() implies (
            #[trigger] segs1[a]).log_number < (#[trigger] segs1[b]).log_number by {
                assert(segs0[a].log_number < segs0[b].log_number);
                if b == segs1.len() - 1 {
                    assert(segs1[b].log_number == segs0[b].log_number);
                }
            }
        }
    }

    /// Set the value of a string key to a string.
    ///
    /// The record is appended to the active segment, the index points at
    /// it, and the superseded bytes of any previous record for the key are
    /// accounted.  When the superseded bytes exceed
    /// [`COMPACTION_THRESHOLD_BYTES`], the store compacts itself, so the
    /// count never stays above the threshold.
    pub fn set(&mut self, key: String, value: String) -> (r: Result<(), KvsError>)
        requires
            old(self).wf(),
            old(self).room_for(put_len(key@, value@)),
        ensures
            r is Ok,
            final(self).wf(),
            final(self)@ == old(self)@.insert(key@, value@),
            final(self).spec_uncompacted() <= COMPACTION_THRESHOLD_BYTES,
            final(self).spec_total_bytes() <= old(self).spec_total_bytes() + put_len(key@, value@),
            final(self).spec_log_number() <= old(self).spec_log_number() + 1,
            old(self).unc_after(key@) <= COMPACTION_THRESHOLD_BYTES ==> final(self).pending_ops()
                == old(self).pending_ops() + seq![
                FileOpView::Append(
                    old(self).spec_log_number(),
                    spec_encode(CommandView::Put(key@, value@)),
                ),
            ] && final(self).spec_total_bytes() == old(self).spec_total_bytes() + put_len(
                key@,
                value@,
            ) && final(self).spec_log_number() == old(self).spec_log_number() && final(self).spec_uncompacted() == old(self).unc_after(key@),
            old(self).unc_after(key@) > COMPACTION_THRESHOLD_BYTES ==> final(self).spec_uncompacted() == 0 && final(self).spec_log_number() == old(self).spec_log_number() + 1 && final(self).spec_segments().len() == 1 && final(self).spec_total_bytes() == final(self).live_size() && final(self).pending_ops() == old(self).pending_ops() + seq![
                FileOpView::Append(
                    old(self).spec_log_number(),
                    spec_encode(CommandView::Put(key@, value@)),
                ),
                FileOpView::Create((old(self).spec_log_number() + 1) as u64),
                FileOpView::Append(
                    (old(self).spec_log_number() + 1) as u64,
                    final(self).spec_segments()[0].data@,
                ),
            ] + delete_ops(old(self).spec_segments()),
    {
        let ghost old0 = *self;
        let ghost segs0 = self.segments@;
        let ghost st0 = replay_all(segs0).unwrap();
        let cmd = Command::Put(key.clone(), value);
        let ghost cv = cmd@;
        let offset = self.segments[self.segments.len() - 1].data.len();
        proof {
            lemma_total_len_bound(segs0, segs0.len() - 1);
            lemma_total_len_nonneg(segs0.drop_last());
            assert(segs0[segs0.len() - 1] == segs0.last());
        }
        let ghost enc_len_spec = spec_encode(cv).len() as int;
        self.append_record(&cmd);
        let ghost segs1 = self.segments@;
        let ghost st1 = replay_all(segs1).unwrap();
        let enc_len = {
            let s = &self.segments[self.segments.len() - 1];
            s.data.len() - offset
        };
        proof {
            assert(segs1[segs1.len() - 1] == segs1.last());
            assert(enc_len == enc_len_spec);
        }
        let pos = CommandPosition {
            log_number: self.log_number,
            offset: offset as u64,
            bytes: enc_len as u64,
        };
        let ghost entries0 = self.index.spec_entries();
        let prev = self.index.insert(key, pos);
        proof {
            let kk = cv->Put_0;
            lemma_positions_insert(st0.m, kk, pos, cv->Put_1);
            assert(st1 == apply_cmd(st0, cv, old0.log_number, offset as int, enc_len as int));
            lemma_live_bytes_nonneg(entries0);
            if st0.m.contains_key(kk) {
                assert(prev == Some(st0.m[kk].0));
                let jj = choose|j: int|
                    0 <= j < entries0.len() && (#[trigger] entries0[j]).0 == kk
                        && self.index.spec_entries() == entries0.update(j, (kk, pos));
                lemma_seq_to_map_index(entries0, jj);
                lemma_live_bytes_bound(entries0, jj);
                lemma_live_bytes_update(entries0, jj, kk, pos);
                uncompacted_add_ok(
                    st0.unc,
                    st0.m[kk].0.bytes as int,
                    live_bytes(entries0),
                    total_len(segs0),
                );
            } else {
                assert(prev is None);
                assert(self.index.spec_entries() == entries0.push((kk, pos)));
                assert(self.index.spec_entries().drop_last() =~= entries0);
            }
        }
        if let Some(old_pos) = prev {
            self.uncompacted_bytes = self.uncompacted_bytes + old_pos.bytes;
        }
        self.model = Ghost(old0.model@.insert(cv->Put_0, cv->Put_1));
        proof {
            assert(self.model@ == values_of(st1.m));
            assert(self.wf());
            assert(self.uncompacted_bytes == old0.unc_after(cv->Put_0));
        }
        proof {
            lemma_live_bytes_nonneg(self.index.spec_entries());
        }
        if self.uncompacted_bytes > COMPACTION_THRESHOLD_BYTES {
            let ghost mid = *self;
            self.compact();
            proof {
                assert(self.spec_total_bytes() == mid.live_size());
                assert(mid.live_size() <= mid.spec_total_bytes());
                assert(self.pending_ops() =~= old0.pending_ops() + seq![
                    FileOpView::Append(old0.spec_log_number(), spec_encode(cv)),
                    FileOpView::Create((old0.spec_log_number() + 1) as u64),
                    FileOpView::Append(
                        (old0.spec_log_number() + 1) as u64,
                        self.spec_segments()[0].data@,
                    ),
                ] + delete_ops(segs1)) by {
                    assert(old0.pending_ops() + seq![
                        FileOpView::Append(old0.spec_log_number(), spec_encode(cv)),
                    ] + seq![
                        FileOpView::Create((old0.spec_log_number() + 1) as u64),
                        FileOpView::Append(
                            (old0.spec_log_number() + 1) as u64,
                            self.spec_segments()[0].data@,
                        ),
                    ] =~= old0.pending_ops() + seq![
                        FileOpView::Append(old0.spec_log_number(), spec_encode(cv)),
                        FileOpView::Create((old0.spec_log_number() + 1) as u64),
                        FileOpView::Append(
                            (old0.spec_log_number() + 1) as u64,
                            self.spec_segments()[0].data@,
                        ),
                    ]);
                }
                assert(delete_ops(segs1) =~= delete_ops(segs0));
            }
        }
        Ok(())
    }

    /// Remove a given key.
    ///
    /// A key that is not present fails with [`KvsError::KeyNotFound`] and
    /// appends nothing.  Otherwise the index entry is deleted, a `Remove`
    /// record is appended, the removed record's bytes are accounted, and
    /// compaction fires as in `set`.
    pub fn remove(&mut self, key: String) -> (r: Result<(), KvsError>)
        requires
            old(self).wf(),
            old(self)@.contains_key(key@) ==> old(self).room_for(remove_record_len(key@)),
        ensures
            final(self).wf(),
            old(self)@.contains_key(key@) ==> r is Ok && final(self)@ == old(self)@.remove(key@)
                && final(self).spec_uncompacted() <= COMPACTION_THRESHOLD_BYTES && final(self).spec_total_bytes() <= old(self).spec_total_bytes() + remove_record_len(key@)
                && final(self).spec_log_number() <= old(self).spec_log_number() + 1,
            !old(self)@.contains_key(key@) ==> (r matches Err(e) && e is KeyNotFound) && *final(self) == *old(self),
            old(self)@.contains_key(key@) && old(self).unc_after(key@)
                <= COMPACTION_THRESHOLD_BYTES ==> final(self).pending_ops() == old(self).pending_ops() + seq![
                FileOpView::Append(
                    old(self).spec_log_number(),
                    spec_encode(CommandView::Remove(key@)),
                ),
            ] && final(self).spec_uncompacted() == old(self).unc_after(key@),
            old(self)@.contains_key(key@) && old(self).unc_after(key@)
                > COMPACTION_THRESHOLD_BYTES ==> final(self).spec_uncompacted() == 0 && final(self).spec_segments().len() == 1 && final(self).spec_total_bytes() == final(self).live_size()
                && final(self).spec_log_number() == old(self).spec_log_number() + 1 && final(self).pending_ops() == old(self).pending_ops() + seq![
                FileOpView::Append(
                    old(self).spec_log_number(),
                    spec_encode(CommandView::Remove(key@)),
                ),
                FileOpView::Create((old(self).spec_log_number() + 1) as u64),
                FileOpView::Append(
                    (old(self).spec_log_number() + 1) as u64,
                    final(self).spec_segments()[0].data@,
                ),
            ] + delete_ops(old(self).spec_segments()),
    {
        let ghost old0 = *self;
        let ghost segs0 = self.segments@;
        let ghost st0 = replay_all(segs0).unwrap();
        proof {
            assert(self.index@ == positions_of(st0.m));
            assert(self@ == values_of(st0.m));
        }
        let ghost entries0 = self.index.spec_entries();
        let prev = match self.index.remove(&key) {
            Some(p) => p,
            None => {
                return Err(KvsError::KeyNotFound);
            },
        };
        proof {
            assert(st0.m.contains_key(key@));
            assert(prev == st0.m[key@].0);
        }
        let cmd = Command::Remove(key);
        let ghost cv = cmd@;
        proof {
            lemma_total_len_bound(segs0, segs0.len() - 1);
            lemma_total_len_nonneg(segs0.drop_last());
            assert(segs0[segs0.len() - 1] == segs0.last());
        }
        self.append_record(&cmd);
        let ghost segs1 = self.segments@;
        let ghost st1 = replay_all(segs1).unwrap();
        proof {
            let kk = cv->Remove_0;
            assert(st1 == ReplayState {
                m: st0.m.remove(kk),
                unc: st0.unc + st0.m[kk].0.bytes,
            });
            lemma_positions_remove(st0.m, kk);
            let jj = choose|j: int|
                0 <= j < entries0.len() && (#[trigger] entries0[j]).0 == kk
                    && self.index.spec_entries() == entries0.remove(j);
            lemma_seq_to_map_index(entries0, jj);
            lemma_live_bytes_bound(entries0, jj);
            lemma_live_bytes_remove(entries0, jj);
            uncompacted_add_ok(
                st0.unc,
                st0.m[kk].0.bytes as int,
                live_bytes(entries0),
                total_len(segs0),
            );
        }
        self.uncompacted_bytes = self.uncompacted_bytes + prev.bytes;
        self.model = Ghost(old0.model@.remove(cv->Remove_0));
        proof {
            assert(self.model@ == values_of(st1.m));
            assert(self.wf());
            assert(self.uncompacted_bytes == old0.unc_after(cv->Remove_0));
        }
        proof {
            lemma_live_bytes_nonneg(self.index.spec_entries());
        }
        if self.uncompacted_bytes > COMPACTION_THRESHOLD_BYTES {
            let ghost mid = *self;
            self.compact();
            proof {
                assert(self.spec_total_bytes() == mid.live_size());
                assert(mid.live_size() <= mid.spec_total_bytes());
                assert(self.pending_ops() =~= old0.pending_ops() + seq![
                    FileOpView::Append(old0.spec_log_number(), spec_encode(cv)),
                    FileOpView::Create((old0.spec_log_number() + 1) as u64),
                    FileOpView::Append(
                        (old0.spec_log_number() + 1) as u64,
                        self.spec_segments()[0].data@,
                    ),
                ] + delete_ops(segs1)) by {
                    assert(old0.pending_ops() + seq![
                        FileOpView::Append(old0.spec_log_number(), spec_encode(cv)),
                    ] + seq![
                        FileOpView::Create((old0.spec_log_number() + 1) as u64),
                        FileOpView::Append(
                            (old0.spec_log_number() + 1) as u64,
                            self.spec_segments()[0].data@,
                        ),
                    ] =~= old0.pending_ops() + seq![
                        FileOpView::Append(old0.spec_log_number(), spec_encode(cv)),
                        FileOpView::Create((old0.spec_log_number() + 1) as u64),
                        FileOpView::Append(
                            (old0.spec_log_number() + 1) as u64,
                            self.spec_segments()[0].data@,
                        ),
                    ]);
                }
                assert(delete_ops(segs1) =~= delete_ops(segs0));
            }
        }
        Ok(())
    }

    /// Rewrite the live records into a fresh segment and delete all older
    /// segments: generational compaction.
    ///
    /// The records are copied byte for byte from their old positions, so
    /// the new segment is exactly one `Set` record per live key; the
    /// abstract map is unchanged and the superseded count drops to zero.
    fn compact(&mut self)
        requires
            old(self).wf(),
            old(self).spec_log_number() < u64::MAX,
        ensures
            final(self).wf(),
            final(self)@ == old(self)@,
            final(self).spec_uncompacted() == 0,
            final(self).spec_log_number() == old(self).spec_log_number() + 1,
            final(self).spec_segments().len() == 1,
            final(self).spec_total_bytes() == final(self).live_size(),
            final(self).live_size() == old(self).live_size(),
            final(self).pending_ops() == old(self).pending_ops() + seq![
                FileOpView::Create((old(self).spec_log_number() + 1) as u64),
                FileOpView::Append(
                    (old(self).spec_log_number() + 1) as u64,
                    final(self).spec_segments()[0].data@,
                ),
            ] + delete_ops(old(self).spec_segments()),
    {
        let ghost old0 = *self;
        let ghost segs0 = self.segments@;
        let ghost st0 = replay_all(segs0).unwrap();
        let ghost entries0 = self.index.spec_entries();
        let ghost vm0 = self.model@;
        proof {
            self.lemma_segment_bounds();
            lemma_live_bytes_nonneg(entries0);
            assert(entries0.subrange(0, 0) =~= Seq::<(Seq<char>, CommandPosition)>::empty());
            assert(repv(entries0.subrange(0, 0), vm0) =~= Map::<
                Seq<char>,
                (CommandPosition, Seq<char>),
            >::empty());
        }
        let new_id = self.log_number + 1;
        let mut newdata: Vec<u8> = Vec::new();
        let n = self.index.len();
        let mut i: usize = 0;
        while i < n
            invariant
                self.segments@ == segs0,
                segs0.len() >= 1,
                ids_increasing(segs0),
                replay_all(segs0) == Some(st0),
                state_valid(segs0, st0),
                seq_to_map(entries0) == positions_of(st0.m),
                vm0 == values_of(st0.m),
                distinct_keys(entries0),
                n == self.index.spec_entries().len(),
                n == entries0.len(),
                i <= n,
                forall|j: int|
                    i <= j < n ==> #[trigger] self.index.spec_entries()[j] == entries0[j],
                forall|j: int|
                    0 <= j < n ==> (#[trigger] self.index.spec_entries()[j]).0 == entries0[j].0,
                forall|j: int|
                    0 <= j < i ==> (#[trigger] self.index.spec_entries()[j]).1.bytes
                        == entries0[j].1.bytes,
                st0.unc + live_bytes(entries0) <= total_len(segs0),
                0 <= st0.unc,
                total_len(segs0) <= u64::MAX,
                self.pending_ops() == old(self).pending_ops(),
                self.model@ == vm0,
                self.log_number == old(self).log_number,
                replay_seg_from(empty_state(), new_id, newdata@, 0) == Some(
                    ReplayState {
                        m: repv(self.index.spec_entries().subrange(0, i as int), vm0),
                        unc: 0,
                    },
                ),
                newdata@.len() == live_bytes(entries0.subrange(0, i as int)),
            decreases n - i,
        {
            let p = self.index.pos_at(i);
            let ghost k_i = entries0[i as int].0;
            proof {
                lemma_seq_to_map_index(entries0, i as int);
                assert(positions_of(st0.m).contains_key(k_i));
                assert(st0.m.contains_key(k_i));
                assert(st0.m[k_i].0 == entries0[i as int].1);
                assert(p == st0.m[k_i].0);
            }
            let ghost v_i = st0.m[k_i].1;
            proof {
                assert(entry_valid(segs0, k_i, p, v_i));
                assert(vm0[k_i] == v_i);
            }
            let seg_idx: usize = match self.find_segment(p.log_number) {
                Some(j) => j,
                None => {
                    proof {
                        let j = choose|j: int|
                            0 <= j < segs0.len() && (#[trigger] segs0[j]).log_number
                                == p.log_number && spec_parse(segs0[j].data@, p.offset as int)
                                == Some((CommandView::Put(k_i, v_i), p.bytes as int));
                        assert(false);
                    }
                    0
                },
            };
            proof {
                let j = choose|j: int|
                    0 <= j < segs0.len() && (#[trigger] segs0[j]).log_number == p.log_number
                        && spec_parse(segs0[j].data@, p.offset as int) == Some(
                        (CommandView::Put(k_i, v_i), p.bytes as int),
                    );
                if j != seg_idx {
                    assert(segs0[j].log_number == segs0[seg_idx as int].log_number);
                    assert(false);
                }
                lemma_parse_canonical(
                    segs0[seg_idx as int].data@,
                    p.offset as int,
                    CommandView::Put(k_i, v_i),
                    p.bytes as int,
                );
            }
            let _seg_len: usize = self.segments[seg_idx].data.len();
            let off = p.offset as usize;
            let end = off + (p.bytes as usize);
            let mut piece = slice_to_vec(
                slice_subrange(self.segments[seg_idx].data.as_slice(), off, end),
            );
            let new_off = newdata.len();
            let ghost nd0 = newdata@;
            newdata.append(&mut piece);
            let np = CommandPosition { log_number: new_id, offset: new_off as u64, bytes: p.bytes };
            let ghost cur0 = self.index.spec_entries();
            self.index.set_pos_at(i, np);
            proof {
                lemma_live_prefix(entries0, i as int);
                lemma_live_bytes_nonneg(entries0.subrange(0, i as int));
                lemma_live_take(entries0, i as int);
                let cvp = CommandView::Put(k_i, v_i);
                assert(piece@ == Seq::<u8>::empty());
                assert(newdata@ == nd0 + spec_encode(cvp));
                lemma_replay_seg_append(empty_state(), new_id, nd0, 0, cvp);
                let prev_m = repv(cur0.subrange(0, i as int), vm0);
                assert forall|x: int, y: int|
                    0 <= x < y < cur0.subrange(0, i as int).len() implies (
                #[trigger] cur0.subrange(0, i as int)[x]).0 != (#[trigger] cur0.subrange(
                    0,
                    i as int,
                )[y]).0 by {
                    assert(entries0[x].0 != entries0[y].0);
                }
                lemma_repv(cur0.subrange(0, i as int), vm0);
                lemma_seq_to_map_domain(cur0.subrange(0, i as int), k_i);
                if prev_m.contains_key(k_i) {
                    let jj = choose|jj: int|
                        0 <= jj < cur0.subrange(0, i as int).len() && (#[trigger] cur0.subrange(
                            0,
                            i as int,
                        )[jj]).0 == k_i;
                    assert(entries0[jj].0 == entries0[i as int].0);
                    assert(false);
                }
                assert(self.index.spec_entries().subrange(0, i as int) =~= cur0.subrange(
                    0,
                    i as int,
                ));
                assert(self.index.spec_entries().subrange(0, i + 1 as int).drop_last()
                    =~= cur0.subrange(0, i as int));
                assert(self.index.spec_entries()[i as int] == (k_i, np));
                assert((spec_encode(cvp).len() as u64) == p.bytes);
                assert((nd0.len() as u64) == new_off as u64);
                assert(repv(self.index.spec_entries().subrange(0, i + 1 as int), vm0)
                    == prev_m.insert(k_i, (np, vm0[k_i])));
                assert(replay_seg_from(empty_state(), new_id, newdata@, 0) == Some(
                    ReplayState {
                        m: repv(self.index.spec_entries().subrange(0, i + 1 as int), vm0),
                        unc: 0,
                    },
                ));
            }
            i = i + 1;
        }
        let ghost final_entries = self.index.spec_entries();
        let nd_len = newdata.len();
        let nd_copy = copy_bytes(&newdata);
        self.pending.push(FileOp::Create(new_id));
        self.pending.push(FileOp::Append(new_id, nd_copy));
        proof {
            assert(self.pending_ops() =~= old0.pending_ops() + seq![
                FileOpView::Create(new_id),
                FileOpView::Append(new_id, newdata@),
            ]);
        }
        let old_count = self.segments.len();
        let mut j: usize = 0;
        proof {
            assert(delete_ops(segs0.subrange(0, 0)) =~= Seq::<FileOpView>::empty());
            assert(self.pending_ops() =~= old0.pending_ops() + seq![
                FileOpView::Create(new_id),
                FileOpView::Append(new_id, newdata@),
            ] + delete_ops(segs0.subrange(0, 0)));
        }
        while j < old_count
            invariant
                self.segments@ == segs0,
                old_count == segs0.len(),
                j <= old_count,
                self.index.spec_entries() == final_entries,
                self.model@ == vm0,
                self.pending_ops() == old0.pending_ops() + seq![
                    FileOpView::Create(new_id),
                    FileOpView::Append(new_id, newdata@),
                ] + delete_ops(segs0.subrange(0, j as int)),
            decreases old_count - j,
        {
            let ghost pprev = self.pending_ops();
            let did = self.segments[j].log_number;
            self.pending.push(FileOp::Delete(did));
            proof {
                assert(self.pending_ops() =~= pprev + seq![FileOpView::Delete(did)]);
                assert(delete_ops(segs0.subrange(0, j + 1 as int)) =~= delete_ops(
                    segs0.subrange(0, j as int),
                ) + seq![FileOpView::Delete(segs0[j as int].log_number)]);
                assert(self.pending_ops() =~= old0.pending_ops() + seq![
                    FileOpView::Create(new_id),
                    FileOpView::Append(new_id, newdata@),
                ] + delete_ops(segs0.subrange(0, j + 1 as int)));
            }
            j = j + 1;
        }
        let ghost ndv = newdata@;
        let mut newsegs: Vec<Segment> = Vec::new();
        newsegs.push(Segment { log_number: new_id, data: newdata });
        self.segments = newsegs;
        self.log_number = new_id;
        self.uncompacted_bytes = 0;
        self.total_bytes = nd_len as u64;
        proof {
            let segsf = self.segments@;
            assert(segsf.len() == 1 && segsf[0].log_number == new_id && segsf[0].data@ == ndv);
            assert(final_entries.subrange(0, final_entries.len() as int) =~= final_entries);
            assert(entries0.subrange(0, entries0.len() as int) =~= entries0);
            let stf = ReplayState { m: repv(final_entries, vm0), unc: 0 };
            assert(replay_seg_from(empty_state(), new_id, ndv, 0) == Some(stf));
            assert(segsf[0] == segsf.last());
            assert(replay_segs_from(stf, segsf, 1) == Some(stf));
            assert(replay_all(segsf) == Some(stf));
            assert forall|x: int, y: int|
                0 <= x < y < final_entries.len() implies (#[trigger] final_entries[x]).0 != (
            #[trigger] final_entries[y]).0 by {
                assert(entries0[x].0 != entries0[y].0);
            }
            lemma_repv(final_entries, vm0);
            assert(self.index@ == positions_of(stf.m));
            assert(values_of(stf.m) =~= vm0) by {
                assert forall|k: Seq<char>| #[trigger] values_of(stf.m).contains_key(k)
                    <==> vm0.contains_key(k) by {
                    lemma_seq_to_map_domain(final_entries, k);
                    lemma_seq_to_map_domain(entries0, k);
                    if vm0.contains_key(k) {
                        assert(st0.m.contains_key(k));
                        assert(positions_of(st0.m).contains_key(k));
                        assert(seq_to_map(entries0).contains_key(k));
                        let jx = choose|jx: int|
                            0 <= jx < entries0.len() && (#[trigger] entries0[jx]).0 == k;
                        assert(final_entries[jx].0 == k);
                    }
                    if values_of(stf.m).contains_key(k) {
                        assert(stf.m.contains_key(k));
                        assert(seq_to_map(final_entries).contains_key(k));
                        let jx = choose|jx: int|
                            0 <= jx < final_entries.len() && (#[trigger] final_entries[jx]).0 == k;
                        assert(entries0[jx].0 == k);
                        assert(seq_to_map(entries0).contains_key(k));
                        assert(positions_of(st0.m).contains_key(k));
                    }
                }
                assert forall|k: Seq<char>| #[trigger] values_of(stf.m).contains_key(k) implies
                    values_of(stf.m)[k] == vm0[k] by {
                    assert(stf.m.contains_key(k));
                    assert(stf.m[k].1 == vm0[k]);
                }
            }
            assert(self.model@ == values_of(stf.m));
            lemma_live_bytes_congruent(final_entries, entries0);
            assert(live_bytes(final_entries) == live_bytes(entries0));
            assert(total_len(segsf) == ndv.len()) by {
                assert(segsf.drop_last() =~= Seq::<Segment>::empty());
                assert(total_len(segsf.drop_last()) == 0);
                assert(segsf.last().data@ == ndv);
            }
            lemma_live_bytes_nonneg(entries0);
            assert(segs0.subrange(0, old_count as int) =~= segs0);
            assert(self.wf());
        }
    }

    /// Every live key's index entry points at a well-formed `Set` record
    /// for that key in a present segment, and the value stored there is
    /// exactly the one the store returns: the index never points at stale
    /// or foreign bytes, and a `get` answer always has a `Set` record on
    /// disk behind it, the newest one not followed by a `Remove`.
    pub proof fn lemma_index_points_at_live_set(self)
        requires
            self.wf(),
        ensures
            forall|k: Seq<char>| #[trigger] self.spec_index().contains_key(k)
                <==> self@.contains_key(k),
            forall|k: Seq<char>| #[trigger] self.spec_index().contains_key(k) ==> entry_valid(
                self.spec_segments(),
                k,
                self.spec_index()[k],
                self@[k],
            ),
    {
        self.lemma_segment_bounds();
        let st = replay_all(self.segments@).unwrap();
        assert(self.spec_index() == positions_of(st.m));
        assert(self@ == values_of(st.m));
    }

    /// Every live key's index entry is exactly as long as one encoded
    /// `Set` record of that key and its current value, so `live_size` is
    /// the size of one such record per live key — and after a compaction,
    /// whose ensures give total size equal to `live_size`, the whole log
    /// is one `Set` record per key.
    pub proof fn lemma_one_record_per_live_key(self)
        requires
            self.wf(),
        ensures
            forall|k: Seq<char>| #[trigger] self@.contains_key(k) ==> self.spec_index().contains_key(
                k,
            ) && self.spec_index()[k].bytes == put_len(k, self@[k]),
    {
        self.lemma_index_points_at_live_set();
        let segs = self.spec_segments();
        assert forall|k: Seq<char>| #[trigger] self@.contains_key(k) implies self.spec_index().contains_key(
            k,
        ) && self.spec_index()[k].bytes == put_len(k, self@[k]) by {
            let p = self.spec_index()[k];
            assert(self.spec_index().contains_key(k));
            assert(entry_valid(segs, k, p, self@[k]));
            let j = choose|j: int|
                0 <= j < segs.len() && (#[trigger] segs[j]).log_number == p.log_number
                    && spec_parse(segs[j].data@, p.offset as int) == Some(
                    (CommandView::Put(k, self@[k]), p.bytes as int),
                );
            lemma_parse_canonical(
                segs[j].data@,
                p.offset as int,
                CommandView::Put(k, self@[k]),
                p.bytes as int,
            );
        }
    }

    /// Closing the store and reopening its segments yields identical
    /// contents: every `get` answers the same before and after.
    pub proof fn lemma_reopen_preserves_map(self, other: KvStore)
        requires
            self.wf(),
            opened_from(other, self.spec_segments()),
        ensures
            other@ == self@,
    {
    }

    /// Replay is deterministic and depends only on the segment ids and
    /// bytes: two well-formed stores over equal segment images hold equal
    /// maps, whatever their restart histories.
    pub proof fn lemma_replay_deterministic(self, other: KvStore)
        requires
            self.wf(),
            other.wf(),
            self.spec_segments().len() == other.spec_segments().len(),
            forall|i: int|
                0 <= i < self.spec_segments().len() ==> (
                #[trigger] self.spec_segments()[i]).log_number
                    == other.spec_segments()[i].log_number && self.spec_segments()[i].data@
                    == other.spec_segments()[i].data@,
        ensures
            other@ == self@,
    {
        lemma_replay_congruent(empty_state(), self.spec_segments(), other.spec_segments(), 0);
    }
}

/// A superseded-bytes increment stays within `u64` range: the old entry's
/// bytes are part of the live bytes, and the whole sum is bounded by the
/// log size.
proof fn uncompacted_add_ok(unc: int, b: int, live: int, bound: int)
    requires
        unc + live <= bound,
        0 <= unc,
        0 <= b <= live,
        bound <= u64::MAX,
    ensures
        unc + b <= u64::MAX,
{
}

proof fn lemma_total_sub_prefix(segs: Seq<Segment>, i: int)
    requires
        0 <= i <= segs.len(),
    ensures
        total_len(segs.subrange(0, i)) <= total_len(segs),
    decreases segs.len() - i,
{
    if i == segs.len() {
        assert(segs.subrange(0, i) =~= segs);
    } else {
        lemma_total_len_take(segs, i);
        lemma_total_sub_prefix(segs, i + 1);
    }
}

} // verus!
