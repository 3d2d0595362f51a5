//! The log-structured storage engine.
//!
//! A [`KvStore`] holds the in-memory image of an append-only command log
//! partitioned into numbered segments, together with an index from each
//! live key to the byte range of its most recent `Set` record. Opening a
//! store replays the segment bytes to rebuild the index; mutations append
//! records to the current segment; compaction copies the live records
//! into a fresh generation and drops everything else.
//!
//! The store's view (`store@`) is the visible key-to-value mapping, a
//! `Map<Seq<char>, Seq<char>>`. The well-formedness predicate [`KvStore::wf`]
//! ties the executable state to [`replay`], the mathematical recovery
//! function, so reopening a store from its own segment bytes provably
//! rebuilds the same mapping.

use vstd::prelude::*;
use vstd::pervasive::VecAdditionalExecFns;

use crate::codec::CommandV;
use crate::codec::KvsCommands;
use crate::codec::decode_record;
use crate::codec::encode_cmd;
use crate::codec::encode_record;
use crate::codec::lemma_parse_complete;
use crate::codec::lemma_parse_sound;
use crate::codec::parse_cmd;
use crate::error::KvsError;
use crate::error::Result;

verus! {

/// Compaction runs once at least this many reclaimable bytes have
/// accumulated.
pub const COMPACTION_THRESHOLD: u64 = 1024 * 1024;

/// The byte range of one live record: its segment's generation, the
/// offset of the record's first byte, and the record's length.
#[derive(Clone, Copy, Debug, PartialEq, Eq, Structural)]
pub struct FileLocation {
    pub gen: u64,
    pub offset: u64,
    pub length: u64,
}

impl FileLocation {
    pub fn new(gen: u64, offset: u64, length: u64) -> (r: Self)
        ensures
            r == (FileLocation { gen, offset, length }),
    {
        FileLocation { gen, offset, length }
    }
}

/// One segment of the log: a generation number and the segment's bytes.
pub struct Segment {
    pub gen: u64,
    pub data: Vec<u8>,
}

impl View for Segment {
    type V = (u64, Seq<u8>);

    open spec fn view(&self) -> (u64, Seq<u8>) {
        (self.gen, self.data@)
    }
}

/// The appender for the current segment. It owns the segment's bytes and
/// tracks the offset at which the next record will land.
pub struct KvWriter {
    pub gen: u64,
    pub data: Vec<u8>,
    pub offset: u64,
}

impl View for KvWriter {
    type V = Seq<u8>;

    open spec fn view(&self) -> Seq<u8> {
        self.data@
    }
}

impl KvWriter {
    /// The writer's offset equals the end of its segment.
    pub open spec fn wf(self) -> bool {
        self.offset == self.data@.len()
    }

    /// A writer over an existing segment starts appending at its end.
    pub fn new(gen: u64, data: Vec<u8>) -> (w: KvWriter)
        ensures
            w.gen == gen,
            w@ == data@,
            w.wf(),
    {
        let offset = data.len() as u64;
        KvWriter { gen, data, offset }
    }

    /// Appends bytes to the segment and advances the offset by their
    /// number.
    pub fn write(&mut self, buf: &Vec<u8>)
        requires
            old(self).wf(),
        ensures
            final(self).wf(),
            final(self).gen == old(self).gen,
            final(self)@ == old(self)@ + buf@,
            final(self).offset == old(self).offset + buf@.len(),
    {
        let mut i: usize = 0;
        while i < buf.len()
            invariant
                old(self).wf(),
                i <= buf.len(),
                self.gen == old(self).gen,
                self.data@ == old(self).data@ + buf@.take(i as int),
                self.offset == old(self).offset,
            decreases buf.len() - i,
        {
            self.data.push(buf[i]);
            proof {
                assert(old(self).data@ + buf@.take(i + 1 as int) =~= (old(self).data@
                    + buf@.take(i as int)).push(buf@[i as int]));
            }
            i = i + 1;
        }
        proof {
            assert(buf@.take(buf@.len() as int) =~= buf@);
        }
        self.offset = self.data.len() as u64;
    }

    /// Gives up the writer's bytes.
    pub fn into_data(self) -> (r: Vec<u8>)
        ensures
            r@ == self@,
    {
        self.data
    }
}

/// One filesystem action a host program must mirror onto real files:
/// create an empty segment file, append bytes to one, or delete one.
pub enum DiskOp {
    Create { gen: u64 },
    Append { gen: u64, bytes: Vec<u8> },
    Delete { gen: u64 },
}

/// The effect of one [`DiskOp`] on a directory, modelled as a map from
/// generation to file bytes.
pub open spec fn apply_op(disk: Map<u64, Seq<u8>>, op: DiskOp) -> Map<u64, Seq<u8>> {
    match op {
        DiskOp::Create { gen } => disk.insert(gen, Seq::empty()),
        DiskOp::Append { gen, bytes } => if disk.contains_key(gen) {
            disk.insert(gen, disk[gen] + bytes@)
        } else {
            disk
        },
        DiskOp::Delete { gen } => disk.remove(gen),
    }
}

/// The effect of a sequence of [`DiskOp`]s, applied in order.
pub open spec fn apply_ops(disk: Map<u64, Seq<u8>>, ops: Seq<DiskOp>) -> Map<u64, Seq<u8>>
    decreases ops.len(),
{
    if ops.len() == 0 {
        disk
    } else {
        apply_op(apply_ops(disk, ops.drop_last()), ops.last())
    }
}

/// The directory a sequence of segments stands for.
pub open spec fn disk_of(segs: Seq<(u64, Seq<u8>)>) -> Map<u64, Seq<u8>>
    decreases segs.len(),
{
    if segs.len() == 0 {
        Map::empty()
    } else {
        disk_of(segs.drop_last()).insert(segs.last().0, segs.last().1)
    }
}

/// The total number of bytes held in the segments.
pub open spec fn disk_len(segs: Seq<(u64, Seq<u8>)>) -> int
    decreases segs.len(),
{
    if segs.len() == 0 {
        0
    } else {
        disk_len(segs.drop_last()) + segs.last().1.len()
    }
}

/// Generations are strictly increasing along the segment list.
pub open spec fn gens_ascending(segs: Seq<(u64, Seq<u8>)>) -> bool {
    forall|i: int, j: int| 0 <= i < j < segs.len() ==> segs[i].0 < segs[j].0
}

/// Every segment's length stays within the range of `u64`, as the bytes
/// of a real file must.
pub open spec fn segs_bounded(segs: Seq<(u64, Seq<u8>)>) -> bool {
    forall|i: int| 0 <= i < segs.len() ==> (#[trigger] segs[i]).1.len() <= u64::MAX
}

/// The mathematical state that recovery rebuilds: the index, the visible
/// mapping, and the reclaimable-byte counter.
pub ghost struct RState {
    pub idx: Map<Seq<char>, FileLocation>,
    pub vals: Map<Seq<char>, Seq<char>>,
    pub reclaim: int,
}

/// The state a fresh store starts from.
pub open spec fn init_state() -> RState {
    RState { idx: Map::empty(), vals: Map::empty(), reclaim: 0 }
}

/// Saturating addition into the range of `u64`, matching the counter's
/// executable arithmetic.
pub open spec fn clamp64(v: int) -> int {
    if v > u64::MAX {
        u64::MAX as int
    } else {
        v
    }
}

/// The bytes a key's previous entry pins down for reclamation: the length
/// of the shadowed record, or nothing when the key was absent.
pub open spec fn shadowed_len(st: RState, key: Seq<char>) -> int {
    if st.idx.contains_key(key) {
        st.idx[key].length as int
    } else {
        0
    }
}

/// The effect of one log record, occupying `[off, end)` of generation
/// `gen`, on the recovery state.
pub open spec fn apply_cmd(st: RState, gen: u64, off: int, end: int, c: CommandV) -> RState {
    match c {
        CommandV::Put { key, value } => RState {
            idx: st.idx.insert(
                key,
                FileLocation { gen, offset: off as u64, length: (end - off) as u64 },
            ),
            vals: st.vals.insert(key, value),
            reclaim: clamp64(st.reclaim + shadowed_len(st, key)),
        },
        CommandV::Remove { key } => RState {
            idx: st.idx.remove(key),
            vals: st.vals.remove(key),
            reclaim: clamp64(st.reclaim + (end - off) + shadowed_len(st, key)),
        },
        CommandV::Get { .. } => st,
    }
}

/// What replaying one segment yields: a new state, a parse failure, or a
/// stray `Get` record, which never belongs in the log.
pub ghost enum LoadRes {
    Done(RState),
    Corrupt,
    StrayGet,
}

/// Replays one segment's bytes from position `i`, record by record.
pub open spec fn load_seg(st: RState, gen: u64, data: Seq<u8>, i: int) -> LoadRes
    decreases data.len() - i,
    when 0 <= i <= data.len()
{
    if i == data.len() {
        LoadRes::Done(st)
    } else {
        match parse_cmd(data, i) {
            None => LoadRes::Corrupt,
            Some((c, j)) => if c is Get {
                LoadRes::StrayGet
            } else if i < j <= data.len() {
                load_seg(apply_cmd(st, gen, i, j, c), gen, data, j)
            } else {
                LoadRes::Corrupt
            },
        }
    }
}

/// Replays the segments from index `k` on, in order.
pub open spec fn load_from(st: RState, segs: Seq<(u64, Seq<u8>)>, k: int) -> LoadRes
    decreases segs.len() - k,
    when 0 <= k <= segs.len()
{
    if k == segs.len() {
        LoadRes::Done(st)
    } else {
        match load_seg(st, segs[k].0, segs[k].1, 0) {
            LoadRes::Done(st2) => load_from(st2, segs, k + 1),
            r => r,
        }
    }
}

/// Recovery: what replaying all segments from the initial state yields.
pub open spec fn replay(segs: Seq<(u64, Seq<u8>)>) -> LoadRes {
    load_from(init_state(), segs, 0)
}

/// The index as a map, read off the association vector.
pub open spec fn amap(l: Seq<(String, FileLocation)>) -> Map<Seq<char>, FileLocation>
    decreases l.len(),
{
    if l.len() == 0 {
        Map::empty()
    } else {
        amap(l.drop_last()).insert(l.last().0@, l.last().1)
    }
}

/// No key appears twice in the association vector.
pub open spec fn keys_unique(l: Seq<(String, FileLocation)>) -> bool {
    forall|i: int, j: int| 0 <= i < j < l.len() ==> l[i].0@ != l[j].0@
}

/// The sum of the lengths of the records the index points at: the bytes a
/// perfectly compacted log would occupy.
pub open spec fn sum_locs(l: Seq<(String, FileLocation)>) -> int
    decreases l.len(),
{
    if l.len() == 0 {
        0
    } else {
        sum_locs(l.drop_last()) + l.last().1.length as int
    }
}

/// An entry of the association vector is in the map it stands for.
proof fn lemma_amap_index(l: Seq<(String, FileLocation)>, i: int)
    requires
        keys_unique(l),
        0 <= i < l.len(),
    ensures
        amap(l).contains_key(l[i].0@),
        amap(l)[l[i].0@] == l[i].1,
    decreases l.len(),
{
    if i == l.len() - 1 {
    } else {
        assert(l.drop_last()[i] == l[i]);
        lemma_amap_index(l.drop_last(), i);
        assert(l[i].0@ != l.last().0@);
    }
}

/// A key held by no entry of the association vector is not in the map.
proof fn lemma_amap_absent(l: Seq<(String, FileLocation)>, k: Seq<char>)
    requires
        forall|i: int| 0 <= i < l.len() ==> l[i].0@ != k,
    ensures
        !amap(l).contains_key(k),
    decreases l.len(),
{
    if l.len() == 0 {
    } else {
        assert(forall|i: int| 0 <= i < l.len() - 1 ==> l.drop_last()[i] == l[i]);
        lemma_amap_absent(l.drop_last(), k);
    }
}

/// Replacing the entry that holds a key updates the map at that key.
proof fn lemma_amap_update(l: Seq<(String, FileLocation)>, i: int, x: (String, FileLocation))
    requires
        keys_unique(l),
        0 <= i < l.len(),
        x.0@ == l[i].0@,
    ensures
        amap(l.update(i, x)) == amap(l).insert(x.0@, x.1),
        keys_unique(l.update(i, x)),
    decreases l.len(),
{
    let l2 = l.update(i, x);
    assert(keys_unique(l2)) by {
        assert(forall|m: int| 0 <= m < l.len() && m != i ==> l2[m] == l[m]);
    }
    if i == l.len() - 1 {
        assert(l2.drop_last() =~= l.drop_last());
        assert(l2.last() == x);
        assert(amap(l.drop_last()).insert(x.0@, x.1) =~= amap(l.drop_last()).insert(
            l.last().0@,
            l.last().1,
        ).insert(x.0@, x.1));
    } else {
        assert(l.drop_last()[i] == l[i]);
        lemma_amap_update(l.drop_last(), i, x);
        assert(l2.drop_last() =~= l.drop_last().update(i, x));
        assert(l2.last() == l.last());
        assert(x.0@ != l.last().0@);
        assert(amap(l.drop_last()).insert(x.0@, x.1).insert(l.last().0@, l.last().1) =~= amap(
            l.drop_last(),
        ).insert(l.last().0@, l.last().1).insert(x.0@, x.1));
    }
}

/// Appending an entry for a fresh key inserts it into the map.
proof fn lemma_amap_push(l: Seq<(String, FileLocation)>, x: (String, FileLocation))
    requires
        keys_unique(l),
        forall|i: int| 0 <= i < l.len() ==> l[i].0@ != x.0@,
    ensures
        amap(l.push(x)) == amap(l).insert(x.0@, x.1),
        keys_unique(l.push(x)),
{
    assert(l.push(x).drop_last() =~= l);
    assert(l.push(x).last() == x);
    assert(forall|i: int| 0 <= i < l.len() ==> l.push(x)[i] == l[i]);
}

/// Removing the entry that holds a key removes the key from the map.
proof fn lemma_amap_remove(l: Seq<(String, FileLocation)>, i: int)
    requires
        keys_unique(l),
        0 <= i < l.len(),
    ensures
        amap(l.remove(i)) == amap(l).remove(l[i].0@),
        keys_unique(l.remove(i)),
    decreases l.len(),
{
    let l2 = l.remove(i);
    l.remove_ensures(i);
    assert(keys_unique(l2));
    if i == l.len() - 1 {
        assert(l2 =~= l.drop_last());
        assert(forall|m: int| 0 <= m < l.len() - 1 ==> l[m].0@ != l[i].0@);
        lemma_amap_absent(l.drop_last(), l[i].0@);
        assert(amap(l.drop_last()) =~= amap(l.drop_last()).insert(l.last().0@, l.last().1).remove(
            l[i].0@,
        ));
    } else {
        assert(l.drop_last()[i] == l[i]);
        lemma_amap_remove(l.drop_last(), i);
        assert(l2.drop_last() =~= l.drop_last().remove(i));
        assert(l2.last() == l.last());
        assert(l[i].0@ != l.last().0@);
        assert(amap(l.drop_last()).remove(l[i].0@).insert(l.last().0@, l.last().1) =~= amap(
            l.drop_last(),
        ).insert(l.last().0@, l.last().1).remove(l[i].0@));
    }
}

/// Applying one more operation extends the effect of a sequence of them.
proof fn lemma_apply_ops_snoc(disk: Map<u64, Seq<u8>>, ops: Seq<DiskOp>, op: DiskOp)
    ensures
        apply_ops(disk, ops.push(op)) == apply_op(apply_ops(disk, ops), op),
{
    assert(ops.push(op).drop_last() =~= ops);
    assert(ops.push(op).last() == op);
}

/// One live entry points at a well-formed `Set` record for its key and
/// value inside one of the segments.
pub open spec fn entry_ok(
    loc: FileLocation,
    k: Seq<char>,
    v: Seq<char>,
    segs: Seq<(u64, Seq<u8>)>,
) -> bool {
    exists|si: int|
        0 <= si < segs.len() && (#[trigger] segs[si]).0 == loc.gen && loc.offset + loc.length
            <= segs[si].1.len() && segs[si].1.subrange(
            loc.offset as int,
            loc.offset + loc.length,
        ) == encode_cmd(CommandV::Put { key: k, value: v }) && loc.length >= 1
}

/// Every index entry of the state points at the `Set` record that wrote
/// its key's visible value, and the two maps share their domain.
pub open spec fn entries_ok(st: RState, segs: Seq<(u64, Seq<u8>)>) -> bool {
    &&& forall|k: Seq<char>| #[trigger]
        st.idx.contains_key(k) ==> st.vals.contains_key(k) && entry_ok(
            st.idx[k],
            k,
            st.vals[k],
            segs,
        )
    &&& forall|k: Seq<char>| #[trigger] st.vals.contains_key(k) ==> st.idx.contains_key(k)
    &&& 0 <= st.reclaim <= u64::MAX
}

/// Replaying one segment that stands among the segments preserves
/// [`entries_ok`].
proof fn lemma_load_seg_entries(
    st: RState,
    gen: u64,
    data: Seq<u8>,
    i: int,
    segs: Seq<(u64, Seq<u8>)>,
    si: int,
)
    requires
        entries_ok(st, segs),
        0 <= si < segs.len(),
        segs[si] == (gen, data),
        data.len() <= u64::MAX,
        0 <= i <= data.len(),
        load_seg(st, gen, data, i) is Done,
    ensures
        match load_seg(st, gen, data, i) {
            LoadRes::Done(st2) => entries_ok(st2, segs),
            _ => true,
        },
    decreases data.len() - i,
{
    if i == data.len() {
    } else {
        lemma_parse_sound(data, i);
        match parse_cmd(data, i) {
            None => {},
            Some((c, j)) => {
                if c is Get {
                } else if i < j <= data.len() {
                    let st2 = apply_cmd(st, gen, i, j, c);
                    assert(entries_ok(st2, segs)) by {
                        match c {
                            CommandV::Put { key, value } => {
                                let loc = FileLocation {
                                    gen,
                                    offset: i as u64,
                                    length: (j - i) as u64,
                                };
                                assert(entry_ok(loc, key, value, segs)) by {
                                    assert(segs[si].0 == loc.gen && loc.offset + loc.length
                                        <= segs[si].1.len() && segs[si].1.subrange(
                                        loc.offset as int,
                                        loc.offset + loc.length,
                                    ) == encode_cmd(CommandV::Put { key, value }) && loc.length
                                        >= 1);
                                }
                            },
                            _ => {},
                        }
                    }
                    lemma_load_seg_entries(st2, gen, data, j, segs, si);
                }
            },
        }
    }
}

/// Replaying the remaining segments preserves [`entries_ok`].
proof fn lemma_load_from_entries(st: RState, segs: Seq<(u64, Seq<u8>)>, k: int)
    requires
        entries_ok(st, segs),
        segs_bounded(segs),
        0 <= k <= segs.len(),
        load_from(st, segs, k) is Done,
    ensures
        match load_from(st, segs, k) {
            LoadRes::Done(st2) => entries_ok(st2, segs),
            _ => true,
        },
    decreases segs.len() - k,
{
    if k == segs.len() {
    } else {
        match load_seg(st, segs[k].0, segs[k].1, 0) {
            LoadRes::Done(st2) => {
                lemma_load_seg_entries(st, segs[k].0, segs[k].1, 0, segs, k);
                lemma_load_from_entries(st2, segs, k + 1);
            },
            _ => {},
        }
    }
}

/// Appending the encoding of one command to a segment extends its replay
/// by exactly that command's effect.
proof fn lemma_load_seg_append(st: RState, gen: u64, data: Seq<u8>, i: int, c: CommandV)
    requires
        0 <= i <= data.len(),
        !(c is Get),
        load_seg(st, gen, data, i) is Done,
    ensures
        match load_seg(st, gen, data, i) {
            LoadRes::Done(st1) => load_seg(st, gen, data + encode_cmd(c), i) == LoadRes::Done(
                apply_cmd(
                    st1,
                    gen,
                    data.len() as int,
                    (data.len() + encode_cmd(c).len()) as int,
                    c,
                ),
            ),
            _ => true,
        },
    decreases data.len() - i,
{
    let e = encode_cmd(c);
    let big = data + e;
    if i == data.len() {
        assert(big.subrange(i, i + e.len()) =~= e);
        lemma_parse_complete(big, i, c);
        assert(load_seg(st, gen, big, i) == load_seg(
            apply_cmd(st, gen, i, i + e.len(), c),
            gen,
            big,
            i + e.len(),
        ));
    } else {
        match parse_cmd(data, i) {
            None => {},
            Some((c0, j)) => {
                if c0 is Get {
                } else if i < j <= data.len() {
                    lemma_parse_sound(data, i);
                    assert(big.subrange(i, i + encode_cmd(c0).len()) =~= data.subrange(i, j));
                    lemma_parse_complete(big, i, c0);
                    assert(parse_cmd(big, i) == Some((c0, j)));
                    let st2 = apply_cmd(st, gen, i, j, c0);
                    lemma_load_seg_append(st2, gen, data, j, c);
                }
            },
        }
    }
}

/// Appending the encoding of one command to the last segment extends the
/// whole replay by exactly that command's effect.
#[verifier::rlimit(100)]
proof fn lemma_load_from_append(
    st: RState,
    segs: Seq<(u64, Seq<u8>)>,
    segs2: Seq<(u64, Seq<u8>)>,
    k: int,
    c: CommandV,
)
    requires
        0 <= k < segs.len(),
        segs2.len() == segs.len(),
        forall|m: int| 0 <= m < segs.len() - 1 ==> segs2[m] == segs[m],
        segs2.last().0 == segs.last().0,
        segs2.last().1 == segs.last().1 + encode_cmd(c),
        !(c is Get),
        load_from(st, segs, k) is Done,
    ensures
        match load_from(st, segs, k) {
            LoadRes::Done(st1) => load_from(st, segs2, k) == LoadRes::Done(
                apply_cmd(
                    st1,
                    segs.last().0,
                    segs.last().1.len() as int,
                    (segs.last().1.len() + encode_cmd(c).len()) as int,
                    c,
                ),
            ),
            _ => true,
        },
    decreases segs.len() - k,
{
    let e = encode_cmd(c);
    if k == segs.len() - 1 {
        assert(segs2.last() == segs2[k]);
        assert(segs.last() == segs[k]);
        match load_seg(st, segs[k].0, segs[k].1, 0) {
            LoadRes::Done(st1) => {
                lemma_load_seg_append(st, segs[k].0, segs[k].1, 0, c);
                let stf = apply_cmd(
                    st1,
                    segs[k].0,
                    segs[k].1.len() as int,
                    (segs[k].1.len() + e.len()) as int,
                    c,
                );
                assert(load_seg(st, segs2[k].0, segs2[k].1, 0) == LoadRes::Done(stf));
                assert(load_from(stf, segs2, k + 1) == LoadRes::Done(stf));
                assert(load_from(st, segs2, k) == LoadRes::Done(stf));
                assert(load_from(st1, segs, k + 1) == LoadRes::Done(st1));
                assert(load_from(st, segs, k) == LoadRes::Done(st1));
            },
            _ => {
                assert(false);
            },
        }
    } else {
        assert(segs2[k] == segs[k]);
        match load_seg(st, segs[k].0, segs[k].1, 0) {
            LoadRes::Done(st2) => {
                assert(load_from(st, segs, k) == load_from(st2, segs, k + 1));
                lemma_load_from_append(st2, segs, segs2, k + 1, c);
                assert(load_from(st, segs2, k) == load_from(st2, segs2, k + 1));
            },
            _ => {
                assert(false);
            },
        }
    }
}

/// The log-structured key-value store: the index, the sealed read-only
/// segments, the writer for the current segment, the reclaimable-byte
/// counter, and the disk operations a host program has yet to mirror.
pub struct KvStore {
    index: Vec<(String, FileLocation)>,
    sealed: Vec<Segment>,
    writer: KvWriter,
    compactible: u64,
    pending: Vec<DiskOp>,
    synced: Ghost<Map<u64, Seq<u8>>>,
}

impl View for KvStore {
    type V = Map<Seq<char>, Seq<char>>;

    /// The visible key-to-value mapping: what replaying the store's own
    /// segments yields.
    closed spec fn view(&self) -> Map<Seq<char>, Seq<char>> {
        match replay(self.segs()) {
            LoadRes::Done(st) => st.vals,
            _ => Map::empty(),
        }
    }
}

impl KvStore {
    /// The store's segments in ascending generation order, the writer's
    /// segment last.
    pub closed spec fn segs(self) -> Seq<(u64, Seq<u8>)> {
        self.sealed@.map_values(|s: Segment| s@) + seq![(self.writer.gen, self.writer@)]
    }

    /// The generation the writer appends to.
    pub closed spec fn current_gen(self) -> u64 {
        self.writer.gen
    }

    /// The reclaimable-byte counter.
    pub closed spec fn reclaim(self) -> int {
        self.compactible as int
    }

    /// How many segments the store holds.
    pub closed spec fn num_segs(self) -> int {
        self.segs().len() as int
    }

    /// The total number of bytes across all segments.
    pub closed spec fn size_on_disk(self) -> int {
        disk_len(self.segs())
    }

    /// The bytes the live records alone occupy.
    pub closed spec fn live_size_spec(self) -> int {
        sum_locs(self.index@)
    }

    /// The index as a map.
    pub closed spec fn index_map(self) -> Map<Seq<char>, FileLocation> {
        amap(self.index@)
    }

    /// The directory contents the host program has already been told
    /// about, through [`KvStore::take_pending`].
    pub closed spec fn synced_disk(self) -> Map<u64, Seq<u8>> {
        self.synced@
    }

    /// The disk operations not yet handed to the host program.
    pub closed spec fn pending_ops(self) -> Seq<DiskOp> {
        self.pending@
    }

    /// The recovery state the store's fields stand for.
    pub closed spec fn state(self) -> RState {
        RState { idx: amap(self.index@), vals: self@, reclaim: self.compactible as int }
    }

    /// Well-formedness: generations ascend, segment lengths are bounded,
    /// index keys are unique, replaying the segments rebuilds exactly
    /// the store's index, mapping and counter, and the pending
    /// operations carry the synced disk to the current segments.
    pub closed spec fn wf(self) -> bool {
        &&& gens_ascending(self.segs())
        &&& segs_bounded(self.segs())
        &&& self.writer.wf()
        &&& keys_unique(self.index@)
        &&& replay(self.segs()) == LoadRes::Done(self.state())
        &&& apply_ops(self.synced@, self.pending@) == disk_of(self.segs())
    }

    /// Hands over the disk operations accumulated since the last call.
    /// Applying them, in order, to a directory holding `synced_disk()`
    /// yields the store's current segments; the store then counts that
    /// directory as synced.
    pub fn take_pending(&mut self) -> (ops: Vec<DiskOp>)
        requires
            old(self).wf(),
        ensures
            final(self).wf(),
            ops@ == old(self).pending_ops(),
            final(self).pending_ops() == Seq::<DiskOp>::empty(),
            apply_ops(old(self).synced_disk(), ops@) == final(self).synced_disk(),
            final(self)@ == old(self)@,
            final(self).segs() == old(self).segs(),
            final(self).index_map() == old(self).index_map(),
            final(self).reclaim() == old(self).reclaim(),
            final(self).current_gen() == old(self).current_gen(),
    {
        let mut ops: Vec<DiskOp> = Vec::new();
        core::mem::swap(&mut ops, &mut self.pending);
        proof {
            self.synced = Ghost(disk_of(self.segs()));
            assert(apply_ops(self.synced@, self.pending@) =~= disk_of(self.segs()));
        }
        ops
    }

    /// Gives up the store's segments, ascending by generation: the bytes
    /// a host program would read back from the directory.
    pub fn into_segments(self) -> (r: Vec<Segment>)
        ensures
            r@.map_values(|s: Segment| s@) == self.segs(),
    {
        let KvStore { index: _, mut sealed, writer, compactible: _, pending: _, synced: _ } = self;
        let ghost old_segs = self.segs();
        let gen = writer.gen;
        let data = writer.into_data();
        sealed.push(Segment { gen, data });
        proof {
            assert(sealed@.map_values(|s: Segment| s@) =~= old_segs);
        }
        sealed
    }
}


/// Finds the index entry that holds a key.
fn index_find(index: &Vec<(String, FileLocation)>, key: &String) -> (r: Option<usize>)
    requires
        keys_unique(index@),
    ensures
        match r {
            Some(i) => i < index@.len() && index@[i as int].0@ == key@ && amap(
                index@,
            ).contains_key(key@) && amap(index@)[key@] == index@[i as int].1,
            None => !amap(index@).contains_key(key@) && (forall|m: int|
                0 <= m < index@.len() ==> index@[m].0@ != key@),
        },
{
    let mut i: usize = 0;
    while i < index.len()
        invariant
            i <= index@.len(),
            keys_unique(index@),
            forall|m: int| 0 <= m < i ==> index@[m].0@ != key@,
        decreases index@.len() - i,
    {
        if index[i].0 == *key {
            proof {
                lemma_amap_index(index@, i as int);
            }
            return Some(i);
        }
        i = i + 1;
    }
    proof {
        lemma_amap_absent(index@, key@);
    }
    None
}

impl KvStore {
    /// Finds the segment of a generation: the reader pool's lookup.
    fn find_segment<'a>(&'a self, gen: u64) -> (r: Option<&'a Vec<u8>>)
        requires
            gens_ascending(self.segs()),
        ensures
            match r {
                Some(d) => (exists|i: int|
                    0 <= i < self.segs().len() && self.segs()[i] == (gen, d@)) && (forall|i: int|
                    0 <= i < self.segs().len() && (#[trigger] self.segs()[i]).0 == gen
                        ==> self.segs()[i].1 == d@),
                None => forall|i: int|
                    0 <= i < self.segs().len() ==> (#[trigger] self.segs()[i]).0 != gen,
            },
    {
        let n = self.sealed.len();
        let mut i: usize = 0;
        while i < n
            invariant
                n == self.sealed@.len(),
                i <= n,
                gens_ascending(self.segs()),
                forall|m: int| 0 <= m < i ==> (#[trigger] self.segs()[m]).0 != gen,
            decreases n - i,
        {
            proof {
                assert(self.segs()[i as int] == self.sealed@[i as int]@);
            }
            if self.sealed[i].gen == gen {
                proof {
                    let si = i as int;
                    assert(self.segs()[si] == (gen, self.sealed@[si].data@));
                    assert forall|m: int|
                        0 <= m < self.segs().len() && (#[trigger] self.segs()[m]).0
                            == gen implies self.segs()[m].1 == self.sealed@[si].data@ by {
                        if m != si {
                            assert(self.segs()[m].0 != self.segs()[si].0);
                        }
                    }
                }
                return Some(&self.sealed[i].data);
            }
            i = i + 1;
        }
        proof {
            assert(self.segs().last() == (self.writer.gen, self.writer.data@));
        }
        if self.writer.gen == gen {
            proof {
                let si = self.segs().len() - 1;
                assert forall|m: int|
                    0 <= m < self.segs().len() && (#[trigger] self.segs()[m]).0
                        == gen implies self.segs()[m].1 == self.writer.data@ by {
                    if m != si {
                        assert(self.segs()[m].0 != self.segs()[si].0);
                    }
                }
            }
            return Some(&self.writer.data);
        }
        None
    }
}

/// Replays one segment's bytes, updating the index and the
/// reclaimable-byte counter exactly as [`load_seg`] says.
fn load(
    gen: u64,
    data: &Vec<u8>,
    index: &mut Vec<(String, FileLocation)>,
    compactible: &mut u64,
    Ghost(st): Ghost<RState>,
) -> (r: Result<()>)
    requires
        keys_unique(old(index)@),
        amap(old(index)@) == st.idx,
        *old(compactible) as int == st.reclaim,
    ensures
        match r {
            Ok(()) => load_seg(st, gen, data@, 0) matches LoadRes::Done(st2) && amap(
                final(index)@,
            ) == st2.idx && keys_unique(final(index)@) && *final(compactible) as int == st2.reclaim,
            Err(e) => (e == KvsError::Serde && load_seg(st, gen, data@, 0) is Corrupt) || (e
                == KvsError::UnexpectedCommandType && load_seg(st, gen, data@, 0) is StrayGet),
        },
{
    let mut i: usize = 0;
    let ghost mut stc = st;
    loop
        invariant
            i <= data@.len(),
            keys_unique(index@),
            amap(index@) == stc.idx,
            *compactible as int == stc.reclaim,
            load_seg(st, gen, data@, 0) == load_seg(stc, gen, data@, i as int),
        decreases data@.len() - i,
    {
        if i >= data.len() {
            return Ok(());
        }
        match decode_record(data, i) {
            Err(_) => {
                return Err(KvsError::Serde);
            },
            Ok((cmd, j)) => {
                let ghost cv = cmd@;
                let ghost l0 = index@;
                match cmd {
                    KvsCommands::Get { key: _ } => {
                        return Err(KvsError::UnexpectedCommandType);
                    },
                    KvsCommands::Put { key, value: _ } => {
                        let loc = FileLocation::new(gen, i as u64, (j - i) as u64);
                        match index_find(index, &key) {
                            Some(pos) => {
                                let old_len = index[pos].1.length;
                                *compactible = compactible.saturating_add(old_len);
                                index.set(pos, (key, loc));
                                proof {
                                    lemma_amap_update(l0, pos as int, (index@[pos as int].0, loc));
                                }
                            },
                            None => {
                                index.push((key, loc));
                                proof {
                                    lemma_amap_push(l0, (index@.last().0, loc));
                                }
                            },
                        }
                        proof {
                            stc = apply_cmd(stc, gen, i as int, j as int, cv);
                        }
                    },
                    KvsCommands::Remove { key } => {
                        match index_find(index, &key) {
                            Some(pos) => {
                                let old_len = index[pos].1.length;
                                index.remove(pos);
                                *compactible = compactible.saturating_add(old_len).saturating_add(
                                    (j - i) as u64,
                                );
                                proof {
                                    lemma_amap_remove(l0, pos as int);
                                }
                            },
                            None => {
                                *compactible = compactible.saturating_add((j - i) as u64);
                                proof {
                                    assert(stc.idx.remove(key@) =~= stc.idx);
                                }
                            },
                        }
                        proof {
                            stc = apply_cmd(stc, gen, i as int, j as int, cv);
                        }
                    },
                }
                i = j;
            },
        }
    }
}


impl KvStore {
    /// Opens a store over the segment bytes read back from a directory,
    /// given in ascending generation order. Replays every segment to
    /// rebuild the index and the reclaimable counter; a segment that does
    /// not parse gives `Serde`, and a `Get` record in the log gives
    /// `UnexpectedCommandType`. A store with no segments starts at
    /// generation 1 with one empty segment, to be created on disk.
    pub fn open(segments: Vec<Segment>) -> (r: Result<KvStore>)
        requires
            gens_ascending(segments@.map_values(|s: Segment| s@)),
        ensures
            match r {
                Ok(store) => {
                    &&& store.wf()
                    &&& replay(segments@.map_values(|s: Segment| s@)) matches LoadRes::Done(st)
                        && store@ == st.vals && store.reclaim() == st.reclaim
                        && store.index_map() == st.idx
                    &&& store.synced_disk() == disk_of(segments@.map_values(|s: Segment| s@))
                    &&& store.pending_ops() == if segments@.len() == 0 {
                        seq![DiskOp::Create { gen: 1u64 }]
                    } else {
                        Seq::<DiskOp>::empty()
                    }
                    &&& store.current_gen() == if segments@.len() == 0 {
                        1u64
                    } else {
                        segments@.last().gen
                    }
                },
                Err(e) => {
                    ||| (e == KvsError::Serde && replay(segments@.map_values(|s: Segment| s@))
                        is Corrupt)
                    ||| (e == KvsError::UnexpectedCommandType && replay(
                        segments@.map_values(|s: Segment| s@),
                    ) is StrayGet)
                },
            },
    {
        let ghost in_segs = segments@.map_values(|s: Segment| s@);
        let mut index: Vec<(String, FileLocation)> = Vec::new();
        let mut compactible: u64 = 0;
        let ghost mut stc = init_state();
        let mut k: usize = 0;
        proof {
            assert(amap(index@) =~= stc.idx);
        }
        while k < segments.len()
            invariant
                in_segs == segments@.map_values(|s: Segment| s@),
                k <= segments@.len(),
                keys_unique(index@),
                amap(index@) == stc.idx,
                compactible as int == stc.reclaim,
                load_from(init_state(), in_segs, 0) == load_from(stc, in_segs, k as int),
            decreases segments@.len() - k,
        {
            let gen = segments[k].gen;
            let r = load(gen, &segments[k].data, &mut index, &mut compactible, Ghost(stc));
            proof {
                assert(in_segs[k as int] == (gen, segments@[k as int].data@));
            }
            match r {
                Ok(()) => {
                    proof {
                        stc = match load_seg(stc, gen, segments@[k as int].data@, 0) {
                            LoadRes::Done(st2) => st2,
                            _ => stc,
                        };
                    }
                },
                Err(e) => {
                    return Err(e);
                },
            }
            k = k + 1;
        }
        proof {
            assert(load_from(stc, in_segs, in_segs.len() as int) == LoadRes::Done(stc));
            assert(replay(in_segs) == LoadRes::Done(stc));
            assert forall|i: int| 0 <= i < in_segs.len() implies (#[trigger] in_segs[i]).1.len()
                <= u64::MAX by {
                let v = segments@[i].data;
                assert(v.len() == v@.len());
                assert(in_segs[i].1 == v@);
            }
            assert(segs_bounded(in_segs));
        }
        let mut sealed = segments;
        let mut pending: Vec<DiskOp> = Vec::new();
        let ghost synced_init = disk_of(in_segs);
        match sealed.pop() {
            Some(last) => {
                let writer = KvWriter::new(last.gen, last.data);
                let store = KvStore {
                    index,
                    sealed,
                    writer,
                    compactible,
                    pending,
                    synced: Ghost(synced_init),
                };
                proof {
                    assert(store.segs() =~= in_segs);
                    assert(segs_bounded(store.segs()));
                    assert(apply_ops(store.synced@, store.pending@) =~= disk_of(store.segs()));
                    assert(replay(store.segs()) == LoadRes::Done(stc));
                    assert(store.state() == stc);
                }
                Ok(store)
            },
            None => {
                pending.push(DiskOp::Create { gen: 1 });
                let writer = KvWriter::new(1, Vec::new());
                let store = KvStore {
                    index,
                    sealed,
                    writer,
                    compactible,
                    pending,
                    synced: Ghost(synced_init),
                };
                proof {
                    assert(store.segs() =~= seq![(1u64, Seq::<u8>::empty())]);
                    assert(segs_bounded(store.segs()));
                    assert(gens_ascending(store.segs()));
                    assert(in_segs =~= Seq::<(u64, Seq<u8>)>::empty());
                    assert(stc == init_state());
                    assert(load_seg(stc, 1u64, Seq::<u8>::empty(), 0) == LoadRes::Done(stc));
                    assert(load_from(stc, store.segs(), 1) == LoadRes::Done(stc));
                    assert(store.segs()[0] == (1u64, Seq::<u8>::empty()));
                    assert(replay(store.segs()) == LoadRes::Done(stc));
                    assert(store.state() == stc);
                    assert(synced_init =~= Map::<u64, Seq<u8>>::empty());
                    assert(pending@ =~= seq![DiskOp::Create { gen: 1u64 }]);
                    assert(pending@.drop_last() =~= Seq::<DiskOp>::empty());
                    assert(apply_ops(synced_init, Seq::<DiskOp>::empty()) == synced_init);
                    assert(apply_ops(synced_init, pending@) == apply_op(
                        synced_init,
                        DiskOp::Create { gen: 1u64 },
                    ));
                    assert(store.segs().drop_last() =~= Seq::<(u64, Seq<u8>)>::empty());
                    assert(disk_of(store.segs().drop_last()) == Map::<u64, Seq<u8>>::empty());
                    assert(store.segs().last() == (1u64, Seq::<u8>::empty()));
                    assert(disk_of(store.segs()) =~= Map::<u64, Seq<u8>>::empty().insert(
                        1u64,
                        Seq::<u8>::empty(),
                    ));
                    assert(apply_ops(store.synced@, store.pending@) =~= disk_of(store.segs()));
                }
                Ok(store)
            },
        }
    }
}


impl KvStore {
    /// Looks a key up. Returns its visible value, or `None` when the key
    /// is not live. The value is read back from the segment bytes the
    /// index points at.
    pub fn get(&mut self, key: String) -> (r: Result<Option<String>>)
        requires
            old(self).wf(),
        ensures
            *final(self) == *old(self),
            r matches Ok(v) && (match v {
                Some(val) => old(self)@.contains_key(key@) && val@ == old(self)@[key@],
                None => !old(self)@.contains_key(key@),
            }),
    {
        proof {
            lemma_load_from_entries(init_state(), self.segs(), 0);
        }
        match index_find(&self.index, &key) {
            None => Ok(None),
            Some(pos) => {
                let loc = self.index[pos].1;
                let ghost kview = key@;
                let ghost vview = self@[key@];
                proof {
                    assert(self.state().idx.contains_key(kview));
                    assert(entry_ok(loc, kview, vview, self.segs()));
                }
                match self.find_segment(loc.gen) {
                    None => {
                        proof {
                            let si = choose|si: int|
                                0 <= si < self.segs().len() && (#[trigger] self.segs()[si]).0
                                    == loc.gen && loc.offset + loc.length <= self.segs()[si].1.len()
                                    && self.segs()[si].1.subrange(
                                    loc.offset as int,
                                    loc.offset + loc.length,
                                ) == encode_cmd(CommandV::Put { key: kview, value: vview })
                                    && loc.length >= 1;
                            assert(false);
                        }
                        Err(KvsError::UnexpectedCommandType)
                    },
                    Some(data) => {
                        proof {
                            let si = choose|si: int|
                                0 <= si < self.segs().len() && (#[trigger] self.segs()[si]).0
                                    == loc.gen && loc.offset + loc.length <= self.segs()[si].1.len()
                                    && self.segs()[si].1.subrange(
                                    loc.offset as int,
                                    loc.offset + loc.length,
                                ) == encode_cmd(CommandV::Put { key: kview, value: vview })
                                    && loc.length >= 1;
                            assert(self.segs()[si].1 == data@);
                            assert(data@.subrange(loc.offset as int, loc.offset + loc.length)
                                == encode_cmd(CommandV::Put { key: kview, value: vview }));
                            assert(data.len() == data@.len());
                            lemma_parse_complete(
                                data@,
                                loc.offset as int,
                                CommandV::Put { key: kview, value: vview },
                            );
                        }
                        let offset = loc.offset as usize;
                        match decode_record(data, offset) {
                            Ok((cmd, _end)) => {
                                match cmd {
                                    KvsCommands::Put { key: _, value } => Ok(Some(value)),
                                    _ => Err(KvsError::UnexpectedCommandType),
                                }
                            },
                            Err(_) => Err(KvsError::Serde),
                        }
                    },
                }
            },
        }
    }
}


/// Appends the bytes of `src` to `dst`.
fn append_bytes(dst: &mut Vec<u8>, src: &Vec<u8>)
    ensures
        final(dst)@ == old(dst)@ + src@,
{
    let mut i: usize = 0;
    while i < src.len()
        invariant
            i <= src@.len(),
            dst@ == old(dst)@ + src@.take(i as int),
        decreases src@.len() - i,
    {
        dst.push(src[i]);
        proof {
            assert(old(dst)@ + src@.take(i + 1 as int) =~= (old(dst)@ + src@.take(
                i as int,
            )).push(src@[i as int]));
        }
        i = i + 1;
    }
    proof {
        assert(src@.take(src@.len() as int) =~= src@);
    }
}

/// A directory holds exactly the generations of the segments it was read
/// from.
proof fn lemma_disk_of_dom(segs: Seq<(u64, Seq<u8>)>, g: u64)
    ensures
        disk_of(segs).contains_key(g) <==> exists|i: int|
            0 <= i < segs.len() && (#[trigger] segs[i]).0 == g,
    decreases segs.len(),
{
    if segs.len() == 0 {
    } else {
        lemma_disk_of_dom(segs.drop_last(), g);
        assert(forall|i: int| 0 <= i < segs.len() - 1 ==> segs.drop_last()[i] == segs[i]);
        if disk_of(segs).contains_key(g) {
            if g == segs.last().0 {
                assert(segs[segs.len() - 1].0 == g);
            }
        }
    }
}


impl KvStore {
    /// The state of a compaction in progress: the first `pos` index
    /// entries have been copied into the fresh segment `nd`, whose own
    /// replay yields exactly those entries with nothing reclaimable.
    spec fn copy_inv(
        self,
        pos: int,
        new_gen: u64,
        nd: Seq<u8>,
        ni: Seq<(String, FileLocation)>,
        stc: RState,
    ) -> bool {
        &&& keys_unique(ni)
        &&& ni.len() == pos
        &&& forall|m: int| 0 <= m < pos ==> (#[trigger] ni[m]).0@ == self.index@[m].0@
        &&& load_seg(init_state(), new_gen, nd, 0) == LoadRes::Done(stc)
        &&& stc.idx == amap(ni)
        &&& stc.reclaim == 0
        &&& forall|k: Seq<char>| #[trigger]
            stc.vals.contains_key(k) <==> (exists|m: int|
                0 <= m < pos && (#[trigger] self.index@[m]).0@ == k)
        &&& forall|k: Seq<char>| #[trigger] stc.vals.contains_key(k) ==> stc.vals[k] == self@[k]
        &&& sum_locs(ni) == nd.len()
    }

    /// Copies the live record of one index entry into the fresh segment:
    /// reads it back from its old position, appends it under the new
    /// generation, and records the new location.
    #[verifier::rlimit(100)]
    fn copy_step(
        &self,
        pos: usize,
        new_gen: u64,
        new_data: &mut Vec<u8>,
        new_index: &mut Vec<(String, FileLocation)>,
        Ghost(stc): Ghost<RState>,
    ) -> (r: Result<Ghost<RState>>)
        requires
            self.wf(),
            entries_ok(self.state(), self.segs()),
            pos < self.index@.len(),
            self.copy_inv(pos as int, new_gen, old(new_data)@, old(new_index)@, stc),
        ensures
            r matches Ok(g) && self.copy_inv(
                pos + 1 as int,
                new_gen,
                final(new_data)@,
                final(new_index)@,
                g@,
            ),
    {
        let loc = self.index[pos].1;
        let ghost kview = self.index@[pos as int].0@;
        let ghost vview = self@[kview];
        let ghost l0 = new_index@;
        let ghost d0 = new_data@;
        proof {
            lemma_amap_index(self.index@, pos as int);
            assert(self.state().idx.contains_key(kview));
            assert(entry_ok(loc, kview, vview, self.segs()));
        }
        let found = self.find_segment(loc.gen);
        match found {
            None => {
                proof {
                    let si = choose|si: int|
                        0 <= si < self.segs().len() && (#[trigger] self.segs()[si]).0 == loc.gen
                            && loc.offset + loc.length <= self.segs()[si].1.len()
                            && self.segs()[si].1.subrange(
                            loc.offset as int,
                            loc.offset + loc.length,
                        ) == encode_cmd(CommandV::Put { key: kview, value: vview }) && loc.length
                            >= 1;
                    assert(false);
                }
                Err(KvsError::UnexpectedCommandType)
            },
            Some(data) => {
                proof {
                    let si = choose|si: int|
                        0 <= si < self.segs().len() && (#[trigger] self.segs()[si]).0 == loc.gen
                            && loc.offset + loc.length <= self.segs()[si].1.len()
                            && self.segs()[si].1.subrange(
                            loc.offset as int,
                            loc.offset + loc.length,
                        ) == encode_cmd(CommandV::Put { key: kview, value: vview }) && loc.length
                            >= 1;
                    assert(self.segs()[si].1 == data@);
                    assert(data.len() == data@.len());
                    lemma_parse_complete(
                        data@,
                        loc.offset as int,
                        CommandV::Put { key: kview, value: vview },
                    );
                }
                let offset = loc.offset as usize;
                match decode_record(data, offset) {
                    Ok((cmd, _end)) => {
                        match cmd {
                            KvsCommands::Put { key, value } => {
                                let offset_new = new_data.len();
                                let rec = encode_record(&KvsCommands::Put { key, value });
                                append_bytes(new_data, &rec);
                                let key2 = self.index[pos].0.clone();
                                new_index.push(
                                    (
                                        key2,
                                        FileLocation::new(
                                            new_gen,
                                            offset_new as u64,
                                            rec.len() as u64,
                                        ),
                                    ),
                                );
                                proof {
                                    assert(forall|m: int| 0 <= m < pos ==> l0[m].0@ != kview) by {
                                        assert(keys_unique(self.index@));
                                    }
                                    lemma_amap_absent(l0, kview);
                                    lemma_amap_push(l0, new_index@.last());
                                    lemma_load_seg_append(
                                        init_state(),
                                        new_gen,
                                        d0,
                                        0,
                                        CommandV::Put { key: kview, value: vview },
                                    );
                                    assert(!stc.idx.contains_key(kview));
                                    assert(new_index@.drop_last() =~= l0);
                                    assert(sum_locs(new_index@) == new_data@.len());
                                }
                                Ok(
                                    Ghost(
                                        apply_cmd(
                                            stc,
                                            new_gen,
                                            d0.len() as int,
                                            (d0.len() + rec@.len()) as int,
                                            CommandV::Put { key: kview, value: vview },
                                        ),
                                    ),
                                )
                            },
                            _ => {
                                proof {
                                    assert(false);
                                }
                                Err(KvsError::UnexpectedCommandType)
                            },
                        }
                    },
                    Err(_) => {
                        proof {
                            assert(false);
                        }
                        Err(KvsError::Serde)
                    },
                }
            },
        }
    }
}

impl KvStore {
    /// Compaction: copies every live record into a fresh generation,
    /// points the writer at it, queues the deletion of all prior
    /// segments, and resets the reclaimable counter. The visible mapping
    /// is unchanged, and afterwards the single remaining segment holds
    /// exactly the live records.
    #[verifier::rlimit(100)]
    fn compact(&mut self) -> (r: Result<()>)
        requires
            old(self).wf(),
            old(self).current_gen() < u64::MAX,
        ensures
            r matches Ok(()),
            final(self).wf(),
            final(self)@ == old(self)@,
            final(self).reclaim() == 0,
            final(self).num_segs() == 1,
            final(self).current_gen() == old(self).current_gen() + 1,
            final(self).size_on_disk() == final(self).live_size_spec(),
            final(self).synced_disk() == old(self).synced_disk(),
    {
        let ghost old_segs = self.segs();
        let ghost old_idx = amap(self.index@);
        let new_gen = self.writer.gen + 1;
        let mut new_data: Vec<u8> = Vec::new();
        let mut new_index: Vec<(String, FileLocation)> = Vec::new();
        let ghost mut stc = init_state();
        proof {
            lemma_load_from_entries(init_state(), self.segs(), 0);
            assert(amap(new_index@) =~= stc.idx);
        }
        let n = self.index.len();
        let mut pos: usize = 0;
        while pos < n
            invariant
                *self == *old(self),
                self.wf(),
                self.current_gen() < u64::MAX,
                new_gen == self.writer.gen + 1,
                entries_ok(self.state(), self.segs()),
                n == self.index@.len(),
                pos <= n,
                self.copy_inv(pos as int, new_gen, new_data@, new_index@, stc),
            decreases n - pos,
        {
            match self.copy_step(pos, new_gen, &mut new_data, &mut new_index, Ghost(stc)) {
                Ok(g) => {
                    proof {
                        stc = g@;
                    }
                },
                Err(e) => {
                    return Err(e);
                },
            }
            pos = pos + 1;
        }
        proof {
            assert forall|k: Seq<char>| #[trigger]
                old_idx.contains_key(k) implies (exists|m: int|
                0 <= m < n && (#[trigger] self.index@[m]).0@ == k) by {
                if !(exists|m: int| 0 <= m < n && (#[trigger] self.index@[m]).0@ == k) {
                    assert(forall|m: int| 0 <= m < n ==> self.index@[m].0@ != k);
                    lemma_amap_absent(self.index@, k);
                }
            }
            assert forall|k: Seq<char>| #[trigger]
                stc.vals.contains_key(k) implies self@.contains_key(k) && stc.vals[k]
                == self@[k] by {
                let mm = choose|mm: int|
                    0 <= mm < n && (#[trigger] self.index@[mm]).0@ == k;
                lemma_amap_index(self.index@, mm);
                assert(old_idx.contains_key(k));
                assert(self.state().idx.contains_key(k));
            }
            assert forall|k: Seq<char>| #[trigger]
                self@.contains_key(k) implies stc.vals.contains_key(k) by {
                assert(self.state().vals.contains_key(k));
                assert(self.state().idx.contains_key(k));
            }
            assert(stc.vals =~= self@);
        }
        let ghost old_pending_disk = apply_ops(self.synced@, self.pending@);
        let ghost mut dcur = old_pending_disk;
        let ghost p0 = self.pending@;
        self.pending.push(DiskOp::Create { gen: new_gen });
        proof {
            assert(self.pending@.drop_last() =~= p0);
            lemma_apply_ops_snoc(self.synced@, p0, self.pending@.last());
            dcur = dcur.insert(new_gen, Seq::empty());
            assert(apply_ops(self.synced@, self.pending@) == dcur);
        }
        let ghost p1 = self.pending@;
        let append_copy = new_data.clone();
        self.pending.push(DiskOp::Append { gen: new_gen, bytes: append_copy });
        proof {
            assert(self.pending@.drop_last() =~= p1);
            lemma_apply_ops_snoc(self.synced@, p1, self.pending@.last());
            assert(Seq::<u8>::empty() + new_data@ =~= new_data@);
            dcur = dcur.insert(new_gen, new_data@);
            assert(dcur =~= old_pending_disk.insert(new_gen, Seq::empty()).insert(
                new_gen,
                new_data@,
            ));
            assert(apply_ops(self.synced@, self.pending@) == dcur);
            assert forall|g: u64| #[trigger]
                dcur.contains_key(g) implies (g == new_gen || (exists|m: int|
                0 <= m < old_segs.len() && (#[trigger] old_segs[m]).0 == g)) by {
                if g != new_gen {
                    lemma_disk_of_dom(old_segs, g);
                }
            }
            assert forall|g: u64|
                (g == new_gen || (exists|m: int|
                    0 <= m < old_segs.len() && (#[trigger] old_segs[m]).0
                        == g)) implies #[trigger] dcur.contains_key(g) by {
                if g != new_gen {
                    lemma_disk_of_dom(old_segs, g);
                }
            }
        }
        let sn = self.sealed.len();
        let mut m: usize = 0;
        while m < sn
            invariant
                sn == self.sealed@.len(),
                m <= sn,
                self.index@ == old(self).index@,
                self.sealed@ == old(self).sealed@,
                self.writer == old(self).writer,
                self.compactible == old(self).compactible,
                self.synced@ == old(self).synced@,
                old_segs == old(self).segs(),
                gens_ascending(old_segs),
                old_segs.len() == sn + 1,
                forall|mm: int| 0 <= mm < sn ==> old_segs[mm] == old(self).sealed@[mm]@,
                old_segs.last() == (old(self).writer.gen, old(self).writer.data@),
                new_gen > old(self).writer.gen,
                forall|mm: int| 0 <= mm < old_segs.len() ==> (#[trigger] old_segs[mm]).0 < new_gen,
                apply_ops(self.synced@, self.pending@) == dcur,
                dcur[new_gen] == new_data@,
                forall|g: u64| #[trigger]
                    dcur.contains_key(g) <==> (g == new_gen || (exists|mm: int|
                        m <= mm < old_segs.len() && (#[trigger] old_segs[mm]).0 == g)),
            decreases sn - m,
        {
            let g = self.sealed[m].gen;
            let ghost pk = self.pending@;
            self.pending.push(DiskOp::Delete { gen: g });
            proof {
                assert(self.pending@.drop_last() =~= pk);
                lemma_apply_ops_snoc(self.synced@, pk, self.pending@.last());
                assert(old_segs[m as int].0 == g);
                dcur = dcur.remove(g);
                assert forall|g2: u64| #[trigger]
                    dcur.contains_key(g2) implies (g2 == new_gen || (exists|mm: int|
                    m + 1 <= mm < old_segs.len() && (#[trigger] old_segs[mm]).0 == g2)) by {
                    if g2 != new_gen {
                        let mm = choose|mm: int|
                            m <= mm < old_segs.len() && (#[trigger] old_segs[mm]).0 == g2;
                        assert(mm != m);
                    }
                }
            }
            m = m + 1;
        }
        let wg = self.writer.gen;
        let ghost pw = self.pending@;
        self.pending.push(DiskOp::Delete { gen: wg });
        proof {
            assert(self.pending@.drop_last() =~= pw);
            lemma_apply_ops_snoc(self.synced@, pw, self.pending@.last());
            assert(old_segs[old_segs.len() - 1].0 == wg);
            dcur = dcur.remove(wg);
            assert forall|g2: u64| #[trigger] dcur.contains_key(g2) implies g2 == new_gen by {
                if g2 != new_gen {
                    let mm = choose|mm: int|
                        sn <= mm < old_segs.len() && (#[trigger] old_segs[mm]).0 == g2;
                    assert(mm == old_segs.len() - 1);
                }
            }
            assert(dcur =~= Map::<u64, Seq<u8>>::empty().insert(new_gen, new_data@));
        }
        self.sealed = Vec::new();
        self.writer = KvWriter::new(new_gen, new_data);
        self.index = new_index;
        self.compactible = 0;
        proof {
            assert(self.segs() =~= seq![(new_gen, self.writer.data@)]);
            assert(self.segs().drop_last() =~= Seq::<(u64, Seq<u8>)>::empty());
            assert(disk_of(self.segs().drop_last()) == Map::<u64, Seq<u8>>::empty());
            assert(disk_of(self.segs()) =~= dcur);
            assert(load_from(stc, self.segs(), 1) == LoadRes::Done(stc));
            assert(self.segs()[0] == (new_gen, self.writer.data@));
            assert(replay(self.segs()) == LoadRes::Done(stc));
            assert(self@ == stc.vals);
            assert(self.state() == stc);
            assert(self.writer.data.len() == self.writer.data@.len());
            assert(segs_bounded(self.segs()));
            assert(disk_len(self.segs().drop_last()) == 0);
            assert(disk_len(self.segs()) == self.writer.data@.len());
        }
        Ok(())
    }
}


/// Appending bytes to the last segment updates the directory at that
/// segment's generation alone.
proof fn lemma_disk_append_last(
    segs: Seq<(u64, Seq<u8>)>,
    segs2: Seq<(u64, Seq<u8>)>,
    extra: Seq<u8>,
)
    requires
        segs.len() >= 1,
        segs2.len() == segs.len(),
        forall|m: int| 0 <= m < segs.len() - 1 ==> segs2[m] == segs[m],
        segs2.last() == (segs.last().0, segs.last().1 + extra),
    ensures
        disk_of(segs2) == disk_of(segs).insert(segs.last().0, segs.last().1 + extra),
{
    assert(segs2.drop_last() =~= segs.drop_last());
    assert(disk_of(segs).insert(segs.last().0, segs.last().1 + extra) =~= disk_of(
        segs.drop_last(),
    ).insert(segs.last().0, segs.last().1).insert(segs.last().0, segs.last().1 + extra));
}

impl KvStore {
    /// Maps a key to a value. Appends a `Set` record to the current
    /// segment and installs the index entry for the byte range just
    /// written; when the write shadows an earlier entry, that entry's
    /// length becomes reclaimable, and reaching the compaction threshold
    /// triggers a compaction before returning.
    pub fn set(&mut self, key: String, value: String) -> (r: Result<()>)
        requires
            old(self).wf(),
            old(self).current_gen() < u64::MAX,
        ensures
            r matches Ok(()),
            final(self).wf(),
            final(self)@ == old(self)@.insert(key@, value@),
            final(self).synced_disk() == old(self).synced_disk(),
            ({
                let shadowed = old(self)@.contains_key(key@);
                let delta = if shadowed {
                    old(self).index_map()[key@].length as int
                } else {
                    0
                };
                let r2 = clamp64(old(self).reclaim() + delta);
                if shadowed && r2 >= COMPACTION_THRESHOLD {
                    final(self).reclaim() == 0 && final(self).num_segs() == 1 && final(self).current_gen() == old(self).current_gen() + 1 && final(self).size_on_disk()
                        == final(self).live_size_spec()
                } else {
                    final(self).reclaim() == r2 && final(self).current_gen() == old(self).current_gen() && final(self).num_segs() == old(self).num_segs()
                }
            }),
    {
        let ghost old_segs = self.segs();
        let ghost old_state = self.state();
        let ghost kview = key@;
        let ghost vview = value@;
        let ghost cv = CommandV::Put { key: kview, value: vview };
        proof {
            lemma_load_from_entries(init_state(), self.segs(), 0);
        }
        let original_offset = self.writer.offset;
        let rec = encode_record(&KvsCommands::Put { key: key.clone(), value });
        let rec_len = rec.len();
        self.writer.write(&rec);
        let ghost p0 = self.pending@;
        let wgen = self.writer.gen;
        self.pending.push(DiskOp::Append { gen: wgen, bytes: rec });
        let ghost mid_segs = self.segs();
        proof {
            assert(forall|m: int|
                0 <= m < old_segs.len() - 1 ==> (#[trigger] mid_segs[m]) == old_segs[m]);
            assert(mid_segs.last() == (old_segs.last().0, old_segs.last().1 + encode_cmd(cv)));
            lemma_load_from_append(init_state(), old_segs, mid_segs, 0, cv);
            assert(self.pending@.drop_last() =~= p0);
            lemma_apply_ops_snoc(self.synced@, p0, self.pending@.last());
            lemma_disk_append_last(old_segs, mid_segs, encode_cmd(cv));
            assert(apply_ops(self.synced@, self.pending@) == disk_of(mid_segs));
            assert(gens_ascending(mid_segs));
            assert(self.writer.data.len() == self.writer.data@.len());
            assert(segs_bounded(mid_segs)) by {
                assert(forall|m: int|
                    0 <= m < mid_segs.len() - 1 ==> (#[trigger] mid_segs[m]).1.len()
                        <= u64::MAX);
                assert(mid_segs.last().1.len() <= u64::MAX);
            }
        }
        let ghost mid_state = apply_cmd(
            old_state,
            old_segs.last().0,
            old_segs.last().1.len() as int,
            (old_segs.last().1.len() + encode_cmd(cv).len()) as int,
            cv,
        );
        let loc = FileLocation::new(wgen, original_offset, rec_len as u64);
        let ghost l0 = self.index@;
        let shadowed: bool;
        match index_find(&self.index, &key) {
            Some(pos) => {
                shadowed = true;
                let old_len = self.index[pos].1.length;
                self.index.set(pos, (key, loc));
                self.compactible = self.compactible.saturating_add(old_len);
                proof {
                    lemma_amap_update(l0, pos as int, (self.index@[pos as int].0, loc));
                    assert(shadowed_len(old_state, kview) == old_len as int);
                }
            },
            None => {
                shadowed = false;
                self.index.push((key, loc));
                proof {
                    lemma_amap_push(l0, (self.index@.last().0, loc));
                    assert(shadowed_len(old_state, kview) == 0);
                }
            },
        }
        proof {
            assert(replay(self.segs()) == LoadRes::Done(mid_state));
            assert(amap(self.index@) == mid_state.idx);
            assert(self.compactible as int == mid_state.reclaim);
            assert(self.state() == mid_state);
            assert(self.wf());
            assert(self@ == old(self)@.insert(kview, vview));
        }
        if shadowed && self.compactible >= COMPACTION_THRESHOLD {
            match self.compact() {
                Ok(()) => {},
                Err(_) => {
                    proof {
                        assert(false);
                    }
                },
            }
        }
        Ok(())
    }

    /// Removes a key. When the key is not live, returns `KeyNotFound`
    /// without writing. Otherwise appends a `Remove` record, drops the
    /// index entry, and counts both the dropped entry's length and the
    /// record's own length as reclaimable; reaching the compaction
    /// threshold triggers a compaction before returning.
    pub fn remove(&mut self, key: String) -> (r: Result<()>)
        requires
            old(self).wf(),
            old(self).current_gen() < u64::MAX,
        ensures
            final(self).wf(),
            final(self).synced_disk() == old(self).synced_disk(),
            !old(self)@.contains_key(key@) ==> (r matches Err(e) && e == KvsError::KeyNotFound
                && *final(self) == *old(self)),
            old(self)@.contains_key(key@) ==> (r matches Ok(()) && final(self)@ == old(self)@.remove(key@) && ({
                let delta = old(self).index_map()[key@].length as int + encode_cmd(
                    CommandV::Remove { key: key@ },
                ).len();
                let r2 = clamp64(old(self).reclaim() + delta);
                if r2 >= COMPACTION_THRESHOLD {
                    final(self).reclaim() == 0 && final(self).num_segs() == 1 && final(self).current_gen() == old(self).current_gen() + 1 && final(self).size_on_disk()
                        == final(self).live_size_spec()
                } else {
                    final(self).reclaim() == r2 && final(self).current_gen() == old(self).current_gen() && final(self).num_segs() == old(self).num_segs()
                }
            })),
    {
        let ghost old_segs = self.segs();
        let ghost old_state = self.state();
        let ghost kview = key@;
        let ghost cv = CommandV::Remove { key: kview };
        proof {
            lemma_load_from_entries(init_state(), self.segs(), 0);
        }
        let ghost l0 = self.index@;
        match index_find(&self.index, &key) {
            None => Err(KvsError::KeyNotFound),
            Some(pos) => {
                let old_len = self.index[pos].1.length;
                let rec = encode_record(&KvsCommands::Remove { key });
                let rec_len = rec.len();
                self.writer.write(&rec);
                let ghost p0 = self.pending@;
                let wgen = self.writer.gen;
                self.pending.push(DiskOp::Append { gen: wgen, bytes: rec });
                let ghost mid_segs = self.segs();
                proof {
                    assert(forall|m: int|
                        0 <= m < old_segs.len() - 1 ==> (#[trigger] mid_segs[m]) == old_segs[m]);
                    assert(mid_segs.last() == (
                        old_segs.last().0,
                        old_segs.last().1 + encode_cmd(cv),
                    ));
                    lemma_load_from_append(init_state(), old_segs, mid_segs, 0, cv);
                    assert(self.pending@.drop_last() =~= p0);
                    lemma_apply_ops_snoc(self.synced@, p0, self.pending@.last());
                    lemma_disk_append_last(old_segs, mid_segs, encode_cmd(cv));
                    assert(apply_ops(self.synced@, self.pending@) == disk_of(mid_segs));
                    assert(gens_ascending(mid_segs));
                    assert(self.writer.data.len() == self.writer.data@.len());
                    assert(segs_bounded(mid_segs)) by {
                        assert(forall|m: int|
                            0 <= m < mid_segs.len() - 1 ==> (#[trigger] mid_segs[m]).1.len()
                                <= u64::MAX);
                        assert(mid_segs.last().1.len() <= u64::MAX);
                    }
                }
                let ghost mid_state = apply_cmd(
                    old_state,
                    old_segs.last().0,
                    old_segs.last().1.len() as int,
                    (old_segs.last().1.len() + encode_cmd(cv).len()) as int,
                    cv,
                );
                self.index.remove(pos);
                self.compactible = self.compactible.saturating_add(old_len).saturating_add(
                    rec_len as u64,
                );
                proof {
                    lemma_amap_remove(l0, pos as int);
                    assert(shadowed_len(old_state, kview) == old_len as int);
                    assert(replay(self.segs()) == LoadRes::Done(mid_state));
                    assert(amap(self.index@) == mid_state.idx);
                    assert(self.compactible as int == mid_state.reclaim);
                    assert(self.state() == mid_state);
                    assert(self.wf());
                    assert(self@ == old(self)@.remove(kview));
                }
                if self.compactible >= COMPACTION_THRESHOLD {
                    match self.compact() {
                        Ok(()) => {},
                        Err(_) => {
                            proof {
                                assert(false);
                            }
                        },
                    }
                }
                Ok(())
            },
        }
    }
}


impl KvStore {
    /// The generation the writer currently appends to.
    pub fn generation(&self) -> (g: u64)
        ensures
            g == self.current_gen(),
    {
        self.writer.gen
    }

    /// The reclaimable-byte counter.
    pub fn reclaimable(&self) -> (n: u64)
        ensures
            n as int == self.reclaim(),
    {
        self.compactible
    }

    /// How many segments the store holds, saturating at the largest
    /// `usize`.
    pub fn segment_count(&self) -> (n: usize)
        ensures
            n as int == if self.num_segs() <= usize::MAX {
                self.num_segs()
            } else {
                usize::MAX as int
            },
    {
        proof {
            assert(self.segs().len() == self.sealed@.len() + 1);
        }
        self.sealed.len().saturating_add(1)
    }

    /// The total number of bytes across all segments, saturating at the
    /// largest `u64`.
    pub fn disk_size(&self) -> (n: u64)
        ensures
            n as int == clamp64(self.size_on_disk()),
    {
        let mut acc: u64 = 0;
        let mut i: usize = 0;
        let sn = self.sealed.len();
        while i < sn
            invariant
                sn == self.sealed@.len(),
                i <= sn,
                acc as int == clamp64(disk_len(self.segs().take(i as int))),
            decreases sn - i,
        {
            proof {
                assert(self.segs().take(i + 1 as int).drop_last() =~= self.segs().take(i as int));
                assert(self.segs().take(i + 1 as int).last() == self.sealed@[i as int]@);
                assert(self.sealed@[i as int].data.len() == self.sealed@[i as int].data@.len());
            }
            acc = acc.saturating_add(self.sealed[i].data.len() as u64);
            i = i + 1;
        }
        proof {
            assert(self.segs().take(sn as int + 1).drop_last() =~= self.segs().take(sn as int));
            assert(self.segs().take(sn as int + 1) =~= self.segs());
            assert(self.segs().take(sn as int + 1).last() == (self.writer.gen, self.writer.data@));
            assert(self.writer.data.len() == self.writer.data@.len());
        }
        acc.saturating_add(self.writer.data.len() as u64)
    }

    /// The number of bytes the live records alone occupy, saturating at
    /// the largest `u64`.
    pub fn live_size(&self) -> (n: u64)
        ensures
            n as int == clamp64(self.live_size_spec()),
    {
        let mut acc: u64 = 0;
        let mut i: usize = 0;
        let ln = self.index.len();
        while i < ln
            invariant
                ln == self.index@.len(),
                i <= ln,
                acc as int == clamp64(sum_locs(self.index@.take(i as int))),
            decreases ln - i,
        {
            proof {
                assert(self.index@.take(i + 1 as int).drop_last() =~= self.index@.take(i as int));
                assert(self.index@.take(i + 1 as int).last() == self.index@[i as int]);
            }
            acc = acc.saturating_add(self.index[i].1.length);
            i = i + 1;
        }
        proof {
            assert(self.index@.take(ln as int) =~= self.index@);
        }
        acc
    }
}

/// A lookup after a write sees the written value, and stays untouched by
/// later operations on any other key, be they writes or removals. Stated
/// over the visible mapping that `set`, `get` and `remove` contract on.
pub proof fn lemma_get_after_set(
    m: Map<Seq<char>, Seq<char>>,
    k: Seq<char>,
    v: Seq<char>,
    k2: Seq<char>,
    v2: Seq<char>,
)
    requires
        k2 != k,
    ensures
        m.insert(k, v).contains_key(k) && m.insert(k, v)[k] == v,
        m.insert(k, v).insert(k2, v2).contains_key(k) && m.insert(k, v).insert(k2, v2)[k] == v,
        m.insert(k, v).remove(k2).contains_key(k) && m.insert(k, v).remove(k2)[k] == v,
{
}

/// Closing a well-formed store and reopening it from its own segment
/// bytes rebuilds the same state: replaying the segments, as `open`
/// does, yields exactly the store's index, visible mapping and
/// reclaimable counter.
pub proof fn lemma_reopen_state(s: KvStore)
    requires
        s.wf(),
    ensures
        replay(s.segs()) == LoadRes::Done(
            RState { idx: s.index_map(), vals: s@, reclaim: s.reclaim() },
        ),
{
    assert(s.state() == (RState { idx: s.index_map(), vals: s@, reclaim: s.reclaim() }));
}

/// The reclaimable counter is never negative; that it returns to zero
/// when compaction runs is part of the contracts of `set` and `remove`.
pub proof fn lemma_reclaim_nonnegative(s: KvStore)
    requires
        s.wf(),
    ensures
        s.reclaim() >= 0,
{
}


} // verus!
