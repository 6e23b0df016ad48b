use vstd::prelude::*;
use crate::data_file::DataFile;
use crate::errors::Errors;
use crate::index::{lemma_lex_lt_irreflexive, lex_lt, new_indexer, Indexer, SkipList};
use crate::log_record::{
    ReadLogRecord, decode, ends_at_end, encode_record, lemma_decode_encoded, lemma_parse_agree, lemma_parse_size,
    is_put, lemma_parse_lengths, parse_record, record_end, LogRecord, LogRecordPos, LogRecordType,
};
use crate::options::Options;

verus! {

/// A log-structured key-value store: one active data file that takes every
/// append, older read-only data files, and an index from each live key to
/// the position of its latest record.
pub struct Engine {
    options: Options,
    active_file: DataFile,
    older_files: Vec<DataFile>,
    index: SkipList,
    live: Ghost<Map<Seq<u8>, Seq<u8>>>,
}

/// Whether every data file of `a` is still in `b`, with its bytes kept as a
/// prefix of the bytes it holds there.
pub open spec fn files_extend(a: &Engine, b: &Engine) -> bool {
    forall|id: u32|
        #[trigger] a.has_seg(id) ==> b.has_seg(id) && a.seg(id).len() <= b.seg(id).len()
            && b.seg(id).subrange(0, a.seg(id).len() as int) == a.seg(id)
}

/// What one staged batch operation does to the live map: a value sets the
/// key, `None` removes it.
pub open spec fn apply_op(m: Map<Seq<u8>, Seq<u8>>, k: Seq<u8>, v: Option<Seq<u8>>) -> Map<Seq<u8>, Seq<u8>> {
    match v {
        Some(v) => m.insert(k, v),
        None => m.remove(k),
    }
}

/// The live map after the first `n` staged operations, in order.
pub open spec fn apply_ops(m: Map<Seq<u8>, Seq<u8>>, ops: Seq<(Seq<u8>, Option<Seq<u8>>)>, n: int) -> Map<
    Seq<u8>,
    Seq<u8>,
>
    decreases n,
{
    if n <= 0 || n > ops.len() {
        m
    } else {
        apply_op(apply_ops(m, ops, n - 1), ops[n - 1].0, ops[n - 1].1)
    }
}

/// What replay keeps: the live map, and the operations of a batch whose
/// finished marker has not been read yet.
pub type ReplayState = (Map<Seq<u8>, Seq<u8>>, Seq<(Seq<u8>, Option<Seq<u8>>)>);

/// Replay before any record: nothing live, nothing held back.
pub open spec fn start_state() -> ReplayState {
    (Map::empty(), Seq::empty())
}

/// What one record does during replay. A normal record sets the key's
/// value and a tombstone removes it. Batch records are held back; a begin
/// marker drops what an unfinished batch left held back, and a finished
/// marker applies the held-back operations in order.
pub open spec fn apply_record(st: ReplayState, k: Seq<u8>, v: Seq<u8>, t: LogRecordType) -> ReplayState {
    match t {
        LogRecordType::NOMAL => (st.0.insert(k, v), st.1),
        LogRecordType::DELETED => (st.0.remove(k), st.1),
        LogRecordType::BATCH_NORMAL => (st.0, st.1.push((k, Some(v)))),
        LogRecordType::BATCH_DELETED => (st.0, st.1.push((k, None))),
        LogRecordType::BATCH_BEGIN => (st.0, Seq::empty()),
        LogRecordType::BATCH_FINISHED => (apply_ops(st.0, st.1, st.1.len() as int), Seq::empty()),
    }
}

/// The replay state after applying, to `st`, the records of `s` from `off`
/// on, up to the first one that does not read.
pub open spec fn replay_from(st: ReplayState, s: Seq<u8>, off: int) -> ReplayState
    decreases s.len() - off,
{
    if off < 0 || off > s.len() {
        st
    } else {
        match parse_record(s, off) {
            Ok((k, v, t, n)) => if n > 0 && off + n <= s.len() {
                replay_from(apply_record(st, k, v, t), s, off + n)
            } else {
                st
            },
            Err(_) => st,
        }
    }
}

/// The replay state after replaying data files in order, each from its start.
pub open spec fn replay_files(st: ReplayState, fs: Seq<Seq<u8>>) -> ReplayState
    decreases fs.len(),
{
    if fs.len() == 0 {
        st
    } else {
        replay_files(replay_from(st, fs[0], 0), fs.drop_first())
    }
}

/// Where a data file stops reading cleanly, from `off` on: the offset of the
/// first record that does not read. A record that runs past the end of the
/// file ends the scan. In the last file a bad record whose lengths reach
/// exactly the end of the file is a torn final write and ends the scan too.
/// Any other bad record is corruption.
pub open spec fn scan_end(s: Seq<u8>, off: int, last: bool) -> Result<int, Errors>
    decreases s.len() - off,
{
    if off < 0 || off > s.len() {
        Ok(off)
    } else {
        match parse_record(s, off) {
            Ok((k, v, t, n)) => if n > 0 && off + n <= s.len() {
                scan_end(s, off + n, last)
            } else {
                Ok(off)
            },
            Err(e) => if e == Errors::ReadDataFileEOF || (last && record_end(s, off) == Some(
                s.len() as int,
            )) {
                Ok(off)
            } else {
                Err(Errors::DataDirectoryCorrupted)
            },
        }
    }
}

/// A data file reads cleanly from `off` to its very end.
pub open spec fn clean_from(s: Seq<u8>, off: int, last: bool) -> bool {
    scan_end(s, off, last) == Ok::<int, Errors>(s.len() as int)
}

/// Appending an encoded record to a file that reads cleanly keeps it clean,
/// and replaying it applies that record last.
pub proof fn lemma_append_replay(
    m: ReplayState,
    s: Seq<u8>,
    off: int,
    k: Seq<u8>,
    v: Seq<u8>,
    t: LogRecordType,
)
    requires
        0 <= off <= s.len(),
        clean_from(s, off, true),
        k.len() <= u32::MAX,
        v.len() <= u32::MAX,
    ensures
        clean_from(s + encode_record(k, v, t), off, true),
        replay_from(m, s + encode_record(k, v, t), off) == apply_record(replay_from(m, s, off), k, v, t),
    decreases s.len() - off,
{
    let enc = encode_record(k, v, t);
    let u = s + enc;
    if off == s.len() {
        assert(u.subrange(off, off + enc.len()) =~= enc);
        lemma_decode_encoded(u, off, k, v, t);
        lemma_parse_size(u, off);
        let m2 = apply_record(m, k, v, t);
        assert(parse_record(u, u.len() as int) == Err::<(Seq<u8>, Seq<u8>, LogRecordType, nat), Errors>(Errors::ReadDataFileEOF));
        assert(replay_from(m2, u, u.len() as int) == m2);
        assert(scan_end(u, u.len() as int, true) == Ok::<int, Errors>(u.len() as int));
        assert(parse_record(s, off) is Err);
        assert(replay_from(m, s, off) == m);
    } else {
        assert(parse_record(s, off) is Ok);
        lemma_parse_size(s, off);
        let n = parse_record(s, off)->Ok_0.3;
        assert(u.subrange(0, s.len() as int) =~= s);
        assert(s.subrange(0, s.len() as int) =~= s);
        lemma_parse_agree(s, u, off, s.len() as int);
        let (k2, v2, t2, n2) = parse_record(s, off)->Ok_0;
        lemma_append_replay(apply_record(m, k2, v2, t2), s, off + n, k, v, t);
        assert(replay_from(m, s, off) == replay_from(apply_record(m, k2, v2, t2), s, off + n));
        assert(replay_from(m, u, off) == replay_from(apply_record(m, k2, v2, t2), u, off + n));
    }
}

/// A file that reads cleanly as the last file reads cleanly anywhere.
pub proof fn lemma_clean_any(s: Seq<u8>, off: int)
    requires
        0 <= off <= s.len(),
        clean_from(s, off, true),
    ensures
        clean_from(s, off, false),
    decreases s.len() - off,
{
    if off < s.len() {
        assert(parse_record(s, off) is Ok);
        lemma_parse_size(s, off);
        lemma_clean_any(s, off + parse_record(s, off)->Ok_0.3);
    } else {
        assert(parse_record(s, off) is Err);
        assert(parse_record(s, off) == Err::<(Seq<u8>, Seq<u8>, LogRecordType, nat), Errors>(Errors::ReadDataFileEOF));
    }
}

/// Cutting a file back to where its scan stops leaves a file that reads
/// cleanly up to that point.
pub proof fn lemma_scan_truncate(s: Seq<u8>, off: int, last: bool)
    requires
        0 <= off <= s.len(),
        scan_end(s, off, last) is Ok,
    ensures
        off <= scan_end(s, off, last)->Ok_0 <= s.len(),
        clean_from(s.subrange(0, scan_end(s, off, last)->Ok_0), off, true),
    decreases s.len() - off,
{
    let e = scan_end(s, off, last)->Ok_0;
    match parse_record(s, off) {
        Ok((k, v, t, n)) => {
            lemma_parse_size(s, off);
            lemma_scan_truncate(s, off + n, last);
            let u = s.subrange(0, e);
            assert(s.subrange(0, e) =~= u.subrange(0, e));
            lemma_parse_agree(s, u, off, e);
        },
        Err(_) => {
            assert(e == off);
            assert(parse_record(s.subrange(0, e), off) is Err);
            assert(parse_record(s.subrange(0, e), off) == Err::<(Seq<u8>, Seq<u8>, LogRecordType, nat), Errors>(Errors::ReadDataFileEOF));
        },
    }
}

/// Replaying one more file after a list is replaying that file last.
pub proof fn lemma_replay_push(m: ReplayState, fs: Seq<Seq<u8>>, x: Seq<u8>)
    ensures
        replay_files(m, fs.push(x)) == replay_from(replay_files(m, fs), x, 0),
    decreases fs.len(),
{
    if fs.len() > 0 {
        assert(fs.push(x).drop_first() =~= fs.drop_first().push(x));
        assert(fs.push(x)[0] == fs[0]);
        lemma_replay_push(replay_from(m, fs[0], 0), fs.drop_first(), x);
    } else {
        assert(fs.push(x).drop_first() =~= Seq::<Seq<u8>>::empty());
        assert(fs.push(x)[0] == x);
        let r = replay_from(m, x, 0);
        assert(replay_files(r, Seq::<Seq<u8>>::empty()) == r);
    }
}

/// Every record of `s` from `off` to the end reads, is a normal record,
/// and is the very record that `idx` holds for its key in file `id`.
pub open spec fn chain_ok(idx: Map<Seq<u8>, LogRecordPos>, s: Seq<u8>, off: int, id: u32) -> bool
    decreases s.len() - off,
{
    if off < 0 || off > s.len() {
        false
    } else if off == s.len() {
        true
    } else {
        match parse_record(s, off) {
            Ok((k, v, t, n)) => n > 0 && off + n <= s.len() && t == LogRecordType::NOMAL && idx.contains_key(k)
                && idx[k] == (LogRecordPos { file_id: id, offset: off as u64 }) && chain_ok(idx, s, off + n, id),
            Err(_) => false,
        }
    }
}

/// A chain stays valid under an index that agrees on every key held in file `id`.
pub proof fn lemma_chain_transfer(
    a: Map<Seq<u8>, LogRecordPos>,
    b: Map<Seq<u8>, LogRecordPos>,
    s: Seq<u8>,
    off: int,
    id: u32,
)
    requires
        chain_ok(a, s, off, id),
        forall|k: Seq<u8>| #[trigger] a.contains_key(k) && a[k].file_id == id ==> b.contains_key(k) && b[k] == a[k],
    ensures
        chain_ok(b, s, off, id),
    decreases s.len() - off,
{
    if 0 <= off < s.len() {
        let n = parse_record(s, off)->Ok_0.3;
        lemma_chain_transfer(a, b, s, off + n, id);
    }
}

/// Appending a normal record of a key that the index does not hold yet, and
/// pointing the index at it, keeps the chain valid to the new end.
pub proof fn lemma_chain_append(
    a: Map<Seq<u8>, LogRecordPos>,
    s: Seq<u8>,
    off: int,
    id: u32,
    k: Seq<u8>,
    v: Seq<u8>,
)
    requires
        0 <= off <= s.len(),
        s.len() <= u64::MAX,
        chain_ok(a, s, off, id),
        !a.contains_key(k),
        k.len() < 34359738368,
        v.len() < 34359738368,
    ensures
        chain_ok(
            a.insert(k, LogRecordPos { file_id: id, offset: s.len() as u64 }),
            s + encode_record(k, v, LogRecordType::NOMAL),
            off,
            id,
        ),
    decreases s.len() - off,
{
    let enc = encode_record(k, v, LogRecordType::NOMAL);
    let u = s + enc;
    let b = a.insert(k, LogRecordPos { file_id: id, offset: s.len() as u64 });
    if off == s.len() {
        assert(u.subrange(off, off + enc.len()) =~= enc);
        lemma_decode_encoded(u, off, k, v, LogRecordType::NOMAL);
        lemma_parse_size(u, off);
        assert(chain_ok(b, u, u.len() as int, id));
    } else {
        lemma_parse_size(s, off);
        let n = parse_record(s, off)->Ok_0.3;
        assert(u.subrange(0, s.len() as int) =~= s);
        assert(s.subrange(0, s.len() as int) =~= s);
        lemma_parse_agree(s, u, off, s.len() as int);
        lemma_chain_append(a, s, off + n, id, k, v);
    }
}

/// A batch operation waiting for its finished marker: key, value (`None`
/// for a delete) and the position of its record.
pub type PendingOp = (Vec<u8>, Option<Vec<u8>>, LogRecordPos);

/// The operations that held-back batch writes stand for.
pub open spec fn pending_view(p: Seq<PendingOp>) -> Seq<(Seq<u8>, Option<Seq<u8>>)> {
    p.map_values(|e: PendingOp| (e.0@, match e.1 {
        Some(v) => Some(v@),
        None => None::<Seq<u8>>,
    }))
}

/// One staged batch operation: a key with the value to store, or with
/// `None` to delete it.
pub type BatchOp = (Vec<u8>, Option<Vec<u8>>);

/// The operations that staged batch operations stand for.
pub open spec fn ops_view(p: Seq<BatchOp>) -> Seq<(Seq<u8>, Option<Seq<u8>>)> {
    p.map_values(|op: BatchOp| (op.0@, match op.1 {
        Some(v) => Some(v@),
        None => None::<Seq<u8>>,
    }))
}

/// Staged operations fit the record format, and every key is non-empty.
pub open spec fn ops_fit(p: Seq<BatchOp>) -> bool {
    forall|i: int|
        0 <= i < p.len() ==> {
            let op = #[trigger] p[i];
            &&& 0 < op.0@.len() <= u32::MAX
            &&& op.1 matches Some(v) ==> v@.len() <= u32::MAX
        }
}

/// Data file ids strictly increase along the list.
pub open spec fn ids_increasing(fs: Seq<DataFile>) -> bool {
    forall|i: int, j: int| 0 <= i < j < fs.len() ==> #[trigger] fs[i].id() < #[trigger] fs[j].id()
}

/// The bytes of a list of data files.
pub open spec fn contents(fs: Seq<DataFile>) -> Seq<Seq<u8>> {
    fs.map_values(|f: DataFile| f.content())
}

/// Data files as recovery leaves them: the last one cut back to where it
/// stops reading cleanly.
pub open spec fn recovered(fs: Seq<Seq<u8>>) -> Seq<Seq<u8>> {
    fs.update(fs.len() - 1, fs.last().subrange(0, scan_end(fs.last(), 0, true)->Ok_0))
}

/// Scans a data file from its start; see `scan_end`.
pub fn scan_file(buf: &Vec<u8>, last: bool) -> (r: Result<usize, Errors>)
    ensures
        match (r, scan_end(buf@, 0, last)) {
            (Ok(end), Ok(se)) => end as int == se && 0 <= se <= buf@.len(),
            (Err(e), Err(se)) => e == se,
            _ => false,
        },
{
    let mut off: usize = 0;
    loop
        invariant
            off <= buf@.len(),
            scan_end(buf@, off as int, last) == scan_end(buf@, 0, last),
        decreases buf@.len() - off,
    {
        match decode(buf, off) {
            Ok(rr) => {
                proof {
                    assert(parse_record(buf@, off as int) is Ok);
                    assert(rr.size == parse_record(buf@, off as int)->Ok_0.3);
                    lemma_parse_size(buf@, off as int);
                }
                let len = buf.len();
                assert(off + rr.size <= len);
                off = off + rr.size;
            },
            Err(e) => {
                if e == Errors::ReadDataFileEOF {
                    return Ok(off);
                }
                if last && ends_at_end(buf, off) {
                    return Ok(off);
                }
                return Err(Errors::DataDirectoryCorrupted);
            },
        }
    }
}

impl View for Engine {
    type V = Map<Seq<u8>, Seq<u8>>;

    /// The live keys and the value each one was last written with.
    closed spec fn view(&self) -> Map<Seq<u8>, Seq<u8>> {
        self.live@
    }
}

impl Engine {
    /// Whether an older data file has id `id`.
    pub closed spec fn has_older(&self, id: u32) -> bool {
        exists|i: int| 0 <= i < self.older_files@.len() && #[trigger] self.older_files@[i].id() == id
    }

    /// Whether the engine holds a data file with id `id`.
    pub open spec fn has_seg(&self, id: u32) -> bool {
        id == self.active_id() || self.has_older(id)
    }

    /// The bytes of the data file with id `id`.
    pub closed spec fn seg(&self, id: u32) -> Seq<u8> {
        if id == self.active_file.id() {
            self.active_file.content()
        } else {
            self.older_files@[choose|i: int|
                0 <= i < self.older_files@.len() && #[trigger] self.older_files@[i].id() == id].content()
        }
    }

    /// The bytes of every data file, oldest first, the active one last.
    pub closed spec fn segments(&self) -> Seq<Seq<u8>> {
        contents(self.older_files@).push(self.active_file.content())
    }

    /// Every data file reads cleanly to its end.
    pub closed spec fn files_clean(&self) -> bool {
        &&& clean_from(self.active_file.content(), 0, true)
        &&& forall|i: int|
            0 <= i < self.older_files@.len() ==> clean_from(#[trigger] self.older_files@[i].content(), 0, false)
    }

    /// What the data files hold is what the engine holds: every file reads
    /// cleanly to its end, and replaying them all gives the live map.
    pub closed spec fn durable(&self) -> bool {
        &&& self.files_clean()
        &&& self.live@ == replay_files(start_state(), self.segments()).0
    }

    /// The position the index holds for `k`.
    pub closed spec fn pos_of(&self, k: Seq<u8>) -> LogRecordPos {
        self.index.index_view()[k]
    }

    /// Every older data file holds only live records: each of its records,
    /// read from the start to the end, is a normal record that the index
    /// points at for its key. No overwritten version and no tombstone is left.
    pub closed spec fn compacted(&self) -> bool {
        forall|i: int|
            0 <= i < self.older_files@.len() ==> chain_ok(
                self.index.index_view(),
                #[trigger] self.older_files@[i].content(),
                0,
                self.older_files@[i].id(),
            )
    }

    /// Id of the active data file.
    pub closed spec fn active_id(&self) -> u32 {
        self.active_file.id()
    }

    /// Bytes written to the active data file.
    pub closed spec fn active_len(&self) -> nat {
        self.active_file.content().len()
    }

    /// Number of data files, the active one included.
    pub closed spec fn file_count(&self) -> nat {
        self.older_files@.len() + 1
    }

    /// The rotation threshold of the engine's options.
    pub closed spec fn data_file_size(&self) -> u64 {
        self.options.data_file_size
    }

    /// No data file is larger than the rotation threshold.
    pub closed spec fn bounded(&self) -> bool {
        &&& self.active_file.content().len() <= self.options.data_file_size
        &&& forall|i: int|
            0 <= i < self.older_files@.len() ==> #[trigger] self.older_files@[i].content().len()
                <= self.options.data_file_size
    }

    /// Appending `n` more bytes calls for a new active data file.
    pub open spec fn needs_rotation(&self, n: nat) -> bool {
        self.active_len() + n > self.data_file_size()
    }

    /// A new active data file is needed and no id is left for it.
    pub open spec fn rotation_blocked(&self, n: nat) -> bool {
        self.needs_rotation(n) && self.active_id() == u32::MAX
    }

    /// The index entry of `k` points at a normal record of `k` that holds its
    /// live value.
    pub closed spec fn entry_ok(&self, k: Seq<u8>) -> bool {
        let p = self.index.index_view()[k];
        let r = parse_record(self.seg(p.file_id), p.offset as int);
        &&& self.has_seg(p.file_id)
        &&& r is Ok
        &&& r->Ok_0.0 == k
        &&& r->Ok_0.1 == self.live@[k]
        &&& is_put(r->Ok_0.2)
    }

    /// Data files are well formed and ordered: older ids strictly increase
    /// and stay below the active id.
    pub closed spec fn files_wf(&self) -> bool {
        &&& self.options.data_file_size > 0
        &&& self.active_file.wf()
        &&& forall|i: int, j: int|
            0 <= i < j < self.older_files@.len() ==> #[trigger] self.older_files@[i].id()
                < #[trigger] self.older_files@[j].id()
        &&& forall|i: int|
            0 <= i < self.older_files@.len() ==> #[trigger] self.older_files@[i].id()
                < self.active_file.id()
    }

    /// The engine's invariant: ordered data files, and an index that holds
    /// exactly the live keys, each at a record of its live value.
    pub closed spec fn wf(&self) -> bool {
        &&& self.files_wf()
        &&& self.index.index_view().dom() == self.live@.dom()
        &&& forall|k: Seq<u8>| #[trigger] self.index.index_view().contains_key(k) ==> self.entry_ok(k)
    }

    proof fn lemma_seg_at(&self, i: int)
        requires
            self.files_wf(),
            0 <= i < self.older_files@.len(),
        ensures
            self.has_seg(self.older_files@[i].id()),
            self.seg(self.older_files@[i].id()) == self.older_files@[i].content(),
    {
        let id = self.older_files@[i].id();
        assert(self.has_older(id));
        let c = choose|c: int| 0 <= c < self.older_files@.len() && #[trigger] self.older_files@[c].id() == id;
        if c < i {
            assert(self.older_files@[c].id() < self.older_files@[i].id());
        } else if c > i {
            assert(self.older_files@[i].id() < self.older_files@[c].id());
        }
    }

    /// An engine with no data but an empty active data file with id 0.
    pub fn new(options: Options) -> (r: Result<Engine, Errors>)
        ensures
            options.dir_path@.len() == 0 ==> r == Err::<Engine, Errors>(Errors::DirPathIsEmpty),
            options.dir_path@.len() > 0 && options.data_file_size == 0 ==> r == Err::<Engine, Errors>(
                Errors::DataFileSizeTooSmall,
            ),
            options.valid() ==> r is Ok,
            r is Ok ==> r->Ok_0.wf() && r->Ok_0@ == Map::<Seq<u8>, Seq<u8>>::empty() && r->Ok_0.durable()
                && r->Ok_0.bounded() && r->Ok_0.file_count() == 1 && r->Ok_0.active_id() == 0
                && r->Ok_0.data_file_size() == options.data_file_size,
    {
        if options.dir_path.as_str().is_empty() {
            return Err(Errors::DirPathIsEmpty);
        }
        if options.data_file_size == 0 {
            return Err(Errors::DataFileSizeTooSmall);
        }
        let ghost size = options.data_file_size;
        let index = new_indexer(options.index_type);
        let e = Engine {
            options,
            active_file: DataFile::new(0),
            older_files: Vec::new(),
            index,
            live: Ghost(Map::empty()),
        };
        assert(e.index.index_view().dom() =~= e.live@.dom());
        proof {
            assert(parse_record(e.active_file.content(), 0) == Err::<(Seq<u8>, Seq<u8>, LogRecordType, nat), Errors>(Errors::ReadDataFileEOF));
            let e0 = start_state();
            assert(contents(e.older_files@) =~= Seq::<Seq<u8>>::empty());
            lemma_replay_push(e0, Seq::<Seq<u8>>::empty(), e.active_file.content());
            assert(replay_from(e0, e.active_file.content(), 0) == e0);
        }
        Ok(e)
    }

    /// Appends an encoded record to the active data file, first starting a
    /// new active file when the record would take it past the threshold.
    fn append_log_record(&mut self, rec: &LogRecord) -> (r: Result<LogRecordPos, Errors>)
        requires
            old(self).files_wf(),
            rec.key@.len() <= u32::MAX,
            rec.value@.len() <= u32::MAX,
        ensures
            r is Ok && old(self).files_clean() ==> final(self).files_clean() && replay_files(
                start_state(),
                final(self).segments(),
            ) == apply_record(replay_files(start_state(), old(self).segments()), rec.key@, rec.value@, rec.rec_type),
            final(self).index == old(self).index,
            final(self).live == old(self).live,
            final(self).options == old(self).options,
            match r {
                Ok(pos) => {
                    &&& final(self).files_wf()
                    &&& files_extend(old(self), final(self))
                    &&& pos.file_id == final(self).active_id()
                    &&& final(self).has_seg(pos.file_id)
                    &&& pos.offset as int + rec.encoded().len() == final(self).seg(pos.file_id).len()
                    &&& final(self).seg(pos.file_id).subrange(
                        pos.offset as int,
                        pos.offset as int + rec.encoded().len(),
                    ) == rec.encoded()
                    &&& !old(self).rotation_blocked(rec.encoded().len())
                    &&& !old(self).needs_rotation(rec.encoded().len()) ==> {
                        &&& pos == (LogRecordPos { file_id: old(self).active_id(), offset: old(self).active_len() as u64 })
                        &&& pos.offset as nat == old(self).active_len()
                        &&& final(self).active_id() == old(self).active_id()
                        &&& final(self).older_files == old(self).older_files
                        &&& final(self).active_file.content() == old(self).active_file.content() + rec.encoded()
                    }
                    &&& old(self).needs_rotation(rec.encoded().len()) ==> {
                        &&& final(self).active_id() == old(self).active_id() + 1
                        &&& pos.offset == 0
                        &&& final(self).active_file.content() == rec.encoded()
                        &&& final(self).older_files@ == old(self).older_files@.push(old(self).active_file)
                    }
                    &&& (old(self).bounded() && rec.encoded().len() <= old(self).data_file_size()
                        ==> final(self).bounded())
                    &&& final(self).file_count() == old(self).file_count() + (if old(
                        self,
                    ).needs_rotation(rec.encoded().len()) {
                        1int
                    } else {
                        0int
                    })
                },
                Err(e) => {
                    &&& e == Errors::FailedToOpenDataFile
                    &&& old(self).rotation_blocked(rec.encoded().len())
                    &&& *final(self) == *old(self)
                },
            },
    {
        let enc = rec.encode();
        let record_len = enc.len() as u64;
        let write_off = self.active_file.get_write_off();
        let size = self.options.data_file_size;
        let ghost pre = *old(self);
        if record_len > size || write_off > size - record_len {
            let current_fid = self.active_file.get_file_id();
            if current_fid == u32::MAX {
                return Err(Errors::FailedToOpenDataFile);
            }
            let mut file = DataFile::new(current_fid + 1);
            std::mem::swap(&mut self.active_file, &mut file);
            self.older_files.push(file);
            proof {
                let n = self.older_files@.len() - 1;
                assert(contents(self.older_files@) =~= contents(pre.older_files@).push(pre.active_file.content()));
                let e0 = start_state();
                lemma_replay_push(e0, contents(pre.older_files@).push(pre.active_file.content()), self.active_file.content());
                assert(parse_record(self.active_file.content(), 0) is Err);
                assert(replay_from(replay_files(e0, pre.segments()), self.active_file.content(), 0) == replay_files(e0, pre.segments()));
                if pre.files_clean() {
                    lemma_clean_any(pre.active_file.content(), 0);
                    assert(parse_record(self.active_file.content(), 0) == Err::<(Seq<u8>, Seq<u8>, LogRecordType, nat), Errors>(Errors::ReadDataFileEOF));
                    assert forall|i: int| 0 <= i < self.older_files@.len() implies clean_from(#[trigger] self.older_files@[i].content(), 0, false) by {
                        if i < n {
                            assert(self.older_files@[i] == pre.older_files@[i]);
                        }
                    }
                }
                assert(self.older_files@[n] == pre.active_file);
                assert forall|i: int| 0 <= i < n implies #[trigger] self.older_files@[i] == pre.older_files@[i] by {}
                assert(self.files_wf());
                assert forall|id: u32| #[trigger] pre.has_seg(id) implies self.has_seg(id)
                    && self.seg(id) == pre.seg(id) by {
                    if id == pre.active_file.id() {
                        self.lemma_seg_at(n);
                    } else {
                        let i = choose|i: int|
                            0 <= i < pre.older_files@.len() && #[trigger] pre.older_files@[i].id() == id;
                        pre.lemma_seg_at(i);
                        self.lemma_seg_at(i);
                    }
                }
            }
        }
        let ghost mid = *self;
        let off = self.active_file.get_write_off();
        self.active_file.write(&enc);
        let pos = LogRecordPos { file_id: self.active_file.get_file_id(), offset: off };
        proof {
            assert(self.files_wf());
            assert forall|id: u32| #[trigger] mid.has_seg(id) implies self.has_seg(id) && mid.seg(id).len()
                <= self.seg(id).len() && self.seg(id).subrange(0, mid.seg(id).len() as int) == mid.seg(id) by {
                if id == mid.active_file.id() {
                    assert(self.seg(id).subrange(0, mid.seg(id).len() as int) =~= mid.seg(id));
                } else {
                    let i = choose|i: int|
                        0 <= i < mid.older_files@.len() && #[trigger] mid.older_files@[i].id() == id;
                    mid.lemma_seg_at(i);
                    self.lemma_seg_at(i);
                    assert(self.seg(id).subrange(0, mid.seg(id).len() as int) =~= mid.seg(id));
                }
            }
            assert forall|id: u32| #[trigger] pre.has_seg(id) implies self.has_seg(id) && pre.seg(id).len()
                <= self.seg(id).len() && self.seg(id).subrange(0, pre.seg(id).len() as int) == pre.seg(id) by {
                assert(mid.has_seg(id));
                assert(self.seg(id).subrange(0, mid.seg(id).len() as int).subrange(0, pre.seg(id).len() as int)
                    =~= self.seg(id).subrange(0, pre.seg(id).len() as int));
                if mid.seg(id) != pre.seg(id) {
                    assert(mid.seg(id).subrange(0, pre.seg(id).len() as int) =~= pre.seg(id));
                }
            }
            assert(self.seg(pos.file_id).subrange(off as int, off as int + enc@.len()) =~= enc@);
            if pre.files_clean() {
                let e0 = start_state();
                assert(mid.files_clean());
                assert(replay_files(e0, mid.segments()) == replay_files(e0, pre.segments()));
                lemma_append_replay(replay_files(e0, contents(mid.older_files@)), mid.active_file.content(), 0, rec.key@, rec.value@, rec.rec_type);
                lemma_replay_push(e0, contents(mid.older_files@), mid.active_file.content());
                lemma_replay_push(e0, contents(self.older_files@), self.active_file.content());
                assert(self.older_files == mid.older_files);
                assert forall|i: int| 0 <= i < self.older_files@.len() implies clean_from(#[trigger] self.older_files@[i].content(), 0, false) by {
                    assert(self.older_files@[i] == mid.older_files@[i]);
                }
            }
            if pre.bounded() && enc@.len() <= pre.options.data_file_size {
                assert forall|i: int| 0 <= i < self.older_files@.len() implies #[trigger] self.older_files@[i].content().len()
                    <= self.options.data_file_size by {
                    if i < pre.older_files@.len() {
                        assert(self.older_files@[i] == pre.older_files@[i]);
                    }
                }
            }
        }
        Ok(pos)
    }

    proof fn lemma_segment_at(&self, w: int)
        requires
            self.files_wf(),
            0 <= w <= self.older_files@.len(),
        ensures
            self.segments().len() == self.older_files@.len() + 1,
            w < self.older_files@.len() ==> self.has_seg(self.older_files@[w].id()) && self.seg(
                self.older_files@[w].id(),
            ) == self.segments()[w],
            w == self.older_files@.len() ==> self.has_seg(self.active_id()) && self.seg(self.active_id())
                == self.segments()[w],
    {
        if w < self.older_files@.len() {
            self.lemma_seg_at(w);
        }
    }

    /// Every held-back batch write points at a batch record of its key and
    /// value in one of the engine's data files.
    pub closed spec fn pending_ok(&self, p: Seq<PendingOp>) -> bool {
        forall|i: int|
            0 <= i < p.len() ==> match #[trigger] p[i].1 {
                Some(v) => {
                    let r = parse_record(self.seg(p[i].2.file_id), p[i].2.offset as int);
                    &&& self.has_seg(p[i].2.file_id)
                    &&& r is Ok
                    &&& r->Ok_0.0 == p[i].0@
                    &&& r->Ok_0.1 == v@
                    &&& r->Ok_0.2 == LogRecordType::BATCH_NORMAL
                },
                None => true,
            }
    }

    /// Held-back batch writes stay valid when data files only grow.
    proof fn lemma_pending_kept(pre: &Engine, post: &Engine, p: Seq<PendingOp>)
        requires
            pre.pending_ok(p),
            files_extend(pre, post),
        ensures
            post.pending_ok(p),
    {
        assert forall|i: int| 0 <= i < p.len() implies match #[trigger] p[i].1 {
            Some(v) => {
                let r = parse_record(post.seg(p[i].2.file_id), p[i].2.offset as int);
                &&& post.has_seg(p[i].2.file_id)
                &&& r is Ok
                &&& r->Ok_0.0 == p[i].0@
                &&& r->Ok_0.1 == v@
                &&& r->Ok_0.2 == LogRecordType::BATCH_NORMAL
            },
            None => true,
        } by {
            if p[i].1 is Some {
                let id = p[i].2.file_id;
                let s = pre.seg(id);
                lemma_parse_size(s, p[i].2.offset as int);
                assert(s.subrange(0, s.len() as int) =~= s);
                lemma_parse_agree(s, post.seg(id), p[i].2.offset as int, s.len() as int);
            }
        }
    }

    /// Applies held-back batch operations to the index and the live map, in order.
    fn apply_pending(&mut self, p: &Vec<PendingOp>)
        requires
            old(self).wf(),
            old(self).pending_ok(p@),
        ensures
            final(self).wf(),
            final(self).active_file == old(self).active_file,
            final(self).older_files == old(self).older_files,
            final(self).options == old(self).options,
            final(self).live@ == apply_ops(old(self).live@, pending_view(p@), p@.len() as int),
    {
        let mut j: usize = 0;
        while j < p.len()
            invariant
                j <= p@.len(),
                self.wf(),
                self.active_file == old(self).active_file,
                self.older_files == old(self).older_files,
                self.options == old(self).options,
                self.pending_ok(p@),
                self.live@ == apply_ops(old(self).live@, pending_view(p@), j as int),
            decreases p@.len() - j,
        {
            let ghost pre = *self;
            let ghost k = p@[j as int].0@;
            match &p[j].1 {
                Some(v) => {
                    let ghost vv = v@;
                    self.index.put(p[j].0.clone(), p[j].2);
                    self.live = Ghost(self.live@.insert(k, vv));
                    proof {
                        assert(self.index.index_view().dom() =~= self.live@.dom());
                        assert forall|k2: Seq<u8>| #[trigger] self.index.index_view().contains_key(k2)
                            implies self.entry_ok(k2) by {
                            if k2 != k {
                                assert(pre.entry_ok(k2));
                            } else {
                                assert(pre.pending_ok(p@));
                                assert(match p@[j as int].1 { Some(v) => true, None => true });
                            }
                        }
                    }
                },
                None => {
                    self.index.delete(p[j].0.clone());
                    self.live = Ghost(self.live@.remove(k));
                    proof {
                        assert(self.index.index_view().dom() =~= self.live@.dom());
                        assert forall|k2: Seq<u8>| #[trigger] self.index.index_view().contains_key(k2)
                            implies self.entry_ok(k2) by {
                            assert(pre.entry_ok(k2));
                        }
                    }
                },
            }
            proof {
                assert(pending_view(p@)[j as int] == (k, match p@[j as int].1 {
                    Some(v) => Some(v@),
                    None => None::<Seq<u8>>,
                }));
            }
            j = j + 1;
        }
    }

    /// Applies the records of data file `w` (an older file below
    /// `older_files.len()`, the active one at it) in file order; batch
    /// operations wait in `pending` for their finished marker.
    #[verifier::rlimit(80)]
    #[verifier::spinoff_prover]
    fn replay_file(&mut self, w: usize, pending: &mut Vec<PendingOp>)
        requires
            old(self).wf(),
            w <= old(self).older_files@.len(),
            old(self).pending_ok(old(pending)@),
        ensures
            final(self).wf(),
            final(self).active_file == old(self).active_file,
            final(self).older_files == old(self).older_files,
            final(self).options == old(self).options,
            final(self).pending_ok(final(pending)@),
            (final(self).live@, pending_view(final(pending)@)) == replay_from(
                (old(self).live@, pending_view(old(pending)@)),
                old(self).segments()[w as int],
                0,
            ),
    {
        let id = if w < self.older_files.len() {
            self.older_files[w].get_file_id()
        } else {
            self.active_file.get_file_id()
        };
        let ghost sg = self.segments()[w as int];
        proof {
            self.lemma_segment_at(w as int);
        }
        let mut off: u64 = 0;
        loop
            invariant
                self.wf(),
                self.active_file == old(self).active_file,
                self.older_files == old(self).older_files,
                self.options == old(self).options,
                w <= self.older_files@.len(),
                self.has_seg(id),
                self.seg(id) == sg,
                sg == self.segments()[w as int],
                w < self.older_files@.len() ==> self.older_files@[w as int].content() == sg,
                w == self.older_files@.len() ==> self.active_file.content() == sg,
                off <= sg.len(),
                self.pending_ok(pending@),
                replay_from((self.live@, pending_view(pending@)), sg, off as int) == replay_from(
                    (old(self).live@, pending_view(old(pending)@)),
                    sg,
                    0,
                ),
            decreases sg.len() - off,
        {
            let res = if w < self.older_files.len() {
                self.older_files[w].read_log_record(off)
            } else {
                self.active_file.read_log_record(off)
            };
            match res {
                Ok(rr) => {
                    let ghost pre = *self;
                    let ghost pv0 = pending@;
                    proof {
                        assert(parse_record(sg, off as int) is Ok);
                        lemma_parse_size(sg, off as int);
                    }
                    let ReadLogRecord { record, size } = rr;
                    let LogRecord { key, value, rec_type } = record;
                    let ghost k = key@;
                    let ghost v = value@;
                    let len = if w < self.older_files.len() {
                        self.older_files[w].bytes().len()
                    } else {
                        self.active_file.bytes().len()
                    };
                    assert(off + size <= len);
                    let pos = LogRecordPos { file_id: id, offset: off };
                    match rec_type {
                        LogRecordType::NOMAL => {
                            self.index.put(key, pos);
                            self.live = Ghost(self.live@.insert(k, v));
                        },
                        LogRecordType::DELETED => {
                            self.index.delete(key);
                            self.live = Ghost(self.live@.remove(k));
                        },
                        LogRecordType::BATCH_NORMAL => {
                            pending.push((key, Some(value), pos));
                        },
                        LogRecordType::BATCH_DELETED => {
                            pending.push((key, None, pos));
                        },
                        LogRecordType::BATCH_BEGIN => {
                            pending.clear();
                        },
                        LogRecordType::BATCH_FINISHED => {
                            self.apply_pending(pending);
                            pending.clear();
                        },
                    }
                    proof {
                        assert(self.index.index_view().dom() =~= self.live@.dom());
                        if rec_type == LogRecordType::NOMAL || rec_type == LogRecordType::DELETED {
                            assert forall|k2: Seq<u8>| #[trigger] self.index.index_view().contains_key(
                                k2,
                            ) implies self.entry_ok(k2) by {
                                if k2 != k {
                                    assert(pre.entry_ok(k2));
                                }
                            }
                        }
                        if rec_type == LogRecordType::BATCH_NORMAL || rec_type == LogRecordType::BATCH_DELETED {
                            assert(pending_view(pending@) =~= pending_view(pv0).push(
                                (k, if rec_type == LogRecordType::BATCH_NORMAL { Some(v) } else { None }),
                            ));
                            assert forall|i: int| 0 <= i < pv0.len() implies pending@[i] == pv0[i] by {}
                        }
                        if rec_type == LogRecordType::BATCH_BEGIN || rec_type == LogRecordType::BATCH_FINISHED {
                            assert(pending_view(pending@) =~= Seq::<(Seq<u8>, Option<Seq<u8>>)>::empty());
                        }
                    }
                    off = off + size as u64;
                },
                Err(_) => {
                    return;
                },
            }
        }
    }

    /// Rebuilds an engine from its data files, oldest first: the last one
    /// becomes the active file, cut back past a torn final write, and every
    /// file's records are replayed into the index in order.
    #[verifier::loop_isolation(false)]
    pub fn open(options: Options, files: Vec<DataFile>) -> (r: Result<Engine, Errors>)
        requires
            forall|i: int| 0 <= i < files@.len() ==> #[trigger] files@[i].wf(),
        ensures
            options.dir_path@.len() == 0 ==> r == Err::<Engine, Errors>(Errors::DirPathIsEmpty),
            options.dir_path@.len() > 0 && options.data_file_size == 0 ==> r == Err::<Engine, Errors>(
                Errors::DataFileSizeTooSmall,
            ),
            options.valid() && files@.len() == 0 ==> r is Ok && r->Ok_0@ == Map::<Seq<u8>, Seq<u8>>::empty()
                && r->Ok_0.file_count() == 1,
            options.valid() && !ids_increasing(files@) ==> r == Err::<Engine, Errors>(Errors::DataDirectoryCorrupted),
            options.valid() && files@.len() > 0 && ids_increasing(files@) ==> (r is Err <==> exists|i: int|
                0 <= i < files@.len() && scan_end(#[trigger] files@[i].content(), 0, i == files@.len() - 1) is Err),
            options.valid() && files@.len() > 0 && r is Err ==> r == Err::<Engine, Errors>(
                Errors::DataDirectoryCorrupted,
            ),
            options.valid() && files@.len() > 0 && r is Ok ==> r->Ok_0.segments() == recovered(contents(files@))
                && r->Ok_0@ == replay_files(start_state(), r->Ok_0.segments()).0,
            r is Ok ==> r->Ok_0.wf() && r->Ok_0.data_file_size() == options.data_file_size,
            r is Ok && (forall|i: int|
                0 <= i < files@.len() - 1 ==> clean_from(#[trigger] files@[i].content(), 0, false))
                ==> r->Ok_0.durable(),
    {
        if options.dir_path.as_str().is_empty() {
            return Err(Errors::DirPathIsEmpty);
        }
        if options.data_file_size == 0 {
            return Err(Errors::DataFileSizeTooSmall);
        }
        if files.len() == 0 {
            return Engine::new(options);
        }
        let mut c: usize = 1;
        while c < files.len()
            invariant
                1 <= c <= files@.len(),
                forall|a: int, b: int| 0 <= a < b < c ==> #[trigger] files@[a].id() < #[trigger] files@[b].id(),
            decreases files@.len() - c,
        {
            if files[c - 1].get_file_id() >= files[c].get_file_id() {
                return Err(Errors::DataDirectoryCorrupted);
            }
            proof {
                assert forall|a: int, b: int| 0 <= a < b < c + 1 implies #[trigger] files@[a].id() < #[trigger] files@[b].id() by {
                    if b == c && a < c - 1 {
                        assert(files@[a].id() < files@[c - 1].id());
                    }
                }
            }
            c = c + 1;
        }
        let ghost input = files@;
        let n = files.len();
        let mut files = files;
        let mut active = match files.pop() {
            Some(f) => f,
            None => return Engine::new(options),
        };
        let older = files;
        assert(forall|i: int| 0 <= i < older@.len() ==> older@[i] == input[i]);
        let mut i: usize = 0;
        while i < older.len()
            invariant
                i <= older@.len(),
                older@.len() == n - 1,
                input.len() == n,
                n > 0,
                options.valid(),
                forall|j: int| 0 <= j < older@.len() ==> older@[j] == input[j],
                forall|j: int| 0 <= j < i ==> scan_end(#[trigger] input[j].content(), 0, j == n - 1) is Ok,
            decreases older.len() - i,
        {
            match scan_file(older[i].bytes(), false) {
                Ok(_) => {},
                Err(_) => {
                    assert(scan_end(input[i as int].content(), 0, i == n - 1) is Err);
                    return Err(Errors::DataDirectoryCorrupted);
                },
            }
            i = i + 1;
        }
        let end = match scan_file(active.bytes(), true) {
            Ok(end) => end,
            Err(_) => {
                assert(scan_end(input[n - 1].content(), 0, n - 1 == n - 1) is Err);
                return Err(Errors::DataDirectoryCorrupted);
            },
        };
        let ghost full = active.content();
        active.truncate(end);
        proof {
            lemma_scan_truncate(full, 0, true);
        }
        let ghost size = options.data_file_size;
        let index = new_indexer(options.index_type);
        let mut e = Engine { options, active_file: active, older_files: older, index, live: Ghost(Map::empty()) };
        proof {
            assert(e.index.index_view().dom() =~= e.live@.dom());
            assert(e.segments() =~= recovered(contents(input)));
        }
        let ghost segs = e.segments();
        let ghost olds = e.older_files@;
        let ghost act = e.active_file;
        proof {
            assert(segs.subrange(0, n as int) =~= segs);
        }
        let mut pending: Vec<PendingOp> = Vec::new();
        proof {
            assert(pending_view(pending@) =~= Seq::<(Seq<u8>, Option<Seq<u8>>)>::empty());
        }
        let mut w: usize = 0;
        while w <= e.older_files.len()
            invariant
                e.wf(),
                e.pending_ok(pending@),
                e.older_files@ == olds,
                e.active_file == act,
                e.segments() == segs,
                e.older_files@.len() == n - 1,
                w <= e.older_files@.len() + 1,
                e.options.data_file_size == size,
                replay_files((e.live@, pending_view(pending@)), segs.subrange(w as int, n as int)) == replay_files(
                    start_state(),
                    segs,
                ),
            decreases n - w,
        {
            proof {
                assert(segs.subrange(w as int, n as int).drop_first() =~= segs.subrange(w + 1, n as int));
            }
            e.replay_file(w, &mut pending);
            proof {
                assert(e.segments() =~= segs);
            }
            w = w + 1;
        }
        proof {
            assert(segs.subrange(0, n as int) =~= segs);
            if forall|i: int| 0 <= i < input.len() - 1 ==> clean_from(#[trigger] input[i].content(), 0, false) {
                assert forall|i: int| 0 <= i < e.older_files@.len() implies clean_from(#[trigger] e.older_files@[i].content(), 0, false) by {
                    assert(e.older_files@[i] == input[i]);
                }
            }
        }
        Ok(e)
    }

    /// Every live key, in ascending byte order.
    pub fn list_keys(&self) -> (r: Vec<Vec<u8>>)
        requires
            self.wf(),
        ensures
            forall|i: int| 0 <= i < r@.len() ==> self@.contains_key(#[trigger] r@[i]@),
            forall|i: int, j: int| 0 <= i < j < r@.len() ==> lex_lt(#[trigger] r@[i]@, #[trigger] r@[j]@),
            forall|k: Seq<u8>| self@.contains_key(k) ==> exists|i: int| 0 <= i < r@.len() && #[trigger] r@[i]@ == k,
    {
        match self.index.list_keys() {
            Ok(keys) => keys,
            Err(_) => Vec::new(),
        }
    }

    /// The active data file, which takes every append.
    pub fn active_file(&self) -> (r: &DataFile)
        ensures
            r.id() == self.active_id(),
            r.content().len() == self.active_len(),
    {
        &self.active_file
    }

    /// The older, read-only data files, oldest first.
    pub fn older_files(&self) -> (r: &Vec<DataFile>)
        requires
            self.wf(),
        ensures
            r@.len() + 1 == self.file_count(),
            forall|i: int| 0 <= i < r@.len() ==> #[trigger] r@[i].id() < self.active_id(),
            self.bounded() ==> forall|i: int| 0 <= i < r@.len() ==> #[trigger] r@[i].content().len()
                <= self.data_file_size(),
    {
        &self.older_files
    }

    /// The record at `p.offset` of `buf` is a normal record of `k` holding its
    /// live value.
    closed spec fn moved_ok(&self, buf: Seq<u8>, k: Seq<u8>, p: LogRecordPos) -> bool {
        let r = parse_record(buf, p.offset as int);
        &&& r is Ok
        &&& r->Ok_0.0 == k
        &&& r->Ok_0.1 == self.live@[k]
        &&& r->Ok_0.2 == LogRecordType::NOMAL
    }

    /// The live records of older data file `w`, written one after another,
    /// with the new position of each.
    #[verifier::loop_isolation(false)]
    #[verifier::rlimit(80)]
    #[verifier::spinoff_prover]
    fn collect_live(&self, w: usize, id: u32) -> (r: (Vec<u8>, Vec<(Vec<u8>, LogRecordPos)>, Ghost<Map<Seq<u8>, LogRecordPos>>))
        requires
            self.wf(),
            w < self.older_files@.len(),
            id == self.older_files@[w as int].id(),
        ensures
            ({
                let (buf, moved, tgt) = r;
                &&& forall|m: int|
                    0 <= m < moved@.len() ==> (#[trigger] moved@[m]).1.file_id == id
                        && self.live@.contains_key(moved@[m].0@) && self.moved_ok(buf@, moved@[m].0@, moved@[m].1)
                &&& forall|k: Seq<u8>|
                    #[trigger] self.index.index_view().contains_key(k) && self.index.index_view()[k].file_id == id
                        ==> exists|m: int| 0 <= m < moved@.len() && #[trigger] moved@[m].0@ == k
                &&& chain_ok(tgt@, buf@, 0, id)
                &&& forall|m: int|
                    0 <= m < moved@.len() ==> tgt@.contains_key(#[trigger] moved@[m].0@) && tgt@[moved@[m].0@]
                        == moved@[m].1 && self.index.index_view().contains_key(moved@[m].0@)
                        && self.index.index_view()[moved@[m].0@].file_id == id
                &&& forall|k: Seq<u8>|
                    #[trigger] tgt@.contains_key(k) ==> tgt@[k].file_id == id && (exists|m: int|
                        0 <= m < moved@.len() && #[trigger] moved@[m].0@ == k)
                &&& forall|m1: int, m2: int|
                    0 <= m1 < m2 < moved@.len() ==> #[trigger] moved@[m1].0@ != #[trigger] moved@[m2].0@
            }),
    {
        proof {
            self.lemma_seg_at(w as int);
        }
        let ghost sg = self.older_files@[w as int].content();
        let entries = self.index.entries();
        let mut buf: Vec<u8> = Vec::new();
        let mut moved: Vec<(Vec<u8>, LogRecordPos)> = Vec::new();
        let ghost mut tgt: Map<Seq<u8>, LogRecordPos> = Map::empty();
        let mut i: usize = 0;
        while i < entries.len()
            invariant
                i <= entries@.len(),
                forall|m: int|
                    0 <= m < moved@.len() ==> (#[trigger] moved@[m]).1.file_id == id
                        && self.live@.contains_key(moved@[m].0@) && self.moved_ok(buf@, moved@[m].0@, moved@[m].1),
                forall|j: int|
                    0 <= j < i && (#[trigger] entries@[j]).1.file_id == id ==> exists|m: int|
                        0 <= m < moved@.len() && #[trigger] moved@[m].0@ == entries@[j].0@,
                chain_ok(tgt, buf@, 0, id),
                forall|m: int|
                    0 <= m < moved@.len() ==> tgt.contains_key(#[trigger] moved@[m].0@) && tgt[moved@[m].0@]
                        == moved@[m].1 && self.index.index_view().contains_key(moved@[m].0@)
                        && self.index.index_view()[moved@[m].0@].file_id == id,
                forall|k: Seq<u8>|
                    #[trigger] tgt.contains_key(k) ==> tgt[k].file_id == id && (exists|m: int|
                        0 <= m < moved@.len() && #[trigger] moved@[m].0@ == k) && (exists|j: int|
                        0 <= j < i && #[trigger] entries@[j].0@ == k),
                forall|m1: int, m2: int|
                    0 <= m1 < m2 < moved@.len() ==> #[trigger] moved@[m1].0@ != #[trigger] moved@[m2].0@,
            decreases entries.len() - i,
        {
            let ghost moved0 = moved@;
            let ghost tgt0 = tgt;
            if entries[i].1.file_id == id {
                let p = entries[i].1;
                let ghost k = entries@[i as int].0@;
                proof {
                    assert(self.index.index_view().contains_key(k));
                    assert(self.entry_ok(k));
                }
                match self.older_files[w].read_log_record(p.offset) {
                    Ok(rr) => {
                        proof {
                            lemma_parse_lengths(sg, p.offset as int);
                        }
                        let rec = LogRecord {
                            key: entries[i].0.clone(),
                            value: rr.record.value,
                            rec_type: LogRecordType::NOMAL,
                        };
                        let mut enc = rec.encode();
                        let off = buf.len() as u64;
                        let ghost before = buf@;
                        buf.append(&mut enc);
                        proof {
                            if tgt.contains_key(k) {
                                let j = choose|j: int| 0 <= j < i && #[trigger] entries@[j].0@ == k;
                                lemma_lex_lt_irreflexive(k);
                                assert(lex_lt(entries@[j].0@, entries@[i as int].0@));
                            }
                            lemma_chain_append(tgt, before, 0, id, k, self.live@[k]);
                            tgt = tgt.insert(k, LogRecordPos { file_id: id, offset: off });
                            assert forall|m: int| 0 <= m < moved@.len() implies self.moved_ok(
                                buf@,
                                (#[trigger] moved@[m]).0@,
                                moved@[m].1,
                            ) by {
                                lemma_parse_size(before, moved@[m].1.offset as int);
                                assert(buf@.subrange(0, before.len() as int) =~= before);
                                assert(before.subrange(0, before.len() as int) =~= before);
                                lemma_parse_agree(before, buf@, moved@[m].1.offset as int, before.len() as int);
                            }
                            assert(buf@.subrange(off as int, off as int + rec.encoded().len()) =~= rec.encoded());
                            lemma_decode_encoded(buf@, off as int, k, self.live@[k], LogRecordType::NOMAL);
                        }
                        moved.push((entries[i].0.clone(), LogRecordPos { file_id: id, offset: off }));
                        proof {
                            assert(moved@[moved@.len() - 1].0@ == k);
                            assert forall|m: int| 0 <= m < moved0.len() implies moved@[m] == moved0[m] by {}
                            assert forall|kk: Seq<u8>| #[trigger] tgt.contains_key(kk) implies tgt[kk].file_id == id
                                && (exists|m: int| 0 <= m < moved@.len() && #[trigger] moved@[m].0@ == kk)
                                && (exists|j: int| 0 <= j < i + 1 && #[trigger] entries@[j].0@ == kk) by {
                                if kk == k {
                                    assert(moved@[moved@.len() - 1].0@ == kk);
                                    assert(entries@[i as int].0@ == kk);
                                } else {
                                    let m = choose|m: int| 0 <= m < moved0.len() && #[trigger] moved0[m].0@ == kk;
                                    assert(moved@[m].0@ == kk);
                                    let j = choose|j: int| 0 <= j < i && #[trigger] entries@[j].0@ == kk;
                                }
                            }
                            assert forall|m1: int, m2: int| 0 <= m1 < m2 < moved@.len() implies #[trigger] moved@[m1].0@
                                != #[trigger] moved@[m2].0@ by {
                                if m2 == moved@.len() - 1 {
                                    assert(tgt0.contains_key(moved0[m1].0@));
                                }
                            }
                        }
                    },
                    Err(_) => {
                        assert(false);
                    },
                }
            }
            proof {
                assert forall|j: int| 0 <= j < i + 1 && (#[trigger] entries@[j]).1.file_id == id implies exists|m: int|
                    0 <= m < moved@.len() && #[trigger] moved@[m].0@ == entries@[j].0@ by {
                    if j < i {
                        let m = choose|m: int| 0 <= m < moved0.len() && #[trigger] moved0[m].0@ == entries@[j].0@;
                        assert(moved@[m] == moved0[m]);
                    } else {
                        assert(moved@[moved@.len() - 1].0@ == entries@[j].0@);
                    }
                }
            }
            i = i + 1;
        }
        proof {
            assert forall|k: Seq<u8>| #[trigger] self.index.index_view().contains_key(k)
                && self.index.index_view()[k].file_id == id implies exists|m: int|
                0 <= m < moved@.len() && #[trigger] moved@[m].0@ == k by {
                let j = choose|j: int| 0 <= j < entries@.len() && #[trigger] entries@[j].0@ == k;
                assert(entries@[j].1.file_id == id);
            }
        }
        let ghost bv = buf@;
        let ghost mv = moved@;
        let r = (buf, moved, Ghost(tgt));
        assert(r.0@ == bv && r.1@ == mv && r.2@ == tgt);
        r
    }

    /// Rewrites older data file `w` with only the records that the index
    /// still points at, and moves those index entries to their new offsets.
    #[verifier::loop_isolation(false)]
    #[verifier::rlimit(80)]
    #[verifier::spinoff_prover]
    fn compact_file(&mut self, w: usize)
        requires
            old(self).wf(),
            w < old(self).older_files@.len(),
        ensures
            final(self).wf(),
            final(self).live == old(self).live,
            final(self).active_file == old(self).active_file,
            final(self).options == old(self).options,
            final(self).older_files@.len() == old(self).older_files@.len(),
            final(self).older_files@[w as int].id() == old(self).older_files@[w as int].id(),
            chain_ok(
                final(self).index.index_view(),
                final(self).older_files@[w as int].content(),
                0,
                final(self).older_files@[w as int].id(),
            ),
            forall|j: int|
                0 <= j < old(self).older_files@.len() && j != w ==> #[trigger] final(self).older_files@[j]
                    == old(self).older_files@[j],
            forall|j: int|
                0 <= j < old(self).older_files@.len() && j != w && chain_ok(
                    old(self).index.index_view(),
                    old(self).older_files@[j].content(),
                    0,
                    old(self).older_files@[j].id(),
                ) ==> chain_ok(
                    final(self).index.index_view(),
                    #[trigger] final(self).older_files@[j].content(),
                    0,
                    final(self).older_files@[j].id(),
                ),
    {
        let id = self.older_files[w].get_file_id();
        let (buf, moved, tgt) = self.collect_live(w, id);
        let ghost pre = *self;
        let ghost bufv = buf@;
        let new_file = DataFile::from_bytes(id, buf);
        self.older_files.set(w, new_file);
        proof {
            assert forall|a: int| 0 <= a < self.older_files@.len() && a != w implies #[trigger] self.older_files@[a]
                == pre.older_files@[a] by {}
            assert(self.files_wf());
            assert forall|k: Seq<u8>| #[trigger] self.index.index_view().contains_key(k)
                && self.index.index_view()[k].file_id != id implies self.entry_ok(k) by {
                assert(pre.entry_ok(k));
                let fid = self.index.index_view()[k].file_id;
                if fid != self.active_file.id() {
                    let a = choose|a: int| 0 <= a < pre.older_files@.len() && #[trigger] pre.older_files@[a].id() == fid;
                    pre.lemma_seg_at(a);
                    self.lemma_seg_at(a);
                }
            }
        }
        let mut j: usize = 0;
        while j < moved.len()
            invariant
                j <= moved@.len(),
                self.files_wf(),
                self.older_files@.len() == pre.older_files@.len(),
                self.active_file == pre.active_file,
                self.options == pre.options,
                self.older_files@[w as int].id() == id,
                self.older_files@[w as int].content() == bufv,
                forall|a: int| 0 <= a < self.older_files@.len() && a != w ==> #[trigger] self.older_files@[a]
                    == pre.older_files@[a],
                self.live == pre.live,
                self.index.index_view().dom() == self.live@.dom(),
                forall|m: int|
                    0 <= m < moved@.len() ==> (#[trigger] moved@[m]).1.file_id == id
                        && self.live@.contains_key(moved@[m].0@) && self.moved_ok(bufv, moved@[m].0@, moved@[m].1),
                forall|k: Seq<u8>|
                    #[trigger] self.index.index_view().contains_key(k) && self.index.index_view()[k].file_id
                        != id ==> self.entry_ok(k),
                forall|m: int|
                    0 <= m < moved@.len() ==> tgt@.contains_key(#[trigger] moved@[m].0@) && tgt@[moved@[m].0@]
                        == moved@[m].1 && pre.index.index_view().contains_key(moved@[m].0@)
                        && pre.index.index_view()[moved@[m].0@].file_id == id,
                forall|m1: int, m2: int|
                    0 <= m1 < m2 < moved@.len() ==> #[trigger] moved@[m1].0@ != #[trigger] moved@[m2].0@,
                forall|m: int|
                    0 <= m < j ==> self.index.index_view().contains_key(#[trigger] moved@[m].0@)
                        && self.index.index_view()[moved@[m].0@] == moved@[m].1,
                forall|k: Seq<u8>|
                    #[trigger] pre.index.index_view().contains_key(k) && pre.index.index_view()[k].file_id != id
                        ==> self.index.index_view().contains_key(k) && self.index.index_view()[k]
                        == pre.index.index_view()[k],
                forall|k: Seq<u8>|
                    #[trigger] self.index.index_view().contains_key(k) && self.index.index_view()[k].file_id == id
                        ==> (exists|m: int|
                        0 <= m < j && #[trigger] moved@[m].0@ == k && self.index.index_view()[k] == moved@[m].1)
                        || (exists|m: int| j <= m < moved@.len() && #[trigger] moved@[m].0@ == k),
            decreases moved.len() - j,
        {
            let ghost before = *self;
            let ghost kj = moved@[j as int].0@;
            self.index.put(moved[j].0.clone(), moved[j].1);
            proof {
                assert forall|m: int| 0 <= m < j + 1 implies self.index.index_view().contains_key(
                    #[trigger] moved@[m].0@,
                ) && self.index.index_view()[moved@[m].0@] == moved@[m].1 by {
                    if m < j {
                        assert(moved@[m].0@ != moved@[j as int].0@);
                    }
                }
                assert(self.index.index_view().dom() =~= self.live@.dom());
                assert forall|k: Seq<u8>| #[trigger] self.index.index_view().contains_key(k)
                    && self.index.index_view()[k].file_id != id implies self.entry_ok(k) by {
                    assert(k != kj);
                    assert(before.entry_ok(k));
                }
                assert forall|k: Seq<u8>| #[trigger] self.index.index_view().contains_key(k)
                    && self.index.index_view()[k].file_id == id implies (exists|m: int|
                    0 <= m < j + 1 && #[trigger] moved@[m].0@ == k && self.index.index_view()[k] == moved@[m].1)
                    || (exists|m: int| j + 1 <= m < moved@.len() && #[trigger] moved@[m].0@ == k) by {
                    if k == kj {
                        assert(moved@[j as int].0@ == k);
                    } else if exists|m: int| 0 <= m < j && #[trigger] moved@[m].0@ == k
                        && before.index.index_view()[k] == moved@[m].1 {
                    } else {
                        let m = choose|m: int| j <= m < moved@.len() && #[trigger] moved@[m].0@ == k;
                        assert(m != j);
                    }
                }
            }
            j = j + 1;
        }
        proof {
            assert forall|k: Seq<u8>| #[trigger] tgt@.contains_key(k) && tgt@[k].file_id == id implies self.index.index_view().contains_key(k)
                && self.index.index_view()[k] == tgt@[k] by {
                let m = choose|m: int| 0 <= m < moved@.len() && #[trigger] moved@[m].0@ == k;
            }
            lemma_chain_transfer(tgt@, self.index.index_view(), bufv, 0, id);
            assert forall|jj: int| 0 <= jj < old(self).older_files@.len() && jj != w && chain_ok(
                old(self).index.index_view(),
                old(self).older_files@[jj].content(),
                0,
                old(self).older_files@[jj].id(),
            ) implies chain_ok(
                self.index.index_view(),
                #[trigger] self.older_files@[jj].content(),
                0,
                self.older_files@[jj].id(),
            ) by {
                let idj = old(self).older_files@[jj].id();
                if jj < w {
                    assert(old(self).older_files@[jj].id() < old(self).older_files@[w as int].id());
                } else {
                    assert(old(self).older_files@[w as int].id() < old(self).older_files@[jj].id());
                }
                assert(self.older_files@[jj] == old(self).older_files@[jj]);
                lemma_chain_transfer(old(self).index.index_view(), self.index.index_view(), old(self).older_files@[jj].content(), 0, idj);
            }
            self.lemma_seg_at(w as int);
            assert forall|k: Seq<u8>| #[trigger] self.index.index_view().contains_key(k) implies self.entry_ok(k) by {
                if self.index.index_view()[k].file_id == id {
                    let m = choose|m: int|
                        0 <= m < j && #[trigger] moved@[m].0@ == k && self.index.index_view()[k] == moved@[m].1;
                    assert(self.moved_ok(bufv, moved@[m].0@, moved@[m].1));
                }
            }
        }
    }

    /// Compacts every older data file: records that the index no longer
    /// points at (overwritten values and tombstones) are dropped, and the live
    /// ones are written back to the same file ids. The active file and the
    /// stored values are left as they are.
    pub fn merge(&mut self)
        requires
            old(self).wf(),
        ensures
            final(self).wf(),
            final(self)@ == old(self)@,
            final(self).file_count() == old(self).file_count(),
            final(self).active_id() == old(self).active_id(),
            final(self).active_len() == old(self).active_len(),
            final(self).data_file_size() == old(self).data_file_size(),
            final(self).compacted(),
    {
        let mut w: usize = 0;
        while w < self.older_files.len()
            invariant
                w <= self.older_files@.len(),
                forall|j: int|
                    0 <= j < w ==> chain_ok(
                        self.index.index_view(),
                        #[trigger] self.older_files@[j].content(),
                        0,
                        self.older_files@[j].id(),
                    ),
                self.wf(),
                self.live == old(self).live,
                self.active_file == old(self).active_file,
                self.options == old(self).options,
                self.older_files@.len() == old(self).older_files@.len(),
            decreases self.older_files@.len() - w,
        {
            self.compact_file(w);
            w = w + 1;
        }
    }

    proof fn lemma_wf_after_append(pre: &Engine, post: &Engine)
        requires
            pre.wf(),
            post.files_wf(),
            files_extend(pre, post),
            post.index == pre.index,
            post.live == pre.live,
        ensures
            post.wf(),
    {
        assert forall|k2: Seq<u8>| #[trigger] post.index.index_view().contains_key(k2) implies post.entry_ok(k2) by {
            Engine::lemma_entries_kept(pre, post, k2);
        }
    }

    /// Writes a batch: a begin marker, one batch record per operation and a
    /// finished marker, then applies the operations to the index in order.
    /// Replay applies the batch only once its finished marker reads, so the
    /// files never show part of it.
    #[verifier::loop_isolation(false)]
    #[verifier::rlimit(100)]
    #[verifier::spinoff_prover]
    pub(crate) fn write_batch(&mut self, ops: &Vec<BatchOp>)
        requires
            old(self).wf(),
            ops_fit(ops@),
            old(self).active_id() + ops@.len() + 2 < u32::MAX,
        ensures
            final(self).wf(),
            final(self)@ == apply_ops(old(self)@, ops_view(ops@), ops@.len() as int),
            final(self).data_file_size() == old(self).data_file_size(),
            final(self).active_id() <= old(self).active_id() + ops@.len() + 2,
            old(self).durable() ==> final(self).durable(),
    {
        let ghost pre = *self;
        let begin = LogRecord { key: Vec::new(), value: Vec::new(), rec_type: LogRecordType::BATCH_BEGIN };
        match self.append_log_record(&begin) {
            Ok(_) => {},
            Err(_) => {
                return;
            },
        }
        proof {
            Engine::lemma_wf_after_append(&pre, self);
        }
        let mut pending: Vec<PendingOp> = Vec::new();
        proof {
            assert(pending_view(pending@) =~= ops_view(ops@).subrange(0, 0));
        }
        let mut j: usize = 0;
        while j < ops.len()
            invariant
                j <= ops@.len(),
                self.wf(),
                self.live == pre.live,
                self.options == pre.options,
                self.active_id() <= pre.active_id() + j + 1,
                self.pending_ok(pending@),
                pending_view(pending@) == ops_view(ops@).subrange(0, j as int),
                pre.durable() ==> self.files_clean() && replay_files(start_state(), self.segments()) == (
                pre.live@, pending_view(pending@)),
            decreases ops@.len() - j,
        {
            let ghost mid = *self;
            let key = ops[j].0.clone();
            let (value, vopt, rec_type) = match &ops[j].1 {
                Some(v) => (v.clone(), Some(v.clone()), LogRecordType::BATCH_NORMAL),
                None => (Vec::new(), None, LogRecordType::BATCH_DELETED),
            };
            let rec = LogRecord { key, value, rec_type };
            let pos = match self.append_log_record(&rec) {
                Ok(pos) => pos,
                Err(_) => {
                    return;
                },
            };
            let ghost pv0 = pending@;
            let LogRecord { key, value: _, rec_type: _ } = rec;
            pending.push((key, vopt, pos));
            proof {
                Engine::lemma_wf_after_append(&mid, self);
                Engine::lemma_pending_kept(&mid, self, pv0);
                let s = self.seg(pos.file_id);
                assert(s.subrange(pos.offset as int, pos.offset as int + rec.encoded().len()) == rec.encoded());
                lemma_decode_encoded(s, pos.offset as int, rec.key@, rec.value@, rec.rec_type);
                assert forall|i: int| 0 <= i < pv0.len() implies pending@[i] == pv0[i] by {}
                assert(pending_view(pending@) =~= ops_view(ops@).subrange(0, j + 1));
                assert(self.pending_ok(pending@));
            }
            j = j + 1;
        }
        let ghost mid = *self;
        let finish = LogRecord { key: Vec::new(), value: Vec::new(), rec_type: LogRecordType::BATCH_FINISHED };
        match self.append_log_record(&finish) {
            Ok(_) => {},
            Err(_) => {
                return;
            },
        }
        proof {
            Engine::lemma_wf_after_append(&mid, self);
            Engine::lemma_pending_kept(&mid, self, pending@);
            assert(ops_view(ops@).subrange(0, ops@.len() as int) =~= ops_view(ops@));
        }
        self.apply_pending(&pending);
    }

    /// Index entries stay valid when data files only grow.
    proof fn lemma_entries_kept(pre: &Engine, post: &Engine, k: Seq<u8>)
        requires
            pre.wf(),
            files_extend(pre, post),
            pre.index.index_view().contains_key(k),
            post.index.index_view().contains_key(k),
            post.index.index_view()[k] == pre.index.index_view()[k],
            post.live@.contains_key(k),
            post.live@[k] == pre.live@[k],
        ensures
            post.entry_ok(k),
    {
        assert(pre.entry_ok(k));
        let p = pre.index.index_view()[k];
        let s = pre.seg(p.file_id);
        let t = post.seg(p.file_id);
        assert(pre.has_seg(p.file_id));
        lemma_parse_size(s, p.offset as int);
        assert(s.subrange(0, s.len() as int) =~= s);
        lemma_parse_agree(s, t, p.offset as int, s.len() as int);
    }

    /// Stores `value` under `key`.
    pub fn put(&mut self, key: Vec<u8>, value: Vec<u8>) -> (r: Result<(), Errors>)
        requires
            old(self).wf(),
            key@.len() <= u32::MAX,
            value@.len() <= u32::MAX,
        ensures
            final(self).wf(),
            key@.len() == 0 ==> r == Err::<(), Errors>(Errors::KeyIsEmpty),
            r is Err ==> *final(self) == *old(self),
            key@.len() > 0 && r is Ok ==> final(self)@ == old(self)@.insert(key@, value@),
            key@.len() > 0 && r is Err ==> r == Err::<(), Errors>(Errors::FailedToOpenDataFile),
            r is Ok && !old(self).needs_rotation(encode_record(key@, value@, LogRecordType::NOMAL).len()) ==> {
                &&& final(self).active_id() == old(self).active_id()
                &&& final(self).active_len() == old(self).active_len() + encode_record(key@, value@, LogRecordType::NOMAL).len()
                &&& final(self).pos_of(key@) == (LogRecordPos { file_id: old(self).active_id(), offset: old(self).active_len() as u64 })
            },
            r is Ok && old(self).needs_rotation(encode_record(key@, value@, LogRecordType::NOMAL).len()) ==> {
                &&& final(self).active_id() == old(self).active_id() + 1
                &&& final(self).active_len() == encode_record(key@, value@, LogRecordType::NOMAL).len()
                &&& final(self).pos_of(key@) == (LogRecordPos { file_id: final(self).active_id(), offset: 0 })
            },
            r is Ok ==> forall|k: Seq<u8>| old(self)@.contains_key(k) && k != key@ ==> #[trigger] final(self).pos_of(k) == old(self).pos_of(k),
            key@.len() > 0 ==> (r is Err <==> old(self).rotation_blocked(
                encode_record(key@, value@, LogRecordType::NOMAL).len(),
            )),
            r is Ok && old(self).bounded() && encode_record(key@, value@, LogRecordType::NOMAL).len()
                <= old(self).data_file_size() ==> final(self).bounded(),
            final(self).data_file_size() == old(self).data_file_size(),
            old(self).durable() ==> final(self).durable(),
            r is Ok ==> final(self).file_count() == old(self).file_count() + (if old(self).needs_rotation(
                encode_record(key@, value@, LogRecordType::NOMAL).len(),
            ) {
                1int
            } else {
                0int
            }),
    {
        if key.len() == 0 {
            return Err(Errors::KeyIsEmpty);
        }
        let ghost k = key@;
        let ghost v = value@;
        let record = LogRecord { key, value, rec_type: LogRecordType::NOMAL };
        let ghost pre = *old(self);
        assert(record.key@ == k && record.value@ == v);
        let pos = match self.append_log_record(&record) {
            Ok(pos) => pos,
            Err(e) => return Err(e),
        };
        let ghost mid = *self;
        let LogRecord { key, value: _, rec_type: _ } = record;
        let ok = self.index.put(key, pos);
        if !ok {
            return Err(Errors::IndexUpdateFailed);
        }
        self.live = Ghost(self.live@.insert(k, v));
        proof {
            if pre.durable() {
                assert(self.segments() == mid.segments());
            }
            assert(self.active_file == mid.active_file);
            assert(self.older_files == mid.older_files);
            assert forall|id: u32| #[trigger] pre.has_seg(id) implies self.has_seg(id) && pre.seg(id).len()
                <= self.seg(id).len() && self.seg(id).subrange(0, pre.seg(id).len() as int) == pre.seg(id) by {
                assert(mid.has_seg(id));
                assert(self.seg(id) == mid.seg(id));
            }
            assert(self.index.index_view().dom() =~= self.live@.dom());
            assert forall|k2: Seq<u8>| #[trigger] self.index.index_view().contains_key(k2) implies self.entry_ok(
                k2,
            ) by {
                if k2 == k {
                    let s = self.seg(pos.file_id);
                    lemma_decode_encoded(s, pos.offset as int, k, v, LogRecordType::NOMAL);
                } else {
                    Engine::lemma_entries_kept(&pre, self, k2);
                }
            }
        }
        Ok(())
    }

    /// The value last stored under `key`.
    pub fn get(&self, key: Vec<u8>) -> (r: Result<Vec<u8>, Errors>)
        requires
            self.wf(),
        ensures
            key@.len() == 0 ==> r == Err::<Vec<u8>, Errors>(Errors::KeyIsEmpty),
            key@.len() > 0 && self@.contains_key(key@) ==> r is Ok && r->Ok_0@ == self@[key@],
            key@.len() > 0 && !self@.contains_key(key@) ==> r == Err::<Vec<u8>, Errors>(
                Errors::KeyNotFound,
            ),
    {
        if key.len() == 0 {
            return Err(Errors::KeyIsEmpty);
        }
        let ghost k = key@;
        let pos = match self.index.get(key) {
            Some(p) => p,
            None => return Err(Errors::KeyNotFound),
        };
        proof {
            assert(self.entry_ok(k));
        }
        let read = if self.active_file.get_file_id() == pos.file_id {
            self.active_file.read_log_record(pos.offset)
        } else {
            let mut i: usize = 0;
            while i < self.older_files.len() && self.older_files[i].get_file_id() != pos.file_id
                invariant
                    i <= self.older_files@.len(),
                    forall|j: int| 0 <= j < i ==> #[trigger] self.older_files@[j].id() != pos.file_id,
                decreases self.older_files.len() - i,
            {
                i = i + 1;
            }
            if i == self.older_files.len() {
                return Err(Errors::DataFileNotFound);
            }
            proof {
                self.lemma_seg_at(i as int);
            }
            self.older_files[i].read_log_record(pos.offset)
        };
        match read {
            Ok(rr) => {
                if rr.record.rec_type == LogRecordType::DELETED {
                    return Err(Errors::KeyNotFound);
                }
                Ok(rr.record.value)
            },
            Err(e) => Err(e),
        }
    }

    /// Removes `key`; a key that is not there is left as it is.
    pub fn delete(&mut self, key: Vec<u8>) -> (r: Result<(), Errors>)
        requires
            old(self).wf(),
            key@.len() <= u32::MAX,
        ensures
            final(self).wf(),
            key@.len() == 0 ==> r == Err::<(), Errors>(Errors::KeyIsEmpty),
            r is Err ==> *final(self) == *old(self),
            key@.len() > 0 && !old(self)@.contains_key(key@) ==> r is Ok && *final(self) == *old(self),
            key@.len() > 0 && r is Ok ==> final(self)@ == old(self)@.remove(key@),
            key@.len() > 0 && r is Err ==> r == Err::<(), Errors>(Errors::FailedToOpenDataFile),
            r is Ok && old(self)@.contains_key(key@) ==> {
                let n = encode_record(key@, Seq::<u8>::empty(), LogRecordType::DELETED).len();
                &&& !old(self).needs_rotation(n) ==> final(self).active_id() == old(self).active_id()
                    && final(self).active_len() == old(self).active_len() + n
                &&& old(self).needs_rotation(n) ==> final(self).active_id() == old(self).active_id() + 1
                    && final(self).active_len() == n
            },
            r is Ok ==> forall|k: Seq<u8>| old(self)@.contains_key(k) && k != key@ ==> #[trigger] final(self).pos_of(k) == old(self).pos_of(k),
            key@.len() > 0 ==> (r is Err <==> old(self)@.contains_key(key@) && old(self).rotation_blocked(
                encode_record(key@, Seq::<u8>::empty(), LogRecordType::DELETED).len(),
            )),
            final(self).data_file_size() == old(self).data_file_size(),
            old(self).durable() ==> final(self).durable(),
    {
        if key.len() == 0 {
            return Err(Errors::KeyIsEmpty);
        }
        let ghost k = key@;
        if self.index.get(key.clone()).is_none() {
            proof {
                assert(self.live@.remove(k) =~= self.live@);
            }
            return Ok(());
        }
        let record = LogRecord { key, value: Vec::new(), rec_type: LogRecordType::DELETED };
        assert(record.value@ =~= Seq::<u8>::empty());
        let ghost pre = *old(self);
        match self.append_log_record(&record) {
            Ok(_) => {},
            Err(e) => return Err(e),
        };
        let ghost mid = *self;
        let LogRecord { key, value: _, rec_type: _ } = record;
        self.index.delete(key);
        self.live = Ghost(self.live@.remove(k));
        proof {
            if pre.durable() {
                assert(self.segments() == mid.segments());
            }
            assert(self.active_file == mid.active_file);
            assert(self.older_files == mid.older_files);
            assert forall|id: u32| #[trigger] pre.has_seg(id) implies self.has_seg(id) && pre.seg(id).len()
                <= self.seg(id).len() && self.seg(id).subrange(0, pre.seg(id).len() as int) == pre.seg(id) by {
                assert(mid.has_seg(id));
                assert(self.seg(id) == mid.seg(id));
            }
            assert(self.index.index_view().dom() =~= self.live@.dom());
            assert forall|k2: Seq<u8>| #[trigger] self.index.index_view().contains_key(k2) implies self.entry_ok(
                k2,
            ) by {
                Engine::lemma_entries_kept(&pre, self, k2);
            }
        }
        Ok(())
    }
}

/// Reopening an engine from the bytes of its data files gives back what it
/// held: every file scans without error, recovery cuts nothing, and the
/// replay of the files is the engine's map. With `Engine::open`, whose result
/// holds the replay of the recovered files, a reopened engine holds `e@`.
pub proof fn law_reopen_restores(e: &Engine)
    requires
        e.wf(),
        e.durable(),
    ensures
        forall|i: int|
            0 <= i < e.segments().len() ==> scan_end(#[trigger] e.segments()[i], 0, i == e.segments().len() - 1) is Ok,
        recovered(e.segments()) == e.segments(),
        replay_files(start_state(), recovered(e.segments())).0 == e@,
{
    let segs = e.segments();
    let n = e.older_files@.len();
    assert(segs.len() == n + 1);
    assert(segs[n as int] == e.active_file.content());
    assert forall|i: int| 0 <= i < segs.len() implies scan_end(#[trigger] segs[i], 0, i == segs.len() - 1) is Ok by {
        if i < n {
            assert(segs[i] == e.older_files@[i].content());
        }
    }
    assert(segs.last() == e.active_file.content());
    assert(segs.last().subrange(0, segs.last().len() as int) =~= segs.last());
    assert(recovered(segs) =~= segs);
}

/// The replay state after applying a list of decoded records in order.
pub open spec fn apply_records(st: ReplayState, recs: Seq<(Seq<u8>, Seq<u8>, LogRecordType)>) -> ReplayState
    decreases recs.len(),
{
    if recs.len() == 0 {
        st
    } else {
        apply_records(apply_record(st, recs[0].0, recs[0].1, recs[0].2), recs.drop_first())
    }
}

/// A batch whose finished marker was never written changes nothing that
/// replay shows: after its begin marker and any of its records, the live
/// map is what it was before the batch.
pub proof fn law_unfinished_batch_invisible(st: ReplayState, recs: Seq<(Seq<u8>, Seq<u8>, LogRecordType)>)
    requires
        forall|i: int|
            0 <= i < recs.len() ==> (#[trigger] recs[i]).2 == LogRecordType::BATCH_BEGIN || recs[i].2
                == LogRecordType::BATCH_NORMAL || recs[i].2 == LogRecordType::BATCH_DELETED,
    ensures
        apply_records(st, recs).0 == st.0,
    decreases recs.len(),
{
    if recs.len() > 0 {
        assert(recs[0].2 == LogRecordType::BATCH_BEGIN || recs[0].2 == LogRecordType::BATCH_NORMAL || recs[0].2
            == LogRecordType::BATCH_DELETED);
        assert forall|i: int| 0 <= i < recs.drop_first().len() implies (#[trigger] recs.drop_first()[i]).2
            == LogRecordType::BATCH_BEGIN || recs.drop_first()[i].2 == LogRecordType::BATCH_NORMAL
            || recs.drop_first()[i].2 == LogRecordType::BATCH_DELETED by {
            assert(recs.drop_first()[i] == recs[i + 1]);
        }
        law_unfinished_batch_invisible(apply_record(st, recs[0].0, recs[0].1, recs[0].2), recs.drop_first());
    }
}

/// A finished batch shows all of its operations at once: its begin
/// marker, its records and its finished marker leave the live map with the
/// operations applied in order and nothing held back.
pub proof fn law_finished_batch_applies(st: ReplayState, ops: Seq<(Seq<u8>, Option<Seq<u8>>)>)
    ensures
        ({
            let recs = seq![(Seq::<u8>::empty(), Seq::<u8>::empty(), LogRecordType::BATCH_BEGIN)]
                + batch_records(ops) + seq![(Seq::<u8>::empty(), Seq::<u8>::empty(), LogRecordType::BATCH_FINISHED)];
            apply_records(st, recs) == (apply_ops(st.0, ops, ops.len() as int), Seq::<(Seq<u8>, Option<Seq<u8>>)>::empty())
        }),
{
    let begin = seq![(Seq::<u8>::empty(), Seq::<u8>::empty(), LogRecordType::BATCH_BEGIN)];
    let fin = seq![(Seq::<u8>::empty(), Seq::<u8>::empty(), LogRecordType::BATCH_FINISHED)];
    let recs = begin + batch_records(ops) + fin;
    assert(recs[0] == begin[0]);
    assert(recs.drop_first() =~= batch_records(ops) + fin);
    let st1 = (st.0, Seq::<(Seq<u8>, Option<Seq<u8>>)>::empty());
    assert(apply_record(st, recs[0].0, recs[0].1, recs[0].2) == st1);
    assert(apply_records(st, recs) == apply_records(st1, recs.drop_first()));
    lemma_batch_records(st1, ops, fin);
    assert(st1.1 + ops =~= ops);
    let st2 = (st.0, ops);
    let st3 = apply_record(st2, fin[0].0, fin[0].1, fin[0].2);
    assert(fin.drop_first() =~= Seq::<(Seq<u8>, Seq<u8>, LogRecordType)>::empty());
    assert(apply_records(st2, fin) == apply_records(st3, fin.drop_first()));
    assert(apply_records(st3, fin.drop_first()) == st3);
}

/// The batch records that stand for staged operations.
pub open spec fn batch_records(ops: Seq<(Seq<u8>, Option<Seq<u8>>)>) -> Seq<(Seq<u8>, Seq<u8>, LogRecordType)> {
    ops.map_values(|op: (Seq<u8>, Option<Seq<u8>>)| match op.1 {
        Some(v) => (op.0, v, LogRecordType::BATCH_NORMAL),
        None => (op.0, Seq::<u8>::empty(), LogRecordType::BATCH_DELETED),
    })
}

proof fn lemma_batch_records(
    st: ReplayState,
    ops: Seq<(Seq<u8>, Option<Seq<u8>>)>,
    rest: Seq<(Seq<u8>, Seq<u8>, LogRecordType)>,
)
    ensures
        apply_records(st, batch_records(ops) + rest) == apply_records((st.0, st.1 + ops), rest),
    decreases ops.len(),
{
    if ops.len() == 0 {
        assert(batch_records(ops) + rest =~= rest);
        assert(st.1 + ops =~= st.1);
    } else {
        let recs = batch_records(ops) + rest;
        assert(recs[0] == batch_records(ops)[0]);
        assert(recs.drop_first() =~= batch_records(ops.drop_first()) + rest);
        let st1 = apply_record(st, recs[0].0, recs[0].1, recs[0].2);
        assert(st1.1 =~= st.1.push(ops[0]));
        lemma_batch_records(st1, ops.drop_first(), rest);
        assert(st1.1 + ops.drop_first() =~= st.1 + ops);
    }
}

/// A value stored under a non-empty key is what a read of the key then
/// gives: `put` leaves `before@.insert(key, value)` in `after`, and `get` on
/// `after` returns `after@[key]`.
pub proof fn law_put_then_get(before: &Engine, after: &Engine, key: Seq<u8>, value: Seq<u8>)
    requires
        key.len() > 0,
        after@ == before@.insert(key, value),
    ensures
        after@.contains_key(key),
        after@[key] == value,
{
}

/// A key that is stored and then deleted is not found: `put` then `delete`
/// leave `before@.insert(key, value).remove(key)`, where `get` finds nothing.
pub proof fn law_put_delete_get(before: &Engine, mid: &Engine, after: &Engine, key: Seq<u8>, value: Seq<u8>)
    requires
        mid@ == before@.insert(key, value),
        after@ == mid@.remove(key),
    ensures
        !after@.contains_key(key),
{
}

/// Storing twice under one key keeps the second value only, and leaves
/// every other key as it was.
pub proof fn law_overwrite(before: &Engine, mid: &Engine, after: &Engine, key: Seq<u8>, v1: Seq<u8>, v2: Seq<u8>)
    requires
        mid@ == before@.insert(key, v1),
        after@ == mid@.insert(key, v2),
    ensures
        after@ == before@.insert(key, v2),
{
    assert(after@ =~= before@.insert(key, v2));
}

} // verus!
