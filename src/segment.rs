//! The record log and the write-ahead log, each held as the byte image of its
//! file: both only ever grow at the end, and the write-ahead log can be cleared.
use vstd::prelude::*;
use vstd::slice::slice_subrange;
use crate::codec::{
    append_frame, decode_pair, decode_pair_exec, encode_record, frame, frame_end, frame_size_at,
    lemma_le32_round_trip, record_payload, WalOp, op_payload, decode_op, decode_op_exec,
    encode_set_op, encode_delete_op,
};
use crate::error::StorageError;

verus! {

/// A key-value pair as stored in the record log.
pub struct Record {
    pub key: String,
    pub value: String,
}

/// The key of the record appended to mark a deletion.
pub open spec fn tombstone_key() -> Seq<char> {
    "deleted"@
}

/// `d` holds the frame of the record `(k, v)` at offset `off`.
pub open spec fn holds_record(d: Seq<u8>, off: int, k: Seq<char>, v: Seq<char>) -> bool {
    let f = frame(record_payload(k, v));
    &&& record_payload(k, v).len() <= u32::MAX
    &&& 0 <= off
    &&& off + f.len() <= d.len()
    &&& d.subrange(off, off + f.len()) == f
}

/// What reading the record log at `off` gives.
pub open spec fn record_at(d: Seq<u8>, off: int) -> Result<(Seq<char>, Seq<char>), StorageError> {
    match frame_size_at(d, off) {
        None => Err(StorageError::UnexpectedEof),
        Some(n) => match decode_pair(d.subrange(off + 4, off + 4 + n)) {
            Some(kv) => Ok(kv),
            None => Err(StorageError::CorruptFrame),
        },
    }
}

/// A frame that lies whole in `d` is read back the same when more bytes follow.
proof fn lemma_holds_record_extend(d: Seq<u8>, e: Seq<u8>, off: int, k: Seq<char>, v: Seq<char>)
    requires
        holds_record(d, off, k, v),
    ensures
        holds_record(d + e, off, k, v),
{
    let f = frame(record_payload(k, v));
    assert((d + e).subrange(off, off + f.len()) =~= d.subrange(off, off + f.len()));
}

/// The record at `off` of a log that holds its frame there.
proof fn lemma_record_frame_size(d: Seq<u8>, off: int, k: Seq<char>, v: Seq<char>)
    requires
        holds_record(d, off, k, v),
    ensures
        frame_size_at(d, off) == Some(record_payload(k, v).len()),
        d.subrange(off + 4, off + 4 + record_payload(k, v).len()) == record_payload(k, v),
{
    let p = record_payload(k, v);
    let f = frame(p);
    lemma_le32_round_trip(p.len());
    assert(d.subrange(off, off + 4) =~= f.subrange(0, 4));
    assert(d.subrange(off + 4, off + 4 + p.len()) =~= f.subrange(4, f.len() as int));
    assert(f.subrange(4, f.len() as int) =~= p);
}

/// The record log: an append-only sequence of record frames.
pub struct Segment {
    data: Vec<u8>,
    write_offset: u64,
    records: Ghost<Map<int, (Seq<char>, Seq<char>)>>,
}

impl Segment {
    /// The bytes of the log.
    pub closed spec fn bytes(&self) -> Seq<u8> {
        self.data@
    }

    /// The records that this value appended, by offset.
    pub closed spec fn records(&self) -> Map<int, (Seq<char>, Seq<char>)> {
        self.records@
    }

    /// The write offset is the end of the log, and every appended record is
    /// still framed where it was written.
    pub closed spec fn wf(&self) -> bool {
        &&& self.write_offset == self.data@.len()
        &&& forall|off: int| #[trigger]
            self.records@.contains_key(off) ==> holds_record(
                self.data@,
                off,
                self.records@[off].0,
                self.records@[off].1,
            )
    }

    /// The log's length fits an offset, and each record lies inside the log.
    pub proof fn lemma_bounds(&self)
        requires
            self.wf(),
        ensures
            self.bytes().len() <= u64::MAX,
            forall|off: int| #[trigger]
                self.records().contains_key(off) ==> 0 <= off && off + 4 <= self.bytes().len()
                    && holds_record(self.bytes(), off, self.records()[off].0, self.records()[off].1),
    {
    }

    /// A log whose file already holds `data`.
    pub fn new(data: Vec<u8>) -> (r: Self)
        ensures
            r.wf(),
            r.bytes() == data@,
            r.records() == Map::<int, (Seq<char>, Seq<char>)>::empty(),
    {
        let write_offset = data.len() as u64;
        Segment { data, write_offset, records: Ghost(Map::empty()) }
    }

    /// The bytes of the log.
    pub fn as_bytes(&self) -> (r: &[u8])
        ensures
            r@ == self.bytes(),
    {
        self.data.as_slice()
    }

    /// The offset at which the next frame will start.
    pub fn write_offset(&self) -> (r: u64)
        requires
            self.wf(),
        ensures
            r == self.bytes().len(),
    {
        self.write_offset
    }

    /// Appends the frame of `payload`, the record `(k, v)`.
    fn append_record(&mut self, payload: Vec<u8>, k: Ghost<Seq<char>>, v: Ghost<Seq<char>>) -> (r:
        Result<u64, StorageError>)
        requires
            old(self).wf(),
            payload@ == record_payload(k@, v@),
        ensures
            final(self).wf(),
            (r is Ok) == (record_payload(k@, v@).len() <= u32::MAX),
            r is Ok ==> r == Ok::<u64, StorageError>(old(self).bytes().len() as u64)
                && final(self).bytes() == old(self).bytes() + frame(record_payload(k@, v@))
                && final(self).records() == old(self).records().insert(
                old(self).bytes().len() as int,
                (k@, v@),
            ),
            r is Err ==> r == Err::<u64, StorageError>(StorageError::RecordTooLarge)
                && final(self).bytes() == old(self).bytes() && final(self).records() == old(self).records(),
    {
        let offset = self.write_offset;
        let ghost old_data = self.data@;
        if !append_frame(&mut self.data, payload) {
            return Err(StorageError::RecordTooLarge);
        }
        self.write_offset = self.data.len() as u64;
        let ghost off = old_data.len() as int;
        proof {
            let tail = frame(record_payload(k@, v@));
            assert forall|o: int| #[trigger]
                self.records@.contains_key(o) implies holds_record(
                self.data@,
                o,
                self.records@[o].0,
                self.records@[o].1,
            ) by {
                lemma_holds_record_extend(old_data, tail, o, self.records@[o].0, self.records@[o].1);
            }
            assert(self.data@.subrange(off, off + tail.len()) =~= tail);
            self.records@ = self.records@.insert(off, (k@, v@));
        }
        Ok(offset)
    }

    /// Appends the record `(key, value)` and returns the offset of its frame.
    pub fn set(&mut self, key: &str, value: &str) -> (r: Result<u64, StorageError>)
        requires
            old(self).wf(),
        ensures
            final(self).wf(),
            (r is Ok) == (record_payload(key@, value@).len() <= u32::MAX),
            record_payload(key@, value@).len() <= 4 * (key@.len() + value@.len()) + 18,
            r is Ok ==> r == Ok::<u64, StorageError>(old(self).bytes().len() as u64)
                && final(self).bytes() == old(self).bytes() + frame(record_payload(key@, value@))
                && final(self).records() == old(self).records().insert(
                old(self).bytes().len() as int,
                (key@, value@),
            ),
            r is Err ==> r == Err::<u64, StorageError>(StorageError::RecordTooLarge)
                && final(self).bytes() == old(self).bytes() && final(self).records() == old(self).records(),
    {
        let payload = encode_record(key, value);
        self.append_record(payload, Ghost(key@), Ghost(value@))
    }

    /// Reads the record whose frame starts at `offset`.
    pub fn get(&self, offset: u64) -> (r: Result<Option<Record>, StorageError>)
        requires
            self.wf(),
        ensures
            match record_at(self.bytes(), offset as int) {
                Ok((k, v)) => r matches Ok(Some(rec)) && rec.key@ == k && rec.value@ == v,
                Err(e) => r == Err::<Option<Record>, StorageError>(e),
            },
            self.records().contains_key(offset as int) ==> record_at(self.bytes(), offset as int)
                == Ok::<(Seq<char>, Seq<char>), StorageError>(self.records()[offset as int]),
    {
        if offset > self.data.len() as u64 {
            return Err(StorageError::UnexpectedEof);
        }
        let pos = offset as usize;
        let d = self.data.as_slice();
        proof {
            if self.records@.contains_key(offset as int) {
                let (k, v) = self.records@[offset as int];
                lemma_record_frame_size(self.data@, offset as int, k, v);
            }
        }
        match frame_end(d, pos) {
            None => Err(StorageError::UnexpectedEof),
            Some(end) => {
                let p = slice_subrange(d, pos + 4, end);
                match decode_pair_exec(p) {
                    Some((key, value)) => Ok(Some(Record { key, value })),
                    None => Err(StorageError::CorruptFrame),
                }
            },
        }
    }

    /// Marks a deletion by appending a tombstone record at the end of the log.
    ///
    /// The log is append-only, so the frame at `_offset` stays as it is; the
    /// caller drops the index entry that points there.
    pub fn delete(&mut self, _offset: u64)
        requires
            old(self).wf(),
        ensures
            final(self).wf(),
            final(self).bytes() == old(self).bytes() + frame(record_payload(tombstone_key(), Seq::empty())),
            final(self).records() == old(self).records().insert(
                old(self).bytes().len() as int,
                (tombstone_key(), Seq::<char>::empty()),
            ),
    {
        proof {
            reveal_strlit("deleted");
            reveal_strlit("");
            assert(""@ =~= Seq::<char>::empty());
        }
        let payload = encode_record("deleted", "");
        let _ = self.append_record(payload, Ghost(tombstone_key()), Ghost(Seq::empty()));
    }
}

/// An operation staged in the write-ahead log.
pub enum WalOperation {
    Put { key: String, value: String },
    Delete { key: String },
}

impl View for WalOperation {
    type V = WalOp;

    open spec fn view(&self) -> WalOp {
        match self {
            WalOperation::Put { key, value } => WalOp::Put { key: key@, value: value@ },
            WalOperation::Delete { key } => WalOp::Delete { key: key@ },
        }
    }
}

/// The views of a sequence of operations.
pub open spec fn ops_view(v: Seq<WalOperation>) -> Seq<WalOp> {
    v.map_values(|o: WalOperation| o@)
}

/// The frames of `ops`, one after the other.
pub open spec fn wal_frames(ops: Seq<WalOp>) -> Seq<u8>
    decreases ops.len(),
{
    if ops.len() == 0 {
        Seq::empty()
    } else {
        frame(op_payload(ops[0])) + wal_frames(ops.drop_first())
    }
}

/// Every payload of `ops` fits a frame.
pub open spec fn ops_fit(ops: Seq<WalOp>) -> bool {
    forall|i: int| 0 <= i < ops.len() ==> (#[trigger] op_payload(ops[i])).len() <= u32::MAX
}

/// The operations read from the frames of `d` that start at `pos`: reading
/// stops at the end of `d` or at a final frame cut short, and fails on a whole
/// frame whose payload is not an operation.
pub open spec fn parse_wal_from(d: Seq<u8>, pos: int) -> Option<Seq<WalOp>>
    decreases d.len() - pos,
    when 0 <= pos <= d.len()
{
    match frame_size_at(d, pos) {
        None => Some(Seq::empty()),
        Some(n) => match decode_op(d.subrange(pos + 4, pos + 4 + n)) {
            None => None,
            Some(op) => match parse_wal_from(d, pos + 4 + n) {
                Some(rest) => Some(seq![op] + rest),
                None => None,
            },
        },
    }
}

/// The operations that the write-ahead log `d` holds.
pub open spec fn parse_wal(d: Seq<u8>) -> Option<Seq<WalOp>> {
    parse_wal_from(d, 0)
}

proof fn lemma_wal_frames_push(ops: Seq<WalOp>, op: WalOp)
    ensures
        wal_frames(ops.push(op)) == wal_frames(ops) + frame(op_payload(op)),
    decreases ops.len(),
{
    assert(wal_frames(Seq::<WalOp>::empty()) =~= Seq::<u8>::empty());
    assert(ops.push(op)[0] == if ops.len() == 0 { op } else { ops[0] });
    if ops.len() == 0 {
        assert(ops.push(op).drop_first() =~= Seq::<WalOp>::empty());
        assert(wal_frames(ops.push(op)) =~= wal_frames(ops) + frame(op_payload(op)));
    } else {
        assert(ops.push(op).drop_first() =~= ops.drop_first().push(op));
        lemma_wal_frames_push(ops.drop_first(), op);
        assert(wal_frames(ops.push(op)) =~= wal_frames(ops) + frame(op_payload(op)));
    }
}

/// A frame of `p` at `pos` is found with its payload.
proof fn lemma_frame_at(d: Seq<u8>, pos: int, p: Seq<u8>, rest: Seq<u8>)
    requires
        0 <= pos <= d.len(),
        d.subrange(pos, d.len() as int) == frame(p) + rest,
        p.len() <= u32::MAX,
    ensures
        frame_size_at(d, pos) == Some(p.len()),
        d.subrange(pos + 4, pos + 4 + p.len()) == p,
        d.subrange(pos + 4 + p.len(), d.len() as int) == rest,
{
    let f = frame(p);
    lemma_le32_round_trip(p.len());
    let t = d.subrange(pos, d.len() as int);
    assert(t.len() == f.len() + rest.len());
    assert(d.subrange(pos, pos + 4) =~= t.subrange(0, 4));
    assert(t.subrange(0, 4) =~= f.subrange(0, 4));
    assert(d.subrange(pos + 4, pos + 4 + p.len()) =~= t.subrange(4, 4 + p.len() as int));
    assert(t.subrange(4, 4 + p.len() as int) =~= p);
    assert(d.subrange(pos + 4 + p.len(), d.len() as int) =~= t.subrange(f.len() as int, t.len() as int));
    assert(t.subrange(f.len() as int, t.len() as int) =~= rest);
}

/// `d` is the frames of `ops` followed by a tail `t` that holds no whole
/// frame: nothing, or a final frame cut short.
pub open spec fn frames_then(d: Seq<u8>, ops: Seq<WalOp>, t: Seq<u8>) -> bool {
    &&& ops_fit(ops)
    &&& frame_size_at(t, 0) is None
    &&& d == wal_frames(ops) + t
}

/// Finding a frame at `pos` looks only at the bytes from `pos` on.
proof fn lemma_frame_size_suffix(d: Seq<u8>, pos: int)
    requires
        0 <= pos <= d.len(),
    ensures
        frame_size_at(d, pos) == frame_size_at(d.subrange(pos, d.len() as int), 0),
{
    let t = d.subrange(pos, d.len() as int);
    if pos + 4 <= d.len() {
        assert(d.subrange(pos, pos + 4) =~= t.subrange(0, 4));
    }
}

/// Where the first `k` of `ops` have been read, the next frame is that of
/// `ops[k]`, or there is none when all have been read.
proof fn lemma_frames_step(d: Seq<u8>, pos: int, k: int, ops: Seq<WalOp>, t: Seq<u8>)
    requires
        frames_then(d, ops, t),
        0 <= pos <= d.len(),
        0 <= k <= ops.len(),
        d.subrange(pos, d.len() as int) == wal_frames(ops.subrange(k, ops.len() as int)) + t,
    ensures
        if k < ops.len() {
            let pl = op_payload(ops[k]);
            &&& frame_size_at(d, pos) == Some(pl.len())
            &&& d.subrange(pos + 4, pos + 4 + pl.len()) == pl
            &&& d.subrange(pos + 4 + pl.len(), d.len() as int) == wal_frames(
                ops.subrange(k + 1, ops.len() as int),
            ) + t
        } else {
            frame_size_at(d, pos) is None
        },
{
    if k < ops.len() {
        let tail = ops.subrange(k, ops.len() as int);
        assert(tail.drop_first() =~= ops.subrange(k + 1, ops.len() as int));
        assert(tail[0] == ops[k]);
        assert(op_payload(ops[k]).len() <= u32::MAX);
        let rest = wal_frames(tail.drop_first()) + t;
        assert(wal_frames(tail) + t =~= frame(op_payload(ops[k])) + rest);
        lemma_frame_at(d, pos, op_payload(ops[k]), rest);
    } else {
        assert(ops.subrange(k, ops.len() as int) =~= Seq::<WalOp>::empty());
        assert(wal_frames(Seq::<WalOp>::empty()) + t =~= t);
        lemma_frame_size_suffix(d, pos);
    }
}

/// The write-ahead log: frames of staged operations.
pub struct WalSegment {
    data: Vec<u8>,
    ops: Ghost<Option<Seq<WalOp>>>,
}

impl WalSegment {
    /// The bytes of the log.
    pub closed spec fn bytes(&self) -> Seq<u8> {
        self.data@
    }

    /// The operations that this value wrote, where it knows them: a log that
    /// began empty or was cleared.
    pub closed spec fn logged(&self) -> Option<Seq<WalOp>> {
        self.ops@
    }

    /// Known operations are exactly the frames of the log.
    pub closed spec fn wf(&self) -> bool {
        self.ops@ matches Some(ops) ==> self.data@ == wal_frames(ops) && ops_fit(ops)
    }

    /// A write-ahead log whose file already holds `data`.
    pub fn new(data: Vec<u8>) -> (r: Self)
        ensures
            r.wf(),
            r.bytes() == data@,
            data@.len() == 0 ==> r.logged() == Some(Seq::<WalOp>::empty()),
    {
        let ghost ops = if data@.len() == 0 {
            Some(Seq::<WalOp>::empty())
        } else {
            None
        };
        proof {
            if data@.len() == 0 {
                assert(data@ =~= wal_frames(Seq::<WalOp>::empty()));
            }
        }
        WalSegment { data, ops: Ghost(ops) }
    }

    /// The bytes of the log.
    pub fn as_bytes(&self) -> (r: &[u8])
        ensures
            r@ == self.bytes(),
    {
        self.data.as_slice()
    }

    /// Appends the frame of `op`.
    pub fn log_operation(&mut self, op: &WalOperation) -> (r: Result<(), StorageError>)
        requires
            old(self).wf(),
        ensures
            final(self).wf(),
            (r is Ok) == (op_payload(op@).len() <= u32::MAX),
            op_payload(op@).len() <= match op@ {
                WalOp::Put { key, value } => 4 * (key.len() + value.len()) + 19,
                WalOp::Delete { key } => 4 * key.len() + 10,
            },
            r is Ok ==> final(self).bytes() == old(self).bytes() + frame(op_payload(op@))
                && final(self).logged() == match old(self).logged() {
                Some(ops) => Some(ops.push(op@)),
                None => None::<Seq<WalOp>>,
            },
            r is Err ==> r == Err::<(), StorageError>(StorageError::RecordTooLarge)
                && final(self).bytes() == old(self).bytes() && final(self).logged() == old(self).logged(),
    {
        let payload = match op {
            WalOperation::Put { key, value } => encode_set_op(key.as_str(), value.as_str()),
            WalOperation::Delete { key } => encode_delete_op(key.as_str()),
        };
        if !append_frame(&mut self.data, payload) {
            return Err(StorageError::RecordTooLarge);
        }
        proof {
            if let Some(ops) = self.ops@ {
                lemma_wal_frames_push(ops, op@);
                assert forall|i: int| 0 <= i < ops.push(op@).len() implies (#[trigger] op_payload(
                    ops.push(op@)[i],
                )).len() <= u32::MAX by {
                    if i < ops.len() {
                        assert(ops.push(op@)[i] == ops[i]);
                    }
                }
                self.ops@ = Some(ops.push(op@));
            }
        }
        Ok(())
    }

    /// Reads every operation in the log, in the order written.
    pub fn read_operations(&self) -> (r: Result<Vec<WalOperation>, StorageError>)
        requires
            self.wf(),
        ensures
            match parse_wal(self.bytes()) {
                Some(ops) => r matches Ok(v) && ops_view(v@) == ops,
                None => r == Err::<Vec<WalOperation>, StorageError>(StorageError::CorruptFrame),
            },
            forall|ops: Seq<WalOp>, t: Seq<u8>| #[trigger]
                frames_then(self.bytes(), ops, t) ==> parse_wal(self.bytes()) == Some(ops),
            self.logged() matches Some(ops) ==> parse_wal(self.bytes()) == Some(ops),
    {
        let d = self.data.as_slice();
        let mut out: Vec<WalOperation> = Vec::new();
        let mut pos: usize = 0;
        assert(d@.subrange(0, d@.len() as int) =~= d@);
        assert(ops_view(out@) =~= Seq::<WalOp>::empty());
        assert(ops_view(out@) + parse_wal(d@).unwrap_or(Seq::empty()) =~= parse_wal(d@).unwrap_or(Seq::empty()));
        assert forall|ops: Seq<WalOp>, t: Seq<u8>| #[trigger]
            frames_then(d@, ops, t) implies ops_view(out@) == ops.subrange(0, 0)
            && d@.subrange(0, d@.len() as int) == wal_frames(ops.subrange(0, ops.len() as int)) + t by {
            assert(ops.subrange(0, 0) =~= Seq::<WalOp>::empty());
            assert(ops.subrange(0, ops.len() as int) =~= ops);
        }
        proof {
            if let Some(ops) = self.ops@ {
                assert(d@ =~= wal_frames(ops) + Seq::<u8>::empty());
                assert(frame_size_at(Seq::<u8>::empty(), 0) is None);
                assert(frames_then(d@, ops, Seq::<u8>::empty()));
            }
        }
        loop
            invariant
                self.wf(),
                d@ == self.data@,
                pos <= d@.len(),
                match parse_wal_from(d@, pos as int) {
                    Some(rest) => parse_wal(d@) == Some(ops_view(out@) + rest),
                    None => parse_wal(d@) is None,
                },
                self.ops@ matches Some(ops) ==> frames_then(d@, ops, Seq::<u8>::empty()),
                forall|ops: Seq<WalOp>, t: Seq<u8>| #[trigger]
                    frames_then(d@, ops, t) ==> out@.len() <= ops.len() && ops_view(out@)
                        == ops.subrange(0, out@.len() as int) && d@.subrange(pos as int, d@.len() as int)
                        == wal_frames(ops.subrange(out@.len() as int, ops.len() as int)) + t,
            decreases d@.len() - pos,
        {
            let ghost k = out@.len() as int;
            assert forall|ops: Seq<WalOp>, t: Seq<u8>| #[trigger]
                frames_then(d@, ops, t) implies if k < ops.len() {
                    let pl = op_payload(ops[k]);
                    &&& frame_size_at(d@, pos as int) == Some(pl.len())
                    &&& d@.subrange(pos + 4, pos + 4 + pl.len()) == pl
                    &&& d@.subrange(pos + 4 + pl.len(), d@.len() as int) == wal_frames(
                        ops.subrange(k + 1, ops.len() as int),
                    ) + t
                } else {
                    &&& k == ops.len()
                    &&& frame_size_at(d@, pos as int) is None
                } by {
                lemma_frames_step(d@, pos as int, k, ops, t);
            }
            match frame_end(d, pos) {
                None => {
                    proof {
                        assert(ops_view(out@) + Seq::<WalOp>::empty() =~= ops_view(out@));
                        assert forall|ops: Seq<WalOp>, t: Seq<u8>| #[trigger]
                            frames_then(d@, ops, t) implies ops_view(out@) == ops by {
                            assert(ops.subrange(0, k) =~= ops);
                        }
                    }
                    return Ok(out);
                },
                Some(end) => {
                    let p = slice_subrange(d, pos + 4, end);
                    assert(frame_size_at(d@, pos as int) == Some((end - pos - 4) as nat));
                    assert(parse_wal_from(d@, pos as int) == match decode_op(p@) {
                        None => None,
                        Some(op) => match parse_wal_from(d@, end as int) {
                            Some(rest) => Some(seq![op] + rest),
                            None => None,
                        },
                    });
                    match decode_op_exec(p) {
                        None => {
                            assert forall|ops: Seq<WalOp>, t: Seq<u8>| #[trigger]
                                frames_then(d@, ops, t) implies false by {
                                assert(p@ == op_payload(ops[k]));
                            }
                            return Err(StorageError::CorruptFrame);
                        },
                        Some((is_put, key, value)) => {
                            let op = if is_put {
                                WalOperation::Put { key, value }
                            } else {
                                WalOperation::Delete { key }
                            };
                            let ghost before = out@;
                            out.push(op);
                            proof {
                                assert(ops_view(out@) =~= ops_view(before).push(op@));
                                if let Some(rest) = parse_wal_from(d@, end as int) {
                                    assert(ops_view(out@) + rest =~= ops_view(before) + (seq![op@] + rest));
                                }
                                assert forall|ops: Seq<WalOp>, t: Seq<u8>| #[trigger]
                                    frames_then(d@, ops, t) implies out@.len() <= ops.len()
                                    && ops_view(out@) == ops.subrange(0, out@.len() as int)
                                    && d@.subrange(end as int, d@.len() as int) == wal_frames(
                                    ops.subrange(out@.len() as int, ops.len() as int),
                                ) + t by {
                                    assert(p@ == op_payload(ops[k]));
                                    assert(op@ == ops[k]);
                                    assert(ops.subrange(0, k + 1) =~= ops.subrange(0, k).push(ops[k]));
                                }
                            }
                            pos = end;
                        },
                    }
                },
            }
        }
    }

    /// The known operations of a well-formed log each fit a frame.
    pub proof fn lemma_logged_fit(&self)
        requires
            self.wf(),
            self.logged() is Some,
        ensures
            ops_fit(self.logged().unwrap()),
    {
    }

    /// Empties the log.
    pub fn clear(&mut self)
        ensures
            final(self).wf(),
            final(self).bytes() == Seq::<u8>::empty(),
            final(self).logged() == Some(Seq::<WalOp>::empty()),
    {
        self.data.clear();
        proof {
            assert(self.data@ =~= wal_frames(Seq::<WalOp>::empty()));
            self.ops@ = Some(Seq::empty());
        }
    }
}

} // verus!
