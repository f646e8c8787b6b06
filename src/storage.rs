//! The storage engine: direct writes, transactions staged in the write-ahead
//! log, and recovery by replaying that log when the engine is opened.
use vstd::prelude::*;
use crate::codec::{frame, op_payload, record_payload, WalOp};
use crate::error::StorageError;
use crate::index::Index;
use crate::segment::{
    frames_then, holds_record, ops_view, parse_wal, record_at, tombstone_key, Record, Segment, WalOperation, WalSegment,
};

verus! {

/// The state of an engine as mathematical values.
pub struct StorageView {
    /// The bytes of the record log.
    pub log: Seq<u8>,
    /// The offset of each live key's latest record.
    pub index: Map<Seq<char>, u64>,
    /// The value that `get` returns for each live key.
    pub entries: Map<Seq<char>, Seq<char>>,
    /// The operations staged by the open transaction.
    pub pending: Seq<WalOp>,
    pub in_transaction: bool,
}

/// What a successful `set` did.
#[derive(Debug, Clone, Copy, PartialEq, Eq, Structural)]
pub enum SetOutcome {
    /// The record was appended at this offset of the record log.
    Applied(u64),
    /// The write was staged in the open transaction.
    Buffered,
}

/// Writes `key = value` to the record log and indexes it.
pub open spec fn put_direct(s: StorageView, key: Seq<char>, value: Seq<char>) -> StorageView {
    StorageView {
        log: s.log + frame(record_payload(key, value)),
        index: s.index.insert(key, s.log.len() as u64),
        entries: s.entries.insert(key, value),
        ..s
    }
}

/// Drops `key` from the index and appends a tombstone, if `key` is live.
pub open spec fn delete_direct(s: StorageView, key: Seq<char>) -> StorageView {
    if s.index.contains_key(key) {
        StorageView {
            log: s.log + frame(record_payload(tombstone_key(), Seq::empty())),
            index: s.index.remove(key),
            entries: s.entries.remove(key),
            ..s
        }
    } else {
        s
    }
}

/// Applies one operation directly.
pub open spec fn apply_op(s: StorageView, op: WalOp) -> StorageView {
    match op {
        WalOp::Put { key, value } => put_direct(s, key, value),
        WalOp::Delete { key } => delete_direct(s, key),
    }
}

/// Applies `ops` directly, in order.
pub open spec fn apply_ops(s: StorageView, ops: Seq<WalOp>) -> StorageView
    decreases ops.len(),
{
    if ops.len() == 0 {
        s
    } else {
        apply_op(apply_ops(s, ops.drop_last()), ops.last())
    }
}

/// The record that applying `op` directly appends fits a frame.
pub open spec fn op_fits(op: WalOp) -> bool {
    match op {
        WalOp::Put { key, value } => record_payload(key, value).len() <= u32::MAX,
        WalOp::Delete { .. } => true,
    }
}

/// Every operation of `ops` can be applied directly.
pub open spec fn all_fit(ops: Seq<WalOp>) -> bool {
    forall|i: int| 0 <= i < ops.len() ==> #[trigger] op_fits(ops[i])
}

/// `set`: staged inside a transaction, applied otherwise.
pub open spec fn after_set(s: StorageView, key: Seq<char>, value: Seq<char>) -> StorageView {
    if s.in_transaction {
        StorageView { pending: s.pending.push(WalOp::Put { key, value }), ..s }
    } else {
        put_direct(s, key, value)
    }
}

/// `delete`: staged inside a transaction, applied otherwise.
pub open spec fn after_delete(s: StorageView, key: Seq<char>) -> StorageView {
    if s.in_transaction {
        StorageView { pending: s.pending.push(WalOp::Delete { key }), ..s }
    } else {
        delete_direct(s, key)
    }
}

/// `begin_transaction` from the idle state.
pub open spec fn after_begin(s: StorageView) -> StorageView {
    StorageView { pending: Seq::empty(), in_transaction: true, ..s }
}

/// `commit` of an open transaction: its operations applied in order.
pub open spec fn after_commit(s: StorageView) -> StorageView {
    StorageView { pending: Seq::empty(), in_transaction: false, ..apply_ops(s, s.pending) }
}

/// `rollback`: the staged operations are dropped.
pub open spec fn after_rollback(s: StorageView) -> StorageView {
    StorageView { pending: Seq::empty(), in_transaction: false, ..s }
}

/// Every live key has both an offset and a value, and nothing is staged
/// outside a transaction.
pub open spec fn valid(s: StorageView) -> bool {
    &&& s.index.dom() == s.entries.dom()
    &&& !s.in_transaction ==> s.pending.len() == 0
}

/// A freshly opened engine over the record log `log`, before recovery.
pub open spec fn initial_view(log: Seq<u8>) -> StorageView {
    StorageView {
        log,
        index: Map::empty(),
        entries: Map::empty(),
        pending: Seq::empty(),
        in_transaction: false,
    }
}

/// Opening an engine over the record log `log` and the write-ahead log `wal`:
/// the operations of `wal` are applied in order and `wal` is emptied.
pub open spec fn open_view(log: Seq<u8>, wal: Seq<u8>) -> Result<StorageView, StorageError> {
    match parse_wal(wal) {
        None => Err(StorageError::CorruptFrame),
        Some(ops) => if all_fit(ops) {
            Ok(apply_ops(initial_view(log), ops))
        } else {
            Err(StorageError::RecordTooLarge)
        },
    }
}

/// One more operation applied directly.
proof fn lemma_apply_ops_step(s: StorageView, ops: Seq<WalOp>, j: int)
    requires
        0 <= j < ops.len(),
    ensures
        apply_ops(s, ops.subrange(0, j + 1)) == apply_op(apply_ops(s, ops.subrange(0, j)), ops[j]),
{
    assert(ops.subrange(0, j + 1).drop_last() =~= ops.subrange(0, j));
}

/// The storage engine.
pub struct Storage {
    segment: Segment,
    index: Index,
    wal: WalSegment,
    in_transaction: bool,
}

impl View for Storage {
    type V = StorageView;

    closed spec fn view(&self) -> StorageView {
        StorageView {
            log: self.segment.bytes(),
            index: self.index@,
            entries: Map::new(
                |k: Seq<char>| self.index@.contains_key(k),
                |k: Seq<char>| self.segment.records()[self.index@[k] as int].1,
            ),
            pending: match self.wal.logged() {
                Some(ops) => ops,
                None => Seq::empty(),
            },
            in_transaction: self.in_transaction,
        }
    }
}

impl Storage {
    /// The records appended to the record log since the engine was opened.
    pub closed spec fn records(&self) -> Map<int, (Seq<char>, Seq<char>)> {
        self.segment.records()
    }

    /// The bytes of the write-ahead log.
    pub closed spec fn wal_log(&self) -> Seq<u8> {
        self.wal.bytes()
    }

    /// Each indexed offset holds a record of its key, and the write-ahead log
    /// holds exactly the staged operations, none while idle.
    pub closed spec fn wf(&self) -> bool {
        &&& self.segment.wf()
        &&& self.index.wf()
        &&& self.wal.wf()
        &&& self.wal.logged() is Some
        &&& !self.in_transaction ==> self.wal.logged() == Some(Seq::<WalOp>::empty())
        &&& forall|k: Seq<char>| #[trigger]
            self.index@.contains_key(k) ==> self.segment.records().contains_key(
                self.index@[k] as int,
            ) && self.segment.records()[self.index@[k] as int].0 == k
    }

    /// The view of a well-formed engine is valid.
    pub proof fn lemma_valid(&self)
        requires
            self.wf(),
        ensures
            valid(self@),
    {
        assert(self@.index.dom() =~= self@.entries.dom());
    }

    /// Every indexed offset holds the frame of a record of its key and of the
    /// value that `get` returns, and that record is one `read_record` gives back.
    pub proof fn lemma_indexed_records(&self)
        requires
            self.wf(),
        ensures
            forall|k: Seq<char>| #[trigger]
                self@.index.contains_key(k) ==> holds_record(
                    self@.log,
                    self@.index[k] as int,
                    k,
                    self@.entries[k],
                ) && self.records().contains_key(self@.index[k] as int) && self.records()[self@.index[k] as int]
                    == (k, self@.entries[k]),
    {
        assert forall|k: Seq<char>| #[trigger] self@.index.contains_key(k) implies holds_record(
            self@.log,
            self@.index[k] as int,
            k,
            self@.entries[k],
        ) by {
            let o = self.index@[k] as int;
            self.segment.lemma_bounds();
            assert(self.segment.records().contains_key(o));
        }
    }

    /// Appends `key = value` and indexes it.
    fn apply_put(&mut self, key: &str, value: &str) -> (r: Result<u64, StorageError>)
        requires
            old(self).wf(),
        ensures
            final(self).wf(),
            (r is Ok) == (record_payload(key@, value@).len() <= u32::MAX),
            record_payload(key@, value@).len() <= 4 * (key@.len() + value@.len()) + 18,
            r is Ok ==> r == Ok::<u64, StorageError>(old(self)@.log.len() as u64) && final(self)@
                == put_direct(old(self)@, key@, value@) && final(self).records() == old(self).records().insert(old(self)@.log.len() as int, (key@, value@)),
            r is Err ==> r == Err::<u64, StorageError>(StorageError::RecordTooLarge) && final(self)@ == old(self)@ && final(self).records() == old(self).records(),
            final(self).wal_log() == old(self).wal_log(),
    {
        let ghost pre = self@;
        proof {
            self.segment.lemma_bounds();
        }
        let offset = match self.segment.set(key, value) {
            Ok(o) => o,
            Err(e) => {
                assert(self@ =~= pre);
                return Err(e);
            },
        };
        self.index.insert(key, offset);
        proof {
            let old_records = old(self).segment.records();
            assert forall|k: Seq<char>| #[trigger]
                self.index@.contains_key(k) implies self.segment.records().contains_key(
                self.index@[k] as int,
            ) && self.segment.records()[self.index@[k] as int].0 == k by {
                if k != key@ {
                    assert(old(self).index@.contains_key(k));
                }
            }
            assert forall|k: Seq<char>| #[trigger]
                self@.entries.contains_key(k) implies self@.entries[k] == put_direct(
                pre,
                key@,
                value@,
            ).entries[k] by {
                if k != key@ {
                    let o = old(self).index@[k] as int;
                    assert(old(self).index@.contains_key(k));
                    assert(old_records.contains_key(o));
                    assert(o != pre.log.len());
                }
            }
            assert(self@.entries =~= put_direct(pre, key@, value@).entries);
            assert(self@ =~= put_direct(pre, key@, value@));
        }
        Ok(offset)
    }

    /// Drops `key` from the index, then appends a tombstone, if `key` is live.
    fn apply_delete(&mut self, key: &str)
        requires
            old(self).wf(),
        ensures
            final(self).wf(),
            final(self)@ == delete_direct(old(self)@, key@),
            final(self).wal_log() == old(self).wal_log(),
    {
        let ghost pre = self@;
        proof {
            self.segment.lemma_bounds();
        }
        match self.index.get_offset(key) {
            Some(offset) => {
                self.index.remove(key);
                self.segment.delete(offset);
                proof {
                    let old_records = old(self).segment.records();
                    let end = pre.log.len() as int;
                    assert forall|k: Seq<char>| #[trigger]
                        self.index@.contains_key(k) implies self.segment.records().contains_key(
                        self.index@[k] as int,
                    ) && self.segment.records()[self.index@[k] as int].0 == k by {
                        assert(old(self).index@.contains_key(k));
                        assert(old_records.contains_key(self.index@[k] as int));
                        assert(self.index@[k] as int != end);
                    }
                    assert forall|k: Seq<char>| #[trigger]
                        self@.entries.contains_key(k) implies self@.entries[k] == delete_direct(
                        pre,
                        key@,
                    ).entries[k] by {
                        assert(old(self).index@.contains_key(k));
                        assert(old_records.contains_key(self.index@[k] as int));
                        assert(self.index@[k] as int != end);
                    }
                    assert(self@.entries =~= delete_direct(pre, key@).entries);
                    assert(self@ =~= delete_direct(pre, key@));
                }
            },
            None => {
                assert(self@ =~= pre);
            },
        }
    }

    /// Applies one operation directly.
    fn apply_operation(&mut self, op: &WalOperation) -> (r: Result<(), StorageError>)
        requires
            old(self).wf(),
        ensures
            final(self).wf(),
            (r is Ok) == op_fits(op@),
            r is Ok ==> final(self)@ == apply_op(old(self)@, op@),
            r is Err ==> r == Err::<(), StorageError>(StorageError::RecordTooLarge) && final(self)@
                == old(self)@,
            final(self).wal_log() == old(self).wal_log(),
    {
        match op {
            WalOperation::Put { key, value } => match self.apply_put(key.as_str(), value.as_str()) {
                Ok(_) => Ok(()),
                Err(e) => Err(e),
            },
            WalOperation::Delete { key } => {
                self.apply_delete(key.as_str());
                Ok(())
            },
        }
    }
}

impl Storage {
    /// Opens an engine over the contents of its record log and of its
    /// write-ahead log, replaying the operations of the latter in order.
    ///
    /// A final frame cut short by a crash ends the write-ahead log. The
    /// write-ahead log is empty afterwards; its file should be truncated only
    /// once the replayed records are stored. The index is built from the
    /// replayed operations alone: records that the log held before are not
    /// indexed, since a tombstone does not name the key it deletes.
    pub fn new(log: Vec<u8>, wal: Vec<u8>) -> (r: Result<Storage, StorageError>)
        ensures
            match open_view(log@, wal@) {
                Ok(v) => r matches Ok(s) && s.wf() && s@ == v && s.wal_log() == Seq::<u8>::empty(),
                Err(e) => r == Err::<Storage, StorageError>(e),
            },
            forall|ops: Seq<WalOp>, t: Seq<u8>| #[trigger]
                frames_then(wal@, ops, t) ==> open_view(log@, wal@) == if all_fit(ops) {
                    Ok::<StorageView, StorageError>(apply_ops(initial_view(log@), ops))
                } else {
                    Err::<StorageView, StorageError>(StorageError::RecordTooLarge)
                },
    {
        let ghost wal_bytes = wal@;
        let segment = Segment::new(log);
        let mut wal_segment = WalSegment::new(wal);
        let ops = match wal_segment.read_operations() {
            Ok(ops) => ops,
            Err(e) => return Err(e),
        };
        let ghost parsed = ops_view(ops@);
        wal_segment.clear();
        let mut storage = Storage {
            segment,
            index: Index::new(),
            wal: wal_segment,
            in_transaction: false,
        };
        assert(storage@.entries =~= Map::<Seq<char>, Seq<char>>::empty());
        assert(storage@ =~= apply_ops(initial_view(log@), parsed.subrange(0, 0)));
        let mut j: usize = 0;
        while j < ops.len()
            invariant
                storage.wf(),
                j <= ops@.len(),
                parsed == ops_view(ops@),
                parse_wal(wal_bytes) == Some(parsed),
                wal_bytes == wal@,
                forall|ops: Seq<WalOp>, t: Seq<u8>| #[trigger]
                    frames_then(wal_bytes, ops, t) ==> parse_wal(wal_bytes) == Some(ops),
                storage@ == apply_ops(initial_view(log@), parsed.subrange(0, j as int)),
                forall|i: int| 0 <= i < j ==> #[trigger] op_fits(parsed[i]),
                storage.wal_log() == Seq::<u8>::empty(),
            decreases ops@.len() - j,
        {
            proof {
                lemma_apply_ops_step(initial_view(log@), parsed, j as int);
            }
            match storage.apply_operation(&ops[j]) {
                Ok(()) => {},
                Err(e) => {
                    assert(!op_fits(parsed[j as int]));
                    assert(!all_fit(parsed));
                    return Err(e);
                },
            }
            j = j + 1;
        }
        assert(parsed.subrange(0, j as int) =~= parsed);
        Ok(storage)
    }

    /// Opens a transaction; writes are staged until `commit`.
    pub fn begin_transaction(&mut self) -> (r: Result<(), StorageError>)
        requires
            old(self).wf(),
        ensures
            final(self).wf(),
            old(self)@.in_transaction ==> r == Err::<(), StorageError>(
                StorageError::TransactionAlreadyActive,
            ) && final(self)@ == old(self)@,
            !old(self)@.in_transaction ==> r is Ok && final(self)@ == after_begin(old(self)@)
                && final(self).wal_log() == Seq::<u8>::empty(),
            final(self).records() == old(self).records(),
    {
        if self.in_transaction {
            return Err(StorageError::TransactionAlreadyActive);
        }
        self.in_transaction = true;
        self.wal.clear();
        assert(self@ =~= after_begin(old(self)@));
        Ok(())
    }

    /// Applies the staged operations in order and closes the transaction.
    ///
    /// Every staged operation fits a frame, since it was framed when staged, so
    /// applying them cannot stop halfway.
    pub fn commit(&mut self) -> (r: Result<(), StorageError>)
        requires
            old(self).wf(),
        ensures
            final(self).wf(),
            !old(self)@.in_transaction ==> r == Err::<(), StorageError>(
                StorageError::NoActiveTransaction,
            ) && final(self)@ == old(self)@,
            old(self)@.in_transaction ==> r is Ok && final(self)@ == after_commit(old(self)@)
                && final(self).wal_log() == Seq::<u8>::empty(),
    {
        if !self.in_transaction {
            return Err(StorageError::NoActiveTransaction);
        }
        let ghost pre = self@;
        let ops = match self.wal.read_operations() {
            Ok(ops) => ops,
            Err(e) => return Err(e),
        };
        let ghost staged = ops_view(ops@);
        proof {
            self.wal.lemma_logged_fit();
            assert(staged == pre.pending);
            assert(apply_ops(pre, staged.subrange(0, 0)) == pre) by {
                assert(staged.subrange(0, 0) =~= Seq::<WalOp>::empty());
            }
        }
        let mut j: usize = 0;
        while j < ops.len()
            invariant
                self.wf(),
                self.in_transaction,
                self.wal.logged() == Some(pre.pending),
                j <= ops@.len(),
                staged == ops_view(ops@),
                staged == pre.pending,
                crate::segment::ops_fit(staged),
                self@ == apply_ops(pre, staged.subrange(0, j as int)),
            decreases ops@.len() - j,
        {
            proof {
                lemma_apply_ops_step(pre, staged, j as int);
                assert(op_payload(staged[j as int]).len() <= u32::MAX);
            }
            let _ = self.apply_operation(&ops[j]);
            j = j + 1;
        }
        self.wal.clear();
        self.in_transaction = false;
        proof {
            assert(staged.subrange(0, j as int) =~= staged);
            assert(self@ =~= after_commit(pre));
        }
        Ok(())
    }

    /// Drops the staged operations and closes the transaction.
    pub fn rollback(&mut self)
        requires
            old(self).wf(),
        ensures
            final(self).wf(),
            final(self)@ == after_rollback(old(self)@),
            final(self).wal_log() == Seq::<u8>::empty(),
            final(self).records() == old(self).records(),
    {
        self.wal.clear();
        self.in_transaction = false;
        assert(self@ =~= after_rollback(old(self)@));
    }

    /// Sets `key` to `value`: staged inside a transaction, appended to the
    /// record log and indexed otherwise.
    pub fn set(&mut self, key: &str, value: &str) -> (r: Result<SetOutcome, StorageError>)
        requires
            old(self).wf(),
        ensures
            final(self).wf(),
            (r is Ok) == if old(self)@.in_transaction {
                op_payload(WalOp::Put { key: key@, value: value@ }).len() <= u32::MAX
            } else {
                record_payload(key@, value@).len() <= u32::MAX
            },
            4 * (key@.len() + value@.len()) + 19 <= u32::MAX ==> r is Ok,
            r is Ok ==> final(self)@ == after_set(old(self)@, key@, value@) && r == Ok::<
                SetOutcome,
                StorageError,
            >(
                if old(self)@.in_transaction {
                    SetOutcome::Buffered
                } else {
                    SetOutcome::Applied(old(self)@.log.len() as u64)
                },
            ),
            r is Ok && !old(self)@.in_transaction ==> final(self).records() == old(self).records().insert(
                old(self)@.log.len() as int,
                (key@, value@),
            ),
            r is Ok && old(self)@.in_transaction ==> final(self).records() == old(self).records(),
            r is Err ==> r == Err::<SetOutcome, StorageError>(StorageError::RecordTooLarge)
                && final(self)@ == old(self)@,
            r is Ok && old(self)@.in_transaction ==> final(self).wal_log() == old(self).wal_log()
                + frame(op_payload(WalOp::Put { key: key@, value: value@ })),
            r is Err || !old(self)@.in_transaction ==> final(self).wal_log() == old(self).wal_log(),
    {
        if self.in_transaction {
            let op = WalOperation::Put { key: key.to_owned(), value: value.to_owned() };
            match self.wal.log_operation(&op) {
                Ok(()) => {
                    assert(self@ =~= after_set(old(self)@, key@, value@));
                    Ok(SetOutcome::Buffered)
                },
                Err(e) => {
                    assert(self@ =~= old(self)@);
                    Err(e)
                },
            }
        } else {
            match self.apply_put(key, value) {
                Ok(offset) => Ok(SetOutcome::Applied(offset)),
                Err(e) => Err(e),
            }
        }
    }

    /// The value of `key`. Staged writes are not seen before `commit`.
    pub fn get(&self, key: &str) -> (r: Result<Option<String>, StorageError>)
        requires
            self.wf(),
        ensures
            match self@.entries.get(key@) {
                Some(v) => r matches Ok(Some(x)) && x@ == v,
                None => r == Ok::<Option<String>, StorageError>(None),
            },
    {
        match self.index.get_offset(key) {
            Some(offset) => {
                assert(self.index@.contains_key(key@));
                match self.segment.get(offset) {
                    Ok(Some(record)) => Ok(Some(record.value)),
                    Ok(None) => Ok(None),
                    Err(e) => Err(e),
                }
            },
            None => Ok(None),
        }
    }

    /// Deletes `key`: staged inside a transaction; otherwise the index entry
    /// is dropped and a tombstone appended, or nothing happens if `key` is not
    /// live.
    pub fn delete(&mut self, key: &str) -> (r: Result<(), StorageError>)
        requires
            old(self).wf(),
        ensures
            final(self).wf(),
            (r is Ok) == (!old(self)@.in_transaction || op_payload(WalOp::Delete { key: key@ }).len()
                <= u32::MAX),
            4 * key@.len() + 10 <= u32::MAX ==> r is Ok,
            r is Ok ==> final(self)@ == after_delete(old(self)@, key@),
            r is Err ==> r == Err::<(), StorageError>(StorageError::RecordTooLarge) && final(self)@
                == old(self)@,
            r is Ok && old(self)@.in_transaction ==> final(self).wal_log() == old(self).wal_log()
                + frame(op_payload(WalOp::Delete { key: key@ })),
            r is Err || !old(self)@.in_transaction ==> final(self).wal_log() == old(self).wal_log(),
    {
        if self.in_transaction {
            let op = WalOperation::Delete { key: key.to_owned() };
            match self.wal.log_operation(&op) {
                Ok(()) => {
                    assert(self@ =~= after_delete(old(self)@, key@));
                    Ok(())
                },
                Err(e) => {
                    assert(self@ =~= old(self)@);
                    Err(e)
                },
            }
        } else {
            self.apply_delete(key);
            Ok(())
        }
    }

    /// Reads the record whose frame starts at `offset` of the record log.
    pub fn read_record(&self, offset: u64) -> (r: Result<Option<Record>, StorageError>)
        requires
            self.wf(),
        ensures
            match record_at(self@.log, offset as int) {
                Ok((k, v)) => r matches Ok(Some(rec)) && rec.key@ == k && rec.value@ == v,
                Err(e) => r == Err::<Option<Record>, StorageError>(e),
            },
            self.records().contains_key(offset as int) ==> record_at(self@.log, offset as int)
                == Ok::<(Seq<char>, Seq<char>), StorageError>(self.records()[offset as int]),
    {
        self.segment.get(offset)
    }

    /// Whether a transaction is open.
    pub fn in_transaction(&self) -> (r: bool)
        requires
            self.wf(),
        ensures
            r == self@.in_transaction,
    {
        self.in_transaction
    }

    /// The bytes of the record log.
    pub fn segment_bytes(&self) -> (r: &[u8])
        ensures
            r@ == self@.log,
    {
        self.segment.as_bytes()
    }

    /// The bytes of the write-ahead log.
    pub fn wal_bytes(&self) -> (r: &[u8])
        ensures
            r@ == self.wal_log(),
    {
        self.wal.as_bytes()
    }
}

} // verus!
