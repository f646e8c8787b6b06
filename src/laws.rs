//! Properties of the engine's operations, stated over the transitions that
//! their contracts use.
use vstd::prelude::*;
use crate::codec::WalOp;
use crate::segment::parse_wal;
use crate::storage::{
    after_begin, after_commit, after_delete, after_rollback, after_set, apply_ops,
    initial_view, open_view, valid, StorageView,
};

verus! {

/// Issues `ops` one after the other through `set` and `delete`.
pub open spec fn issue_all(s: StorageView, ops: Seq<WalOp>) -> StorageView
    decreases ops.len(),
{
    if ops.len() == 0 {
        s
    } else {
        let t = issue_all(s, ops.drop_last());
        match ops.last() {
            WalOp::Put { key, value } => after_set(t, key, value),
            WalOp::Delete { key } => after_delete(t, key),
        }
    }
}

/// Outside a transaction, `get` after `set(key, value)` returns `value`.
pub proof fn law_set_then_get(s: StorageView, key: Seq<char>, value: Seq<char>)
    requires
        !s.in_transaction,
    ensures
        after_set(s, key, value).entries.get(key) == Some(value),
{
}

/// Outside a transaction, `get` after `delete(key)` returns nothing, also when
/// `key` was set just before.
pub proof fn law_delete_then_get(s: StorageView, key: Seq<char>, value: Seq<char>)
    requires
        valid(s),
        !s.in_transaction,
    ensures
        after_delete(s, key).entries.get(key) is None,
        after_delete(after_set(s, key, value), key).entries.get(key) is None,
{
}

/// Outside a transaction, two `set`s on distinct keys return increasing
/// offsets (each the length of the log before it), and the index keeps both.
pub proof fn law_offsets_increase(
    s: StorageView,
    k1: Seq<char>,
    v1: Seq<char>,
    k2: Seq<char>,
    v2: Seq<char>,
)
    requires
        !s.in_transaction,
        k1 != k2,
    ensures
        s.log.len() < after_set(s, k1, v1).log.len(),
        after_set(after_set(s, k1, v1), k2, v2).index[k1] == s.log.len() as u64,
        after_set(after_set(s, k1, v1), k2, v2).index[k2] == after_set(s, k1, v1).log.len() as u64,
{
}

/// Operations issued inside a transaction are staged in order and change
/// neither the log, the index nor what `get` returns.
proof fn lemma_issue_in_transaction(s: StorageView, ops: Seq<WalOp>)
    requires
        s.in_transaction,
    ensures
        issue_all(s, ops) == (StorageView { pending: s.pending + ops, ..s }),
    decreases ops.len(),
{
    if ops.len() > 0 {
        lemma_issue_in_transaction(s, ops.drop_last());
        assert(s.pending + ops.drop_last() + seq![ops.last()] =~= s.pending + ops);
        assert(s.pending + ops.drop_last() + seq![ops.last()] =~= (s.pending + ops.drop_last()).push(ops.last()));
    } else {
        assert(s.pending + ops =~= s.pending);
    }
}

/// Applying operations touches only the log, the index and the entries.
proof fn lemma_apply_ops_frame(s: StorageView, t: StorageView, ops: Seq<WalOp>)
    requires
        s.log == t.log,
        s.index == t.index,
        s.entries == t.entries,
    ensures
        apply_ops(s, ops).log == apply_ops(t, ops).log,
        apply_ops(s, ops).index == apply_ops(t, ops).index,
        apply_ops(s, ops).entries == apply_ops(t, ops).entries,
        apply_ops(s, ops).pending == s.pending,
        apply_ops(s, ops).in_transaction == s.in_transaction,
    decreases ops.len(),
{
    if ops.len() > 0 {
        lemma_apply_ops_frame(s, t, ops.drop_last());
    }
}

/// After `begin_transaction`, operations issued stay invisible to `get`; after
/// `commit` the engine is as if they had been applied directly, in order.
pub proof fn law_transaction_atomicity(s: StorageView, ops: Seq<WalOp>)
    requires
        !s.in_transaction,
        s.pending.len() == 0,
    ensures
        issue_all(after_begin(s), ops).entries == s.entries,
        after_commit(issue_all(after_begin(s), ops)) == apply_ops(s, ops),
{
    let b = after_begin(s);
    lemma_issue_in_transaction(b, ops);
    assert(b.pending + ops =~= ops);
    let t = issue_all(b, ops);
    lemma_apply_ops_frame(t, s, ops);
    lemma_apply_ops_frame(s, s, ops);
    assert(t.pending == ops);
    assert(s.pending =~= Seq::<WalOp>::empty());
    assert(after_commit(t) == apply_ops(s, ops));
}

/// `rollback` after `begin_transaction` and any operations leaves the log,
/// the index and the entries as they were before.
pub proof fn law_rollback_restores(s: StorageView, ops: Seq<WalOp>)
    requires
        !s.in_transaction,
        s.pending.len() == 0,
    ensures
        after_rollback(issue_all(after_begin(s), ops)) == s,
{
    lemma_issue_in_transaction(after_begin(s), ops);
    assert(s.pending =~= Seq::<WalOp>::empty());
    assert(after_rollback(issue_all(after_begin(s), ops)) =~= s);
}

/// Opening over an empty write-ahead log replays nothing, so opening again
/// over the same record log gives the same engine.
pub proof fn law_reopen_clean(log: Seq<u8>)
    ensures
        open_view(log, Seq::empty()) == Ok::<StorageView, crate::error::StorageError>(initial_view(log)),
        open_view(initial_view(log).log, Seq::empty()) == open_view(log, Seq::empty()),
{
    assert(parse_wal(Seq::<u8>::empty()) == Some(Seq::<WalOp>::empty()));
}

} // verus!
