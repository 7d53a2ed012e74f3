//! The migration steps: named, ordered transformations, each reading zero or
//! more columns and filling one pending batch. The reconciler-based steps
//! are idempotent: re-run on already-migrated data they append an empty
//! batch.

use crate::MigrationError;
use crate::codec::{le8, widen};
use crate::domain::{
    chunk_transactions_of, decode_chunk_transactions, decode_receipt_entries, receipt_entries_of,
};
use crate::reconcile::{AggregationMap, agg_encoded_map, replace_col_rc};
use crate::shard::{account_id_to_shard_id_v6, get_num_shards, num_shards_spec, spec_shard_id};
use crate::store::{
    DBCol, Store, StoreUpdate, UpdateOp, apply_ops_col, clone_bytes, distinct_keys, entries_view,
    ops_avoid,
    lemma_apply_ops_concat, lemma_apply_ops_other, lemma_apply_ops_push, lemma_entries_map_contains,
    lemma_entries_map_get, op_col,
};
use vstd::prelude::*;

verus! {

/// The batch slice appended after `base` rebuilds column `c` from `current`
/// to exactly `desired`, touches no other column, and is empty when the
/// column already matches.
pub open spec fn appended_delta_rebuilds(
    base: Seq<UpdateOp>,
    ops: Seq<UpdateOp>,
    c: DBCol,
    current: Map<Seq<u8>, Seq<u8>>,
    desired: Map<Seq<u8>, Seq<u8>>,
) -> bool {
    &&& ops.len() >= base.len()
    &&& ops.take(base.len() as int) == base
    &&& forall|x: int| base.len() <= x < ops.len() ==> op_col(#[trigger] ops[x]) == c
    &&& apply_ops_col(current, ops.skip(base.len() as int), c) == desired
    &&& (current == desired ==> ops == base)
}

/// Every chunk record in the authoritative column decodes.
pub open spec fn all_chunks_decode(auth: Seq<(Seq<u8>, Seq<u8>)>) -> bool {
    forall|i: int| 0 <= i < auth.len() ==> (#[trigger] chunk_transactions_of(auth[i].1)) is Some
}

/// The transaction contributions of the first `n` chunk records, in scan
/// order: each chunk's `(transaction hash, serialized transaction)` pairs.
pub open spec fn chunk_contribs(auth: Seq<(Seq<u8>, Seq<u8>)>, n: int) -> Seq<(Seq<u8>, Seq<u8>)>
    decreases n,
{
    if n <= 0 {
        Seq::empty()
    } else {
        chunk_contribs(auth, n - 1) + chunk_transactions_of(auth[n - 1].1).unwrap()
    }
}

/// Contribution prefixes only grow.
pub proof fn lemma_chunk_contribs_mono(auth: Seq<(Seq<u8>, Seq<u8>)>, a: int, b: int)
    requires
        a <= b,
    ensures
        chunk_contribs(auth, a).len() <= chunk_contribs(auth, b).len(),
    decreases b - a,
{
    if a < b {
        lemma_chunk_contribs_mono(auth, a, b - 1);
    }
}

/// The scan failed at chunk record `i`: everything before it decodes without
/// overflowing the counter, and record `i` does not decode.
pub open spec fn tx_decode_failure_at(auth: Seq<(Seq<u8>, Seq<u8>)>, i: int) -> bool {
    &&& 0 <= i < auth.len()
    &&& chunk_transactions_of(auth[i].1) is None
    &&& forall|x: int| 0 <= x < i ==> (#[trigger] chunk_transactions_of(auth[x].1)) is Some
    &&& chunk_contribs(auth, i).len() <= i64::MAX
}

/// The scan overflowed while feeding chunk record `j`'s contributions:
/// everything through `j` decodes and the contribution count first passes
/// what the wide counter can hold inside record `j`.
pub open spec fn tx_overflow_at(auth: Seq<(Seq<u8>, Seq<u8>)>, j: int) -> bool {
    &&& 0 <= j < auth.len()
    &&& forall|x: int| 0 <= x <= j ==> (#[trigger] chunk_transactions_of(auth[x].1)) is Some
    &&& chunk_contribs(auth, j).len() <= i64::MAX
    &&& chunk_contribs(auth, j + 1).len() > i64::MAX
}

/// Rebuilds the transactions-by-hash column from the chunks column: every
/// transaction occurring in a chunk is keyed by its content hash, its
/// refcount exactly its number of occurrences; stale entries are deleted.
/// The appended batch is empty when the column already matches. A chunk
/// record that does not decode is fatal and leaves the batch untouched.
#[verifier::loop_isolation(false)]
pub fn repair_col_transactions(store: &Store, store_update: &mut StoreUpdate) -> (r: Result<
    (),
    MigrationError,
>)
    requires
        store.wf(),
    ensures
        r is Ok <==> all_chunks_decode(store.col_view(DBCol::ColChunks)) && chunk_contribs(
            store.col_view(DBCol::ColChunks),
            store.col_view(DBCol::ColChunks).len() as int,
        ).len() <= i64::MAX,
        r == Err::<(), MigrationError>(MigrationError::DomainDecodeFailure) <==> exists|i: int|
            tx_decode_failure_at(store.col_view(DBCol::ColChunks), i),
        r == Err::<(), MigrationError>(MigrationError::ArithmeticFailure) <==> exists|j: int|
            tx_overflow_at(store.col_view(DBCol::ColChunks), j),
        r is Err ==> final(store_update).ops@ == old(store_update).ops@,
        r is Ok ==> appended_delta_rebuilds(
            old(store_update).ops@,
            final(store_update).ops@,
            DBCol::ColTransactions,
            store.col_map(DBCol::ColTransactions),
            agg_encoded_map(
                chunk_contribs(
                    store.col_view(DBCol::ColChunks),
                    store.col_view(DBCol::ColChunks).len() as int,
                ),
            ),
        ),
{
    let ghost auth = store.col_view(DBCol::ColChunks);
    let chunks = store.iter(DBCol::ColChunks);
    let n = chunks.len();
    let mut agg = AggregationMap::new();
    let mut i: usize = 0;
    proof {
        assert(agg.contribs@ =~= chunk_contribs(auth, 0));
    }
    while i < n
        invariant
            i <= n,
            n == chunks@.len(),
            auth == entries_view(chunks@),
            agg.wf(),
            agg.total <= i64::MAX as u64,
            agg.contribs@ == chunk_contribs(auth, i as int),
            forall|x: int| 0 <= x < i ==> (#[trigger] chunk_transactions_of(auth[x].1)) is Some,
            store_update.ops@ == old(store_update).ops@,
        decreases n - i,
    {
        proof {
            assert(auth[i as int] == (chunks@[i as int].0@, chunks@[i as int].1@));
        }
        match decode_chunk_transactions(&chunks[i].1) {
            None => {
                proof {
                    assert(tx_decode_failure_at(auth, i as int));
                    assert forall|j: int| !tx_overflow_at(auth, j) by {
                        if tx_overflow_at(auth, j) {
                            if j < i {
                                lemma_chunk_contribs_mono(auth, j + 1, i as int);
                            } else {
                                assert(chunk_transactions_of(auth[i as int].1) is Some);
                            }
                        }
                    }
                }
                return Err(MigrationError::DomainDecodeFailure);
            },
            Some(txs) => {
                let ghost txv = entries_view(txs@);
                proof {
                    assert(chunk_transactions_of(auth[i as int].1) == Some(txv));
                    assert(chunk_contribs(auth, i + 1) == chunk_contribs(auth, i as int) + txv);
                }
                let tn = txs.len();
                let mut t: usize = 0;
                proof {
                    assert(agg.contribs@ =~= chunk_contribs(auth, i as int) + txv.take(0));
                }
                while t < tn
                    invariant
                        t <= tn,
                        tn == txs@.len(),
                        txv == entries_view(txs@),
                        i < n,
                        n == chunks@.len(),
                        auth == entries_view(chunks@),
                        chunk_transactions_of(auth[i as int].1) == Some(txv),
                        chunk_contribs(auth, i + 1) == chunk_contribs(auth, i as int) + txv,
                        forall|x: int|
                            0 <= x < i ==> (#[trigger] chunk_transactions_of(auth[x].1)) is Some,
                        agg.wf(),
                        agg.total <= i64::MAX as u64,
                        agg.contribs@ == chunk_contribs(auth, i as int) + txv.take(t as int),
                        store_update.ops@ == old(store_update).ops@,
                    decreases tn - t,
                {
                    if agg.total == (i64::MAX as u64) {
                        proof {
                            assert(chunk_contribs(auth, i as int).len() + t == i64::MAX);
                            assert(chunk_contribs(auth, i + 1).len() == chunk_contribs(
                                auth,
                                i as int,
                            ).len() + txv.len());
                            assert(tx_overflow_at(auth, i as int));
                            assert forall|x: int| !tx_decode_failure_at(auth, x) by {
                                if tx_decode_failure_at(auth, x) {
                                    if x > i {
                                        lemma_chunk_contribs_mono(auth, i + 1, x);
                                    }
                                }
                            }
                            assert(!(all_chunks_decode(auth) && chunk_contribs(
                                auth,
                                auth.len() as int,
                            ).len() <= i64::MAX)) by {
                                if all_chunks_decode(auth) {
                                    lemma_chunk_contribs_mono(auth, i + 1, auth.len() as int);
                                }
                            }
                        }
                        return Err(MigrationError::ArithmeticFailure);
                    }
                    proof {
                        assert(txv[t as int] == (txs@[t as int].0@, txs@[t as int].1@));
                    }
                    let e = &txs[t];
                    agg.insert(clone_bytes(&e.0), clone_bytes(&e.1));
                    proof {
                        assert(agg.contribs@ =~= chunk_contribs(auth, i as int) + txv.take(t + 1));
                    }
                    t += 1;
                }
                proof {
                    assert(txv.take(tn as int) =~= txv);
                }
            },
        }
        i += 1;
    }
    proof {
        assert(agg.contribs@ == chunk_contribs(auth, n as int));
        assert forall|j: int| !tx_overflow_at(auth, j) by {
            if tx_overflow_at(auth, j) {
                lemma_chunk_contribs_mono(auth, j + 1, n as int);
            }
        }
        assert forall|x: int| !tx_decode_failure_at(auth, x) by {}
    }
    replace_col_rc(store, store_update, DBCol::ColTransactions, &agg);
    Ok(())
}

/// Every outgoing-receipt record in the authoritative column decodes.
pub open spec fn all_receipts_decode(auth: Seq<(Seq<u8>, Seq<u8>)>) -> bool {
    forall|i: int| 0 <= i < auth.len() ==> (#[trigger] receipt_entries_of(auth[i].1)) is Some
}

/// One receipt's contribution: its id, and the wide little-endian encoding
/// of the shard its receiver is assigned to.
pub open spec fn receipt_contrib(e: (Seq<u8>, Seq<u8>), num_shards: u64) -> (Seq<u8>, Seq<u8>) {
    (e.0, le8(spec_shard_id(e.1, num_shards)))
}

/// The receipt contributions of the first `n` outgoing-receipt records, in
/// scan order.
pub open spec fn receipt_contribs(auth: Seq<(Seq<u8>, Seq<u8>)>, n: int, num_shards: u64) -> Seq<
    (Seq<u8>, Seq<u8>),
>
    decreases n,
{
    if n <= 0 {
        Seq::empty()
    } else {
        receipt_contribs(auth, n - 1, num_shards) + receipt_entries_of(
            auth[n - 1].1,
        ).unwrap().map_values(|e: (Seq<u8>, Seq<u8>)| receipt_contrib(e, num_shards))
    }
}

/// Contribution prefixes only grow.
pub proof fn lemma_receipt_contribs_mono(
    auth: Seq<(Seq<u8>, Seq<u8>)>,
    a: int,
    b: int,
    num_shards: u64,
)
    requires
        a <= b,
    ensures
        receipt_contribs(auth, a, num_shards).len() <= receipt_contribs(auth, b, num_shards).len(),
    decreases b - a,
{
    if a < b {
        lemma_receipt_contribs_mono(auth, a, b - 1, num_shards);
    }
}

/// The scan failed at outgoing-receipt record `i`.
pub open spec fn receipt_decode_failure_at(
    auth: Seq<(Seq<u8>, Seq<u8>)>,
    i: int,
    num_shards: u64,
) -> bool {
    &&& 0 <= i < auth.len()
    &&& receipt_entries_of(auth[i].1) is None
    &&& forall|x: int| 0 <= x < i ==> (#[trigger] receipt_entries_of(auth[x].1)) is Some
    &&& receipt_contribs(auth, i, num_shards).len() <= i64::MAX
}

/// The scan overflowed while feeding record `j`'s contributions.
pub open spec fn receipt_overflow_at(auth: Seq<(Seq<u8>, Seq<u8>)>, j: int, num_shards: u64) -> bool {
    &&& 0 <= j < auth.len()
    &&& forall|x: int| 0 <= x <= j ==> (#[trigger] receipt_entries_of(auth[x].1)) is Some
    &&& receipt_contribs(auth, j, num_shards).len() <= i64::MAX
    &&& receipt_contribs(auth, j + 1, num_shards).len() > i64::MAX
}

/// Rebuilds the receipt-to-shard column from the outgoing-receipts column:
/// every receipt occurring in an outgoing list is keyed by its id, its value
/// the shard index of its receiver under the legacy assignment, its refcount
/// exactly its number of occurrences; stale entries are deleted. The
/// appended batch is empty when the column already matches. A record that
/// does not decode — the block used to discover the shard count included —
/// is fatal and leaves the batch untouched; a discovered shard count of zero
/// is a fatal arithmetic failure.
#[verifier::loop_isolation(false)]
pub fn repair_col_receipt_id_to_shard_id(store: &Store, store_update: &mut StoreUpdate) -> (r:
    Result<(), MigrationError>)
    requires
        store.wf(),
    ensures
        ({
            let blocks = store.col_view(DBCol::ColBlock);
            let auth = store.col_view(DBCol::ColOutgoingReceipts);
            match num_shards_spec(blocks) {
                Option::None => r == Err::<(), MigrationError>(
                    MigrationError::DomainDecodeFailure,
                ) && final(store_update).ops@ == old(store_update).ops@,
                Option::Some(ns) => if ns == 0 {
                    r == Err::<(), MigrationError>(MigrationError::ArithmeticFailure) && final(store_update).ops@ == old(store_update).ops@
                } else {
                    &&& (r is Ok <==> all_receipts_decode(auth) && receipt_contribs(
                        auth,
                        auth.len() as int,
                        ns,
                    ).len() <= i64::MAX)
                    &&& (r == Err::<(), MigrationError>(MigrationError::DomainDecodeFailure) <==> exists|
                        i: int,
                    | receipt_decode_failure_at(auth, i, ns))
                    &&& (r == Err::<(), MigrationError>(MigrationError::ArithmeticFailure) <==> exists|
                        j: int,
                    | receipt_overflow_at(auth, j, ns))
                    &&& (r is Err ==> final(store_update).ops@ == old(store_update).ops@)
                    &&& (r is Ok ==> appended_delta_rebuilds(
                        old(store_update).ops@,
                        final(store_update).ops@,
                        DBCol::ColReceiptIdToShardId,
                        store.col_map(DBCol::ColReceiptIdToShardId),
                        agg_encoded_map(receipt_contribs(auth, auth.len() as int, ns)),
                    ))
                },
            }
        }),
{
    let num_shards = match get_num_shards(store) {
        Ok(ns) => ns,
        Err(e) => {
            return Err(e);
        },
    };
    if num_shards == 0 {
        return Err(MigrationError::ArithmeticFailure);
    }
    let ghost ns = num_shards;
    let ghost auth = store.col_view(DBCol::ColOutgoingReceipts);
    let receipts_col = store.iter(DBCol::ColOutgoingReceipts);
    let n = receipts_col.len();
    let mut agg = AggregationMap::new();
    let mut i: usize = 0;
    proof {
        assert(agg.contribs@ =~= receipt_contribs(auth, 0, ns));
    }
    while i < n
        invariant
            i <= n,
            n == receipts_col@.len(),
            auth == entries_view(receipts_col@),
            ns == num_shards,
            num_shards > 0,
            agg.wf(),
            agg.total <= i64::MAX as u64,
            agg.contribs@ == receipt_contribs(auth, i as int, ns),
            forall|x: int| 0 <= x < i ==> (#[trigger] receipt_entries_of(auth[x].1)) is Some,
            store_update.ops@ == old(store_update).ops@,
        decreases n - i,
    {
        proof {
            assert(auth[i as int] == (receipts_col@[i as int].0@, receipts_col@[i as int].1@));
        }
        match decode_receipt_entries(&receipts_col[i].1) {
            None => {
                proof {
                    assert(receipt_decode_failure_at(auth, i as int, ns));
                    assert forall|j: int| !receipt_overflow_at(auth, j, ns) by {
                        if receipt_overflow_at(auth, j, ns) {
                            if j < i {
                                lemma_receipt_contribs_mono(auth, j + 1, i as int, ns);
                            } else {
                                assert(receipt_entries_of(auth[i as int].1) is Some);
                            }
                        }
                    }
                }
                return Err(MigrationError::DomainDecodeFailure);
            },
            Some(entries) => {
                let ghost rcv = entries_view(entries@);
                let ghost mapped = rcv.map_values(
                    |e: (Seq<u8>, Seq<u8>)| receipt_contrib(e, ns),
                );
                proof {
                    assert(receipt_entries_of(auth[i as int].1) == Some(rcv));
                    assert(receipt_contribs(auth, i + 1, ns) == receipt_contribs(auth, i as int, ns)
                        + mapped);
                }
                let tn = entries.len();
                let mut t: usize = 0;
                proof {
                    assert(agg.contribs@ =~= receipt_contribs(auth, i as int, ns) + mapped.take(0));
                }
                while t < tn
                    invariant
                        t <= tn,
                        tn == entries@.len(),
                        rcv == entries_view(entries@),
                        mapped == rcv.map_values(|e: (Seq<u8>, Seq<u8>)| receipt_contrib(e, ns)),
                        i < n,
                        n == receipts_col@.len(),
                        auth == entries_view(receipts_col@),
                        ns == num_shards,
                        num_shards > 0,
                        receipt_entries_of(auth[i as int].1) == Some(rcv),
                        receipt_contribs(auth, i + 1, ns) == receipt_contribs(auth, i as int, ns)
                            + mapped,
                        forall|x: int|
                            0 <= x < i ==> (#[trigger] receipt_entries_of(auth[x].1)) is Some,
                        agg.wf(),
                        agg.total <= i64::MAX as u64,
                        agg.contribs@ == receipt_contribs(auth, i as int, ns) + mapped.take(
                            t as int,
                        ),
                        store_update.ops@ == old(store_update).ops@,
                    decreases tn - t,
                {
                    if agg.total == (i64::MAX as u64) {
                        proof {
                            assert(receipt_contribs(auth, i as int, ns).len() + t == i64::MAX);
                            assert(receipt_contribs(auth, i + 1, ns).len() == receipt_contribs(
                                auth,
                                i as int,
                                ns,
                            ).len() + mapped.len());
                            assert(receipt_overflow_at(auth, i as int, ns));
                            assert forall|x: int| !receipt_decode_failure_at(auth, x, ns) by {
                                if receipt_decode_failure_at(auth, x, ns) {
                                    if x > i {
                                        lemma_receipt_contribs_mono(auth, i + 1, x, ns);
                                    }
                                }
                            }
                            assert(!(all_receipts_decode(auth) && receipt_contribs(
                                auth,
                                auth.len() as int,
                                ns,
                            ).len() <= i64::MAX)) by {
                                if all_receipts_decode(auth) {
                                    lemma_receipt_contribs_mono(auth, i + 1, auth.len() as int, ns);
                                }
                            }
                        }
                        return Err(MigrationError::ArithmeticFailure);
                    }
                    proof {
                        assert(rcv[t as int] == (entries@[t as int].0@, entries@[t as int].1@));
                        assert(mapped[t as int] == receipt_contrib(rcv[t as int], ns));
                    }
                    let e = &entries[t];
                    let shard = account_id_to_shard_id_v6(&e.1, num_shards);
                    let payload = crate::codec::le8_bytes(shard);
                    agg.insert(clone_bytes(&e.0), payload);
                    proof {
                        assert(agg.contribs@ =~= receipt_contribs(auth, i as int, ns) + mapped.take(
                            t + 1,
                        ));
                    }
                    t += 1;
                }
                proof {
                    assert(mapped.take(tn as int) =~= mapped);
                }
            },
        }
        i += 1;
    }
    proof {
        assert(agg.contribs@ == receipt_contribs(auth, n as int, ns));
        assert forall|j: int| !receipt_overflow_at(auth, j, ns) by {
            if receipt_overflow_at(auth, j, ns) {
                lemma_receipt_contribs_mono(auth, j + 1, n as int, ns);
            }
        }
        assert forall|x: int| !receipt_decode_failure_at(auth, x, ns) by {}
    }
    replace_col_rc(store, store_update, DBCol::ColReceiptIdToShardId, &agg);
    Ok(())
}

/// Makes the receipt-to-shard column refcounted by discarding its contents
/// and reconstructing them from the outgoing-receipts column.
pub fn migrate_receipts_refcount(store: &Store, store_update: &mut StoreUpdate) -> (r: Result<
    (),
    MigrationError,
>)
    requires
        store.wf(),
    ensures
        ({
            let blocks = store.col_view(DBCol::ColBlock);
            let auth = store.col_view(DBCol::ColOutgoingReceipts);
            match num_shards_spec(blocks) {
                Option::None => r == Err::<(), MigrationError>(
                    MigrationError::DomainDecodeFailure,
                ) && final(store_update).ops@ == old(store_update).ops@,
                Option::Some(ns) => if ns == 0 {
                    r == Err::<(), MigrationError>(MigrationError::ArithmeticFailure) && final(store_update).ops@ == old(store_update).ops@
                } else {
                    &&& (r is Ok <==> all_receipts_decode(auth) && receipt_contribs(
                        auth,
                        auth.len() as int,
                        ns,
                    ).len() <= i64::MAX)
                    &&& (r is Err ==> final(store_update).ops@ == old(store_update).ops@)
                    &&& (r is Ok ==> appended_delta_rebuilds(
                        old(store_update).ops@,
                        final(store_update).ops@,
                        DBCol::ColReceiptIdToShardId,
                        store.col_map(DBCol::ColReceiptIdToShardId),
                        agg_encoded_map(receipt_contribs(auth, auth.len() as int, ns)),
                    ))
                },
            }
        }),
{
    repair_col_receipt_id_to_shard_id(store, store_update)
}

/// What the deleted-entries scan has left at key `k` after the first `j`
/// entries of the deprecated column were deleted.
pub open spec fn deletes_expected(
    refmap: Map<Seq<u8>, Seq<u8>>,
    dview: Seq<(Seq<u8>, Seq<u8>)>,
    j: int,
    k: Seq<u8>,
) -> Option<Seq<u8>> {
    if exists|x: int| 0 <= x < j && dview[x].0 == k {
        Option::None
    } else if refmap.contains_key(k) {
        Option::Some(refmap[k])
    } else {
        Option::None
    }
}

/// Deprecates the transaction-refcount column: its information moves into
/// the transactions column, which is rebuilt from the chunks column, and
/// every remaining key of the deprecated column is deleted outright. The
/// appended batch is empty when the transactions column already matches and
/// the deprecated column is already empty. A chunk record that does not
/// decode is fatal and leaves the batch untouched.
#[verifier::loop_isolation(false)]
pub fn migrate_col_transaction_refcount(store: &Store, store_update: &mut StoreUpdate) -> (r:
    Result<(), MigrationError>)
    requires
        store.wf(),
    ensures
        r is Ok <==> all_chunks_decode(store.col_view(DBCol::ColChunks)) && chunk_contribs(
            store.col_view(DBCol::ColChunks),
            store.col_view(DBCol::ColChunks).len() as int,
        ).len() <= i64::MAX,
        r is Err ==> final(store_update).ops@ == old(store_update).ops@,
        r is Ok ==> ({
            let base = old(store_update).ops@;
            let ops = final(store_update).ops@;
            let desired = agg_encoded_map(
                chunk_contribs(
                    store.col_view(DBCol::ColChunks),
                    store.col_view(DBCol::ColChunks).len() as int,
                ),
            );
            &&& ops.len() >= base.len()
            &&& ops.take(base.len() as int) == base
            &&& forall|x: int|
                base.len() <= x < ops.len() ==> op_col(#[trigger] ops[x]) == DBCol::ColTransactions
                    || op_col(ops[x]) == DBCol::ColTransactionRefCount
            &&& apply_ops_col(
                store.col_map(DBCol::ColTransactions),
                ops.skip(base.len() as int),
                DBCol::ColTransactions,
            ) == desired
            &&& apply_ops_col(
                store.col_map(DBCol::ColTransactionRefCount),
                ops.skip(base.len() as int),
                DBCol::ColTransactionRefCount,
            ) == Map::<Seq<u8>, Seq<u8>>::empty()
            &&& (store.col_map(DBCol::ColTransactions) == desired && store.col_map(
                DBCol::ColTransactionRefCount,
            ) == Map::<Seq<u8>, Seq<u8>>::empty() ==> ops == base)
        }),
{
    let ghost base = store_update.ops@;
    match repair_col_transactions(store, store_update) {
        Err(e) => {
            return Err(e);
        },
        Ok(()) => {},
    }
    let ghost mid = store_update.ops@;
    let ghost d1 = mid.skip(base.len() as int);
    let ghost refmap = store.col_map(DBCol::ColTransactionRefCount);
    let deprecated = store.iter(DBCol::ColTransactionRefCount);
    let ghost dview = entries_view(deprecated@);
    let dn = deprecated.len();
    let ghost mut d2: Seq<UpdateOp> = Seq::empty();
    proof {
        assert(mid + d2 =~= mid);
        assert forall|k: Seq<u8>|
            match #[trigger] deletes_expected(refmap, dview, 0, k) {
                Option::Some(v) => apply_ops_col(refmap, d2, DBCol::ColTransactionRefCount).contains_key(
                    k,
                ) && apply_ops_col(refmap, d2, DBCol::ColTransactionRefCount)[k] == v,
                Option::None => !apply_ops_col(
                    refmap,
                    d2,
                    DBCol::ColTransactionRefCount,
                ).contains_key(k),
            } by {
            assert(apply_ops_col(refmap, d2, DBCol::ColTransactionRefCount) == refmap);
        }
    }
    let mut j: usize = 0;
    while j < dn
        invariant
            j <= dn,
            d2.len() == j,
            store_update.ops@ == mid + d2,
            forall|x: int|
                0 <= x < d2.len() ==> op_col(#[trigger] d2[x]) == DBCol::ColTransactionRefCount,
            forall|k: Seq<u8>|
                match #[trigger] deletes_expected(refmap, dview, j as int, k) {
                    Option::Some(v) => apply_ops_col(
                        refmap,
                        d2,
                        DBCol::ColTransactionRefCount,
                    ).contains_key(k) && apply_ops_col(refmap, d2, DBCol::ColTransactionRefCount)[k]
                        == v,
                    Option::None => !apply_ops_col(
                        refmap,
                        d2,
                        DBCol::ColTransactionRefCount,
                    ).contains_key(k),
                },
        decreases dn - j,
    {
        let key = &deprecated[j].0;
        proof {
            assert(dview[j as int] == (key@, deprecated@[j as int].1@));
        }
        let ghost ap0 = apply_ops_col(refmap, d2, DBCol::ColTransactionRefCount);
        store_update.delete(DBCol::ColTransactionRefCount, clone_bytes(key));
        proof {
            let op = store_update.ops@.last();
            let d0 = d2;
            d2 = d0.push(op);
            assert(store_update.ops@ =~= mid + d2);
            lemma_apply_ops_push(refmap, d0, op, DBCol::ColTransactionRefCount);
            let ap1 = apply_ops_col(refmap, d2, DBCol::ColTransactionRefCount);
            assert(ap1 == ap0.remove(key@));
            assert forall|k: Seq<u8>|
                match #[trigger] deletes_expected(refmap, dview, j + 1, k) {
                    Option::Some(v) => ap1.contains_key(k) && ap1[k] == v,
                    Option::None => !ap1.contains_key(k),
                } by {
                let e0 = deletes_expected(refmap, dview, j as int, k);
                if k == key@ {
                    assert(dview[j as int].0 == k);
                    assert(!ap1.contains_key(k));
                } else {
                    assert((exists|x: int| 0 <= x < j + 1 && dview[x].0 == k) <==> (exists|x: int|
                        0 <= x < j && dview[x].0 == k)) by {
                        if exists|x: int| 0 <= x < j + 1 && dview[x].0 == k {
                            let x = choose|x: int| 0 <= x < j + 1 && dview[x].0 == k;
                            assert(x < j);
                        }
                    }
                    assert(deletes_expected(refmap, dview, j + 1, k) == e0);
                }
            }
        }
        j += 1;
    }
    proof {
        let apf = apply_ops_col(refmap, d2, DBCol::ColTransactionRefCount);
        assert forall|k: Seq<u8>| !(#[trigger] apf.contains_key(k)) by {
            let e = deletes_expected(refmap, dview, dn as int, k);
            if refmap.contains_key(k) {
                lemma_entries_map_contains(dview, k);
            }
        }
        assert(apf =~= Map::<Seq<u8>, Seq<u8>>::empty());
        let ops = store_update.ops@;
        assert(ops =~= base + (d1 + d2)) by {
            assert(mid.take(base.len() as int) =~= base);
        }
        assert(ops.take(base.len() as int) =~= base);
        assert(ops.skip(base.len() as int) =~= d1 + d2);
        lemma_apply_ops_concat(
            store.col_map(DBCol::ColTransactions),
            d1,
            d2,
            DBCol::ColTransactions,
        );
        lemma_apply_ops_other(
            apply_ops_col(store.col_map(DBCol::ColTransactions), d1, DBCol::ColTransactions),
            d2,
            DBCol::ColTransactions,
        );
        lemma_apply_ops_concat(refmap, d1, d2, DBCol::ColTransactionRefCount);
        lemma_apply_ops_other(refmap, d1, DBCol::ColTransactionRefCount);
        assert forall|x: int|
            base.len() <= x < ops.len() implies op_col(#[trigger] ops[x])
            == DBCol::ColTransactions || op_col(ops[x]) == DBCol::ColTransactionRefCount by {
            if x < mid.len() {
                assert(ops[x] == d1[x - base.len()]);
            } else {
                assert(ops[x] == d2[x - mid.len()]);
            }
        }
        if store.col_map(DBCol::ColTransactions) == agg_encoded_map(
            chunk_contribs(
                store.col_view(DBCol::ColChunks),
                store.col_view(DBCol::ColChunks).len() as int,
            ),
        ) && refmap == Map::<Seq<u8>, Seq<u8>>::empty() {
            assert(mid == base);
            assert(distinct_keys(dview));
            assert(dview.len() == 0) by {
                if dview.len() > 0 {
                    lemma_entries_map_get(dview, 0);
                }
            }
            assert(d2.len() == 0);
            assert(ops =~= base);
        }
    }
    Ok(())
}

/// What the column holds after widening: every record long enough to carry
/// the narrow counter gains four zero bytes; shorter records are removed.
pub open spec fn widened_map(m: Map<Seq<u8>, Seq<u8>>) -> Map<Seq<u8>, Seq<u8>> {
    Map::new(
        |k: Seq<u8>| m.contains_key(k) && m[k].len() >= 4,
        |k: Seq<u8>| m[k] + seq![0u8, 0u8, 0u8, 0u8],
    )
}

/// What the widening scan has left at key `k` after the first `i` entries
/// were processed.
pub open spec fn widen_expected(
    s_map: Map<Seq<u8>, Seq<u8>>,
    sview: Seq<(Seq<u8>, Seq<u8>)>,
    i: int,
    k: Seq<u8>,
) -> Option<Seq<u8>> {
    if exists|x: int| 0 <= x < i && sview[x].0 == k {
        if s_map.contains_key(k) && s_map[k].len() >= 4 {
            Option::Some(s_map[k] + seq![0u8, 0u8, 0u8, 0u8])
        } else {
            Option::None
        }
    } else if s_map.contains_key(k) {
        Option::Some(s_map[k])
    } else {
        Option::None
    }
}

/// Widens the refcount of every record in the state column from the narrow
/// to the wide counter width: each record keeps its key and value bytes, its
/// trailing counter field gains four zero bytes; a record too short to carry
/// even the narrow counter is deleted, never padded or reinterpreted.
#[verifier::loop_isolation(false)]
pub fn col_state_refcount_8byte(store: &Store, store_update: &mut StoreUpdate)
    requires
        store.wf(),
    ensures
        final(store_update).ops@.len() >= old(store_update).ops@.len(),
        final(store_update).ops@.take(old(store_update).ops@.len() as int) == old(
            store_update,
        ).ops@,
        forall|x: int|
            old(store_update).ops@.len() <= x < final(store_update).ops@.len() ==> op_col(
                #[trigger] final(store_update).ops@[x],
            ) == DBCol::ColState,
        apply_ops_col(
            store.col_map(DBCol::ColState),
            final(store_update).ops@.skip(old(store_update).ops@.len() as int),
            DBCol::ColState,
        ) == widened_map(store.col_map(DBCol::ColState)),
{
    let ghost base = store_update.ops@;
    let ghost s_map = store.col_map(DBCol::ColState);
    let sentries = store.iter_without_rc_logic(DBCol::ColState);
    let ghost sview = entries_view(sentries@);
    let n = sentries.len();
    let ghost mut delta: Seq<UpdateOp> = Seq::empty();
    proof {
        assert(base + delta =~= base);
        assert forall|k: Seq<u8>|
            match #[trigger] widen_expected(s_map, sview, 0, k) {
                Option::Some(v) => apply_ops_col(s_map, delta, DBCol::ColState).contains_key(k)
                    && apply_ops_col(s_map, delta, DBCol::ColState)[k] == v,
                Option::None => !apply_ops_col(s_map, delta, DBCol::ColState).contains_key(k),
            } by {
            assert(apply_ops_col(s_map, delta, DBCol::ColState) == s_map);
        }
    }
    let mut i: usize = 0;
    while i < n
        invariant
            i <= n,
            store_update.ops@ == base + delta,
            forall|x: int| 0 <= x < delta.len() ==> op_col(#[trigger] delta[x]) == DBCol::ColState,
            forall|k: Seq<u8>|
                match #[trigger] widen_expected(s_map, sview, i as int, k) {
                    Option::Some(v) => apply_ops_col(s_map, delta, DBCol::ColState).contains_key(k)
                        && apply_ops_col(s_map, delta, DBCol::ColState)[k] == v,
                    Option::None => !apply_ops_col(s_map, delta, DBCol::ColState).contains_key(k),
                },
        decreases n - i,
    {
        let key = &sentries[i].0;
        let val = &sentries[i].1;
        proof {
            assert(sview[i as int] == (key@, val@));
            lemma_entries_map_get(sview, i as int);
            assert(s_map.contains_key(key@) && s_map[key@] == val@);
            assert(forall|x: int| 0 <= x < i ==> sview[x].0 != key@);
        }
        let ghost ap0 = apply_ops_col(s_map, delta, DBCol::ColState);
        let widened = widen(val);
        match widened {
            None => {
                store_update.delete(DBCol::ColState, clone_bytes(key));
            },
            Some(w) => {
                store_update.set(DBCol::ColState, clone_bytes(key), w);
            },
        }
        proof {
            let op = store_update.ops@.last();
            let d0 = delta;
            delta = d0.push(op);
            assert(store_update.ops@ =~= base + delta);
            lemma_apply_ops_push(s_map, d0, op, DBCol::ColState);
            let ap1 = apply_ops_col(s_map, delta, DBCol::ColState);
            assert forall|k: Seq<u8>|
                match #[trigger] widen_expected(s_map, sview, i + 1, k) {
                    Option::Some(v) => ap1.contains_key(k) && ap1[k] == v,
                    Option::None => !ap1.contains_key(k),
                } by {
                let e0 = widen_expected(s_map, sview, i as int, k);
                if k == key@ {
                    assert(sview[i as int].0 == k);
                    if val@.len() >= 4 {
                        assert(ap1[k] == val@ + seq![0u8, 0u8, 0u8, 0u8]);
                    } else {
                        assert(!ap1.contains_key(k));
                    }
                } else {
                    assert((exists|x: int| 0 <= x < i + 1 && sview[x].0 == k) <==> (exists|x: int|
                        0 <= x < i && sview[x].0 == k)) by {
                        if exists|x: int| 0 <= x < i + 1 && sview[x].0 == k {
                            let x = choose|x: int| 0 <= x < i + 1 && sview[x].0 == k;
                            assert(x < i);
                        }
                    }
                    assert(widen_expected(s_map, sview, i + 1, k) == e0);
                }
            }
        }
        i += 1;
    }
    proof {
        let ap = apply_ops_col(s_map, delta, DBCol::ColState);
        assert forall|k: Seq<u8>|
            #![trigger ap.contains_key(k)]
            #![trigger widened_map(s_map).contains_key(k)]
            {
                &&& (ap.contains_key(k) <==> widened_map(s_map).contains_key(k))
                &&& (ap.contains_key(k) ==> ap[k] == widened_map(s_map)[k])
            } by {
            let e = widen_expected(s_map, sview, n as int, k);
            lemma_entries_map_contains(sview, k);
        }
        assert(ap =~~= widened_map(s_map));
        assert(store_update.ops@.take(base.len() as int) =~= base);
        assert(store_update.ops@.skip(base.len() as int) =~= delta);
        assert forall|x: int|
            base.len() <= x < store_update.ops@.len() implies op_col(
            #[trigger] store_update.ops@[x]) == DBCol::ColState by {
            assert(store_update.ops@[x] == delta[x - base.len()]);
        }
    }
}


/// Idempotence at the contract level: once a rebuild's batch has brought the
/// column to the desired contents, a second rebuild toward the same desired
/// contents appends an empty batch.
pub proof fn lemma_rebuild_idempotent(
    base1: Seq<UpdateOp>,
    ops1: Seq<UpdateOp>,
    base2: Seq<UpdateOp>,
    ops2: Seq<UpdateOp>,
    c: DBCol,
    current: Map<Seq<u8>, Seq<u8>>,
    desired: Map<Seq<u8>, Seq<u8>>,
)
    requires
        appended_delta_rebuilds(base1, ops1, c, current, desired),
        appended_delta_rebuilds(
            base2,
            ops2,
            c,
            apply_ops_col(current, ops1.skip(base1.len() as int), c),
            desired,
        ),
    ensures
        ops2 == base2,
{
}

/// Idempotence of the transactions rebuild: after its batch is committed the
/// transactions column holds exactly the contents desired for the (untouched)
/// chunks column, so a re-run on the committed store appends an empty batch
/// by the step's own contract.
pub proof fn lemma_repair_transactions_idempotent(s0: Store, ops1: Seq<UpdateOp>, s1: Store)
    requires
        appended_delta_rebuilds(
            Seq::empty(),
            ops1,
            DBCol::ColTransactions,
            s0.col_map(DBCol::ColTransactions),
            agg_encoded_map(
                chunk_contribs(
                    s0.col_view(DBCol::ColChunks),
                    s0.col_view(DBCol::ColChunks).len() as int,
                ),
            ),
        ),
        forall|c: DBCol| #[trigger] s1.col_map(c) == apply_ops_col(s0.col_map(c), ops1, c),
        forall|c: DBCol|
            ops_avoid(ops1, c) ==> #[trigger] s1.entries_seq(c) == s0.entries_seq(c),
    ensures
        s1.col_map(DBCol::ColTransactions) == agg_encoded_map(
            chunk_contribs(
                s1.col_view(DBCol::ColChunks),
                s1.col_view(DBCol::ColChunks).len() as int,
            ),
        ),
{
    assert(ops_avoid(ops1, DBCol::ColChunks)) by {
        assert(forall|x: int|
            0 <= x < ops1.len() ==> op_col(#[trigger] ops1[x]) == DBCol::ColTransactions);
    }
    assert(s1.entries_seq(DBCol::ColChunks) == s0.entries_seq(DBCol::ColChunks));
    assert(ops1.skip(0) =~= ops1);
}

/// Idempotence of the receipt-to-shard rebuild: after its batch is committed
/// the receipt-to-shard column holds exactly the contents desired for the
/// (untouched) outgoing-receipts and block columns, so a re-run on the
/// committed store appends an empty batch by the step's own contract.
pub proof fn lemma_migrate_receipts_idempotent(
    s0: Store,
    ops1: Seq<UpdateOp>,
    s1: Store,
    ns: u64,
)
    requires
        num_shards_spec(s0.col_view(DBCol::ColBlock)) == Some(ns),
        appended_delta_rebuilds(
            Seq::empty(),
            ops1,
            DBCol::ColReceiptIdToShardId,
            s0.col_map(DBCol::ColReceiptIdToShardId),
            agg_encoded_map(
                receipt_contribs(
                    s0.col_view(DBCol::ColOutgoingReceipts),
                    s0.col_view(DBCol::ColOutgoingReceipts).len() as int,
                    ns,
                ),
            ),
        ),
        forall|c: DBCol| #[trigger] s1.col_map(c) == apply_ops_col(s0.col_map(c), ops1, c),
        forall|c: DBCol|
            ops_avoid(ops1, c) ==> #[trigger] s1.entries_seq(c) == s0.entries_seq(c),
    ensures
        num_shards_spec(s1.col_view(DBCol::ColBlock)) == Some(ns),
        s1.col_map(DBCol::ColReceiptIdToShardId) == agg_encoded_map(
            receipt_contribs(
                s1.col_view(DBCol::ColOutgoingReceipts),
                s1.col_view(DBCol::ColOutgoingReceipts).len() as int,
                ns,
            ),
        ),
{
    assert(ops_avoid(ops1, DBCol::ColBlock) && ops_avoid(ops1, DBCol::ColOutgoingReceipts)) by {
        assert(forall|x: int|
            0 <= x < ops1.len() ==> op_col(#[trigger] ops1[x]) == DBCol::ColReceiptIdToShardId);
    }
    assert(s1.entries_seq(DBCol::ColBlock) == s0.entries_seq(DBCol::ColBlock));
    assert(s1.entries_seq(DBCol::ColOutgoingReceipts) == s0.entries_seq(
        DBCol::ColOutgoingReceipts,
    ));
    assert(ops1.skip(0) =~= ops1);
}

/// Idempotence of the transaction-refcount deprecation: after its batch is
/// committed the transactions column matches the (untouched) chunks column
/// and the deprecated column is empty, so a re-run on the committed store
/// appends an empty batch by the step's own contract.
pub proof fn lemma_migrate_col_transaction_refcount_idempotent(
    s0: Store,
    ops1: Seq<UpdateOp>,
    s1: Store,
)
    requires
        forall|x: int|
            0 <= x < ops1.len() ==> op_col(#[trigger] ops1[x]) == DBCol::ColTransactions || op_col(
                ops1[x],
            ) == DBCol::ColTransactionRefCount,
        apply_ops_col(s0.col_map(DBCol::ColTransactions), ops1, DBCol::ColTransactions)
            == agg_encoded_map(
            chunk_contribs(
                s0.col_view(DBCol::ColChunks),
                s0.col_view(DBCol::ColChunks).len() as int,
            ),
        ),
        apply_ops_col(
            s0.col_map(DBCol::ColTransactionRefCount),
            ops1,
            DBCol::ColTransactionRefCount,
        ) == Map::<Seq<u8>, Seq<u8>>::empty(),
        forall|c: DBCol| #[trigger] s1.col_map(c) == apply_ops_col(s0.col_map(c), ops1, c),
        forall|c: DBCol|
            ops_avoid(ops1, c) ==> #[trigger] s1.entries_seq(c) == s0.entries_seq(c),
    ensures
        s1.col_map(DBCol::ColTransactions) == agg_encoded_map(
            chunk_contribs(
                s1.col_view(DBCol::ColChunks),
                s1.col_view(DBCol::ColChunks).len() as int,
            ),
        ),
        s1.col_map(DBCol::ColTransactionRefCount) == Map::<Seq<u8>, Seq<u8>>::empty(),
{
    assert(ops_avoid(ops1, DBCol::ColChunks));
    assert(s1.entries_seq(DBCol::ColChunks) == s0.entries_seq(DBCol::ColChunks));
}

} // verus!
