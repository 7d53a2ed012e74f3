//! In-memory model of the column store and of a pending batch of mutations.
//!
//! The store holds named columns, each a key/value space over opaque byte
//! sequences. A `StoreUpdate` is a pending batch: mutations are enqueued with
//! `set` and `delete` and have no visible effect until the batch is handed to
//! `commit`, which applies all of them as one unit.

use vstd::prelude::*;

verus! {

/// The columns this core touches. `ColState`, `ColBlock`, `ColChunks` and
/// `ColOutgoingReceipts` are authoritative; `ColTransactions` and
/// `ColReceiptIdToShardId` are derived; `ColTransactionRefCount` is
/// deprecated, its data absorbed by `ColTransactions`.
#[derive(Clone, Copy, Debug, PartialEq, Eq, Structural)]
pub enum DBCol {
    ColState,
    ColBlock,
    ColChunks,
    ColTransactions,
    ColTransactionRefCount,
    ColOutgoingReceipts,
    ColReceiptIdToShardId,
}

/// The byte-level view of a column's entries, in iteration order.
pub open spec fn entries_view(s: Seq<(Vec<u8>, Vec<u8>)>) -> Seq<(Seq<u8>, Seq<u8>)> {
    s.map_values(|e: (Vec<u8>, Vec<u8>)| (e.0@, e.1@))
}

/// The key/value mapping described by a sequence of entries; a later entry
/// for a key supersedes an earlier one.
pub open spec fn entries_map(s: Seq<(Seq<u8>, Seq<u8>)>) -> Map<Seq<u8>, Seq<u8>>
    decreases s.len(),
{
    if s.len() == 0 {
        Map::empty()
    } else {
        entries_map(s.drop_last()).insert(s.last().0, s.last().1)
    }
}

/// No two entries share a key.
pub open spec fn distinct_keys(s: Seq<(Seq<u8>, Seq<u8>)>) -> bool {
    forall|i: int, j: int| 0 <= i < j < s.len() ==> s[i].0 != s[j].0
}

/// A key is in the mapping exactly when some entry carries it.
pub proof fn lemma_entries_map_contains(s: Seq<(Seq<u8>, Seq<u8>)>, k: Seq<u8>)
    ensures
        entries_map(s).contains_key(k) <==> exists|i: int| 0 <= i < s.len() && s[i].0 == k,
    decreases s.len(),
{
    if s.len() > 0 {
        lemma_entries_map_contains(s.drop_last(), k);
        assert(forall|i: int| 0 <= i < s.len() - 1 ==> s.drop_last()[i] == s[i]);
        if entries_map(s).contains_key(k) {
            if s.last().0 == k {
                assert(s[s.len() - 1].0 == k);
            }
        }
        if exists|i: int| 0 <= i < s.len() && s[i].0 == k {
            let i = choose|i: int| 0 <= i < s.len() && s[i].0 == k;
            if i < s.len() - 1 {
                assert(s.drop_last()[i].0 == k);
            }
        }
    }
}

/// With distinct keys, each entry's value is the mapping's value at its key.
pub proof fn lemma_entries_map_get(s: Seq<(Seq<u8>, Seq<u8>)>, i: int)
    requires
        distinct_keys(s),
        0 <= i < s.len(),
    ensures
        entries_map(s).contains_key(s[i].0),
        entries_map(s)[s[i].0] == s[i].1,
    decreases s.len(),
{
    if i == s.len() - 1 {
        assert(s.last() == s[i]);
    } else {
        assert(forall|x: int| 0 <= x < s.len() - 1 ==> s.drop_last()[x] == s[x]);
        lemma_entries_map_get(s.drop_last(), i);
        assert(s.last().0 != s[i].0);
    }
}

/// With distinct keys, removing an entry removes exactly its key from the
/// mapping.
pub proof fn lemma_entries_map_remove(s: Seq<(Seq<u8>, Seq<u8>)>, i: int)
    requires
        distinct_keys(s),
        0 <= i < s.len(),
    ensures
        entries_map(s.remove(i)) == entries_map(s).remove(s[i].0),
    decreases s.len(),
{
    if i == s.len() - 1 {
        assert(s.remove(i) =~= s.drop_last());
        lemma_entries_map_contains(s.drop_last(), s[i].0);
        assert(forall|x: int| 0 <= x < s.len() - 1 ==> s.drop_last()[x] == s[x]);
        assert(!entries_map(s.drop_last()).contains_key(s[i].0));
        assert(entries_map(s.drop_last()).insert(s.last().0, s.last().1).remove(s[i].0)
            =~= entries_map(s.drop_last()));
    } else {
        assert(forall|x: int| 0 <= x < s.len() - 1 ==> s.drop_last()[x] == s[x]);
        lemma_entries_map_remove(s.drop_last(), i);
        assert(s.remove(i) =~= s.drop_last().remove(i).push(s.last()));
        assert(entries_map(s.remove(i)) == entries_map(s.drop_last().remove(i)).insert(
            s.last().0,
            s.last().1,
        )) by {
            assert(s.remove(i).drop_last() =~= s.drop_last().remove(i));
            assert(s.remove(i).last() == s.last());
        }
        assert(s.last().0 != s[i].0);
        assert(entries_map(s.drop_last()).remove(s[i].0).insert(s.last().0, s.last().1)
            =~= entries_map(s.drop_last()).insert(s.last().0, s.last().1).remove(s[i].0));
    }
}

/// Removing an entry keeps the remaining keys distinct.
pub proof fn lemma_distinct_remove(s: Seq<(Seq<u8>, Seq<u8>)>, i: int)
    requires
        distinct_keys(s),
        0 <= i < s.len(),
    ensures
        distinct_keys(s.remove(i)),
{
    assert forall|x: int, y: int| 0 <= x < y < s.remove(i).len() implies s.remove(i)[x].0
        != s.remove(i)[y].0 by {
        assert(s.remove(i)[x] == if x < i {
            s[x]
        } else {
            s[x + 1]
        });
        assert(s.remove(i)[y] == if y < i {
            s[y]
        } else {
            s[y + 1]
        });
    }
}

/// Byte-for-byte equality of two byte vectors.
pub fn bytes_eq(a: &Vec<u8>, b: &Vec<u8>) -> (r: bool)
    ensures
        r <==> a@ == b@,
{
    if a.len() != b.len() {
        return false;
    }
    let mut i: usize = 0;
    while i < a.len()
        invariant
            i <= a.len(),
            a.len() == b.len(),
            forall|x: int| 0 <= x < i ==> a@[x] == b@[x],
        decreases a.len() - i,
    {
        if a[i] != b[i] {
            return false;
        }
        i += 1;
    }
    assert(a@ =~= b@);
    true
}

/// A fresh copy of a byte vector.
pub fn clone_bytes(a: &Vec<u8>) -> (r: Vec<u8>)
    ensures
        r@ == a@,
{
    let mut r: Vec<u8> = Vec::new();
    let mut i: usize = 0;
    while i < a.len()
        invariant
            i <= a.len(),
            r@ == a@.take(i as int),
        decreases a.len() - i,
    {
        r.push(a[i]);
        assert(r@ =~= a@.take(i + 1));
        i += 1;
    }
    assert(r@ =~= a@);
    r
}

/// The index of the entry carrying `key`, if any.
pub fn find_key(entries: &Vec<(Vec<u8>, Vec<u8>)>, key: &Vec<u8>) -> (r: Option<usize>)
    ensures
        match r {
            Some(j) => j < entries@.len() && entries@[j as int].0@ == key@,
            None => forall|i: int| 0 <= i < entries@.len() ==> entries@[i].0@ != key@,
        },
{
    let mut i: usize = 0;
    while i < entries.len()
        invariant
            i <= entries.len(),
            forall|x: int| 0 <= x < i ==> entries@[x].0@ != key@,
        decreases entries.len() - i,
    {
        if bytes_eq(&entries[i].0, key) {
            return Some(i);
        }
        i += 1;
    }
    None
}

/// Writes `value` under `key` into an entry list, replacing the entry that
/// carries the key if one does.
fn vec_set_entry(v: &mut Vec<(Vec<u8>, Vec<u8>)>, key: Vec<u8>, value: Vec<u8>)
    requires
        distinct_keys(entries_view(old(v)@)),
    ensures
        distinct_keys(entries_view(final(v)@)),
        entries_map(entries_view(final(v)@)) == entries_map(entries_view(old(v)@)).insert(
            key@,
            value@,
        ),
{
    let ghost s0 = entries_view(v@);
    let ghost k = key@;
    match find_key(v, &key) {
        Some(j) => {
            v.remove(j);
            proof {
                assert(entries_view(v@) =~= s0.remove(j as int));
                lemma_entries_map_remove(s0, j as int);
                lemma_distinct_remove(s0, j as int);
            }
            let ghost s1 = entries_view(v@);
            v.push((key, value));
            proof {
                assert(entries_view(v@) =~= s1.push((k, value@)));
                assert(entries_map(entries_view(v@)) == entries_map(s1).insert(k, value@)) by {
                    assert(s1.push((k, value@)).drop_last() =~= s1);
                }
                assert(entries_map(s0).remove(k).insert(k, value@) =~= entries_map(s0).insert(
                    k,
                    value@,
                ));
                assert forall|x: int, y: int|
                    0 <= x < y < s1.push((k, value@)).len() implies s1.push((k, value@))[x].0 != s1.push(
                    (k, value@),
                )[y].0 by {
                    if y == s1.len() {
                        assert(s1[x] == if x < j {
                            s0[x]
                        } else {
                            s0[x + 1]
                        });
                    }
                }
            }
        },
        None => {
            v.push((key, value));
            proof {
                assert(entries_view(v@) =~= s0.push((k, value@)));
                assert(entries_map(entries_view(v@)) == entries_map(s0).insert(k, value@)) by {
                    assert(s0.push((k, value@)).drop_last() =~= s0);
                }
                assert forall|x: int, y: int|
                    0 <= x < y < s0.push((k, value@)).len() implies s0.push((k, value@))[x].0 != s0.push(
                    (k, value@),
                )[y].0 by {}
            }
        },
    }
}

/// Removes the entry carrying `key` from an entry list, if one does.
fn vec_delete_entry(v: &mut Vec<(Vec<u8>, Vec<u8>)>, key: &Vec<u8>)
    requires
        distinct_keys(entries_view(old(v)@)),
    ensures
        distinct_keys(entries_view(final(v)@)),
        entries_map(entries_view(final(v)@)) == entries_map(entries_view(old(v)@)).remove(key@),
{
    let ghost s0 = entries_view(v@);
    match find_key(v, key) {
        Some(j) => {
            v.remove(j);
            proof {
                assert(entries_view(v@) =~= s0.remove(j as int));
                lemma_entries_map_remove(s0, j as int);
                lemma_distinct_remove(s0, j as int);
            }
        },
        None => {
            proof {
                lemma_entries_map_contains(s0, key@);
                assert(entries_map(s0).remove(key@) =~= entries_map(s0));
            }
        },
    }
}

/// A pending mutation: enqueue a write of a key, or a removal of a key, in
/// one column.
pub enum UpdateOp {
    Put(DBCol, Vec<u8>, Vec<u8>),
    Delete(DBCol, Vec<u8>),
}

/// The column an operation touches.
pub open spec fn op_col(op: UpdateOp) -> DBCol {
    match op {
        UpdateOp::Put(c, _, _) => c,
        UpdateOp::Delete(c, _) => c,
    }
}

/// The effect of one operation on one column's mapping.
pub open spec fn apply_op_col(m: Map<Seq<u8>, Seq<u8>>, op: UpdateOp, c: DBCol) -> Map<
    Seq<u8>,
    Seq<u8>,
> {
    match op {
        UpdateOp::Put(oc, k, v) => if oc == c {
            m.insert(k@, v@)
        } else {
            m
        },
        UpdateOp::Delete(oc, k) => if oc == c {
            m.remove(k@)
        } else {
            m
        },
    }
}

/// The effect of a batch, applied in order, on one column's mapping.
pub open spec fn apply_ops_col(m: Map<Seq<u8>, Seq<u8>>, ops: Seq<UpdateOp>, c: DBCol) -> Map<
    Seq<u8>,
    Seq<u8>,
> decreases ops.len() {
    if ops.len() == 0 {
        m
    } else {
        apply_op_col(apply_ops_col(m, ops.drop_last(), c), ops.last(), c)
    }
}

/// Appending one operation to a batch composes its effect after the batch's.
pub proof fn lemma_apply_ops_push(m: Map<Seq<u8>, Seq<u8>>, ops: Seq<UpdateOp>, op: UpdateOp, c: DBCol)
    ensures
        apply_ops_col(m, ops.push(op), c) == apply_op_col(apply_ops_col(m, ops, c), op, c),
{
    assert(ops.push(op).drop_last() =~= ops);
    assert(ops.push(op).last() == op);
}

/// A batch that never touches a column leaves that column's mapping alone.
pub proof fn lemma_apply_ops_other(m: Map<Seq<u8>, Seq<u8>>, ops: Seq<UpdateOp>, c: DBCol)
    requires
        forall|i: int| 0 <= i < ops.len() ==> op_col(ops[i]) != c,
    ensures
        apply_ops_col(m, ops, c) == m,
    decreases ops.len(),
{
    if ops.len() > 0 {
        lemma_apply_ops_other(m, ops.drop_last(), c);
        assert(op_col(ops.last()) != c);
    }
}

/// Applying a concatenation applies the two batches in turn.
pub proof fn lemma_apply_ops_concat(
    m: Map<Seq<u8>, Seq<u8>>,
    ops1: Seq<UpdateOp>,
    ops2: Seq<UpdateOp>,
    c: DBCol,
)
    ensures
        apply_ops_col(m, ops1 + ops2, c) == apply_ops_col(apply_ops_col(m, ops1, c), ops2, c),
    decreases ops2.len(),
{
    if ops2.len() == 0 {
        assert(ops1 + ops2 =~= ops1);
    } else {
        lemma_apply_ops_concat(m, ops1, ops2.drop_last(), c);
        assert((ops1 + ops2).drop_last() =~= ops1 + ops2.drop_last());
        assert((ops1 + ops2).last() == ops2.last());
    }
}

/// The batch never touches column `c`.
pub open spec fn ops_avoid(ops: Seq<UpdateOp>, c: DBCol) -> bool {
    forall|x: int| 0 <= x < ops.len() ==> op_col(#[trigger] ops[x]) != c
}

/// A pending batch of mutations, applied atomically by `commit`.
pub struct StoreUpdate {
    pub ops: Vec<UpdateOp>,
}

impl StoreUpdate {
    /// A fresh, empty batch.
    pub fn new() -> (r: StoreUpdate)
        ensures
            r.ops@.len() == 0,
    {
        StoreUpdate { ops: Vec::new() }
    }

    /// Enqueues a write of `value` under `key` in column `c`.
    pub fn set(&mut self, c: DBCol, key: Vec<u8>, value: Vec<u8>)
        ensures
            final(self).ops@ == old(self).ops@.push(UpdateOp::Put(c, key, value)),
    {
        self.ops.push(UpdateOp::Put(c, key, value));
    }

    /// Enqueues a removal of `key` from column `c`.
    pub fn delete(&mut self, c: DBCol, key: Vec<u8>)
        ensures
            final(self).ops@ == old(self).ops@.push(UpdateOp::Delete(c, key)),
    {
        self.ops.push(UpdateOp::Delete(c, key));
    }
}

/// The column store: one key/value space per column, keys distinct within
/// each column. Values are the raw stored bytes; for a refcounted column they
/// carry the trailing counter.
pub struct Store {
    pub col_state: Vec<(Vec<u8>, Vec<u8>)>,
    pub col_block: Vec<(Vec<u8>, Vec<u8>)>,
    pub col_chunks: Vec<(Vec<u8>, Vec<u8>)>,
    pub col_transactions: Vec<(Vec<u8>, Vec<u8>)>,
    pub col_transaction_refcount: Vec<(Vec<u8>, Vec<u8>)>,
    pub col_outgoing_receipts: Vec<(Vec<u8>, Vec<u8>)>,
    pub col_receipt_id_to_shard_id: Vec<(Vec<u8>, Vec<u8>)>,
}

impl Store {
    /// The entries of a column, in iteration order.
    pub open spec fn entries_seq(self, c: DBCol) -> Seq<(Vec<u8>, Vec<u8>)> {
        match c {
            DBCol::ColState => self.col_state@,
            DBCol::ColBlock => self.col_block@,
            DBCol::ColChunks => self.col_chunks@,
            DBCol::ColTransactions => self.col_transactions@,
            DBCol::ColTransactionRefCount => self.col_transaction_refcount@,
            DBCol::ColOutgoingReceipts => self.col_outgoing_receipts@,
            DBCol::ColReceiptIdToShardId => self.col_receipt_id_to_shard_id@,
        }
    }

    /// The byte-level view of a column's entries.
    pub open spec fn col_view(self, c: DBCol) -> Seq<(Seq<u8>, Seq<u8>)> {
        entries_view(self.entries_seq(c))
    }

    /// The key/value mapping a column currently holds.
    pub open spec fn col_map(self, c: DBCol) -> Map<Seq<u8>, Seq<u8>> {
        entries_map(self.col_view(c))
    }

    /// Every column's keys are distinct.
    pub open spec fn wf(self) -> bool {
        forall|c: DBCol| distinct_keys(#[trigger] self.col_view(c))
    }

    /// An empty store.
    pub fn new() -> (s: Store)
        ensures
            s.wf(),
            forall|c: DBCol| (#[trigger] s.entries_seq(c)).len() == 0,
    {
        let s = Store {
            col_state: Vec::new(),
            col_block: Vec::new(),
            col_chunks: Vec::new(),
            col_transactions: Vec::new(),
            col_transaction_refcount: Vec::new(),
            col_outgoing_receipts: Vec::new(),
            col_receipt_id_to_shard_id: Vec::new(),
        };
        proof {
            assert forall|c: DBCol| (#[trigger] s.entries_seq(c)).len() == 0 by {
                match c {
                    DBCol::ColState => {},
                    DBCol::ColBlock => {},
                    DBCol::ColChunks => {},
                    DBCol::ColTransactions => {},
                    DBCol::ColTransactionRefCount => {},
                    DBCol::ColOutgoingReceipts => {},
                    DBCol::ColReceiptIdToShardId => {},
                }
            }
        }
        s
    }

    /// Iterates a column: the sequence of `(key, raw value)` entries. On a
    /// refcounted column the values keep their trailing counter; the callers
    /// in this core use this accessor only where the raw bytes are wanted.
    pub fn iter(&self, c: DBCol) -> (r: &Vec<(Vec<u8>, Vec<u8>)>)
        ensures
            r@ == self.entries_seq(c),
    {
        match c {
            DBCol::ColState => &self.col_state,
            DBCol::ColBlock => &self.col_block,
            DBCol::ColChunks => &self.col_chunks,
            DBCol::ColTransactions => &self.col_transactions,
            DBCol::ColTransactionRefCount => &self.col_transaction_refcount,
            DBCol::ColOutgoingReceipts => &self.col_outgoing_receipts,
            DBCol::ColReceiptIdToShardId => &self.col_receipt_id_to_shard_id,
        }
    }

    /// Iterates a column without interpreting any trailing refcount: the raw
    /// stored bytes, as `iter`.
    pub fn iter_without_rc_logic(&self, c: DBCol) -> (r: &Vec<(Vec<u8>, Vec<u8>)>)
        ensures
            r@ == self.entries_seq(c),
    {
        self.iter(c)
    }

    /// Writes `value` under `key` in column `c`, immediately.
    pub fn set_raw(&mut self, c: DBCol, key: Vec<u8>, value: Vec<u8>)
        requires
            old(self).wf(),
        ensures
            final(self).wf(),
            final(self).col_map(c) == old(self).col_map(c).insert(key@, value@),
            forall|c2: DBCol| c2 != c ==> #[trigger] final(self).entries_seq(c2) == old(
                self,
            ).entries_seq(c2),
    {
        proof {
            assert(distinct_keys(old(self).col_view(c)));
        }
        match c {
            DBCol::ColState => vec_set_entry(&mut self.col_state, key, value),
            DBCol::ColBlock => vec_set_entry(&mut self.col_block, key, value),
            DBCol::ColChunks => vec_set_entry(&mut self.col_chunks, key, value),
            DBCol::ColTransactions => vec_set_entry(&mut self.col_transactions, key, value),
            DBCol::ColTransactionRefCount => vec_set_entry(
                &mut self.col_transaction_refcount,
                key,
                value,
            ),
            DBCol::ColOutgoingReceipts => vec_set_entry(
                &mut self.col_outgoing_receipts,
                key,
                value,
            ),
            DBCol::ColReceiptIdToShardId => vec_set_entry(
                &mut self.col_receipt_id_to_shard_id,
                key,
                value,
            ),
        }
        proof {
            assert forall|c2: DBCol| distinct_keys(#[trigger] self.col_view(c2)) by {
                assert(distinct_keys(old(self).col_view(c2)));
                if c2 != c {
                    assert(self.entries_seq(c2) == old(self).entries_seq(c2));
                }
            }
        }
    }

    /// Removes `key` from column `c`, immediately.
    pub fn delete_raw(&mut self, c: DBCol, key: &Vec<u8>)
        requires
            old(self).wf(),
        ensures
            final(self).wf(),
            final(self).col_map(c) == old(self).col_map(c).remove(key@),
            forall|c2: DBCol| c2 != c ==> #[trigger] final(self).entries_seq(c2) == old(
                self,
            ).entries_seq(c2),
    {
        proof {
            assert(distinct_keys(old(self).col_view(c)));
        }
        match c {
            DBCol::ColState => vec_delete_entry(&mut self.col_state, key),
            DBCol::ColBlock => vec_delete_entry(&mut self.col_block, key),
            DBCol::ColChunks => vec_delete_entry(&mut self.col_chunks, key),
            DBCol::ColTransactions => vec_delete_entry(&mut self.col_transactions, key),
            DBCol::ColTransactionRefCount => vec_delete_entry(
                &mut self.col_transaction_refcount,
                key,
            ),
            DBCol::ColOutgoingReceipts => vec_delete_entry(&mut self.col_outgoing_receipts, key),
            DBCol::ColReceiptIdToShardId => vec_delete_entry(
                &mut self.col_receipt_id_to_shard_id,
                key,
            ),
        }
        proof {
            assert forall|c2: DBCol| distinct_keys(#[trigger] self.col_view(c2)) by {
                assert(distinct_keys(old(self).col_view(c2)));
                if c2 != c {
                    assert(self.entries_seq(c2) == old(self).entries_seq(c2));
                }
            }
        }
    }
}

/// Applies a pending batch to the store, all mutations as one unit, in order.
pub fn commit(store: &mut Store, update: &StoreUpdate)
    requires
        old(store).wf(),
    ensures
        final(store).wf(),
        forall|c: DBCol| #[trigger] final(store).col_map(c) == apply_ops_col(
            old(store).col_map(c),
            update.ops@,
            c,
        ),
        forall|c: DBCol| ops_avoid(update.ops@, c) ==> #[trigger] final(store).entries_seq(c)
            == old(store).entries_seq(c),
{
    let ghost s0 = *store;
    let mut i: usize = 0;
    while i < update.ops.len()
        invariant
            i <= update.ops@.len(),
            store.wf(),
            forall|c: DBCol| #[trigger] store.col_map(c) == apply_ops_col(
                s0.col_map(c),
                update.ops@.take(i as int),
                c,
            ),
            forall|c: DBCol| ops_avoid(update.ops@, c) ==> #[trigger] store.entries_seq(c)
                == s0.entries_seq(c),
        decreases update.ops@.len() - i,
    {
        let ghost prev = *store;
        let ghost op = update.ops@[i as int];
        match &update.ops[i] {
            UpdateOp::Put(c, k, v) => {
                let cc = *c;
                let kk = clone_bytes(k);
                let vv = clone_bytes(v);
                proof {
                    assert(op == UpdateOp::Put(cc, *k, *v));
                    assert(forall|m: Map<Seq<u8>, Seq<u8>>, c2: DBCol|
                        #[trigger] apply_op_col(m, op, c2) == if c2 == cc {
                            m.insert(kk@, vv@)
                        } else {
                            m
                        });
                }
                store.set_raw(cc, kk, vv);
            },
            UpdateOp::Delete(c, k) => {
                let cc = *c;
                proof {
                    assert(op == UpdateOp::Delete(cc, *k));
                }
                store.delete_raw(cc, k);
            },
        }
        proof {
            assert(update.ops@.take(i + 1) =~= update.ops@.take(i as int).push(op));
            assert forall|c: DBCol| #[trigger] store.col_map(c) == apply_ops_col(
                s0.col_map(c),
                update.ops@.take(i + 1),
                c,
            ) by {
                let m_i = apply_ops_col(s0.col_map(c), update.ops@.take(i as int), c);
                assert(prev.col_map(c) == m_i);
                lemma_apply_ops_push(s0.col_map(c), update.ops@.take(i as int), op, c);
                assert(apply_ops_col(s0.col_map(c), update.ops@.take(i + 1), c) == apply_op_col(
                    m_i,
                    op,
                    c,
                ));
                if c != op_col(op) {
                    assert(store.entries_seq(c) == prev.entries_seq(c));
                    assert(store.col_map(c) == prev.col_map(c));
                    assert(apply_op_col(m_i, op, c) == m_i);
                } else {
                    assert(store.col_map(c) == apply_op_col(prev.col_map(c), op, c));
                }
            }
            assert forall|c: DBCol| ops_avoid(update.ops@, c) implies #[trigger] store.entries_seq(
                c,
            ) == s0.entries_seq(c) by {
                assert(op_col(update.ops@[i as int]) != c);
                assert(store.entries_seq(c) == prev.entries_seq(c));
            }
        }
        i += 1;
    }
    proof {
        assert(update.ops@.take(update.ops@.len() as int) =~= update.ops@);
    }
}

} // verus!
