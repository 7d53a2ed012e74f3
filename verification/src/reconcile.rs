//! Reconciliation of a derived column against its authoritative source.
//!
//! An `AggregationMap` is built by feeding it every `(aggregation key,
//! payload)` contribution projected from the authoritative records, exactly
//! once each: the first contribution for a key sets `(payload, count = 1)`,
//! every later one increments the count and keeps the first-seen payload.
//! `replace_col` then diffs the freshly computed encodings against the
//! derived column's current contents and emits the minimal batch.

use crate::codec::{encode_value_with_rc, encode_wide_spec, le8};
use crate::store::{
    DBCol, Store, StoreUpdate, UpdateOp, apply_ops_col, bytes_eq, clone_bytes, distinct_keys,
    entries_map, entries_view, find_key, lemma_apply_ops_push, lemma_entries_map_contains,
    lemma_entries_map_get, op_col,
};
use vstd::multiset::Multiset;
use vstd::prelude::*;

verus! {

/// How many contributions in `s` carry the key `k`.
pub open spec fn key_count(s: Seq<(Seq<u8>, Seq<u8>)>, k: Seq<u8>) -> int
    decreases s.len(),
{
    if s.len() == 0 {
        0
    } else {
        key_count(s.drop_last(), k) + if s.last().0 == k {
            1int
        } else {
            0int
        }
    }
}

/// The payload of the first contribution in `s` that carries the key `k`
/// (the empty sequence when there is none).
pub open spec fn key_payload(s: Seq<(Seq<u8>, Seq<u8>)>, k: Seq<u8>) -> Seq<u8>
    decreases s.len(),
{
    if s.len() == 0 {
        Seq::empty()
    } else if key_count(s.drop_last(), k) > 0 {
        key_payload(s.drop_last(), k)
    } else if s.last().0 == k {
        s.last().1
    } else {
        Seq::empty()
    }
}

/// Counts are between zero and the number of contributions.
pub proof fn lemma_key_count_bounds(s: Seq<(Seq<u8>, Seq<u8>)>, k: Seq<u8>)
    ensures
        0 <= key_count(s, k) <= s.len(),
    decreases s.len(),
{
    if s.len() > 0 {
        lemma_key_count_bounds(s.drop_last(), k);
    }
}

/// A key's count is positive exactly when some contribution carries it.
pub proof fn lemma_key_count_pos(s: Seq<(Seq<u8>, Seq<u8>)>, k: Seq<u8>)
    ensures
        key_count(s, k) > 0 <==> exists|i: int| 0 <= i < s.len() && s[i].0 == k,
    decreases s.len(),
{
    if s.len() > 0 {
        lemma_key_count_pos(s.drop_last(), k);
        assert(forall|i: int| 0 <= i < s.len() - 1 ==> s.drop_last()[i] == s[i]);
        if key_count(s, k) > 0 {
            if s.last().0 == k {
                assert(s[s.len() - 1].0 == k);
            } else {
                assert(key_count(s.drop_last(), k) > 0);
                let i = choose|i: int| 0 <= i < s.drop_last().len() && s.drop_last()[i].0 == k;
                assert(s[i].0 == k);
            }
        }
        if exists|i: int| 0 <= i < s.len() && s[i].0 == k {
            let i = choose|i: int| 0 <= i < s.len() && s[i].0 == k;
            lemma_key_count_bounds(s.drop_last(), k);
            if i < s.len() - 1 {
                assert(s.drop_last()[i].0 == k);
            } else {
                assert(s.last().0 == k);
            }
            assert(key_count(s, k) > 0);
        }
    }
}

/// A key with a positive count has a contribution carrying exactly its
/// first-seen payload.
pub proof fn lemma_key_payload_occurs(s: Seq<(Seq<u8>, Seq<u8>)>, k: Seq<u8>)
    requires
        key_count(s, k) > 0,
    ensures
        exists|i: int| 0 <= i < s.len() && s[i] == (k, key_payload(s, k)),
    decreases s.len(),
{
    lemma_key_count_bounds(s.drop_last(), k);
    assert(forall|i: int| 0 <= i < s.len() - 1 ==> s.drop_last()[i] == s[i]);
    if key_count(s.drop_last(), k) > 0 {
        lemma_key_payload_occurs(s.drop_last(), k);
        let i = choose|i: int|
            0 <= i < s.drop_last().len() && s.drop_last()[i] == (k, key_payload(s.drop_last(), k));
        assert(s[i] == (k, key_payload(s, k)));
    } else {
        assert(s.last().0 == k);
        assert(s[s.len() - 1] == (k, key_payload(s, k)));
    }
}

/// The aggregation map: entries `(key, payload, count)` with distinct keys,
/// each count the exact number of contributions carrying its key, each
/// payload the first-seen one. The contributions fed in so far are kept as a
/// ghost sequence.
pub struct AggregationMap {
    pub entries: Vec<(Vec<u8>, Vec<u8>, i64)>,
    pub total: u64,
    pub contribs: Ghost<Seq<(Seq<u8>, Seq<u8>)>>,
}

impl AggregationMap {
    /// Well-formed: counts and payloads agree with the ghost contributions.
    pub open spec fn wf(self) -> bool {
        &&& self.total as int == self.contribs@.len()
        &&& forall|i: int, j: int|
            0 <= i < j < self.entries@.len() ==> self.entries@[i].0@ != self.entries@[j].0@
        &&& forall|i: int|
            0 <= i < self.entries@.len() ==> (#[trigger] self.entries@[i]).2 == key_count(
                self.contribs@,
                self.entries@[i].0@,
            ) && self.entries@[i].1@ == key_payload(self.contribs@, self.entries@[i].0@)
                && self.entries@[i].2 >= 1
        &&& forall|k: Seq<u8>|
            #[trigger] key_count(self.contribs@, k) > 0 ==> exists|i: int|
                0 <= i < self.entries@.len() && self.entries@[i].0@ == k
    }

    /// A fresh, empty aggregation map.
    pub fn new() -> (r: AggregationMap)
        ensures
            r.wf(),
            r.contribs@ =~= Seq::<(Seq<u8>, Seq<u8>)>::empty(),
            r.entries@.len() == 0,
            r.total == 0,
    {
        let r = AggregationMap { entries: Vec::new(), total: 0, contribs: Ghost(Seq::empty()) };
        proof {
            assert forall|k: Seq<u8>| !(#[trigger] key_count(r.contribs@, k) > 0) by {
                assert(key_count(r.contribs@, k) == 0);
            }
        }
        r
    }

    /// Feeds one contribution: a first contribution for a key sets
    /// `(payload, 1)`, a later one increments the count and keeps the
    /// first-seen payload.
    pub fn insert(&mut self, key: Vec<u8>, payload: Vec<u8>)
        requires
            old(self).wf(),
            old(self).total < i64::MAX as u64,
        ensures
            final(self).wf(),
            final(self).contribs@ == old(self).contribs@.push((key@, payload@)),
            final(self).total == old(self).total + 1,
    {
        let ghost s_old = self.contribs@;
        let ghost s_new = s_old.push((key@, payload@));
        proof {
            assert(s_new.drop_last() =~= s_old);
            assert(forall|k: Seq<u8>| #[trigger] key_count(s_new, k) == key_count(s_old, k) + if k
                == key@ {
                1int
            } else {
                0int
            });
            assert(forall|k: Seq<u8>|
                key_count(s_old, k) > 0 ==> #[trigger] key_payload(s_new, k) == key_payload(
                    s_old,
                    k,
                ));
        }
        let mut i: usize = 0;
        let n = self.entries.len();
        let mut found: Option<usize> = None;
        while i < n && found.is_none()
            invariant
                i <= n,
                n == self.entries@.len(),
                match found {
                    Some(j) => j < i && self.entries@[j as int].0@ == key@,
                    None => forall|x: int| 0 <= x < i ==> self.entries@[x].0@ != key@,
                },
            decreases n - i,
        {
            if bytes_eq(&self.entries[i].0, &key) {
                found = Some(i);
            }
            i += 1;
        }
        match found {
            Some(j) => {
                proof {
                    lemma_key_count_bounds(s_old, key@);
                }
                let e = self.entries.remove(j);
                let c_new = e.2 + 1;
                self.entries.push((e.0, e.1, c_new));
                self.total = self.total + 1;
                proof {
                    self.contribs@ = s_new;
                    let ghost en = self.entries@;
                    let ghost eo = old(self).entries@;
                    assert(en =~= eo.remove(j as int).push((eo[j as int].0, eo[j as int].1, (eo[j
                        as int].2 + 1) as i64)));
                    assert forall|x: int| 0 <= x < en.len() implies (#[trigger] en[x]).2
                        == key_count(s_new, en[x].0@) && en[x].1@ == key_payload(s_new, en[x].0@)
                        && en[x].2 >= 1 by {
                        if x < en.len() - 1 {
                            let y: int = if x < j { x } else { x + 1 };
                            assert(en[x] == eo[y]);
                            assert(eo[y].0@ != key@);
                        } else {
                            assert(en[x].0@ == key@);
                            assert(key_count(s_old, key@) > 0);
                        }
                    }
                    assert forall|x: int, y: int| 0 <= x < y < en.len() implies en[x].0@
                        != en[y].0@ by {
                        let xo: int = if x < j { x } else { x + 1 };
                        if y < en.len() - 1 {
                            let yo: int = if y < j { y } else { y + 1 };
                            assert(en[x] == eo[xo] && en[y] == eo[yo]);
                        } else {
                            assert(en[x] == eo[xo] && en[y].0@ == eo[j as int].0@);
                        }
                    }
                    assert forall|k: Seq<u8>| #[trigger] key_count(s_new, k) > 0 implies exists|
                        x: int,
                    | 0 <= x < en.len() && en[x].0@ == k by {
                        if k == key@ {
                            assert(en[en.len() - 1].0@ == k);
                        } else {
                            assert(key_count(s_old, k) > 0);
                            let x = choose|x: int| 0 <= x < eo.len() && eo[x].0@ == k;
                            let xn: int = if x < j {
                                x
                            } else if x == j {
                                eo.len() - 1
                            } else {
                                x - 1
                            };
                            assert(en[xn].0@ == k);
                        }
                    }
                }
            },
            None => {
                self.entries.push((key, payload, 1));
                self.total = self.total + 1;
                proof {
                    self.contribs@ = s_new;
                    let ghost en = self.entries@;
                    let ghost eo = old(self).entries@;
                    assert(en =~= eo.push((en.last().0, en.last().1, 1i64)));
                    assert(forall|x: int| 0 <= x < eo.len() ==> (#[trigger] eo[x]).0@ != key@);
                    assert(key_count(s_old, key@) == 0) by {
                        if key_count(s_old, key@) > 0 {
                            let x = choose|x: int| 0 <= x < eo.len() && eo[x].0@ == key@;
                        }
                        lemma_key_count_bounds(s_old, key@);
                    }
                    assert(key_count(s_new, key@) == 1);
                    assert(key_payload(s_new, key@) == payload@);
                    assert forall|x: int| 0 <= x < en.len() implies (#[trigger] en[x]).2
                        == key_count(s_new, en[x].0@) && en[x].1@ == key_payload(s_new, en[x].0@)
                        && en[x].2 >= 1 by {
                        if x < en.len() - 1 {
                            assert(en[x] == eo[x]);
                            assert(eo[x].0@ != key@);
                        }
                    }
                    assert forall|k: Seq<u8>| #[trigger] key_count(s_new, k) > 0 implies exists|
                        x: int,
                    | 0 <= x < en.len() && en[x].0@ == k by {
                        if k == key@ {
                            assert(en[en.len() - 1].0@ == k);
                        } else {
                            assert(key_count(s_old, k) > 0);
                            let x = choose|x: int| 0 <= x < eo.len() && eo[x].0@ == k;
                            assert(en[x].0@ == k);
                        }
                    }
                }
            },
        }
    }
}

/// The derived column's desired contents for a contribution sequence: every
/// key with a positive count maps to its first-seen payload followed by the
/// wide encoding of its exact count; no other key is present.
pub open spec fn agg_encoded_map(s: Seq<(Seq<u8>, Seq<u8>)>) -> Map<Seq<u8>, Seq<u8>> {
    Map::new(
        |k: Seq<u8>| key_count(s, k) > 0,
        |k: Seq<u8>| key_payload(s, k) + le8(key_count(s, k) as u64),
    )
}

/// Applies the wide refcount encoding to every aggregated entry.
pub fn encode_with_rc(values: &AggregationMap) -> (r: Vec<(Vec<u8>, Vec<u8>)>)
    requires
        values.wf(),
    ensures
        distinct_keys(entries_view(r@)),
        entries_map(entries_view(r@)) == agg_encoded_map(values.contribs@),
{
    let mut r: Vec<(Vec<u8>, Vec<u8>)> = Vec::new();
    let n = values.entries.len();
    let mut i: usize = 0;
    while i < n
        invariant
            i <= n,
            n == values.entries@.len(),
            values.wf(),
            r@.len() == i,
            forall|x: int|
                0 <= x < i ==> (#[trigger] r@[x]).0@ == values.entries@[x].0@ && r@[x].1@
                    == encode_wide_spec(values.entries@[x].1@, values.entries@[x].2),
        decreases n - i,
    {
        let e = &values.entries[i];
        let k = clone_bytes(&e.0);
        let v = encode_value_with_rc(&e.1, e.2);
        r.push((k, v));
        i += 1;
    }
    proof {
        let rv = entries_view(r@);
        let s = values.contribs@;
        assert forall|x: int, y: int| 0 <= x < y < rv.len() implies rv[x].0 != rv[y].0 by {
            assert(rv[x].0 == values.entries@[x].0@ && rv[y].0 == values.entries@[y].0@);
        }
        assert forall|k: Seq<u8>|
            #![trigger agg_encoded_map(s).contains_key(k)]
            #![trigger entries_map(rv).contains_key(k)]
        {
            &&& (entries_map(rv).contains_key(k) <==> agg_encoded_map(s).contains_key(k))
            &&& (entries_map(rv).contains_key(k) ==> entries_map(rv)[k] == agg_encoded_map(s)[k])
        } by {
            lemma_entries_map_contains(rv, k);
            lemma_key_count_pos(s, k);
            if exists|x: int| 0 <= x < rv.len() && rv[x].0 == k {
                let x = choose|x: int| 0 <= x < rv.len() && rv[x].0 == k;
                lemma_entries_map_get(rv, x);
                assert(values.entries@[x].0@ == k);
                assert(values.entries@[x].2 == key_count(s, k));
                assert(rv[x].1 == encode_wide_spec(key_payload(s, k), values.entries@[x].2));
                lemma_key_count_bounds(s, k);
                assert(values.entries@[x].2 as u64 == key_count(s, k) as u64);
            } else {
                assert(!agg_encoded_map(s).contains_key(k)) by {
                    if key_count(s, k) > 0 {
                        let x = choose|x: int|
                            0 <= x < values.entries@.len() && values.entries@[x].0@ == k;
                        assert(rv[x].0 == k);
                    }
                }
            }
        }
        assert(entries_map(rv) =~= agg_encoded_map(s));
    }
    r
}


/// What the derived column must hold at key `k` after the first `i` existing
/// entries (of `sview`) and the first `j` fresh entries (of `vview`) have
/// been reconciled against the desired contents `target`: handled existing
/// keys follow `target`, handled fresh keys are written, anything else still
/// holds its current value from `s_map`.
pub open spec fn reconcile_expected(
    s_map: Map<Seq<u8>, Seq<u8>>,
    target: Map<Seq<u8>, Seq<u8>>,
    sview: Seq<(Seq<u8>, Seq<u8>)>,
    i: int,
    vview: Seq<(Seq<u8>, Seq<u8>)>,
    j: int,
    k: Seq<u8>,
) -> Option<Seq<u8>> {
    if exists|x: int| 0 <= x < i && sview[x].0 == k {
        if target.contains_key(k) {
            Some(target[k])
        } else {
            None
        }
    } else if exists|y: int| 0 <= y < j && vview[y].0 == k {
        Some(target[k])
    } else {
        if s_map.contains_key(k) {
            Some(s_map[k])
        } else {
            None
        }
    }
}

/// `m` agrees with `reconcile_expected` at every key.
pub open spec fn reconcile_matches(
    m: Map<Seq<u8>, Seq<u8>>,
    s_map: Map<Seq<u8>, Seq<u8>>,
    target: Map<Seq<u8>, Seq<u8>>,
    sview: Seq<(Seq<u8>, Seq<u8>)>,
    i: int,
    vview: Seq<(Seq<u8>, Seq<u8>)>,
    j: int,
) -> bool {
    forall|k: Seq<u8>|
        match #[trigger] reconcile_expected(s_map, target, sview, i, vview, j, k) {
            Some(v) => m.contains_key(k) && m[k] == v,
            None => !m.contains_key(k),
        }
}

/// Rebuilds the derived column `column` to hold exactly the entries of
/// `values`: scans the column's current contents, deletes keys absent from
/// `values`, rewrites keys whose stored bytes differ, leaves identical ones
/// alone, and writes every fresh key; the batch appended to `store_update`
/// is empty when the column already matches.
pub fn replace_col(
    store: &Store,
    store_update: &mut StoreUpdate,
    column: DBCol,
    values: &Vec<(Vec<u8>, Vec<u8>)>,
)
    requires
        store.wf(),
        distinct_keys(entries_view(values@)),
    ensures
        final(store_update).ops@.len() >= old(store_update).ops@.len(),
        final(store_update).ops@.take(old(store_update).ops@.len() as int) == old(
            store_update,
        ).ops@,
        forall|x: int|
            old(store_update).ops@.len() <= x < final(store_update).ops@.len() ==> op_col(
                #[trigger] final(store_update).ops@[x],
            ) == column,
        apply_ops_col(
            store.col_map(column),
            final(store_update).ops@.skip(old(store_update).ops@.len() as int),
            column,
        ) == entries_map(entries_view(values@)),
        store.col_map(column) == entries_map(entries_view(values@)) ==> final(store_update).ops@
            == old(store_update).ops@,
{
    let ghost base = store_update.ops@;
    let ghost s_map = store.col_map(column);
    let ghost target = entries_map(entries_view(values@));
    let ghost vview = entries_view(values@);
    let sentries = store.iter_without_rc_logic(column);
    let ghost sview = entries_view(sentries@);
    let ghost mut delta: Seq<UpdateOp> = Seq::empty();
    proof {
        assert(sview == store.col_view(column));
        assert(distinct_keys(sview));
        assert(base + delta =~= base);
        assert forall|k: Seq<u8>|
            match #[trigger] reconcile_expected(s_map, target, sview, 0, vview, 0, k) {
                Some(v) => apply_ops_col(s_map, delta, column).contains_key(k) && apply_ops_col(
                    s_map,
                    delta,
                    column,
                )[k] == v,
                None => !apply_ops_col(s_map, delta, column).contains_key(k),
            } by {
            assert(apply_ops_col(s_map, delta, column) == s_map);
        }
    }
    let n = sentries.len();
    let mut i: usize = 0;
    while i < n
        invariant
            i <= n,
            n == sentries@.len(),
            store.wf(),
            distinct_keys(entries_view(values@)),
            sview == store.col_view(column),
            sview == entries_view(sentries@),
            vview == entries_view(values@),
            s_map == store.col_map(column),
            target == entries_map(vview),
            store_update.ops@ == base + delta,
            forall|x: int| 0 <= x < delta.len() ==> op_col(#[trigger] delta[x]) == column,
            reconcile_matches(
                apply_ops_col(s_map, delta, column),
                s_map,
                target,
                sview,
                i as int,
                vview,
                0,
            ),
            s_map == target ==> delta.len() == 0,
        decreases n - i,
    {
        let key = &sentries[i].0;
        let sval = &sentries[i].1;
        proof {
            assert(sview[i as int] == (key@, sval@));
            lemma_entries_map_get(sview, i as int);
            assert(s_map.contains_key(key@) && s_map[key@] == sval@);
            assert(forall|x: int| 0 <= x < i ==> sview[x].0 != key@);
        }
        let ghost ap0 = apply_ops_col(s_map, delta, column);
        match find_key(values, key) {
            None => {
                proof {
                    lemma_entries_map_contains(vview, key@);
                    assert(forall|y: int| 0 <= y < vview.len() ==> vview[y].0 != key@);
                    assert(!target.contains_key(key@));
                    assert(s_map != target);
                }
                store_update.delete(column, clone_bytes(key));
                proof {
                    let op = store_update.ops@.last();
                    let d0 = delta;
                    delta = d0.push(op);
                    assert(store_update.ops@ =~= base + delta);
                    lemma_apply_ops_push(s_map, d0, op, column);
                    let ap1 = apply_ops_col(s_map, delta, column);
                    assert(ap1 == ap0.remove(key@));
                    assert forall|k: Seq<u8>|
                        match #[trigger] reconcile_expected(
                            s_map,
                            target,
                            sview,
                            i + 1,
                            vview,
                            0,
                            k,
                        ) {
                            Some(v) => ap1.contains_key(k) && ap1[k] == v,
                            None => !ap1.contains_key(k),
                        } by {
                        let e0 = reconcile_expected(s_map, target, sview, i as int, vview, 0, k);
                        if k == key@ {
                            assert(!ap1.contains_key(k));
                        } else {
                            assert((exists|x: int| 0 <= x < i + 1 && sview[x].0 == k) <==> (
                            exists|x: int| 0 <= x < i && sview[x].0 == k)) by {
                                if exists|x: int| 0 <= x < i + 1 && sview[x].0 == k {
                                    let x = choose|x: int| 0 <= x < i + 1 && sview[x].0 == k;
                                    assert(x < i);
                                }
                            }
                            assert(reconcile_expected(s_map, target, sview, i + 1, vview, 0, k)
                                == e0);
                        }
                    }
                }
            },
            Some(j) => {
                proof {
                    assert(vview[j as int] == (values@[j as int].0@, values@[j as int].1@));
                    lemma_entries_map_get(vview, j as int);
                    assert(target.contains_key(key@) && target[key@] == values@[j as int].1@);
                }
                if !bytes_eq(&values[j].1, sval) {
                    proof {
                        assert(s_map != target);
                    }
                    store_update.set(column, clone_bytes(key), clone_bytes(&values[j].1));
                    proof {
                        let op = store_update.ops@.last();
                        let d0 = delta;
                        delta = d0.push(op);
                        assert(store_update.ops@ =~= base + delta);
                        lemma_apply_ops_push(s_map, d0, op, column);
                        let ap1 = apply_ops_col(s_map, delta, column);
                        assert(ap1 == ap0.insert(key@, values@[j as int].1@));
                        assert forall|k: Seq<u8>|
                            match #[trigger] reconcile_expected(
                                s_map,
                                target,
                                sview,
                                i + 1,
                                vview,
                                0,
                                k,
                            ) {
                                Some(v) => ap1.contains_key(k) && ap1[k] == v,
                                None => !ap1.contains_key(k),
                            } by {
                            let e0 = reconcile_expected(
                                s_map,
                                target,
                                sview,
                                i as int,
                                vview,
                                0,
                                k,
                            );
                            if k == key@ {
                                assert(sview[i as int].0 == k);
                                assert(ap1[k] == target[k]);
                            } else {
                                assert((exists|x: int| 0 <= x < i + 1 && sview[x].0 == k) <==> (
                                exists|x: int| 0 <= x < i && sview[x].0 == k)) by {
                                    if exists|x: int| 0 <= x < i + 1 && sview[x].0 == k {
                                        let x = choose|x: int| 0 <= x < i + 1 && sview[x].0 == k;
                                        assert(x < i);
                                    }
                                }
                                assert(reconcile_expected(s_map, target, sview, i + 1, vview, 0, k)
                                    == e0);
                            }
                        }
                    }
                } else {
                    proof {
                        assert forall|k: Seq<u8>|
                            match #[trigger] reconcile_expected(
                                s_map,
                                target,
                                sview,
                                i + 1,
                                vview,
                                0,
                                k,
                            ) {
                                Some(v) => ap0.contains_key(k) && ap0[k] == v,
                                None => !ap0.contains_key(k),
                            } by {
                            let e0 = reconcile_expected(
                                s_map,
                                target,
                                sview,
                                i as int,
                                vview,
                                0,
                                k,
                            );
                            if k == key@ {
                                assert(sview[i as int].0 == k);
                                assert(e0 == Some(s_map[key@]));
                                assert(target[key@] == sval@);
                            } else {
                                assert((exists|x: int| 0 <= x < i + 1 && sview[x].0 == k) <==> (
                                exists|x: int| 0 <= x < i && sview[x].0 == k)) by {
                                    if exists|x: int| 0 <= x < i + 1 && sview[x].0 == k {
                                        let x = choose|x: int| 0 <= x < i + 1 && sview[x].0 == k;
                                        assert(x < i);
                                    }
                                }
                                assert(reconcile_expected(s_map, target, sview, i + 1, vview, 0, k)
                                    == e0);
                            }
                        }
                    }
                }
            },
        }
        i += 1;
    }
    let m = values.len();
    let mut jj: usize = 0;
    while jj < m
        invariant
            jj <= m,
            m == values@.len(),
            n == sentries@.len(),
            store.wf(),
            distinct_keys(entries_view(values@)),
            sview == store.col_view(column),
            sview == entries_view(sentries@),
            vview == entries_view(values@),
            s_map == store.col_map(column),
            target == entries_map(vview),
            store_update.ops@ == base + delta,
            forall|x: int| 0 <= x < delta.len() ==> op_col(#[trigger] delta[x]) == column,
            reconcile_matches(
                apply_ops_col(s_map, delta, column),
                s_map,
                target,
                sview,
                n as int,
                vview,
                jj as int,
            ),
            s_map == target ==> delta.len() == 0,
        decreases m - jj,
    {
        let vkey = &values[jj].0;
        proof {
            assert(vview[jj as int] == (values@[jj as int].0@, values@[jj as int].1@));
            lemma_entries_map_get(vview, jj as int);
            assert(forall|y: int| 0 <= y < jj ==> vview[y].0 != vkey@);
        }
        let ghost ap0 = apply_ops_col(s_map, delta, column);
        match find_key(sentries, vkey) {
            Some(x) => {
                proof {
                    assert(sview[x as int].0 == vkey@);
                    assert forall|k: Seq<u8>|
                        match #[trigger] reconcile_expected(
                            s_map,
                            target,
                            sview,
                            n as int,
                            vview,
                            jj + 1,
                            k,
                        ) {
                            Some(v) => ap0.contains_key(k) && ap0[k] == v,
                            None => !ap0.contains_key(k),
                        } by {
                        let e0 = reconcile_expected(
                            s_map,
                            target,
                            sview,
                            n as int,
                            vview,
                            jj as int,
                            k,
                        );
                        if k == vkey@ {
                            assert(exists|y: int| 0 <= y < n && sview[y].0 == k);
                        } else {
                            assert((exists|y: int| 0 <= y < jj + 1 && vview[y].0 == k) <==> (
                            exists|y: int| 0 <= y < jj && vview[y].0 == k)) by {
                                if exists|y: int| 0 <= y < jj + 1 && vview[y].0 == k {
                                    let y = choose|y: int| 0 <= y < jj + 1 && vview[y].0 == k;
                                    assert(y < jj);
                                }
                            }
                        }
                        assert(reconcile_expected(s_map, target, sview, n as int, vview, jj + 1, k)
                            == e0);
                    }
                }
            },
            None => {
                proof {
                    assert(forall|x: int| 0 <= x < n ==> sview[x].0 != vkey@);
                    lemma_entries_map_contains(sview, vkey@);
                    assert(!s_map.contains_key(vkey@));
                    assert(s_map != target);
                }
                store_update.set(column, clone_bytes(vkey), clone_bytes(&values[jj].1));
                proof {
                    let op = store_update.ops@.last();
                    let d0 = delta;
                    delta = d0.push(op);
                    assert(store_update.ops@ =~= base + delta);
                    lemma_apply_ops_push(s_map, d0, op, column);
                    let ap1 = apply_ops_col(s_map, delta, column);
                    assert(ap1 == ap0.insert(vkey@, values@[jj as int].1@));
                    assert forall|k: Seq<u8>|
                        match #[trigger] reconcile_expected(
                            s_map,
                            target,
                            sview,
                            n as int,
                            vview,
                            jj + 1,
                            k,
                        ) {
                            Some(v) => ap1.contains_key(k) && ap1[k] == v,
                            None => !ap1.contains_key(k),
                        } by {
                        let e0 = reconcile_expected(
                            s_map,
                            target,
                            sview,
                            n as int,
                            vview,
                            jj as int,
                            k,
                        );
                        if k == vkey@ {
                            assert(vview[jj as int].0 == k);
                            assert(reconcile_expected(
                                s_map,
                                target,
                                sview,
                                n as int,
                                vview,
                                jj + 1,
                                k,
                            ) == Some(target[k]));
                            assert(ap1[k] == target[k]);
                        } else {
                            assert((exists|y: int| 0 <= y < jj + 1 && vview[y].0 == k) <==> (
                            exists|y: int| 0 <= y < jj && vview[y].0 == k)) by {
                                if exists|y: int| 0 <= y < jj + 1 && vview[y].0 == k {
                                    let y = choose|y: int| 0 <= y < jj + 1 && vview[y].0 == k;
                                    assert(y < jj);
                                }
                            }
                            assert(reconcile_expected(
                                s_map,
                                target,
                                sview,
                                n as int,
                                vview,
                                jj + 1,
                                k,
                            ) == e0);
                        }
                    }
                }
            },
        }
        jj += 1;
    }
    proof {
        let ap = apply_ops_col(s_map, delta, column);
        assert forall|k: Seq<u8>|
            #![trigger ap.contains_key(k)]
            #![trigger target.contains_key(k)]
            {
                &&& (ap.contains_key(k) <==> target.contains_key(k))
                &&& (ap.contains_key(k) ==> ap[k] == target[k])
            } by {
            let e = reconcile_expected(s_map, target, sview, n as int, vview, m as int, k);
            lemma_entries_map_contains(vview, k);
            lemma_entries_map_contains(sview, k);
            if exists|x: int| 0 <= x < n && sview[x].0 == k {
            } else if exists|y: int| 0 <= y < m && vview[y].0 == k {
                assert(target.contains_key(k));
            } else {
                assert(!s_map.contains_key(k));
                assert(!target.contains_key(k));
            }
        }
        assert(ap =~~= target);
        assert(store_update.ops@.take(base.len() as int) =~= base);
        assert(store_update.ops@.skip(base.len() as int) =~= delta);
        assert forall|x: int|
            base.len() <= x < store_update.ops@.len() implies op_col(
            #[trigger] store_update.ops@[x]) == column by {
            assert(store_update.ops@[x] == delta[x - base.len()]);
        }
        if s_map == target {
            assert(store_update.ops@ =~= base);
        }
    }
}

/// Encodes every aggregated `(payload, count)` with the wide refcount codec
/// and rebuilds the derived column `column` to hold exactly those entries.
pub fn replace_col_rc(
    store: &Store,
    store_update: &mut StoreUpdate,
    column: DBCol,
    values: &AggregationMap,
)
    requires
        store.wf(),
        values.wf(),
    ensures
        final(store_update).ops@.len() >= old(store_update).ops@.len(),
        final(store_update).ops@.take(old(store_update).ops@.len() as int) == old(
            store_update,
        ).ops@,
        forall|x: int|
            old(store_update).ops@.len() <= x < final(store_update).ops@.len() ==> op_col(
                #[trigger] final(store_update).ops@[x],
            ) == column,
        apply_ops_col(
            store.col_map(column),
            final(store_update).ops@.skip(old(store_update).ops@.len() as int),
            column,
        ) == agg_encoded_map(values.contribs@),
        store.col_map(column) == agg_encoded_map(values.contribs@) ==> final(store_update).ops@
            == old(store_update).ops@,
{
    let encoded = encode_with_rc(values);
    replace_col(store, store_update, column, &encoded);
}


/// Contributions that agree on payloads: any two carrying the same key carry
/// the same payload (the payload is a deterministic function of the key's
/// domain).
pub open spec fn uniform_payloads(s: Seq<(Seq<u8>, Seq<u8>)>) -> bool {
    forall|i: int, j: int|
        0 <= i < s.len() && 0 <= j < s.len() && (#[trigger] s[i]).0 == (#[trigger] s[j]).0
            ==> s[i].1 == s[j].1
}

/// When every contribution carrying `k` carries payload `p`, the key's count
/// is the multiset count of the pair `(k, p)` — and so depends only on which
/// contributions occur, not on their order.
pub proof fn lemma_key_count_multiset(s: Seq<(Seq<u8>, Seq<u8>)>, k: Seq<u8>, p: Seq<u8>)
    requires
        forall|i: int| 0 <= i < s.len() && (#[trigger] s[i]).0 == k ==> s[i].1 == p,
    ensures
        key_count(s, k) == s.to_multiset().count((k, p)),
    decreases s.len(),
{
    broadcast use vstd::seq_lib::group_to_multiset_ensures;
    broadcast use vstd::multiset::group_multiset_properties;
    broadcast use vstd::multiset::group_multiset_axioms;

    if s.len() == 0 {
        assert(s.to_multiset() =~= Multiset::<(Seq<u8>, Seq<u8>)>::empty()) by {
            assert forall|a: (Seq<u8>, Seq<u8>)| s.to_multiset().count(a)
                == Multiset::<(Seq<u8>, Seq<u8>)>::empty().count(a) by {
                if s.to_multiset().count(a) > 0 {
                    assert(s.contains(a));
                }
            }
        }
    } else {
        let d = s.drop_last();
        assert(forall|i: int| 0 <= i < d.len() ==> #[trigger] d[i] == s[i]);
        lemma_key_count_multiset(d, k, p);
        assert(s =~= d.push(s.last()));
        assert(s.to_multiset() == d.to_multiset().insert(s.last()));
        if s.last().0 == k {
            assert(s[s.len() - 1].1 == p);
            assert(s.last() == (k, p));
        } else {
            assert(s.last() != (k, p));
        }
    }
}

/// Order-independence: permuting the contributions fed into the aggregation
/// (the same multiset, in any order) yields an identical desired
/// derived-column state, provided contributions sharing a key share their
/// payload.
pub proof fn lemma_aggregation_order_independent(
    s1: Seq<(Seq<u8>, Seq<u8>)>,
    s2: Seq<(Seq<u8>, Seq<u8>)>,
)
    requires
        s1.to_multiset() == s2.to_multiset(),
        uniform_payloads(s1),
    ensures
        agg_encoded_map(s1) == agg_encoded_map(s2),
{
    broadcast use vstd::seq_lib::group_to_multiset_ensures;

    assert forall|i: int| 0 <= i < s2.len() implies s1.contains(#[trigger] s2[i]) by {
        assert(s2.contains(s2[i])) by {
            assert(0 <= i < s2.len() && s2[i] == s2[i]);
        }
        assert(s2.to_multiset().count(s2[i]) > 0);
        assert(s1.to_multiset().count(s2[i]) > 0);
    }
    assert forall|k: Seq<u8>|
        #![trigger key_count(s1, k)]
        #![trigger key_count(s2, k)]
        key_count(s1, k) == key_count(s2, k) && (key_count(s1, k) > 0 ==> key_payload(s1, k)
            == key_payload(s2, k)) by {
        lemma_key_count_pos(s1, k);
        lemma_key_count_pos(s2, k);
        lemma_key_count_bounds(s1, k);
        lemma_key_count_bounds(s2, k);
        if key_count(s1, k) > 0 {
            lemma_key_payload_occurs(s1, k);
            let p = key_payload(s1, k);
            let w = choose|w: int| 0 <= w < s1.len() && s1[w] == (k, p);
            assert forall|i: int| 0 <= i < s1.len() && (#[trigger] s1[i]).0 == k implies s1[i].1
                == p by {
                assert(s1[i].0 == s1[w].0);
            }
            lemma_key_count_multiset(s1, k, p);
            assert forall|i: int| 0 <= i < s2.len() && (#[trigger] s2[i]).0 == k implies s2[i].1
                == p by {
                let x = choose|x: int| 0 <= x < s1.len() && s1[x] == s2[i];
                assert(s1[x].0 == k);
            }
            lemma_key_count_multiset(s2, k, p);
            assert(key_count(s1, k) == key_count(s2, k));
            lemma_key_payload_occurs(s2, k);
            let w2 = choose|w2: int| 0 <= w2 < s2.len() && s2[w2] == (k, key_payload(s2, k));
            assert(s2[w2].0 == k && s2[w2].1 == p);
        } else {
            if key_count(s2, k) > 0 {
                let i = choose|i: int| 0 <= i < s2.len() && s2[i].0 == k;
                let x = choose|x: int| 0 <= x < s1.len() && s1[x] == s2[i];
                assert(s1[x].0 == k);
            }
        }
    }
    assert(agg_encoded_map(s1) =~= agg_encoded_map(s2));
}

/// Count exactness: the desired derived-column contents hold, for every key
/// with `n > 0` contributing records, exactly its first-seen payload with
/// refcount `n`, and hold nothing for a key with zero contributing records.
pub proof fn lemma_count_exactness(s: Seq<(Seq<u8>, Seq<u8>)>, k: Seq<u8>)
    ensures
        key_count(s, k) > 0 ==> agg_encoded_map(s).contains_key(k) && agg_encoded_map(s)[k]
            == key_payload(s, k) + le8(key_count(s, k) as u64),
        key_count(s, k) <= 0 ==> !agg_encoded_map(s).contains_key(k),
{
}

} // verus!
