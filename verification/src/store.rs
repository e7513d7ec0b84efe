//! The signature store: four cross-referenced collections and a counter.
//!
//! A store holds a per-parameter-type id index, a per-return-type id index,
//! the id-to-record table, the crate-to-id-list index, and the next id to
//! assign. A whole crate is applied or purged in one call; the contracts
//! state the new model exactly, and the store invariant ties the four
//! collections together: every stored id sits in exactly one return-type
//! set, in every parameter-type set its record calls for, and in exactly
//! one crate list, and ids never reach the counter.

use vstd::prelude::*;
use crate::detail::{FnDetail, FnDetailView, effective_params, noargs, noargs_string};
use crate::table::{IdSetTable, IdListTable, FnTable, set_or_empty, set_remove_model};

verus! {

/// The mathematical state of a store.
#[verifier::ext_equal]
pub ghost struct StoreModel {
    pub param: Map<Seq<char>, Set<u64>>,
    pub ret: Map<Seq<char>, Set<u64>>,
    pub fns: Map<u64, FnDetailView>,
    pub crates: Map<Seq<char>, Seq<u64>>,
    pub next_id: int,
}

/// The state of a freshly opened store.
pub open spec fn empty_model() -> StoreModel {
    StoreModel {
        param: Map::empty(),
        ret: Map::empty(),
        fns: Map::empty(),
        crates: Map::empty(),
        next_id: 0,
    }
}

/// Every key of a type index holds a non-empty set, so that an absent key
/// and an empty id set are one thing.
pub open spec fn values_nonempty(mp: Map<Seq<char>, Set<u64>>) -> bool {
    forall|k: Seq<char>| #[trigger] mp.contains_key(k) ==> mp[k] !=
        Set::<u64>::empty()
}

/// Cross-collection consistency of a store model.
pub open spec fn store_wf(m: StoreModel) -> bool {
    &&& 0 <= m.next_id <= u64::MAX
    &&& forall|id: u64| #[trigger] m.fns.contains_key(id) ==> id < m.next_id
    &&& forall|id: u64| #[trigger] m.fns.contains_key(id) ==> m.ret.contains_key(
        m.fns[id].ret,
    ) && m.ret[m.fns[id].ret].contains(id)
    &&& forall|id: u64, p: Seq<char>|
        m.fns.contains_key(id) && #[trigger] effective_params(m.fns[id]).contains(p)
            ==> #[trigger] m.param.contains_key(p) && m.param[p].contains(id)
    &&& forall|id: u64| #[trigger] m.fns.contains_key(id) ==> m.crates.contains_key(
        m.fns[id].krate,
    ) && m.crates[m.fns[id].krate].contains(id)
    &&& forall|k: Seq<char>, id: u64|
        m.ret.contains_key(k) && #[trigger] m.ret[k].contains(id) ==> m.fns.contains_key(id)
            && m.fns[id].ret == k
    &&& forall|k: Seq<char>, id: u64|
        m.param.contains_key(k) && #[trigger] m.param[k].contains(id) ==> m.fns.contains_key(
            id,
        ) && effective_params(m.fns[id]).contains(k)
    &&& forall|k: Seq<char>, id: u64|
        m.crates.contains_key(k) && #[trigger] m.crates[k].contains(id) ==> m.fns.contains_key(
            id,
        ) && m.fns[id].krate == k
    &&& forall|k: Seq<char>| #[trigger] m.crates.contains_key(k) ==> m.crates[k].no_duplicates()
    &&& values_nonempty(m.param)
    &&& values_nonempty(m.ret)
}

// ------------------------------------------------------------------
// The apply model
// ------------------------------------------------------------------

/// One id inserted into the set of every listed parameter type in turn.
pub open spec fn add_ids_for_params(
    pm: Map<Seq<char>, Set<u64>>,
    ps: Seq<Seq<char>>,
    id: u64,
) -> Map<Seq<char>, Set<u64>>
    decreases ps.len(),
{
    if ps.len() == 0 {
        pm
    } else {
        let prev = add_ids_for_params(pm, ps.drop_last(), id);
        prev.insert(ps.last(), set_or_empty(prev, ps.last()).insert(id))
    }
}

/// One record stored under the next id: the id enters every effective
/// parameter set, the one return set, and the record table, and the
/// counter advances.
pub open spec fn apply_one(m: StoreModel, d: FnDetailView) -> StoreModel {
    StoreModel {
        param: add_ids_for_params(m.param, effective_params(d), m.next_id as u64),
        ret: m.ret.insert(d.ret, set_or_empty(m.ret, d.ret).insert(m.next_id as u64)),
        fns: m.fns.insert(m.next_id as u64, d),
        crates: m.crates,
        next_id: m.next_id + 1,
    }
}

/// A batch of records stored in order.
pub open spec fn apply_seq(m: StoreModel, ds: Seq<FnDetailView>) -> StoreModel
    decreases ds.len(),
{
    if ds.len() == 0 {
        m
    } else {
        apply_one(apply_seq(m, ds.drop_last()), ds.last())
    }
}

/// The ids a batch of `n` records receives when the counter stands at `base`.
pub open spec fn batch_ids(base: int, n: int) -> Seq<u64> {
    Seq::new(n as nat, |i: int| (base + i) as u64)
}

/// Whether an id falls inside such a batch.
pub open spec fn in_batch(id: u64, base: int, n: int) -> bool {
    base <= id < base + n
}

/// A whole crate applied: its records stored in order and the crate index
/// given the list of their new ids.
pub open spec fn apply_crate_model(
    m: StoreModel,
    name: Seq<char>,
    ds: Seq<FnDetailView>,
) -> StoreModel {
    let m2 = apply_seq(m, ds);
    StoreModel { crates: m.crates.insert(name, batch_ids(m.next_id, ds.len() as int)), ..m2 }
}

// ------------------------------------------------------------------
// The purge model
// ------------------------------------------------------------------

/// One id taken out of the set of every listed parameter type in turn.
pub open spec fn remove_ids_for_params(
    pm: Map<Seq<char>, Set<u64>>,
    ps: Seq<Seq<char>>,
    id: u64,
) -> Map<Seq<char>, Set<u64>>
    decreases ps.len(),
{
    if ps.len() == 0 {
        pm
    } else {
        set_remove_model(remove_ids_for_params(pm, ps.drop_last(), id), ps.last(), id)
    }
}

/// One stored id withdrawn: out of its record's parameter sets, its one
/// return set, and the record table. Ids without a record leave the store
/// unchanged.
pub open spec fn purge_one(m: StoreModel, id: u64) -> StoreModel {
    if m.fns.contains_key(id) {
        let d = m.fns[id];
        StoreModel {
            param: remove_ids_for_params(m.param, effective_params(d), id),
            ret: set_remove_model(m.ret, d.ret, id),
            fns: m.fns.remove(id),
            crates: m.crates,
            next_id: m.next_id,
        }
    } else {
        m
    }
}

/// A list of ids withdrawn in order.
pub open spec fn purge_seq(m: StoreModel, ids: Seq<u64>) -> StoreModel
    decreases ids.len(),
{
    if ids.len() == 0 {
        m
    } else {
        purge_one(purge_seq(m, ids.drop_last()), ids.last())
    }
}

/// A whole crate purged: every id its index entry records is withdrawn and
/// the entry removed; an unknown crate leaves the store unchanged.
pub open spec fn purge_crate_model(m: StoreModel, name: Seq<char>) -> StoreModel {
    if m.crates.contains_key(name) {
        let m2 = purge_seq(m, m.crates[name]);
        StoreModel { crates: m.crates.remove(name), ..m2 }
    } else {
        m
    }
}

// ------------------------------------------------------------------
// Pointwise characterizations
// ------------------------------------------------------------------

proof fn lemma_contains_drop_last<A>(s: Seq<A>, x: A)
    requires
        s.len() > 0,
    ensures
        s.contains(x) <==> (s.drop_last().contains(x) || s.last() == x),
{
    if s.contains(x) {
        let i = choose|i: int| 0 <= i < s.len() && s[i] == x;
        if i < s.len() - 1 {
            assert(s.drop_last()[i] == x);
        }
    }
    if s.drop_last().contains(x) {
        let i = choose|i: int| 0 <= i < s.drop_last().len() && s.drop_last()[i] == x;
        assert(s[i] == x);
    }
    if s.last() == x {
        assert(s[s.len() - 1] == x);
    }
}

proof fn lemma_add_params_pointwise(pm: Map<Seq<char>, Set<u64>>, ps: Seq<Seq<char>>, id: u64)
    ensures
        forall|k: Seq<char>| #[trigger] add_ids_for_params(pm, ps, id).contains_key(k) <==> (
        pm.contains_key(k) || ps.contains(k)),
        forall|k: Seq<char>, x: u64| #[trigger] set_or_empty(
            add_ids_for_params(pm, ps, id),
            k,
        ).contains(x) <==> (set_or_empty(pm, k).contains(x) || (ps.contains(k) && x == id)),
    decreases ps.len(),
{
    if ps.len() == 0 {
        assert forall|k: Seq<char>| !ps.contains(k) by {
            if ps.contains(k) {
                let i = choose|i: int| 0 <= i < ps.len() && ps[i] == k;
            }
        }
    } else {
        lemma_add_params_pointwise(pm, ps.drop_last(), id);
        let prev = add_ids_for_params(pm, ps.drop_last(), id);
        let cur = add_ids_for_params(pm, ps, id);
        assert forall|k: Seq<char>| #[trigger] cur.contains_key(k) <==> (pm.contains_key(k)
            || ps.contains(k)) by {
            lemma_contains_drop_last(ps, k);
        }
        assert forall|k: Seq<char>, x: u64| #[trigger] set_or_empty(cur, k).contains(x) <==> (
        set_or_empty(pm, k).contains(x) || (ps.contains(k) && x == id)) by {
            lemma_contains_drop_last(ps, k);
            if k == ps.last() {
                assert(set_or_empty(cur, k) == set_or_empty(prev, k).insert(id));
            } else {
                assert(set_or_empty(cur, k) == set_or_empty(prev, k));
            }
        }
    }
}

proof fn lemma_apply_seq_pointwise(m: StoreModel, ds: Seq<FnDetailView>)
    requires
        0 <= m.next_id,
        m.next_id + ds.len() <= u64::MAX,
    ensures
        apply_seq(m, ds).next_id == m.next_id + ds.len(),
        apply_seq(m, ds).crates == m.crates,
        forall|id: u64| #[trigger] apply_seq(m, ds).fns.contains_key(id) <==> (
        m.fns.contains_key(id) || in_batch(id, m.next_id, ds.len() as int)),
        forall|i: int|
            0 <= i < ds.len() ==> apply_seq(m, ds).fns[((m.next_id + i) as u64)] == ds[i],
        forall|id: u64|
            m.fns.contains_key(id) && !in_batch(id, m.next_id, ds.len() as int)
                ==> apply_seq(m, ds).fns[id] == m.fns[id],
        forall|k: Seq<char>| #[trigger] apply_seq(m, ds).ret.contains_key(k) <==> (
        m.ret.contains_key(k) || (exists|i: int|
            0 <= i < ds.len() && (#[trigger] ds[i]).ret == k)),
        forall|k: Seq<char>, x: u64| #[trigger] set_or_empty(apply_seq(m, ds).ret, k).contains(
            x,
        ) <==> (set_or_empty(m.ret, k).contains(x) || (exists|i: int|
            0 <= i < ds.len() && x == (m.next_id + i) as u64 && (#[trigger] ds[i]).ret == k)),
        forall|k: Seq<char>| #[trigger] apply_seq(m, ds).param.contains_key(k) <==> (
        m.param.contains_key(k) || (exists|i: int|
            0 <= i < ds.len() && effective_params(#[trigger] ds[i]).contains(k))),
        forall|k: Seq<char>, x: u64| #[trigger] set_or_empty(apply_seq(m, ds).param, k).contains(
            x,
        ) <==> (set_or_empty(m.param, k).contains(x) || (exists|i: int|
            0 <= i < ds.len() && x == (m.next_id + i) as u64 && effective_params(
                #[trigger] ds[i],
            ).contains(k))),
    decreases ds.len(),
{
    if ds.len() == 0 {
    } else {
        lemma_apply_seq_pointwise(m, ds.drop_last());
        let prev = apply_seq(m, ds.drop_last());
        let cur = apply_seq(m, ds);
        let d = ds.last();
        let n1 = ds.len() - 1;
        let nid = (m.next_id + n1) as u64;
        assert(prev.next_id == m.next_id + n1);
        lemma_add_params_pointwise(prev.param, effective_params(d), nid);
        // record table
        assert forall|id: u64| #[trigger] cur.fns.contains_key(id) <==> (m.fns.contains_key(id)
            || in_batch(id, m.next_id, ds.len() as int)) by {
            assert(cur.fns == prev.fns.insert(nid, d));
        }
        assert forall|i: int|
            0 <= i < ds.len() implies cur.fns[((m.next_id + i) as u64)] == ds[i] by {
            if i < n1 {
                assert((m.next_id + i) as u64 != nid);
                assert(prev.fns[((m.next_id + i) as u64)] == ds.drop_last()[i]);
            }
        }
        assert forall|id: u64|
            m.fns.contains_key(id) && !in_batch(id, m.next_id, ds.len() as int) implies cur.fns[id]
            == m.fns[id] by {
            assert(id != nid);
        }
        // return index
        assert forall|k: Seq<char>| #[trigger] cur.ret.contains_key(k) <==> (m.ret.contains_key(k)
            || (exists|i: int| 0 <= i < ds.len() && (#[trigger] ds[i]).ret == k)) by {
            if k == d.ret {
                assert(ds[n1].ret == k);
            } else {
                assert(cur.ret.contains_key(k) == prev.ret.contains_key(k));
                if exists|i: int| 0 <= i < ds.len() && (#[trigger] ds[i]).ret == k {
                    let i = choose|i: int| 0 <= i < ds.len() && (#[trigger] ds[i]).ret == k;
                    assert(i < n1 && ds.drop_last()[i].ret == k);
                }
                if exists|i: int| 0 <= i < n1 && (#[trigger] ds.drop_last()[i]).ret == k {
                    let i = choose|i: int|
                        0 <= i < n1 && (#[trigger] ds.drop_last()[i]).ret == k;
                    assert(ds[i].ret == k);
                }
            }
        }
        assert forall|k: Seq<char>, x: u64| #[trigger] set_or_empty(cur.ret, k).contains(x) <==> (
        set_or_empty(m.ret, k).contains(x) || (exists|i: int|
            0 <= i < ds.len() && x == (m.next_id + i) as u64 && (#[trigger] ds[i]).ret == k)) by {
            if k == d.ret {
                assert(set_or_empty(cur.ret, k) == set_or_empty(prev.ret, k).insert(nid));
            } else {
                assert(set_or_empty(cur.ret, k) == set_or_empty(prev.ret, k));
            }
            if exists|i: int|
                0 <= i < ds.len() && x == (m.next_id + i) as u64 && (#[trigger] ds[i]).ret == k {
                let i = choose|i: int|
                    0 <= i < ds.len() && x == (m.next_id + i) as u64 && (#[trigger] ds[i]).ret
                        == k;
                if i < n1 {
                    assert(ds.drop_last()[i].ret == k);
                }
            }
            if exists|i: int|
                0 <= i < n1 && x == (m.next_id + i) as u64 && (#[trigger] ds.drop_last()[i]).ret
                    == k {
                let i = choose|i: int|
                    0 <= i < n1 && x == (m.next_id + i) as u64 && (
                    #[trigger] ds.drop_last()[i]).ret == k;
                assert(ds[i].ret == k);
            }
        }
        // parameter index
        assert forall|k: Seq<char>| #[trigger] cur.param.contains_key(k) <==> (
        m.param.contains_key(k) || (exists|i: int|
            0 <= i < ds.len() && effective_params(#[trigger] ds[i]).contains(k))) by {
            if effective_params(d).contains(k) {
                assert(effective_params(ds[n1]).contains(k));
            }
            if exists|i: int|
                0 <= i < ds.len() && effective_params(#[trigger] ds[i]).contains(k) {
                let i = choose|i: int|
                    0 <= i < ds.len() && effective_params(#[trigger] ds[i]).contains(k);
                if i < n1 {
                    assert(effective_params(ds.drop_last()[i]).contains(k));
                } else {
                    assert(effective_params(d).contains(k));
                }
            }
            if exists|i: int|
                0 <= i < n1 && effective_params(#[trigger] ds.drop_last()[i]).contains(k) {
                let i = choose|i: int|
                    0 <= i < n1 && effective_params(#[trigger] ds.drop_last()[i]).contains(k);
                assert(effective_params(ds[i]).contains(k));
            }
        }
        assert forall|k: Seq<char>, x: u64| #[trigger] set_or_empty(cur.param, k).contains(x) <==> (
        set_or_empty(m.param, k).contains(x) || (exists|i: int|
            0 <= i < ds.len() && x == (m.next_id + i) as u64 && effective_params(
                #[trigger] ds[i],
            ).contains(k))) by {
            if exists|i: int|
                0 <= i < ds.len() && x == (m.next_id + i) as u64 && effective_params(
                    #[trigger] ds[i],
                ).contains(k) {
                let i = choose|i: int|
                    0 <= i < ds.len() && x == (m.next_id + i) as u64 && effective_params(
                        #[trigger] ds[i],
                    ).contains(k);
                if i < n1 {
                    assert(effective_params(ds.drop_last()[i]).contains(k));
                } else {
                    assert(x == nid && effective_params(d).contains(k));
                }
            }
            if exists|i: int|
                0 <= i < n1 && x == (m.next_id + i) as u64 && effective_params(
                    #[trigger] ds.drop_last()[i],
                ).contains(k) {
                let i = choose|i: int|
                    0 <= i < n1 && x == (m.next_id + i) as u64 && effective_params(
                        #[trigger] ds.drop_last()[i],
                    ).contains(k);
                assert(effective_params(ds[i]).contains(k));
            }
        }
    }
}

proof fn lemma_set_remove_pointwise(mp: Map<Seq<char>, Set<u64>>, kk: Seq<char>, id: u64)
    ensures
        forall|k: Seq<char>, x: u64| #[trigger] set_or_empty(
            set_remove_model(mp, kk, id),
            k,
        ).contains(x) <==> (set_or_empty(mp, k).contains(x) && !(k == kk && x == id)),
        forall|k: Seq<char>| #[trigger] set_remove_model(mp, kk, id).contains_key(k)
            ==> mp.contains_key(k),
        values_nonempty(mp) ==> values_nonempty(set_remove_model(mp, kk, id)),
{
    let res = set_remove_model(mp, kk, id);
    assert forall|k: Seq<char>, x: u64| #[trigger] set_or_empty(res, k).contains(x) <==> (
    set_or_empty(mp, k).contains(x) && !(k == kk && x == id)) by {
        if k == kk {
            if mp.contains_key(kk) {
                if mp[kk].remove(id) == Set::<u64>::empty() {
                    assert(!set_or_empty(res, k).contains(x));
                    if set_or_empty(mp, k).contains(x) && x != id {
                        assert(mp[kk].remove(id).contains(x));
                    }
                }
            }
        }
    }
    if values_nonempty(mp) {
        assert forall|k: Seq<char>| #[trigger] res.contains_key(k) implies res[k] !=
            Set::<u64>::empty() by {
            if k == kk && mp.contains_key(kk) && mp[kk].remove(id) != Set::<u64>::empty() {
                assert(res[k] == mp[kk].remove(id));
            } else {
                assert(res[k] == mp[k]);
            }
        }
    }
}

proof fn lemma_remove_params_pointwise(pm: Map<Seq<char>, Set<u64>>, ps: Seq<Seq<char>>, id: u64)
    ensures
        forall|k: Seq<char>, x: u64| #[trigger] set_or_empty(
            remove_ids_for_params(pm, ps, id),
            k,
        ).contains(x) <==> (set_or_empty(pm, k).contains(x) && !(ps.contains(k) && x == id)),
        forall|k: Seq<char>| #[trigger] remove_ids_for_params(pm, ps, id).contains_key(k)
            ==> pm.contains_key(k),
        values_nonempty(pm) ==> values_nonempty(remove_ids_for_params(pm, ps, id)),
    decreases ps.len(),
{
    if ps.len() == 0 {
        assert forall|k: Seq<char>| !ps.contains(k) by {
            if ps.contains(k) {
                let i = choose|i: int| 0 <= i < ps.len() && ps[i] == k;
            }
        }
    } else {
        lemma_remove_params_pointwise(pm, ps.drop_last(), id);
        let prev = remove_ids_for_params(pm, ps.drop_last(), id);
        let cur = remove_ids_for_params(pm, ps, id);
        lemma_set_remove_pointwise(prev, ps.last(), id);
        assert forall|k: Seq<char>, x: u64| #[trigger] set_or_empty(cur, k).contains(x) <==> (
        set_or_empty(pm, k).contains(x) && !(ps.contains(k) && x == id)) by {
            lemma_contains_drop_last(ps, k);
        }
    }
}

proof fn lemma_purge_seq_pointwise(m: StoreModel, ids: Seq<u64>)
    requires
        ids.no_duplicates(),
        forall|j: int| 0 <= j < ids.len() ==> m.fns.contains_key(#[trigger] ids[j]),
        values_nonempty(m.param),
        values_nonempty(m.ret),
    ensures
        purge_seq(m, ids).next_id == m.next_id,
        purge_seq(m, ids).crates == m.crates,
        forall|id: u64| #[trigger] purge_seq(m, ids).fns.contains_key(id) <==> (
        m.fns.contains_key(id) && !ids.contains(id)),
        forall|id: u64|
            #[trigger] purge_seq(m, ids).fns.contains_key(id) ==> purge_seq(m, ids).fns[id]
                == m.fns[id],
        forall|k: Seq<char>, x: u64| #[trigger] set_or_empty(purge_seq(m, ids).ret, k).contains(
            x,
        ) <==> (set_or_empty(m.ret, k).contains(x) && !(ids.contains(x) && m.fns[x].ret == k)),
        forall|k: Seq<char>, x: u64| #[trigger] set_or_empty(purge_seq(m, ids).param, k).contains(
            x,
        ) <==> (set_or_empty(m.param, k).contains(x) && !(ids.contains(x) && effective_params(
            m.fns[x],
        ).contains(k))),
        forall|k: Seq<char>| #[trigger] purge_seq(m, ids).ret.contains_key(k)
            ==> m.ret.contains_key(k),
        forall|k: Seq<char>| #[trigger] purge_seq(m, ids).param.contains_key(k)
            ==> m.param.contains_key(k),
        values_nonempty(purge_seq(m, ids).param),
        values_nonempty(purge_seq(m, ids).ret),
    decreases ids.len(),
{
    if ids.len() == 0 {
        assert forall|x: u64| !ids.contains(x) by {
            if ids.contains(x) {
                let i = choose|i: int| 0 <= i < ids.len() && ids[i] == x;
            }
        }
    } else {
        assert(forall|j: int|
            0 <= j < ids.drop_last().len() ==> m.fns.contains_key(
                #[trigger] ids.drop_last()[j],
            )) by {
            assert(forall|j: int|
                0 <= j < ids.drop_last().len() ==> ids.drop_last()[j] == ids[j]);
        }
        lemma_purge_seq_pointwise(m, ids.drop_last());
        let prev = purge_seq(m, ids.drop_last());
        let cur = purge_seq(m, ids);
        let id = ids.last();
        assert(!ids.drop_last().contains(id)) by {
            if ids.drop_last().contains(id) {
                let i = choose|i: int| 0 <= i < ids.len() - 1 && ids.drop_last()[i] == id;
                assert(ids[i] == ids[ids.len() - 1]);
            }
        }
        assert(m.fns.contains_key(id)) by {
            assert(ids[ids.len() - 1] == id);
        }
        assert(prev.fns.contains_key(id));
        let d = prev.fns[id];
        assert(d == m.fns[id]);
        lemma_remove_params_pointwise(prev.param, effective_params(d), id);
        lemma_set_remove_pointwise(prev.ret, d.ret, id);
        assert forall|x: u64| #[trigger] cur.fns.contains_key(x) <==> (m.fns.contains_key(x)
            && !ids.contains(x)) by {
            lemma_contains_drop_last(ids, x);
        }
        assert forall|k: Seq<char>, x: u64| #[trigger] set_or_empty(cur.ret, k).contains(x) <==> (
        set_or_empty(m.ret, k).contains(x) && !(ids.contains(x) && m.fns[x].ret == k)) by {
            lemma_contains_drop_last(ids, x);
        }
        assert forall|k: Seq<char>, x: u64| #[trigger] set_or_empty(cur.param, k).contains(x) <==> (
        set_or_empty(m.param, k).contains(x) && !(ids.contains(x) && effective_params(
            m.fns[x],
        ).contains(k))) by {
            lemma_contains_drop_last(ids, x);
        }
    }
}

proof fn lemma_batch_ids_facts(base: int, n: int)
    requires
        0 <= base,
        0 <= n,
        base + n <= u64::MAX,
    ensures
        batch_ids(base, n).len() == n,
        forall|i: int| 0 <= i < n ==> batch_ids(base, n)[i] == (base + i) as u64,
        forall|x: u64| #[trigger] batch_ids(base, n).contains(x) <==> in_batch(x, base, n),
        batch_ids(base, n).no_duplicates(),
{
    let b = batch_ids(base, n);
    assert forall|x: u64| #[trigger] b.contains(x) <==> in_batch(x, base, n) by {
        if b.contains(x) {
            let i = choose|i: int| 0 <= i < b.len() && b[i] == x;
            assert(x == (base + i) as u64);
        }
        if in_batch(x, base, n) {
            let i = x - base;
            assert(b[i] == x);
        }
    }
}

/// Applying a crate whose records all carry its name preserves the store
/// invariant.
pub proof fn lemma_apply_crate_wf(m: StoreModel, name: Seq<char>, ds: Seq<FnDetailView>)
    requires
        store_wf(m),
        !m.crates.contains_key(name),
        m.next_id + ds.len() <= u64::MAX,
        forall|i: int| 0 <= i < ds.len() ==> (#[trigger] ds[i]).krate == name,
    ensures
        store_wf(apply_crate_model(m, name, ds)),
{
    let base = m.next_id;
    let n = ds.len() as int;
    let a = apply_crate_model(m, name, ds);
    lemma_apply_seq_pointwise(m, ds);
    lemma_batch_ids_facts(base, n);
    assert forall|id: u64| #[trigger] a.fns.contains_key(id) implies a.ret.contains_key(
        a.fns[id].ret,
    ) && a.ret[a.fns[id].ret].contains(id) by {
        if m.fns.contains_key(id) && !in_batch(id, base, n) {
            let d = m.fns[id];
            assert(a.fns[id] == d);
            assert(set_or_empty(m.ret, d.ret).contains(id));
            assert(set_or_empty(a.ret, d.ret).contains(id));
            assert(a.ret.contains_key(d.ret));
        } else {
            let i = id - base;
            assert(a.fns[id] == ds[i]);
            assert(id == (base + i) as u64 && ds[i].ret == ds[i].ret);
            assert(set_or_empty(a.ret, ds[i].ret).contains(id));
            assert(a.ret.contains_key(ds[i].ret));
        }
    }
    assert forall|id: u64, p: Seq<char>|
        a.fns.contains_key(id) && #[trigger] effective_params(a.fns[id]).contains(p)
            implies #[trigger] a.param.contains_key(p) && a.param[p].contains(id) by {
        if m.fns.contains_key(id) && !in_batch(id, base, n) {
            assert(a.fns[id] == m.fns[id]);
            assert(set_or_empty(m.param, p).contains(id));
            assert(set_or_empty(a.param, p).contains(id));
            assert(a.param.contains_key(p));
        } else {
            let i = id - base;
            assert(a.fns[id] == ds[i]);
            assert(id == (base + i) as u64 && effective_params(ds[i]).contains(p));
            assert(set_or_empty(a.param, p).contains(id));
            assert(a.param.contains_key(p));
        }
    }
    assert forall|id: u64| #[trigger] a.fns.contains_key(id) implies a.crates.contains_key(
        a.fns[id].krate,
    ) && a.crates[a.fns[id].krate].contains(id) by {
        if m.fns.contains_key(id) && !in_batch(id, base, n) {
            let d = m.fns[id];
            assert(a.fns[id] == d);
            assert(m.crates.contains_key(d.krate));
            assert(d.krate != name);
            assert(a.crates[d.krate] == m.crates[d.krate]);
        } else {
            let i = id - base;
            assert(a.fns[id] == ds[i]);
            assert(ds[i].krate == name);
            assert(a.crates[name] == batch_ids(base, n));
            assert(batch_ids(base, n).contains(id));
        }
    }
    assert forall|k: Seq<char>, id: u64|
        a.ret.contains_key(k) && #[trigger] a.ret[k].contains(id) implies a.fns.contains_key(id)
        && a.fns[id].ret == k by {
        assert(set_or_empty(a.ret, k).contains(id));
        if set_or_empty(m.ret, k).contains(id) {
            assert(m.fns.contains_key(id) && m.fns[id].ret == k);
            assert(id < base);
            assert(a.fns[id] == m.fns[id]);
        } else {
            let i = choose|i: int|
                0 <= i < ds.len() && id == (base + i) as u64 && (#[trigger] ds[i]).ret == k;
            assert(a.fns[id] == ds[i]);
        }
    }
    assert forall|k: Seq<char>, id: u64|
        a.param.contains_key(k) && #[trigger] a.param[k].contains(id) implies a.fns.contains_key(
        id,
    ) && effective_params(a.fns[id]).contains(k) by {
        assert(set_or_empty(a.param, k).contains(id));
        if set_or_empty(m.param, k).contains(id) {
            assert(m.fns.contains_key(id) && effective_params(m.fns[id]).contains(k));
            assert(id < base);
            assert(a.fns[id] == m.fns[id]);
        } else {
            let i = choose|i: int|
                0 <= i < ds.len() && id == (base + i) as u64 && effective_params(
                    #[trigger] ds[i],
                ).contains(k);
            assert(a.fns[id] == ds[i]);
        }
    }
    assert forall|k: Seq<char>, id: u64|
        a.crates.contains_key(k) && #[trigger] a.crates[k].contains(id)
            implies a.fns.contains_key(id) && a.fns[id].krate == k by {
        if k == name {
            assert(batch_ids(base, n).contains(id));
            let i = id - base;
            assert(a.fns[id] == ds[i]);
        } else {
            assert(m.crates[k].contains(id));
            assert(m.fns.contains_key(id) && m.fns[id].krate == k);
            assert(id < base);
            assert(a.fns[id] == m.fns[id]);
        }
    }
    assert forall|k: Seq<char>| #[trigger] a.crates.contains_key(k) implies a.crates[
        k
    ].no_duplicates() by {
        if k == name {
            assert(a.crates[k] == batch_ids(base, n));
        } else {
            assert(a.crates[k] == m.crates[k]);
        }
    }
    assert forall|k: Seq<char>| #[trigger] a.param.contains_key(k) implies a.param[k] !=
        Set::<u64>::empty() by {
        if m.param.contains_key(k) {
            assert(m.param[k] != Set::<u64>::empty());
            assert(exists|x: u64| m.param[k].contains(x)) by {
                if forall|x: u64| !(#[trigger] m.param[k].contains(x)) {
                    assert(m.param[k] =~= Set::<u64>::empty());
                }
            }
            let x = choose|x: u64| m.param[k].contains(x);
            assert(set_or_empty(a.param, k).contains(x));
            assert(a.param[k].contains(x));
        } else {
            let i = choose|i: int|
                0 <= i < ds.len() && effective_params(#[trigger] ds[i]).contains(k);
            assert(set_or_empty(a.param, k).contains((base + i) as u64));
            assert(a.param[k].contains((base + i) as u64));
        }
    }
    assert forall|k: Seq<char>| #[trigger] a.ret.contains_key(k) implies a.ret[k] !=
        Set::<u64>::empty() by {
        if m.ret.contains_key(k) {
            assert(m.ret[k] != Set::<u64>::empty());
            assert(exists|x: u64| m.ret[k].contains(x)) by {
                if forall|x: u64| !(#[trigger] m.ret[k].contains(x)) {
                    assert(m.ret[k] =~= Set::<u64>::empty());
                }
            }
            let x = choose|x: u64| m.ret[k].contains(x);
            assert(set_or_empty(a.ret, k).contains(x));
            assert(a.ret[k].contains(x));
        } else {
            let i = choose|i: int| 0 <= i < ds.len() && (#[trigger] ds[i]).ret == k;
            assert(set_or_empty(a.ret, k).contains((base + i) as u64));
            assert(a.ret[k].contains((base + i) as u64));
        }
    }
}

/// Purging a crate preserves the store invariant.
pub proof fn lemma_purge_crate_wf(m: StoreModel, name: Seq<char>)
    requires
        store_wf(m),
    ensures
        store_wf(purge_crate_model(m, name)),
{
    if m.crates.contains_key(name) {
        let ids = m.crates[name];
        let f = purge_crate_model(m, name);
        assert(forall|j: int| 0 <= j < ids.len() ==> m.fns.contains_key(#[trigger] ids[j])) by {
            assert(forall|j: int| 0 <= j < ids.len() ==> ids.contains(#[trigger] ids[j]));
        }
        lemma_purge_seq_pointwise(m, ids);
        assert forall|id: u64| #[trigger] f.fns.contains_key(id) implies f.ret.contains_key(
            f.fns[id].ret,
        ) && f.ret[f.fns[id].ret].contains(id) by {
            let d = m.fns[id];
            assert(f.fns[id] == d);
            assert(set_or_empty(m.ret, d.ret).contains(id));
            assert(!ids.contains(id));
            assert(set_or_empty(f.ret, d.ret).contains(id));
            assert(f.ret.contains_key(d.ret));
        }
        assert forall|id: u64, p: Seq<char>|
            f.fns.contains_key(id) && #[trigger] effective_params(f.fns[id]).contains(p)
                implies #[trigger] f.param.contains_key(p) && f.param[p].contains(id) by {
            assert(f.fns[id] == m.fns[id]);
            assert(set_or_empty(m.param, p).contains(id));
            assert(!ids.contains(id));
            assert(set_or_empty(f.param, p).contains(id));
            assert(f.param.contains_key(p));
        }
        assert forall|id: u64| #[trigger] f.fns.contains_key(id) implies f.crates.contains_key(
            f.fns[id].krate,
        ) && f.crates[f.fns[id].krate].contains(id) by {
            let d = m.fns[id];
            assert(f.fns[id] == d);
            assert(m.crates.contains_key(d.krate) && m.crates[d.krate].contains(id));
            assert(!ids.contains(id));
            assert(d.krate != name);
            assert(f.crates[d.krate] == m.crates[d.krate]);
        }
        assert forall|k: Seq<char>, id: u64|
            f.ret.contains_key(k) && #[trigger] f.ret[k].contains(id)
                implies f.fns.contains_key(id) && f.fns[id].ret == k by {
            assert(set_or_empty(f.ret, k).contains(id));
            assert(set_or_empty(m.ret, k).contains(id));
            assert(m.fns.contains_key(id) && m.fns[id].ret == k);
            assert(!(ids.contains(id) && m.fns[id].ret == k));
        }
        assert forall|k: Seq<char>, id: u64|
            f.param.contains_key(k) && #[trigger] f.param[k].contains(id)
                implies f.fns.contains_key(id) && effective_params(f.fns[id]).contains(k) by {
            assert(set_or_empty(f.param, k).contains(id));
            assert(set_or_empty(m.param, k).contains(id));
            assert(m.fns.contains_key(id) && effective_params(m.fns[id]).contains(k));
            assert(!(ids.contains(id) && effective_params(m.fns[id]).contains(k)));
        }
        assert forall|k: Seq<char>, id: u64|
            f.crates.contains_key(k) && #[trigger] f.crates[k].contains(id)
                implies f.fns.contains_key(id) && f.fns[id].krate == k by {
            assert(k != name);
            assert(m.crates[k].contains(id));
            assert(m.fns.contains_key(id) && m.fns[id].krate == k);
            if ids.contains(id) {
                assert(m.fns[id].krate == name);
            }
            assert(!ids.contains(id));
            assert(f.fns == purge_seq(m, ids).fns);
            assert(f.fns.contains_key(id));
            assert(f.fns[id] == m.fns[id]);
        }
    }
}

/// Applying a crate and then purging it restores all four collections to
/// their exact prior state; only the id counter has advanced.
pub proof fn lemma_apply_then_purge(m: StoreModel, name: Seq<char>, ds: Seq<FnDetailView>)
    requires
        store_wf(m),
        !m.crates.contains_key(name),
        m.next_id + ds.len() <= u64::MAX,
        forall|i: int| 0 <= i < ds.len() ==> (#[trigger] ds[i]).krate == name,
    ensures
        purge_crate_model(apply_crate_model(m, name, ds), name).param == m.param,
        purge_crate_model(apply_crate_model(m, name, ds), name).ret == m.ret,
        purge_crate_model(apply_crate_model(m, name, ds), name).fns == m.fns,
        purge_crate_model(apply_crate_model(m, name, ds), name).crates == m.crates,
        purge_crate_model(apply_crate_model(m, name, ds), name).next_id == m.next_id + ds.len(),
{
    let base = m.next_id;
    let n = ds.len() as int;
    let a = apply_crate_model(m, name, ds);
    let f = purge_crate_model(a, name);
    lemma_apply_seq_pointwise(m, ds);
    lemma_batch_ids_facts(base, n);
    lemma_apply_crate_wf(m, name, ds);
    let ids = batch_ids(base, n);
    assert(a.crates.contains_key(name) && a.crates[name] == ids);
    assert(forall|j: int| 0 <= j < ids.len() ==> a.fns.contains_key(#[trigger] ids[j])) by {
        assert(forall|j: int| 0 <= j < ids.len() ==> ids.contains(#[trigger] ids[j]));
    }
    lemma_purge_seq_pointwise(a, ids);
    let p = purge_seq(a, ids);
    assert(f.param == p.param && f.ret == p.ret && f.fns == p.fns);
    // record table restored
    assert forall|id: u64| #[trigger] f.fns.contains_key(id) <==> m.fns.contains_key(id) by {
        if m.fns.contains_key(id) {
            assert(id < base);
            assert(!ids.contains(id));
        }
        if f.fns.contains_key(id) {
            assert(a.fns.contains_key(id) && !ids.contains(id));
            assert(!in_batch(id, base, n));
        }
    }
    assert forall|id: u64| #[trigger] f.fns.contains_key(id) implies f.fns[id] == m.fns[id] by {
        assert(a.fns.contains_key(id) && !ids.contains(id));
        assert(!in_batch(id, base, n));
        assert(m.fns.contains_key(id));
        assert(a.fns[id] == m.fns[id]);
        assert(f.fns[id] == a.fns[id]);
    }
    assert(f.fns =~= m.fns);
    // return index restored
    assert forall|k: Seq<char>, x: u64| set_or_empty(f.ret, k).contains(x) <==> #[trigger]
        set_or_empty(m.ret, k).contains(x) by {
        if set_or_empty(m.ret, k).contains(x) {
            assert(m.fns.contains_key(x) && m.fns[x].ret == k);
            assert(x < base);
            assert(!ids.contains(x));
            assert(set_or_empty(a.ret, k).contains(x));
        }
        if set_or_empty(f.ret, k).contains(x) {
            assert(set_or_empty(a.ret, k).contains(x) && !(ids.contains(x) && a.fns[x].ret
                == k));
            if !set_or_empty(m.ret, k).contains(x) {
                let i = choose|i: int|
                    0 <= i < ds.len() && x == (base + i) as u64 && (#[trigger] ds[i]).ret == k;
                assert(a.fns[x] == ds[i]);
                assert(ids.contains(x));
            }
        }
    }
    assert forall|k: Seq<char>| #[trigger] f.ret.contains_key(k) <==> m.ret.contains_key(k) by {
        if f.ret.contains_key(k) {
            assert(f.ret[k] != Set::<u64>::empty());
            assert(exists|x: u64| f.ret[k].contains(x)) by {
                if forall|x: u64| !(#[trigger] f.ret[k].contains(x)) {
                    assert(f.ret[k] =~= Set::<u64>::empty());
                }
            }
            let x = choose|x: u64| f.ret[k].contains(x);
            assert(set_or_empty(f.ret, k).contains(x));
            assert(set_or_empty(m.ret, k).contains(x));
            assert(m.ret.contains_key(k));
        }
        if m.ret.contains_key(k) {
            assert(m.ret[k] != Set::<u64>::empty());
            assert(exists|x: u64| m.ret[k].contains(x)) by {
                if forall|x: u64| !(#[trigger] m.ret[k].contains(x)) {
                    assert(m.ret[k] =~= Set::<u64>::empty());
                }
            }
            let x = choose|x: u64| m.ret[k].contains(x);
            assert(set_or_empty(m.ret, k).contains(x));
            assert(set_or_empty(f.ret, k).contains(x));
            assert(f.ret.contains_key(k));
        }
    }
    assert forall|k: Seq<char>| #[trigger] f.ret.contains_key(k) implies f.ret[k] == m.ret[k] by {
        assert forall|x: u64| f.ret[k].contains(x) <==> m.ret[k].contains(x) by {
            assert(set_or_empty(f.ret, k).contains(x) <==> set_or_empty(m.ret, k).contains(x));
        }
        assert(f.ret[k] =~= m.ret[k]);
    }
    assert(f.ret =~= m.ret);
    // parameter index restored
    assert forall|k: Seq<char>, x: u64| set_or_empty(f.param, k).contains(x) <==> #[trigger]
        set_or_empty(m.param, k).contains(x) by {
        if set_or_empty(m.param, k).contains(x) {
            assert(m.fns.contains_key(x) && effective_params(m.fns[x]).contains(k));
            assert(x < base);
            assert(!ids.contains(x));
            assert(set_or_empty(a.param, k).contains(x));
        }
        if set_or_empty(f.param, k).contains(x) {
            assert(set_or_empty(a.param, k).contains(x) && !(ids.contains(x)
                && effective_params(a.fns[x]).contains(k)));
            if !set_or_empty(m.param, k).contains(x) {
                let i = choose|i: int|
                    0 <= i < ds.len() && x == (base + i) as u64 && effective_params(
                        #[trigger] ds[i],
                    ).contains(k);
                assert(a.fns[x] == ds[i]);
                assert(ids.contains(x));
            }
        }
    }
    assert forall|k: Seq<char>| #[trigger] f.param.contains_key(k) <==> m.param.contains_key(
        k,
    ) by {
        if f.param.contains_key(k) {
            assert(f.param[k] != Set::<u64>::empty());
            assert(exists|x: u64| f.param[k].contains(x)) by {
                if forall|x: u64| !(#[trigger] f.param[k].contains(x)) {
                    assert(f.param[k] =~= Set::<u64>::empty());
                }
            }
            let x = choose|x: u64| f.param[k].contains(x);
            assert(set_or_empty(f.param, k).contains(x));
            assert(set_or_empty(m.param, k).contains(x));
            assert(m.param.contains_key(k));
        }
        if m.param.contains_key(k) {
            assert(m.param[k] != Set::<u64>::empty());
            assert(exists|x: u64| m.param[k].contains(x)) by {
                if forall|x: u64| !(#[trigger] m.param[k].contains(x)) {
                    assert(m.param[k] =~= Set::<u64>::empty());
                }
            }
            let x = choose|x: u64| m.param[k].contains(x);
            assert(set_or_empty(m.param, k).contains(x));
            assert(set_or_empty(f.param, k).contains(x));
            assert(f.param.contains_key(k));
        }
    }
    assert forall|k: Seq<char>| #[trigger] f.param.contains_key(k) implies f.param[k] == m.param[
        k
    ] by {
        assert forall|x: u64| f.param[k].contains(x) <==> m.param[k].contains(x) by {
            assert(set_or_empty(f.param, k).contains(x) <==> set_or_empty(m.param, k).contains(
                x,
            ));
        }
        assert(f.param[k] =~= m.param[k]);
    }
    assert(f.param =~= m.param);
    // crate index restored
    assert(f.crates =~= m.crates);
}

/// The ids a crate application hands out are exactly the next batch of
/// counter values: strictly increasing, above every id the store has ever
/// assigned, and never reused, since the counter never moves backwards.
pub proof fn lemma_assigned_ids_fresh(m: StoreModel, name: Seq<char>, ds: Seq<FnDetailView>)
    requires
        store_wf(m),
        m.next_id + ds.len() <= u64::MAX,
    ensures
        apply_crate_model(m, name, ds).crates[name] == batch_ids(m.next_id, ds.len() as int),
        apply_crate_model(m, name, ds).next_id == m.next_id + ds.len(),
        forall|i: int|
            0 <= i < ds.len() ==> !m.fns.contains_key(
                #[trigger] batch_ids(m.next_id, ds.len() as int)[i],
            ),
        forall|i: int, j: int|
            0 <= i < j < ds.len() ==> batch_ids(m.next_id, ds.len() as int)[i] < batch_ids(
                m.next_id,
                ds.len() as int,
            )[j],
        purge_crate_model(m, name).next_id == m.next_id,
{
    lemma_apply_seq_pointwise(m, ds);
    lemma_batch_ids_facts(m.next_id, ds.len() as int);
    if m.crates.contains_key(name) {
        let ids = m.crates[name];
        assert(forall|j: int| 0 <= j < ids.len() ==> m.fns.contains_key(#[trigger] ids[j])) by {
            assert(forall|j: int| 0 <= j < ids.len() ==> ids.contains(#[trigger] ids[j]));
        }
        lemma_purge_seq_pointwise(m, ids);
    }
}

// ------------------------------------------------------------------
// The executable store
// ------------------------------------------------------------------

/// Insert one id under every effective parameter type of a record, in order.
fn push_params(pt: &mut IdSetTable, d: &FnDetail, id: u64)
    requires
        old(pt).wf(),
    ensures
        final(pt).wf(),
        final(pt)@ == add_ids_for_params(old(pt)@, effective_params(d@), id),
{
    let ghost pm0 = pt@;
    let ghost eff = effective_params(d@);
    if d.params.len() == 0 {
        proof {
            assert(d@.params.len() == 0);
            assert(eff =~= seq![noargs()]);
        }
        let na = noargs_string();
        pt.push_id(&na, id);
        proof {
            assert(eff.drop_last() =~= Seq::<Seq<char>>::empty());
            assert(add_ids_for_params(pm0, eff.drop_last(), id) == pm0);
            assert(eff.last() == noargs());
            assert(pt@ == add_ids_for_params(pm0, eff, id));
        }
    } else {
        proof {
            assert(eff == d@.params);
        }
        let mut t: usize = 0;
        while t < d.params.len()
            invariant
                pt.wf(),
                t <= d.params@.len(),
                eff == effective_params(d@),
                eff == d@.params,
                eff.len() == d.params@.len(),
                forall|a: int| 0 <= a < eff.len() ==> eff[a] == (#[trigger] d.params@[a])@,
                pt@ == add_ids_for_params(pm0, eff.take(t as int), id),
            decreases d.params@.len() - t,
        {
            let ghost prev = pt@;
            pt.push_id(&d.params[t], id);
            proof {
                assert(eff.take(t + 1).drop_last() =~= eff.take(t as int));
                assert(eff.take(t + 1).last() == eff[t as int]);
                assert(pt@ == add_ids_for_params(pm0, eff.take(t + 1), id));
            }
            t = t + 1;
        }
        proof {
            assert(eff.take(d.params@.len() as int) =~= eff);
        }
    }
}

/// Remove one id from under every effective parameter type of a record.
fn remove_params(pt: &mut IdSetTable, d: &FnDetail, id: u64)
    requires
        old(pt).wf(),
    ensures
        final(pt).wf(),
        final(pt)@ == remove_ids_for_params(old(pt)@, effective_params(d@), id),
{
    let ghost pm0 = pt@;
    let ghost eff = effective_params(d@);
    if d.params.len() == 0 {
        proof {
            assert(d@.params.len() == 0);
            assert(eff =~= seq![noargs()]);
        }
        let na = noargs_string();
        let _ = pt.remove_id(&na, id);
        proof {
            assert(eff.drop_last() =~= Seq::<Seq<char>>::empty());
            assert(remove_ids_for_params(pm0, eff.drop_last(), id) == pm0);
            assert(eff.last() == noargs());
            assert(pt@ == remove_ids_for_params(pm0, eff, id));
        }
    } else {
        proof {
            assert(eff == d@.params);
        }
        let mut t: usize = 0;
        while t < d.params.len()
            invariant
                pt.wf(),
                t <= d.params@.len(),
                eff == effective_params(d@),
                eff == d@.params,
                eff.len() == d.params@.len(),
                forall|a: int| 0 <= a < eff.len() ==> eff[a] == (#[trigger] d.params@[a])@,
                pt@ == remove_ids_for_params(pm0, eff.take(t as int), id),
            decreases d.params@.len() - t,
        {
            let _ = pt.remove_id(&d.params[t], id);
            proof {
                assert(eff.take(t + 1).drop_last() =~= eff.take(t as int));
                assert(eff.take(t + 1).last() == eff[t as int]);
                assert(pt@ == remove_ids_for_params(pm0, eff.take(t + 1), id));
            }
            t = t + 1;
        }
        proof {
            assert(eff.take(d.params@.len() as int) =~= eff);
        }
    }
}

/// The signature store.
pub struct Store {
    param: IdSetTable,
    ret: IdSetTable,
    fns: FnTable,
    crates: IdListTable,
    next_id: u64,
}

impl View for Store {
    type V = StoreModel;

    closed spec fn view(&self) -> StoreModel {
        StoreModel {
            param: self.param@,
            ret: self.ret@,
            fns: self.fns@,
            crates: self.crates@,
            next_id: self.next_id as int,
        }
    }
}

impl Store {
    /// The tables are well-formed and the model is cross-consistent.
    pub open spec fn inv(&self) -> bool {
        self.rep_wf() && store_wf(self@)
    }

    pub closed spec fn rep_wf(&self) -> bool {
        self.param.wf() && self.ret.wf() && self.fns.wf() && self.crates.wf()
    }

    /// A freshly opened store: all collections empty, the counter at zero.
    pub fn new() -> (s: Store)
        ensures
            s.inv(),
            s@ == empty_model(),
    {
        let s = Store {
            param: IdSetTable::new(),
            ret: IdSetTable::new(),
            fns: FnTable::new(),
            crates: IdListTable::new(),
            next_id: 0,
        };
        proof {
            assert(s@ =~= empty_model());
        }
        s
    }

    /// Apply one crate's records: each receives the next counter value as
    /// its id and enters all four collections; the whole batch is recorded
    /// under the crate's name. The crate must not already be present.
    pub fn add_crate(&mut self, name: &String, details: &Vec<FnDetail>) -> (next: u64)
        requires
            old(self).inv(),
            !old(self)@.crates.contains_key(name@),
            old(self)@.next_id + details@.len() <= u64::MAX,
            forall|i: int|
                0 <= i < details@.len() ==> ((#[trigger] details@[i])@).krate == name@,
        ensures
            final(self).inv(),
            final(self)@ == apply_crate_model(old(self)@, name@, details.deep_view()),
            next as int == final(self)@.next_id,
    {
        let ghost m0 = self@;
        let ghost dv = details.deep_view();
        proof {
            assert(forall|i: int| 0 <= i < dv.len() ==> dv[i] == (#[trigger] details@[i])@);
        }
        let mut ids: Vec<u64> = Vec::new();
        let mut j: usize = 0;
        while j < details.len()
            invariant
                self.rep_wf(),
                store_wf(m0),
                j <= details@.len(),
                dv == details.deep_view(),
                dv.len() == details@.len(),
                forall|i: int| 0 <= i < dv.len() ==> dv[i] == (#[trigger] details@[i])@,
                m0.next_id + dv.len() <= u64::MAX,
                self@.param == apply_seq(m0, dv.take(j as int)).param,
                self@.ret == apply_seq(m0, dv.take(j as int)).ret,
                self@.fns == apply_seq(m0, dv.take(j as int)).fns,
                self@.crates == m0.crates,
                self.next_id as int == m0.next_id + j,
                ids@ == batch_ids(m0.next_id, j as int),
            decreases details@.len() - j,
        {
            let ghost mcur = apply_seq(m0, dv.take(j as int));
            proof {
                lemma_apply_seq_pointwise(m0, dv.take(j as int));
                assert(mcur.next_id == m0.next_id + j);
            }
            let d = &details[j];
            let id = self.next_id;
            proof {
                assert(d@ == dv[j as int]);
                assert(!mcur.fns.contains_key(id)) by {
                    if m0.fns.contains_key(id) {
                        assert(id < m0.next_id);
                    }
                }
            }
            push_params(&mut self.param, d, id);
            self.ret.push_id(&d.ret, id);
            self.fns.insert_new(id, d.clone());
            self.next_id = self.next_id + 1;
            ids.push(id);
            proof {
                assert(dv.take(j + 1).drop_last() =~= dv.take(j as int));
                assert(dv.take(j + 1).last() == dv[j as int]);
                let mnext = apply_seq(m0, dv.take(j + 1));
                assert(mnext == apply_one(mcur, dv[j as int]));
                assert(self@.param == mnext.param);
                assert(self@.ret == mnext.ret);
                assert(self@.fns == mnext.fns);
                assert(ids@ =~= batch_ids(m0.next_id, j + 1));
            }
            j = j + 1;
        }
        proof {
            assert(dv.take(details@.len() as int) =~= dv);
        }
        self.crates.insert_new(name, ids);
        proof {
            let a = apply_crate_model(m0, name@, dv);
            lemma_apply_seq_pointwise(m0, dv);
            assert(self@.param == a.param);
            assert(self@.ret == a.ret);
            assert(self@.fns == a.fns);
            assert(self@.crates == a.crates);
            assert(self@.next_id == a.next_id);
            assert(self@ =~= apply_crate_model(m0, name@, dv));
            lemma_apply_crate_wf(m0, name@, dv);
        }
        self.next_id
    }

    /// Purge one crate: every id its index entry records leaves all four
    /// collections; an unknown crate name is a no-op.
    pub fn purge_crate(&mut self, name: &String)
        requires
            old(self).inv(),
        ensures
            final(self).inv(),
            final(self)@ == purge_crate_model(old(self)@, name@),
    {
        let ghost m0 = self@;
        let ids = match self.crates.take(name) {
            Some(ids) => ids,
            None => {
                proof {
                    assert(self@ =~= purge_crate_model(m0, name@));
                }
                return ;
            },
        };
        proof {
            assert(forall|j: int|
                0 <= j < ids@.len() ==> m0.crates[name@].contains(#[trigger] ids@[j]));
            assert(forall|j: int| 0 <= j < ids@.len() ==> m0.fns.contains_key(#[trigger] ids@[j]));
        }
        let mut j: usize = 0;
        while j < ids.len()
            invariant
                self.rep_wf(),
                store_wf(m0),
                j <= ids@.len(),
                m0.crates.contains_key(name@),
                ids@ == m0.crates[name@],
                forall|a: int| 0 <= a < ids@.len() ==> m0.fns.contains_key(#[trigger] ids@[a]),
                self@.param == purge_seq(m0, ids@.take(j as int)).param,
                self@.ret == purge_seq(m0, ids@.take(j as int)).ret,
                self@.fns == purge_seq(m0, ids@.take(j as int)).fns,
                self@.crates == m0.crates.remove(name@),
                self.next_id as int == m0.next_id,
            decreases ids@.len() - j,
        {
            let ghost pre = ids@.take(j as int);
            let ghost mcur = purge_seq(m0, pre);
            proof {
                assert(ids@.no_duplicates());
                assert(pre.no_duplicates()) by {
                    assert(forall|a: int| 0 <= a < j ==> pre[a] == ids@[a]);
                }
                assert(forall|a: int| 0 <= a < pre.len() ==> m0.fns.contains_key(#[trigger] pre[a]));
                lemma_purge_seq_pointwise(m0, pre);
                assert(!pre.contains(ids@[j as int])) by {
                    if pre.contains(ids@[j as int]) {
                        let a = choose|a: int| 0 <= a < j && pre[a] == ids@[j as int];
                        assert(ids@[a] == ids@[j as int]);
                    }
                }
                assert(m0.fns.contains_key(ids@[j as int]));
                assert(mcur.fns.contains_key(ids@[j as int]));
            }
            let id = ids[j];
            let d = match self.fns.take(id) {
                Some(d) => d,
                None => {
                    proof {
                        assert(false);
                    }
                    vstd::pervasive::unreached()
                },
            };
            proof {
                assert(d@ == mcur.fns[id]);
                assert(d@ == m0.fns[id]);
            }
            remove_params(&mut self.param, &d, id);
            let found = self.ret.remove_id(&d.ret, id);
            proof {
                // consistency check: the id must sit in its one return set
                assert(set_or_empty(m0.ret, d@.ret).contains(id));
                assert(set_or_empty(mcur.ret, d@.ret).contains(id));
                assert(mcur.ret.contains_key(d@.ret) && mcur.ret[d@.ret].contains(id));
                assert(found);
                assert(ids@.take(j + 1).drop_last() =~= pre);
                assert(ids@.take(j + 1).last() == ids@[j as int]);
                let mnext = purge_seq(m0, ids@.take(j + 1));
                assert(mnext == purge_one(mcur, id));
                assert(self@.param == mnext.param);
                assert(self@.ret == mnext.ret);
                assert(self@.fns == mnext.fns);
            }
            j = j + 1;
        }
        proof {
            assert(ids@.take(ids@.len() as int) =~= ids@);
            let f = purge_crate_model(m0, name@);
            lemma_purge_seq_pointwise(m0, ids@);
            assert(self@.param == f.param);
            assert(self@.ret == f.ret);
            assert(self@.fns == f.fns);
            assert(self@.crates == f.crates);
            assert(self@.next_id == f.next_id);
            assert(self@ =~= purge_crate_model(m0, name@));
            lemma_purge_crate_wf(m0, name@);
        }
    }

    /// Purge any previous ingestion of a crate, then apply the new batch:
    /// the one way to re-ingest.
    pub fn ingest_crate(&mut self, name: &String, details: &Vec<FnDetail>)
        requires
            old(self).inv(),
            old(self)@.next_id + details@.len() <= u64::MAX,
            forall|i: int|
                0 <= i < details@.len() ==> ((#[trigger] details@[i])@).krate == name@,
        ensures
            final(self).inv(),
            final(self)@ == apply_crate_model(
                purge_crate_model(old(self)@, name@),
                name@,
                details.deep_view(),
            ),
    {
        let ghost m0 = self@;
        self.purge_crate(name);
        proof {
            if m0.crates.contains_key(name@) {
                let ids = m0.crates[name@];
                assert(forall|a: int|
                    0 <= a < ids.len() ==> m0.crates[name@].contains(#[trigger] ids[a]));
                assert(forall|a: int| 0 <= a < ids.len() ==> m0.fns.contains_key(#[trigger] ids[a]));
                lemma_purge_seq_pointwise(m0, ids);
                assert(self@.next_id == m0.next_id);
            }
            assert(!self@.crates.contains_key(name@));
        }
        let _ = self.add_crate(name, details);
    }

    /// The ids indexed under a parameter type string, `None` where the
    /// string indexes nothing.
    pub fn lookup_param(&self, ty: &String) -> (r: Option<&Vec<u64>>)
        requires
            self.inv(),
        ensures
            (match r {
                Some(v) => self@.param.contains_key(ty@) && v@.to_set() == self@.param[ty@]
                    && v@.no_duplicates() && v@.len() > 0,
                None => !self@.param.contains_key(ty@),
            }),
    {
        self.param.get(ty)
    }

    /// The ids indexed under a return type string, `None` where the string
    /// indexes nothing.
    pub fn lookup_ret(&self, ty: &String) -> (r: Option<&Vec<u64>>)
        requires
            self.inv(),
        ensures
            (match r {
                Some(v) => self@.ret.contains_key(ty@) && v@.to_set() == self@.ret[ty@]
                    && v@.no_duplicates() && v@.len() > 0,
                None => !self@.ret.contains_key(ty@),
            }),
    {
        self.ret.get(ty)
    }

    /// Resolve an id to its stored record.
    pub fn get(&self, id: u64) -> (r: Option<&FnDetail>)
        requires
            self.inv(),
        ensures
            (match r {
                Some(d) => self@.fns.contains_key(id) && d@ == self@.fns[id],
                None => !self@.fns.contains_key(id),
            }),
    {
        self.fns.get(id)
    }

    /// Whether a crate currently has an ingestion recorded.
    pub fn contains_crate(&self, name: &String) -> (r: bool)
        requires
            self.inv(),
        ensures
            r == self@.crates.contains_key(name@),
    {
        self.crates.contains_key(name)
    }

    /// The id list recorded for a crate.
    pub fn crate_ids(&self, name: &String) -> (r: Option<&Vec<u64>>)
        requires
            self.inv(),
        ensures
            (match r {
                Some(v) => self@.crates.contains_key(name@) && v@ == self@.crates[name@],
                None => !self@.crates.contains_key(name@),
            }),
    {
        self.crates.get(name)
    }

    /// The next id the counter will assign.
    pub fn next_fn_id(&self) -> (r: u64)
        ensures
            r as int == self@.next_id,
    {
        self.next_id
    }

    /// Every distinct parameter type string currently indexed.
    pub fn param_types(&self) -> (r: Vec<String>)
        requires
            self.inv(),
        ensures
            r.deep_view().no_duplicates(),
            forall|k: Seq<char>| r.deep_view().contains(k) <==> self@.param.contains_key(k),
    {
        self.param.keys()
    }

    /// Every distinct return type string currently indexed.
    pub fn ret_types(&self) -> (r: Vec<String>)
        requires
            self.inv(),
        ensures
            r.deep_view().no_duplicates(),
            forall|k: Seq<char>| r.deep_view().contains(k) <==> self@.ret.contains_key(k),
    {
        self.ret.keys()
    }
}

/// Every stored id sits in exactly one return-type entry and in at least
/// one parameter-type entry: the entry of its record's return type, and
/// the entries of its effective parameter types (the reserved sentinel
/// entry when the record has no parameters).
pub proof fn lemma_fn_id_indexed(m: StoreModel, id: u64)
    requires
        store_wf(m),
        m.fns.contains_key(id),
    ensures
        m.ret.contains_key(m.fns[id].ret) && m.ret[m.fns[id].ret].contains(id),
        forall|k: Seq<char>|
            m.ret.contains_key(k) && #[trigger] m.ret[k].contains(id) ==> k == m.fns[id].ret,
        exists|p: Seq<char>| m.param.contains_key(p) && #[trigger] m.param[p].contains(id),
{
    let d = m.fns[id];
    assert(effective_params(d).len() > 0) by {
        if d.params.len() == 0 {
            assert(effective_params(d) == seq![crate::detail::noargs()]);
        }
    }
    let p0 = effective_params(d)[0];
    assert(effective_params(d).contains(p0)) by {
        assert(effective_params(d)[0] == p0);
    }
    assert(m.param.contains_key(p0) && m.param[p0].contains(id));
}

} // verus!
