//! The query engine: progressive-widening intersection of ranked fuzzy
//! candidate columns against the store.
//!
//! Each query slot (one per parameter position, plus the return type)
//! contributes a ranked column of candidate type strings. The engine widens
//! every column one candidate per depth, intersects the id sets across
//! columns, emits newly qualifying ids band by band, truncates at the
//! overall cap, and orders every band by crate name and rendered signature.

use vstd::prelude::*;
use crate::detail::{FnDetail, FnDetailView, noargs, noargs_string};
use crate::store::{Store, StoreModel, store_wf};
use crate::table::{set_or_empty, ids_contain};
use crate::order::{detail_le, detail_le_exec, lemma_detail_le_total, lemma_detail_le_trans};

verus! {

/// The overall cap on the number of records one query may return.
pub const MAX_RESULTS: usize = 500;

/// The number of fuzzy candidates requested for each query slot.
pub const FUZZY_SEARCH_LIMIT: usize = 100;

/// Which type universe a query slot addresses.
#[derive(Clone, Copy)]
pub enum SlotKind {
    Param,
    Ret,
}

/// One term of a planned query: the universe to search and the free-text
/// type query to hand to the fuzzy matcher.
pub struct QuerySlot {
    pub kind: SlotKind,
    pub term: String,
}

/// One resolved column: the universe it addresses and its ranked candidate
/// type strings, best match first.
pub struct QueryColumn {
    pub kind: SlotKind,
    pub candidates: Vec<String>,
}

pub ghost struct ColumnView {
    pub kind: SlotKind,
    pub candidates: Seq<Seq<char>>,
}

impl View for QueryColumn {
    type V = ColumnView;

    open spec fn view(&self) -> ColumnView {
        ColumnView { kind: self.kind, candidates: self.candidates.deep_view() }
    }
}

impl DeepView for QueryColumn {
    type V = ColumnView;

    open spec fn deep_view(&self) -> ColumnView {
        self.view()
    }
}

/// The id set one candidate type string selects in one universe.
pub open spec fn slot_set(m: StoreModel, kind: SlotKind, ty: Seq<char>) -> Set<u64> {
    match kind {
        SlotKind::Param => set_or_empty(m.param, ty),
        SlotKind::Ret => set_or_empty(m.ret, ty),
    }
}

/// The ids a column's first `t` candidates select, together.
pub open spec fn col_ids_upto(m: StoreModel, c: ColumnView, t: int) -> Set<u64>
    decreases t,
{
    if t <= 0 {
        Set::empty()
    } else {
        col_ids_upto(m, c, t - 1).union(slot_set(m, c.kind, c.candidates[t - 1]))
    }
}

pub open spec fn min_int(a: int, b: int) -> int {
    if a <= b {
        a
    } else {
        b
    }
}

/// The ids a column contributes at widening depth `d`: a column shorter
/// than `d` stays pinned at its full length.
pub open spec fn col_ids(m: StoreModel, c: ColumnView, d: int) -> Set<u64> {
    col_ids_upto(m, c, min_int(d, c.candidates.len() as int))
}

/// An id qualifies at depth `d` when every column contributes it there.
/// With no columns at all nothing qualifies.
pub open spec fn qualifies(m: StoreModel, cols: Seq<ColumnView>, id: u64, d: int) -> bool {
    cols.len() > 0 && (forall|ci: int|
        0 <= ci < cols.len() ==> col_ids(m, #[trigger] cols[ci], d).contains(id))
}

/// The length of the longest column: the last widening depth.
pub open spec fn max_cols_len(cols: Seq<ColumnView>) -> int
    decreases cols.len(),
{
    if cols.len() == 0 {
        0
    } else {
        let r = max_cols_len(cols.drop_last());
        let l = cols.last().candidates.len() as int;
        if l > r {
            l
        } else {
            r
        }
    }
}

/// Depth `d` is the first at which an id qualifies.
pub open spec fn first_at(m: StoreModel, cols: Seq<ColumnView>, id: u64, d: int) -> bool {
    qualifies(m, cols, id, d) && (d <= 1 || !qualifies(m, cols, id, d - 1))
}

proof fn lemma_col_ids_upto_mono(m: StoreModel, c: ColumnView, t1: int, t2: int)
    requires
        t1 <= t2,
    ensures
        forall|x: u64| col_ids_upto(m, c, t1).contains(x) ==> col_ids_upto(m, c, t2).contains(x),
    decreases t2 - t1,
{
    if t1 < t2 {
        lemma_col_ids_upto_mono(m, c, t1, t2 - 1);
    }
}

/// Widening never loses an id: qualification is monotone in the depth.
pub proof fn lemma_qualifies_mono(m: StoreModel, cols: Seq<ColumnView>, id: u64, d1: int, d2: int)
    requires
        d1 <= d2,
        qualifies(m, cols, id, d1),
    ensures
        qualifies(m, cols, id, d2),
{
    assert forall|ci: int| 0 <= ci < cols.len() implies col_ids(m, #[trigger] cols[ci], d2).contains(
        id,
    ) by {
        let c = cols[ci];
        assert(col_ids(m, c, d1).contains(id));
        lemma_col_ids_upto_mono(
            m,
            c,
            min_int(d1, c.candidates.len() as int),
            min_int(d2, c.candidates.len() as int),
        );
    }
}

proof fn lemma_col_ids_member(m: StoreModel, c: ColumnView, t: int)
    ensures
        forall|x: u64| #[trigger] col_ids_upto(m, c, t).contains(x) ==> exists|j: int|
            0 <= j < t && slot_set(m, c.kind, c.candidates[j]).contains(x),
    decreases t,
{
    if t > 0 {
        lemma_col_ids_member(m, c, t - 1);
        assert forall|x: u64| #[trigger] col_ids_upto(m, c, t).contains(x) implies exists|j: int|
            0 <= j < t && slot_set(m, c.kind, c.candidates[j]).contains(x) by {
            if col_ids_upto(m, c, t - 1).contains(x) {
                let j = choose|j: int|
                    0 <= j < t - 1 && slot_set(m, c.kind, c.candidates[j]).contains(x);
                assert(slot_set(m, c.kind, c.candidates[j]).contains(x));
            } else {
                assert(slot_set(m, c.kind, c.candidates[t - 1]).contains(x));
            }
        }
    }
}

/// Under the store invariant, every qualifying id resolves in the record
/// table.
pub proof fn lemma_qualifies_resolves(m: StoreModel, cols: Seq<ColumnView>, id: u64, d: int)
    requires
        store_wf(m),
        qualifies(m, cols, id, d),
    ensures
        m.fns.contains_key(id),
{
    let c = cols[0];
    assert(col_ids(m, c, d).contains(id));
    lemma_col_ids_member(m, c, min_int(d, c.candidates.len() as int));
    let j = choose|j: int|
        0 <= j < min_int(d, c.candidates.len() as int) && slot_set(m, c.kind, c.candidates[
            j
        ]).contains(id);
    let ty = c.candidates[j];
    match c.kind {
        SlotKind::Param => {
            assert(set_or_empty(m.param, ty).contains(id));
            assert(m.param.contains_key(ty));
            assert(m.param[ty].contains(id));
        },
        SlotKind::Ret => {
            assert(set_or_empty(m.ret, ty).contains(id));
            assert(m.ret.contains_key(ty));
            assert(m.ret[ty].contains(id));
        },
    }
}

/// The ids of a row sequence, in order.
pub open spec fn row_ids(rows: Seq<(u64, FnDetail)>) -> Seq<u64> {
    Seq::new(rows.len(), |k: int| rows[k].0)
}

/// What explains a finished query result: a sequence of distinct stored
/// ids, one per returned record, partitioned into contiguous depth bands.
/// Band `b` holds exactly records that first qualified at depth `b + 1`,
/// each band is ordered by crate name and rendered signature, and whenever
/// the result is shorter than the cap it holds every qualifying id.
pub open spec fn result_explained(
    m: StoreModel,
    cols: Seq<ColumnView>,
    ids: Seq<u64>,
    bands: Seq<(int, int)>,
    out: Seq<FnDetailView>,
) -> bool {
    &&& ids.len() == out.len()
    &&& ids.no_duplicates()
    &&& forall|k: int|
        0 <= k < ids.len() ==> m.fns.contains_key(#[trigger] ids[k]) && out[k] == m.fns[ids[k]]
    &&& forall|k: int|
        0 <= k < ids.len() ==> qualifies(m, cols, #[trigger] ids[k], max_cols_len(cols))
    &&& (bands.len() == 0 ==> ids.len() == 0)
    &&& (bands.len() > 0 ==> (bands[0].0 == 0 && bands[bands.len() - 1].1 == ids.len()))
    &&& forall|b: int| 0 <= b < bands.len() ==> 0 <= (#[trigger] bands[b]).0 <= bands[b].1
        <= ids.len()
    &&& forall|b: int| 0 <= b < bands.len() - 1 ==> (#[trigger] bands[b]).1 == bands[b + 1].0
    &&& forall|b: int, k: int|
        #![trigger bands[b], ids[k]]
        0 <= b < bands.len() && bands[b].0 <= k < bands[b].1 ==> first_at(m, cols, ids[k], b + 1)
    &&& forall|b: int, k: int, l: int|
        #![trigger bands[b], out[k], out[l]]
        0 <= b < bands.len() && bands[b].0 <= k < l < bands[b].1 ==> detail_le(out[k], out[l])
    &&& (out.len() < MAX_RESULTS as int ==> (forall|id: u64|
        qualifies(m, cols, id, max_cols_len(cols)) ==> ids.contains(id)))
}

/// The longest column's length.
fn max_col_len(columns: &Vec<QueryColumn>) -> (r: usize)
    ensures
        r as int == max_cols_len(columns.deep_view()),
{
    let ghost colsv = columns.deep_view();
    let mut r: usize = 0;
    let mut i: usize = 0;
    while i < columns.len()
        invariant
            i <= columns@.len(),
            colsv == columns.deep_view(),
            colsv.len() == columns@.len(),
            r as int == max_cols_len(colsv.take(i as int)),
        decreases columns@.len() - i,
    {
        let l = columns[i].candidates.len();
        if l > r {
            r = l;
        }
        proof {
            assert(colsv.take(i + 1).drop_last() =~= colsv.take(i as int));
            assert(colsv.take(i + 1).last() == colsv[i as int]);
            assert(colsv[i as int].candidates.len() == columns@[i as int].candidates@.len());
        }
        i = i + 1;
    }
    proof {
        assert(colsv.take(colsv.len() as int) =~= colsv);
    }
    r
}

/// The distinct ids a column contributes at one depth.
fn col_union(store: &Store, c: &QueryColumn, d: usize) -> (r: Vec<u64>)
    requires
        store.inv(),
    ensures
        r@.no_duplicates(),
        forall|x: u64| r@.contains(x) <==> col_ids(store@, c@, d as int).contains(x),
{
    let ghost m = store@;
    let t = if d < c.candidates.len() {
        d
    } else {
        c.candidates.len()
    };
    let mut r: Vec<u64> = Vec::new();
    let mut j: usize = 0;
    while j < t
        invariant
            store.inv(),
            m == store@,
            j <= t,
            t as int == min_int(d as int, c@.candidates.len() as int),
            t <= c.candidates@.len(),
            c@.candidates.len() == c.candidates@.len(),
            r@.no_duplicates(),
            forall|x: u64| r@.contains(x) <==> col_ids_upto(m, c@, j as int).contains(x),
        decreases t - j,
    {
        proof {
            assert(c@.candidates[j as int] == (#[trigger] c.candidates@[j as int])@);
        }
        let found = match c.kind {
            SlotKind::Param => store.lookup_param(&c.candidates[j]),
            SlotKind::Ret => store.lookup_ret(&c.candidates[j]),
        };
        match found {
            Some(v) => {
                proof {
                    assert(v@.to_set() == slot_set(m, c@.kind, c@.candidates[j as int]));
                }
                let mut w: usize = 0;
                while w < v.len()
                    invariant
                        w <= v@.len(),
                        r@.no_duplicates(),
                        v@.to_set() == slot_set(m, c@.kind, c@.candidates[j as int]),
                        forall|x: u64| r@.contains(x) <==> (col_ids_upto(m, c@, j as int).contains(
                            x,
                        ) || v@.take(w as int).contains(x)),
                    decreases v@.len() - w,
                {
                    let x = v[w];
                    let ghost r0 = r@;
                    if !ids_contain(&r, x) {
                        r.push(x);
                    }
                    proof {
                        assert forall|y: u64|
                            #![trigger r@.contains(y)]
                            r@.contains(y) <==> (r0.contains(y) || y == x) by {
                            if r@.contains(y) {
                                let a = choose|a: int| 0 <= a < r@.len() && #[trigger] r@[a] == y;
                                if a < r0.len() {
                                    assert(r0[a] == y);
                                }
                            }
                            if r0.contains(y) {
                                let a = choose|a: int| 0 <= a < r0.len() && #[trigger] r0[a] == y;
                                assert(r@[a] == y);
                            }
                            if r@.len() > r0.len() {
                                assert(r@[r0.len() as int] == x);
                            }
                            if r0.contains(x) {
                                assert(r@ == r0);
                            }
                        }
                        assert(v@.take(w + 1).drop_last() =~= v@.take(w as int));
                        assert(v@.take(w + 1).last() == v@[w as int]);
                        assert forall|y: u64|
                            #![trigger v@.take(w + 1).contains(y)]
                            v@.take(w + 1).contains(y) <==> (v@.take(w as int).contains(y) || y
                            == v@[w as int]) by {
                            if v@.take(w + 1).contains(y) {
                                let a = choose|a: int| 0 <= a < w + 1 && #[trigger] v@.take(w + 1)[a] == y;
                                if a < w {
                                    assert(v@.take(w as int)[a] == y);
                                }
                            }
                            if v@.take(w as int).contains(y) {
                                let a = choose|a: int| 0 <= a < w && #[trigger] v@.take(w as int)[a] == y;
                                assert(v@.take(w + 1)[a] == y);
                            }
                            assert(v@.take(w + 1)[w as int] == v@[w as int]);
                        }
                    }
                    w = w + 1;
                }
                proof {
                    assert(v@.take(v@.len() as int) =~= v@);
                    assert forall|x: u64| r@.contains(x) <==> col_ids_upto(m, c@, j + 1).contains(
                        x,
                    ) by {
                        assert(v@.contains(x) == v@.to_set().contains(x));
                    }
                }
            },
            None => {
                proof {
                    assert forall|x: u64| r@.contains(x) <==> col_ids_upto(m, c@, j + 1).contains(
                        x,
                    ) by {
                        assert(!slot_set(m, c@.kind, c@.candidates[j as int]).contains(x));
                    }
                }
            },
        }
        j = j + 1;
    }
    r
}

/// The distinct ids common to every column at one depth.
fn qualifying_at(store: &Store, columns: &Vec<QueryColumn>, d: usize) -> (r: Vec<u64>)
    requires
        store.inv(),
        columns@.len() > 0,
    ensures
        r@.no_duplicates(),
        forall|x: u64| r@.contains(x) <==> qualifies(store@, columns.deep_view(), x, d as int),
{
    let ghost m = store@;
    let ghost colsv = columns.deep_view();
    proof {
        assert(columns@[0]@ == colsv[0]);
    }
    let mut cur = col_union(store, &columns[0], d);
    let mut ci: usize = 1;
    while ci < columns.len()
        invariant
            store.inv(),
            m == store@,
            colsv == columns.deep_view(),
            colsv.len() == columns@.len(),
            1 <= ci <= columns@.len(),
            cur@.no_duplicates(),
            forall|x: u64| cur@.contains(x) <==> (forall|cj: int|
                0 <= cj < ci ==> col_ids(m, #[trigger] colsv[cj], d as int).contains(x)),
        decreases columns@.len() - ci,
    {
        proof {
            assert(columns@[ci as int]@ == colsv[ci as int]);
        }
        let other = col_union(store, &columns[ci], d);
        let mut merged: Vec<u64> = Vec::new();
        let mut w: usize = 0;
        while w < cur.len()
            invariant
                w <= cur@.len(),
                cur@.no_duplicates(),
                merged@.no_duplicates(),
                forall|x: u64| merged@.contains(x) <==> (cur@.take(w as int).contains(x)
                    && other@.contains(x)),
            decreases cur@.len() - w,
        {
            let x = cur[w];
            proof {
                assert(!cur@.take(w as int).contains(x)) by {
                    if cur@.take(w as int).contains(x) {
                        let a = choose|a: int| 0 <= a < w && #[trigger] cur@.take(w as int)[a] == x;
                        assert(cur@[a] == cur@[w as int]);
                    }
                }
            }
            let ghost mg0 = merged@;
            if ids_contain(&other, x) {
                merged.push(x);
            }
            proof {
                assert forall|y: u64|
                    #![trigger merged@.contains(y)]
                    merged@.contains(y) <==> (mg0.contains(y) || (y == x && other@.contains(
                    x,
                ))) by {
                    if merged@.contains(y) {
                        let a = choose|a: int|
                            0 <= a < merged@.len() && #[trigger] merged@[a] == y;
                        if a < mg0.len() {
                            assert(mg0[a] == y);
                        }
                    }
                    if mg0.contains(y) {
                        let a = choose|a: int| 0 <= a < mg0.len() && #[trigger] mg0[a] == y;
                        assert(merged@[a] == y);
                    }
                    if merged@.len() > mg0.len() {
                        assert(merged@[mg0.len() as int] == x);
                    }
                }
                assert forall|y: u64|
                    #![trigger cur@.take(w + 1).contains(y)]
                    cur@.take(w + 1).contains(y) <==> (cur@.take(w as int).contains(y) || y
                    == cur@[w as int]) by {
                    if cur@.take(w + 1).contains(y) {
                        let a = choose|a: int| 0 <= a < w + 1 && #[trigger] cur@.take(w + 1)[a] == y;
                        if a < w {
                            assert(cur@.take(w as int)[a] == y);
                        }
                    }
                    if cur@.take(w as int).contains(y) {
                        let a = choose|a: int| 0 <= a < w && #[trigger] cur@.take(w as int)[a] == y;
                        assert(cur@.take(w + 1)[a] == y);
                    }
                    assert(cur@.take(w + 1)[w as int] == cur@[w as int]);
                }
            }
            w = w + 1;
        }
        proof {
            assert(cur@.take(cur@.len() as int) =~= cur@);
        }
        cur = merged;
        proof {
            assert forall|x: u64| cur@.contains(x) <==> (forall|cj: int|
                0 <= cj < ci + 1 ==> col_ids(m, #[trigger] colsv[cj], d as int).contains(x)) by {
                if cur@.contains(x) {
                    assert(forall|cj: int|
                        0 <= cj < ci ==> col_ids(m, #[trigger] colsv[cj], d as int).contains(x));
                    assert(col_ids(m, colsv[ci as int], d as int).contains(x));
                }
            }
        }
        ci = ci + 1;
    }
    cur
}

/// Position `k` of `t` holds a row drawn from the window `[lo, hi)` of `s`.
pub open spec fn drawn_from(
    t: Seq<(u64, FnDetail)>,
    s: Seq<(u64, FnDetail)>,
    lo: int,
    hi: int,
    k: int,
) -> bool {
    exists|k0: int| #![trigger s[k0]] lo <= k0 < hi && t[k] == s[k0]
}

/// Sort one band of rows in place by crate name, then rendered signature.
/// Rows outside the band do not move; the band is permuted.
fn sort_band(rows: &mut Vec<(u64, FnDetail)>, lo: usize, hi: usize)
    requires
        lo <= hi <= old(rows)@.len(),
        forall|k: int, l: int|
            0 <= k < l < old(rows)@.len() ==> (#[trigger] old(rows)@[k]).0 != (
            #[trigger] old(rows)@[l]).0,
    ensures
        final(rows)@.len() == old(rows)@.len(),
        forall|k: int|
            0 <= k < old(rows)@.len() && !(lo <= k < hi) ==> #[trigger] final(rows)@[k] == old(
                rows,
            )@[k],
        forall|k: int|
            lo <= k < hi ==> #[trigger] drawn_from(
                final(rows)@,
                old(rows)@,
                lo as int,
                hi as int,
                k,
            ),
        forall|k: int, l: int|
            0 <= k < l < final(rows)@.len() ==> (#[trigger] final(rows)@[k]).0 != (
            #[trigger] final(rows)@[l]).0,
        forall|x: u64| row_ids(final(rows)@).contains(x) <==> row_ids(old(rows)@).contains(x),
        forall|k: int, l: int|
            lo <= k < l < hi ==> detail_le(
                (#[trigger] final(rows)@[k]).1@,
                (#[trigger] final(rows)@[l]).1@,
            ),
{
    let ghost orig = rows@;
    if hi <= lo {
        return ;
    }
    let mut i: usize = lo + 1;
    proof {
        assert forall|k: int| lo <= k < hi implies #[trigger] drawn_from(
            rows@,
            orig,
            lo as int,
            hi as int,
            k,
        ) by {
            assert(rows@[k] == orig[k]);
        }
    }
    while i < hi
        invariant
            lo < hi <= rows@.len(),
            lo < i <= hi,
            rows@.len() == orig.len(),
            forall|k: int|
                0 <= k < orig.len() && !(lo <= k < hi) ==> #[trigger] rows@[k] == orig[k],
            forall|k: int|
                lo <= k < hi ==> #[trigger] drawn_from(rows@, orig, lo as int, hi as int, k),
            forall|x: u64| row_ids(rows@).contains(x) <==> row_ids(orig).contains(x),
            forall|k: int, l: int|
                0 <= k < l < rows@.len() ==> (#[trigger] rows@[k]).0 != (#[trigger] rows@[l]).0,
            forall|k: int, l: int|
                lo <= k < l < i ==> detail_le(
                    (#[trigger] rows@[k]).1@,
                    (#[trigger] rows@[l]).1@,
                ),
        decreases hi - i,
    {
        let mut p: usize = lo;
        while p < i && detail_le_exec(&rows[p].1, &rows[i].1)
            invariant
                lo <= p <= i < hi <= rows@.len(),
                forall|a: int|
                    lo <= a < p ==> detail_le((#[trigger] rows@[a]).1@, rows@[i as int].1@),
            decreases i - p,
        {
            p = p + 1;
        }
        if p < i {
            let ghost s = rows@;
            proof {
                assert(!detail_le(s[p as int].1@, s[i as int].1@));
                lemma_detail_le_total(s[p as int].1@, s[i as int].1@);
                assert(detail_le(s[i as int].1@, s[p as int].1@));
            }
            let row = rows.remove(i);
            rows.insert(p, row);
            proof {
                let t = rows@;
                assert(t.len() == s.len());
                assert(forall|k: int| 0 <= k < p ==> #[trigger] t[k] == s[k]);
                assert(t[p as int] == s[i as int]);
                assert(forall|k: int| p < k <= i ==> #[trigger] t[k] == s[k - 1]);
                assert(forall|k: int| i < k < t.len() ==> #[trigger] t[k] == s[k]);
                // permutation within the band, composed with the original
                assert forall|k: int| lo <= k < hi implies #[trigger] drawn_from(
                    t,
                    orig,
                    lo as int,
                    hi as int,
                    k,
                ) by {
                    if k < p || k > i {
                        assert(t[k] == s[k]);
                        assert(drawn_from(s, orig, lo as int, hi as int, k));
                        let k0 = choose|k0: int|
                            #![trigger orig[k0]]
                            lo <= k0 < hi && s[k] == orig[k0];
                        assert(t[k] == orig[k0]);
                    } else if k == p {
                        assert(drawn_from(s, orig, lo as int, hi as int, i as int));
                        let k0 = choose|k0: int|
                            #![trigger orig[k0]]
                            lo <= k0 < hi && s[i as int] == orig[k0];
                        assert(t[k] == orig[k0]);
                    } else {
                        assert(t[k] == s[k - 1]);
                        assert(drawn_from(s, orig, lo as int, hi as int, k - 1));
                        let k0 = choose|k0: int|
                            #![trigger orig[k0]]
                            lo <= k0 < hi && s[k - 1] == orig[k0];
                        assert(t[k] == orig[k0]);
                    }
                }
                // ids stay pairwise distinct
                assert forall|k: int, l: int|
                    0 <= k < l < t.len() implies (#[trigger] t[k]).0 != (#[trigger] t[l]).0 by {
                    let a = if k < p || k > i {
                        k
                    } else if k == p {
                        i as int
                    } else {
                        k - 1
                    };
                    let b = if l < p || l > i {
                        l
                    } else if l == p {
                        i as int
                    } else {
                        l - 1
                    };
                    assert(t[k] == s[a] && t[l] == s[b]);
                    assert(a != b);
                    if a < b {
                        assert(s[a].0 != s[b].0);
                    } else {
                        assert(s[b].0 != s[a].0);
                    }
                }
                // the window rotation keeps the same ids
                assert forall|x: u64| row_ids(t).contains(x) <==> row_ids(s).contains(x) by {
                    if row_ids(t).contains(x) {
                        let a = choose|a: int|
                            0 <= a < t.len() && #[trigger] row_ids(t)[a] == x;
                        let a0 = if a < p || a > i {
                            a
                        } else if a == p {
                            i as int
                        } else {
                            a - 1
                        };
                        assert(t[a] == s[a0]);
                        assert(row_ids(s)[a0] == x);
                    }
                    if row_ids(s).contains(x) {
                        let a = choose|a: int|
                            0 <= a < s.len() && #[trigger] row_ids(s)[a] == x;
                        let a1 = if a < p || a > i {
                            a
                        } else if a == i {
                            p as int
                        } else {
                            a + 1
                        };
                        assert(t[a1] == s[a]);
                        assert(row_ids(t)[a1] == x);
                    }
                }
                // the sorted prefix grows by one
                assert forall|k: int, l: int|
                    lo <= k < l < i + 1 implies detail_le(
                        (#[trigger] t[k]).1@,
                        (#[trigger] t[l]).1@,
                    ) by {
                    if l < p {
                        assert(t[k] == s[k] && t[l] == s[l]);
                    } else if k < p && l == p {
                        assert(t[k] == s[k] && t[l] == s[i as int]);
                        assert(detail_le(s[k].1@, s[i as int].1@));
                    } else if k < p && l > p {
                        assert(t[k] == s[k] && t[l] == s[l - 1]);
                        assert(detail_le(s[k].1@, s[l - 1].1@));
                    } else if k == p {
                        assert(t[k] == s[i as int] && t[l] == s[l - 1]);
                        assert(detail_le(s[i as int].1@, s[p as int].1@));
                        if l - 1 > p {
                            assert(detail_le(s[p as int].1@, s[l - 1].1@));
                            lemma_detail_le_trans(s[i as int].1@, s[p as int].1@, s[l - 1].1@);
                        }
                    } else {
                        assert(t[k] == s[k - 1] && t[l] == s[l - 1]);
                        assert(detail_le(s[k - 1].1@, s[l - 1].1@));
                    }
                }
            }
        }
        i = i + 1;
    }
}

/// Ends never step backwards along the band chain.
proof fn lemma_bands_chain(bands: Seq<(usize, usize)>, b1: int, b2: int)
    requires
        forall|b: int| 0 <= b < bands.len() ==> (#[trigger] bands[b]).0 <= bands[b].1,
        forall|b: int| 0 <= b < bands.len() - 1 ==> (#[trigger] bands[b]).1 == bands[b + 1].0,
        0 <= b1 <= b2 < bands.len(),
    ensures
        bands[b1].1 <= bands[b2].1,
        bands[b1].1 <= bands[b2].0 || b1 == b2,
    decreases b2 - b1,
{
    if b1 < b2 {
        lemma_bands_chain(bands, b1 + 1, b2);
        assert(bands[b1].1 == bands[b1 + 1].0);
    }
}

/// Run a planned query's resolved columns against the store: intersect the
/// columns depth by depth, emit newly qualifying records band by band,
/// stop at the cap, and order every band by crate and rendering.
#[verifier::rlimit(100)]
pub fn run_query(store: &Store, columns: &Vec<QueryColumn>) -> (results: Vec<FnDetail>)
    requires
        store.inv(),
    ensures
        results@.len() <= MAX_RESULTS as int,
        columns@.len() == 0 ==> results@.len() == 0,
        exists|ids: Seq<u64>, bands: Seq<(int, int)>|
            result_explained(store@, columns.deep_view(), ids, bands, results.deep_view()),
{
    let ghost m = store@;
    let ghost colsv = columns.deep_view();
    if columns.len() == 0 {
        let results: Vec<FnDetail> = Vec::new();
        proof {
            let ids = Seq::<u64>::empty();
            let bands = Seq::<(int, int)>::empty();
            assert(result_explained(m, colsv, ids, bands, results.deep_view()));
        }
        return results;
    }
    let maxd = max_col_len(columns);
    let mut ids: Vec<u64> = Vec::new();
    let mut bands: Vec<(usize, usize)> = Vec::new();
    let mut dd: usize = 0;
    proof {
        assert forall|x: u64| ids@.contains(x) <==> qualifies(m, colsv, x, 0int) by {
            if qualifies(m, colsv, x, 0int) {
                let c = colsv[0];
                assert(col_ids(m, c, 0int).contains(x));
                assert(min_int(0int, c.candidates.len() as int) <= 0);
            }
        }
    }
    while dd < maxd && ids.len() < MAX_RESULTS
        invariant
            store.inv(),
            m == store@,
            colsv == columns.deep_view(),
            colsv.len() == columns@.len(),
            columns@.len() > 0,
            maxd as int == max_cols_len(colsv),
            0 <= dd <= maxd,
            ids@.no_duplicates(),
            forall|x: u64| ids@.contains(x) <==> qualifies(m, colsv, x, dd as int),
            bands@.len() == dd,
            forall|b: int| 0 <= b < bands@.len() ==> (#[trigger] bands@[b]).0 < MAX_RESULTS,
            forall|b: int|
                0 <= b < bands@.len() ==> (#[trigger] bands@[b]).0 <= bands@[b].1 <= ids@.len(),
            forall|b: int|
                0 <= b < bands@.len() - 1 ==> (#[trigger] bands@[b]).1 == bands@[b + 1].0,
            bands@.len() > 0 ==> bands@[0].0 == 0 && bands@[bands@.len() - 1].1 == ids@.len(),
            bands@.len() == 0 ==> ids@.len() == 0,
            forall|b: int, k: int|
                #![trigger bands@[b], ids@[k]]
                0 <= b < bands@.len() && bands@[b].0 <= k < bands@[b].1 ==> first_at(
                    m,
                    colsv,
                    ids@[k],
                    b + 1,
                ),
        decreases maxd - dd,
    {
        let cur = qualifying_at(store, columns, dd + 1);
        let mut fresh: Vec<u64> = Vec::new();
        let mut w: usize = 0;
        while w < cur.len()
            invariant
                w <= cur@.len(),
                cur@.no_duplicates(),
                fresh@.no_duplicates(),
                ids@.no_duplicates(),
                forall|x: u64| fresh@.contains(x) <==> (cur@.take(w as int).contains(x)
                    && !ids@.contains(x)),
            decreases cur@.len() - w,
        {
            let x = cur[w];
            proof {
                assert(!cur@.take(w as int).contains(x)) by {
                    if cur@.take(w as int).contains(x) {
                        let a = choose|a: int|
                            0 <= a < w && #[trigger] cur@.take(w as int)[a] == x;
                        assert(cur@[a] == cur@[w as int]);
                    }
                }
            }
            let ghost f0 = fresh@;
            if !ids_contain(&ids, x) && !ids_contain(&fresh, x) {
                fresh.push(x);
            }
            proof {
                assert forall|y: u64|
                    #![trigger fresh@.contains(y)]
                    fresh@.contains(y) <==> (f0.contains(y) || (y == x && !ids@.contains(x)
                        && !f0.contains(x))) by {
                    if fresh@.contains(y) {
                        let a = choose|a: int|
                            0 <= a < fresh@.len() && #[trigger] fresh@[a] == y;
                        if a < f0.len() {
                            assert(f0[a] == y);
                        }
                    }
                    if f0.contains(y) {
                        let a = choose|a: int| 0 <= a < f0.len() && #[trigger] f0[a] == y;
                        assert(fresh@[a] == y);
                    }
                    if fresh@.len() > f0.len() {
                        assert(fresh@[f0.len() as int] == x);
                    }
                }
                assert forall|y: u64|
                    #![trigger cur@.take(w + 1).contains(y)]
                    cur@.take(w + 1).contains(y) <==> (cur@.take(w as int).contains(y) || y
                    == cur@[w as int]) by {
                    if cur@.take(w + 1).contains(y) {
                        let a = choose|a: int|
                            0 <= a < w + 1 && #[trigger] cur@.take(w + 1)[a] == y;
                        if a < w {
                            assert(cur@.take(w as int)[a] == y);
                        }
                    }
                    if cur@.take(w as int).contains(y) {
                        let a = choose|a: int|
                            0 <= a < w && #[trigger] cur@.take(w as int)[a] == y;
                        assert(cur@.take(w + 1)[a] == y);
                    }
                    assert(cur@.take(w + 1)[w as int] == cur@[w as int]);
                }
            }
            w = w + 1;
        }
        proof {
            assert(cur@.take(cur@.len() as int) =~= cur@);
        }
        let start = ids.len();
        let ghost ids0 = ids@;
        let ghost freshv = fresh@;
        ids.append(&mut fresh);
        let stop = ids.len();
        bands.push((start, stop));
        proof {
            assert(ids@ == ids0 + freshv);
            assert(forall|k: int| 0 <= k < ids0.len() ==> #[trigger] ids@[k] == ids0[k]);
            assert(forall|k: int|
                ids0.len() <= k < ids@.len() ==> #[trigger] ids@[k] == freshv[k - ids0.len()]);
            assert forall|y: u64|
                #![trigger ids@.contains(y)]
                ids@.contains(y) <==> (ids0.contains(y) || freshv.contains(y)) by {
                if ids@.contains(y) {
                    let a = choose|a: int| 0 <= a < ids@.len() && #[trigger] ids@[a] == y;
                    if a < ids0.len() {
                        assert(ids0[a] == y);
                    } else {
                        assert(freshv[a - ids0.len()] == y);
                    }
                }
                if ids0.contains(y) {
                    let a = choose|a: int| 0 <= a < ids0.len() && #[trigger] ids0[a] == y;
                    assert(ids@[a] == y);
                }
                if freshv.contains(y) {
                    let a = choose|a: int| 0 <= a < freshv.len() && #[trigger] freshv[a] == y;
                    assert(ids@[a + ids0.len()] == y);
                }
            }
            assert forall|x: u64| ids@.contains(x) <==> qualifies(m, colsv, x, dd + 1) by {
                if ids0.contains(x) {
                    lemma_qualifies_mono(m, colsv, x, dd as int, dd + 1);
                }
            }
            assert(ids@.no_duplicates()) by {
                assert(forall|k: int, l: int|
                    0 <= k < l < ids@.len() ==> ids@[k] != ids@[l]) by {
                    assert(forall|k: int, l: int|
                        0 <= k < l < ids0.len() ==> ids0[k] != ids0[l]);
                    assert(forall|k: int, l: int|
                        0 <= k < l < freshv.len() ==> freshv[k] != freshv[l]);
                    assert(forall|k: int|
                        0 <= k < freshv.len() ==> freshv.contains(#[trigger] freshv[k]));
                    assert(forall|k: int|
                        0 <= k < ids0.len() ==> ids0.contains(#[trigger] ids0[k]));
                }
            }
            assert forall|b: int, k: int|
                #![trigger bands@[b], ids@[k]]
                0 <= b < bands@.len() && bands@[b].0 <= k < bands@[b].1 implies first_at(
                    m,
                    colsv,
                    ids@[k],
                    b + 1,
                ) by {
                if b < bands@.len() - 1 {
                    assert(bands@[b] == bands@.drop_last()[b]);
                    assert(ids@[k] == ids0[k]);
                } else {
                    assert(ids@[k] == freshv[k - ids0.len()]);
                    assert(freshv.contains(ids@[k]));
                    assert(!ids0.contains(ids@[k]));
                    assert(qualifies(m, colsv, ids@[k], dd + 1));
                    assert(!qualifies(m, colsv, ids@[k], dd as int));
                }
            }
        }
        dd = dd + 1;
    }
    let ghost dfin = dd as int;
    // truncate at the cap and clamp the last band
    let end = if ids.len() < MAX_RESULTS {
        ids.len()
    } else {
        MAX_RESULTS
    };
    let ghost idsfull = ids@;
    let ghost bfull = bands@;
    ids.truncate(end);
    if bands.len() > 0 {
        let lastb = match bands.pop() {
            Some(x) => x,
            None => {
                proof {
                    assert(false);
                }
                vstd::pervasive::unreached()
            },
        };
        bands.push((lastb.0, end));
        proof {
            assert(bands@ =~= bfull.update(bfull.len() - 1, (lastb.0, end)));
        }
    }
    proof {
        assert(ids@ == idsfull.take(end as int));
        assert(forall|k: int| 0 <= k < end ==> #[trigger] ids@[k] == idsfull[k]);
        assert(ids@.no_duplicates()) by {
            assert(forall|k: int, l: int| 0 <= k < l < ids@.len() ==> ids@[k] != ids@[l]);
        }
        assert forall|x: u64| ids@.contains(x) implies qualifies(
            m,
            colsv,
            x,
            max_cols_len(colsv),
        ) by {
            let a = choose|a: int| 0 <= a < ids@.len() && #[trigger] ids@[a] == x;
            assert(idsfull[a] == x);
            assert(idsfull.contains(x));
            lemma_qualifies_mono(m, colsv, x, dfin, maxd as int);
        }
        // the clamped band list still partitions the truncated ids
        if bands@.len() > 0 {
            assert forall|b: int| 0 <= b < bands@.len() implies (#[trigger] bands@[b]).0
                <= bands@[b].1 <= ids@.len() by {
                if b < bands@.len() - 1 {
                    assert(bands@[b] == bfull[b]);
                    lemma_bands_chain(bfull, b, bfull.len() - 1);
                    assert(bfull[b].1 <= bfull[bfull.len() - 1].0);
                    assert(bfull[bfull.len() - 1].0 < MAX_RESULTS);
                    assert(bfull[b].1 <= idsfull.len());
                } else {
                    assert(bands@[b].0 == bfull[b].0 && bands@[b].1 == end);
                    assert(bfull[b].0 < MAX_RESULTS);
                    assert(bfull[b].0 <= bfull[b].1);
                }
            }
            assert(bands@[0].0 == 0 && bands@[bands@.len() - 1].1 == ids@.len());
            assert forall|b: int, k: int|
                #![trigger bands@[b], ids@[k]]
                0 <= b < bands@.len() && bands@[b].0 <= k < bands@[b].1 implies first_at(
                    m,
                    colsv,
                    ids@[k],
                    b + 1,
                ) by {
                assert(bands@[b].0 == bfull[b].0);
                assert(bands@[b].1 <= bfull[b].1);
                assert(ids@[k] == idsfull[k]);
                assert(first_at(m, colsv, idsfull[k], b + 1));
            }
        }
    }
    // resolve ids to rows
    let mut rows: Vec<(u64, FnDetail)> = Vec::new();
    let mut k: usize = 0;
    while k < ids.len()
        invariant
            store.inv(),
            m == store@,
            colsv == columns.deep_view(),
            columns@.len() > 0,
            k <= ids@.len(),
            rows@.len() == k,
            forall|x: u64| ids@.contains(x) ==> qualifies(m, colsv, x, max_cols_len(colsv)),
            forall|a: int| 0 <= a < k ==> (#[trigger] rows@[a]).0 == ids@[a],
            forall|a: int|
                0 <= a < k ==> m.fns.contains_key((#[trigger] rows@[a]).0) && rows@[a].1@
                    == m.fns[rows@[a].0],
        decreases ids@.len() - k,
    {
        let id = ids[k];
        proof {
            assert(ids@.contains(id));
            lemma_qualifies_resolves(m, colsv, id, max_cols_len(colsv));
        }
        let detail = match store.get(id) {
            Some(x) => x.clone(),
            None => {
                proof {
                    assert(false);
                }
                vstd::pervasive::unreached()
            },
        };
        rows.push((id, detail));
        k = k + 1;
    }
    proof {
        assert forall|x: u64| row_ids(rows@).contains(x) <==> ids@.contains(x) by {
            if row_ids(rows@).contains(x) {
                let a = choose|a: int| 0 <= a < rows@.len() && #[trigger] row_ids(rows@)[a] == x;
                assert(ids@[a] == x);
            }
            if ids@.contains(x) {
                let a = choose|a: int| 0 <= a < ids@.len() && #[trigger] ids@[a] == x;
                assert(row_ids(rows@)[a] == x);
            }
        }
        assert forall|a: int, c: int|
            0 <= a < c < rows@.len() implies (#[trigger] rows@[a]).0 != (#[trigger] rows@[c]).0
            by {
            assert(rows@[a].0 == ids@[a] && rows@[c].0 == ids@[c]);
        }
    }
    // order every band
    let mut b: usize = 0;
    while b < bands.len()
        invariant
            b <= bands@.len(),
            rows@.len() == ids@.len(),
            ids@.no_duplicates(),
            forall|x: u64| ids@.contains(x) ==> qualifies(m, colsv, x, max_cols_len(colsv)),
            forall|bb: int|
                0 <= bb < bands@.len() ==> (#[trigger] bands@[bb]).0 <= bands@[bb].1
                    <= rows@.len(),
            forall|bb: int|
                0 <= bb < bands@.len() - 1 ==> (#[trigger] bands@[bb]).1 == bands@[bb + 1].0,
            bands@.len() > 0 ==> bands@[0].0 == 0 && bands@[bands@.len() - 1].1 == rows@.len(),
            bands@.len() == 0 ==> rows@.len() == 0,
            forall|a: int, c: int|
                0 <= a < c < rows@.len() ==> (#[trigger] rows@[a]).0 != (#[trigger] rows@[c]).0,
            forall|a: int|
                0 <= a < rows@.len() ==> m.fns.contains_key((#[trigger] rows@[a]).0) && rows@[
                    a
                ].1@ == m.fns[rows@[a].0],
            forall|x: u64| row_ids(rows@).contains(x) <==> ids@.contains(x),
            forall|bb: int, a: int|
                #![trigger bands@[bb], rows@[a]]
                0 <= bb < bands@.len() && bands@[bb].0 <= a < bands@[bb].1 ==> first_at(
                    m,
                    colsv,
                    rows@[a].0,
                    bb + 1,
                ),
            forall|bb: int, a: int, c: int|
                #![trigger bands@[bb], rows@[a], rows@[c]]
                0 <= bb < b && bands@[bb].0 <= a < c < bands@[bb].1 ==> detail_le(
                    rows@[a].1@,
                    rows@[c].1@,
                ),
        decreases bands@.len() - b,
    {
        let lo = bands[b].0;
        let hi = bands[b].1;
        let ghost before = rows@;
        sort_band(&mut rows, lo, hi);
        proof {
            assert forall|x: u64| row_ids(rows@).contains(x) <==> ids@.contains(x) by {
                assert(row_ids(rows@).contains(x) <==> row_ids(before).contains(x));
            }
            assert forall|a: int|
                0 <= a < rows@.len() implies m.fns.contains_key((#[trigger] rows@[a]).0)
                && rows@[a].1@ == m.fns[rows@[a].0] by {
                if lo <= a < hi {
                    assert(drawn_from(rows@, before, lo as int, hi as int, a));
                    let a0 = choose|a0: int|
                        #![trigger before[a0]]
                        lo <= a0 < hi && rows@[a] == before[a0];
                    assert(m.fns.contains_key(before[a0].0));
                } else {
                    assert(rows@[a] == before[a]);
                }
            }
            assert forall|bb: int, a: int|
                #![trigger bands@[bb], rows@[a]]
                0 <= bb < bands@.len() && bands@[bb].0 <= a < bands@[bb].1 implies first_at(
                    m,
                    colsv,
                    rows@[a].0,
                    bb + 1,
                ) by {
                if lo <= a < hi {
                    assert(drawn_from(rows@, before, lo as int, hi as int, a));
                    let a0 = choose|a0: int|
                        #![trigger before[a0]]
                        lo <= a0 < hi && rows@[a] == before[a0];
                    assert(bb == b) by {
                        if bb < b as int {
                            lemma_bands_chain(bands@, bb, b as int);
                        }
                        if bb > b as int {
                            lemma_bands_chain(bands@, b as int, bb);
                        }
                    }
                    assert(first_at(m, colsv, before[a0].0, b + 1));
                } else {
                    assert(rows@[a] == before[a]);
                }
            }
            assert forall|bb: int, a: int, c: int|
                #![trigger bands@[bb], rows@[a], rows@[c]]
                0 <= bb < b + 1 && bands@[bb].0 <= a < c < bands@[bb].1 implies detail_le(
                    rows@[a].1@,
                    rows@[c].1@,
                ) by {
                if bb == b as int {
                } else {
                    assert(bb < b as int);
                    assert(bands@[bb].1 <= bands@[b as int].0) by {
                        lemma_bands_chain(bands@, bb, b as int);
                    }
                    assert(rows@[a] == before[a] && rows@[c] == before[c]);
                }
            }
        }
        b = b + 1;
    }
    // strip ids, keeping the explanation as the witness
    let mut results: Vec<FnDetail> = Vec::new();
    let mut k2: usize = 0;
    while k2 < rows.len()
        invariant
            k2 <= rows@.len(),
            results@.len() == k2,
            forall|a: int| 0 <= a < k2 ==> (#[trigger] results@[a])@ == rows@[a].1@,
        decreases rows@.len() - k2,
    {
        results.push(rows[k2].1.clone());
        k2 = k2 + 1;
    }
    proof {
        let widx = row_ids(rows@);
        let wbands = Seq::new(
            bands@.len(),
            |bb: int| ((bands@[bb].0) as int, (bands@[bb].1) as int),
        );
        let out = results.deep_view();
        assert(out.len() == rows@.len());
        assert(forall|a: int| 0 <= a < out.len() ==> out[a] == (#[trigger] rows@[a]).1@);
        assert(widx.no_duplicates()) by {
            assert(forall|a: int, c: int| 0 <= a < c < widx.len() ==> widx[a] != widx[c]);
        }
        assert forall|a: int| 0 <= a < widx.len() implies m.fns.contains_key(#[trigger] widx[a])
            && out[a] == m.fns[widx[a]] by {
            assert(widx[a] == rows@[a].0);
        }
        assert forall|a: int| 0 <= a < widx.len() implies qualifies(
            m,
            colsv,
            #[trigger] widx[a],
            max_cols_len(colsv),
        ) by {
            assert(row_ids(rows@).contains(widx[a])) by {
                assert(row_ids(rows@)[a] == widx[a]);
            }
            assert(ids@.contains(widx[a]));
        }
        if out.len() < MAX_RESULTS as int {
            assert forall|id: u64|
                qualifies(m, colsv, id, max_cols_len(colsv)) implies widx.contains(id) by {
                assert(idsfull.contains(id)) by {
                    if dfin < maxd as int {
                        assert(idsfull.len() >= MAX_RESULTS);
                        assert(ids@.len() == MAX_RESULTS);
                        assert(false);
                    } else {
                        lemma_qualifies_mono(m, colsv, id, max_cols_len(colsv), dfin);
                    }
                }
                assert(ids@.contains(id)) by {
                    assert(end == idsfull.len());
                    assert(ids@ =~= idsfull);
                }
                assert(row_ids(rows@).contains(id));
            }
        }
        assert forall|bb: int, a: int|
            #![trigger wbands[bb], widx[a]]
            0 <= bb < wbands.len() && wbands[bb].0 <= a < wbands[bb].1 implies first_at(
                m,
                colsv,
                widx[a],
                bb + 1,
            ) by {
            assert(wbands[bb].0 == bands@[bb].0 as int && wbands[bb].1 == bands@[bb].1 as int);
            assert(widx[a] == rows@[a].0);
        }
        assert forall|bb: int, a: int, c: int|
            #![trigger wbands[bb], out[a], out[c]]
            0 <= bb < wbands.len() && wbands[bb].0 <= a < c < wbands[bb].1 implies detail_le(
                out[a],
                out[c],
            ) by {
            assert(wbands[bb].0 == bands@[bb].0 as int && wbands[bb].1 == bands@[bb].1 as int);
            assert(out[a] == rows@[a].1@ && out[c] == rows@[c].1@);
        }
        if wbands.len() > 0 {
            assert(wbands[0].0 == 0 && wbands[wbands.len() - 1].1 == widx.len());
        }
        assert(result_explained(m, colsv, widx, wbands, out));
    }
    results
}

/// Plan a search request: one slot for the return-type query when given,
/// then one slot per parameter-type query in order; an empty parameter
/// list means "no arguments" and becomes the one reserved sentinel term.
/// No request terms at all plan no slots, and such a query returns nothing.
pub fn plan_query(params_search: Option<Vec<String>>, ret_search: Option<String>) -> (r: Vec<
    QuerySlot,
>)
    ensures
        (params_search is None && ret_search is None) ==> r@.len() == 0,
        ret_search is Some ==> r@.len() >= 1 && r@[0].kind is Ret && r@[0].term@
            == ret_search->0@,
        ret_search is None ==> (forall|i: int| 0 <= i < r@.len() ==> (#[trigger] r@[i]).kind
            is Param),
        (match params_search {
            Some(ps) => {
                let base: int = if ret_search is Some {
                    1
                } else {
                    0
                };
                if ps@.len() == 0 {
                    r@.len() == base + 1 && r@[base].kind is Param && r@[base].term@ == noargs()
                } else {
                    r@.len() == base + ps@.len() && (forall|i: int|
                        0 <= i < ps@.len() ==> (#[trigger] r@[base + i]).kind is Param && r@[base
                            + i].term@ == ps@[i]@)
                }
            },
            None => r@.len() == (if ret_search is Some {
                1int
            } else {
                0
            }),
        }),
{
    let mut r: Vec<QuerySlot> = Vec::new();
    match ret_search {
        Some(term) => {
            r.push(QuerySlot { kind: SlotKind::Ret, term });
        },
        None => {},
    }
    let ghost base = r@.len() as int;
    let ghost r0 = r@;
    match params_search {
        Some(ps) => {
            if ps.len() == 0 {
                let term = noargs_string();
                r.push(QuerySlot { kind: SlotKind::Param, term });
            } else {
                let mut i: usize = 0;
                while i < ps.len()
                    invariant
                        i <= ps@.len(),
                        r@.len() == base + i,
                        0 <= base <= 1,
                        r0.len() == base,
                        forall|k: int| 0 <= k < base ==> #[trigger] r@[k] == r0[k],
                        forall|k: int| 0 <= k < base ==> (#[trigger] r@[k]).kind is Ret,
                        forall|k: int|
                            0 <= k < i ==> (#[trigger] r@[base + k]).kind is Param && r@[base
                                + k].term@ == ps@[k]@,
                        forall|k: int|
                            0 <= k < r@.len() && base == 0 ==> (#[trigger] r@[k]).kind is Param,
                    decreases ps@.len() - i,
                {
                    let term = ps[i].clone();
                    r.push(QuerySlot { kind: SlotKind::Param, term });
                    i = i + 1;
                }
            }
        },
        None => {},
    }
    r
}

} // verus!
