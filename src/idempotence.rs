//! Applying a batch twice: when no two upserts of the batch name the same
//! row, the second application changes nothing.
use vstd::prelude::*;

use crate::apply::{
    accepted, accepted_rows, apply_batch, apply_step, fold_up, in_phase, last_of, lemma_fold_up_content,
    lemma_in_phase_members, lemma_run_concat, lemma_run_upserts, lemma_run_wf, lemma_unfold_phases, phase,
    replay_order, run, spec_wire_kind,
};
use crate::record::{SyncRecord, TableKind};
use crate::store::{
    has_id, ids_unique, keep_linked, lemma_filter_keeps_all, lemma_filter_rows, linked, without_id, RowView,
    StoreView,
};

verus! {

/// Filtering twice is filtering by both predicates.
pub proof fn lemma_filter_twice<A>(t: Seq<A>, a: spec_fn(A) -> bool, b: spec_fn(A) -> bool, c: spec_fn(A) -> bool)
    requires
        forall|x: A| #[trigger] c(x) == (a(x) && b(x)),
    ensures
        t.filter(a).filter(b) == t.filter(c),
    decreases t.len(),
{
    reveal(Seq::filter);
    if t.len() > 0 {
        lemma_filter_twice(t.drop_last(), a, b, c);
        let d = t.drop_last().filter(a);
        if a(t.last()) {
            assert(d.push(t.last()).drop_last() =~= d);
        }
    }
}

/// Filters whose predicates agree on the elements agree.
pub proof fn lemma_filter_ext<A>(t: Seq<A>, a: spec_fn(A) -> bool, b: spec_fn(A) -> bool)
    requires
        forall|i: int| 0 <= i < t.len() ==> a(#[trigger] t[i]) == b(t[i]),
    ensures
        t.filter(a) == t.filter(b),
    decreases t.len(),
{
    reveal(Seq::filter);
    if t.len() > 0 {
        lemma_filter_ext(t.drop_last(), a, b);
        assert(a(t[t.len() - 1]) == b(t[t.len() - 1]));
    }
}

/// An id is present in a filtered table exactly when a row of that id that
/// passes the filter is present in the table.
pub proof fn lemma_has_id_filter(t: Seq<RowView>, p: spec_fn(RowView) -> bool, id: Seq<char>)
    ensures
        has_id(t.filter(p), id) <==> exists|j: int| 0 <= j < t.len() && (#[trigger] t[j]).id == id && p(t[j]),
{
    t.filter_lemma(p);
    lemma_filter_rows(t, p);
    if has_id(t.filter(p), id) {
        let i = choose|i: int| 0 <= i < t.filter(p).len() && (#[trigger] t.filter(p)[i]).id == id;
        assert(t.contains(t.filter(p)[i]));
        let j = choose|j: int| 0 <= j < t.len() && t[j] == t.filter(p)[i];
        assert(p(t[j]));
    }
    if exists|j: int| 0 <= j < t.len() && (#[trigger] t[j]).id == id && p(t[j]) {
        let j = choose|j: int| 0 <= j < t.len() && (#[trigger] t[j]).id == id && p(t[j]);
        assert(t.filter(p).contains(t[j]));
        let i = choose|i: int| 0 <= i < t.filter(p).len() && t.filter(p)[i] == t[j];
        assert(t.filter(p)[i].id == id);
    }
}

/// Every id of a filtered table is an id of the table.
pub proof fn lemma_has_id_filter_sub(t: Seq<RowView>, p: spec_fn(RowView) -> bool)
    ensures
        forall|x: Seq<char>| has_id(t.filter(p), x) ==> has_id(t, x),
{
    assert forall|x: Seq<char>| has_id(t.filter(p), x) implies has_id(t, x) by {
        lemma_has_id_filter(t, p, x);
    }
}

/// Keeping the rows linked to a wider parent table, then to a narrower one,
/// is keeping those linked to the narrower one.
pub proof fn lemma_keep_linked_narrow(x: Seq<RowView>, wide: Seq<RowView>, narrow: Seq<RowView>)
    requires
        forall|id: Seq<char>| has_id(narrow, id) ==> has_id(wide, id),
    ensures
        keep_linked(keep_linked(x, wide), narrow) == keep_linked(x, narrow),
{
    assert forall|i: int| 0 <= i < x.len() implies (linked(#[trigger] x[i], wide) && linked(x[i], narrow)) == linked(x[i], narrow) by {
        if linked(x[i], narrow) {
            assert(has_id(narrow, x[i].parent_id->0));
        }
    }
    let c = |r: RowView| linked(r, wide) && linked(r, narrow);
    lemma_filter_twice(x, |r: RowView| linked(r, wide), |r: RowView| linked(r, narrow), c);
    lemma_filter_ext(x, c, |r: RowView| linked(r, narrow));
}

/// Two filters commute.
pub proof fn lemma_filter_swap<A>(x: Seq<A>, a: spec_fn(A) -> bool, b: spec_fn(A) -> bool)
    ensures
        x.filter(a).filter(b) == x.filter(b).filter(a),
{
    let c = |y: A| a(y) && b(y);
    lemma_filter_twice(x, a, b, c);
    lemma_filter_twice(x, b, a, c);
}

/// Filtering twice by the same predicate is filtering once.
pub proof fn lemma_filter_again<A>(x: Seq<A>, a: spec_fn(A) -> bool)
    ensures
        x.filter(a).filter(a) == x.filter(a),
{
    lemma_filter_twice(x, a, a, a);
}

/// The batch holds a tombstone for row `id` of table `k`.
pub open spec fn tombstoned(recs: Seq<SyncRecord>, k: TableKind, id: Seq<char>) -> bool {
    exists|i: int|
        0 <= i < recs.len() && (#[trigger] recs[i]).deleted && spec_wire_kind(recs[i].table_name@) == Some(k)
            && recs[i].row_id@ == id
}

/// The rows of a table that the batch holds no tombstone for.
pub open spec fn spared(t: Seq<RowView>, recs: Seq<SyncRecord>, k: TableKind) -> Seq<RowView> {
    t.filter(|r: RowView| !tombstoned(recs, k, r.id))
}

/// The store after the batch's tombstones: tombstoned rows are gone, and so
/// is every row whose parent is gone.
pub open spec fn swept(s: StoreView, recs: Seq<SyncRecord>) -> StoreView {
    let p = spared(s.portfolios, recs, TableKind::Portfolio);
    let e = keep_linked(spared(s.entries, recs, TableKind::Entry), p);
    StoreView {
        portfolios: p,
        entries: e,
        payments: keep_linked(spared(s.payments, recs, TableKind::CouponPayment), e),
        checkpoint: s.checkpoint,
    }
}

/// Adding one record to a batch adds at most its own tombstone.
proof fn lemma_spared_step(t: Seq<RowView>, recs: Seq<SyncRecord>, k: TableKind)
    requires
        recs.len() > 0,
    ensures
        ({
            let x = recs.last();
            if x.deleted && spec_wire_kind(x.table_name@) == Some(k) {
                spared(t, recs, k) == without_id(spared(t, recs.drop_last(), k), x.row_id@)
            } else {
                spared(t, recs, k) == spared(t, recs.drop_last(), k)
            }
        }),
{
    let d = recs.drop_last();
    let x = recs.last();
    assert forall|id: Seq<char>| #[trigger] tombstoned(recs, k, id) == (tombstoned(d, k, id) || (x.deleted
        && spec_wire_kind(x.table_name@) == Some(k) && x.row_id@ == id)) by {
        if tombstoned(recs, k, id) {
            let i = choose|i: int|
                0 <= i < recs.len() && (#[trigger] recs[i]).deleted && spec_wire_kind(recs[i].table_name@) == Some(k)
                    && recs[i].row_id@ == id;
            if i < d.len() {
                assert(d[i] == recs[i]);
            }
        }
        if tombstoned(d, k, id) {
            let i = choose|i: int|
                0 <= i < d.len() && (#[trigger] d[i]).deleted && spec_wire_kind(d[i].table_name@) == Some(k) && d[i].row_id@
                    == id;
            assert(recs[i] == d[i]);
        }
        if x.deleted && spec_wire_kind(x.table_name@) == Some(k) && x.row_id@ == id {
            assert(recs[recs.len() - 1] == x);
        }
    }
    if x.deleted && spec_wire_kind(x.table_name@) == Some(k) {
        lemma_filter_twice(
            t,
            |r: RowView| !tombstoned(d, k, r.id),
            |r: RowView| r.id != x.row_id@,
            |r: RowView| !tombstoned(recs, k, r.id),
        );
    } else {
        lemma_filter_ext(t, |r: RowView| !tombstoned(recs, k, r.id), |r: RowView| !tombstoned(d, k, r.id));
    }
}

/// With no tombstones, sweeping a store with referential integrity changes
/// nothing.
proof fn lemma_swept_empty(s: StoreView)
    requires
        s.wf(),
    ensures
        swept(s, Seq::empty()) == s,
{
    let none = Seq::<SyncRecord>::empty();
    lemma_filter_keeps_all(s.portfolios, |r: RowView| !tombstoned(none, TableKind::Portfolio, r.id));
    lemma_filter_keeps_all(s.entries, |r: RowView| !tombstoned(none, TableKind::Entry, r.id));
    lemma_filter_keeps_all(s.payments, |r: RowView| !tombstoned(none, TableKind::CouponPayment, r.id));
    lemma_filter_keeps_all(s.entries, |r: RowView| linked(r, s.portfolios));
    lemma_filter_keeps_all(s.payments, |r: RowView| linked(r, s.entries));
}

/// Replaying tombstones (and records of unknown tables) on a store with
/// referential integrity sweeps it.
pub proof fn lemma_run_sweeps(s: StoreView, recs: Seq<SyncRecord>, now: i64)
    requires
        s.wf(),
        forall|i: int|
            0 <= i < recs.len() ==> (#[trigger] recs[i]).deleted || spec_wire_kind(recs[i].table_name@) is None,
    ensures
        run(s, recs, now).0 == swept(s, recs),
    decreases recs.len(),
{
    if recs.len() == 0 {
        lemma_swept_empty(s);
        assert(recs =~= Seq::<SyncRecord>::empty());
    } else {
        let d = recs.drop_last();
        let x = recs.last();
        assert forall|i: int| 0 <= i < d.len() implies (#[trigger] d[i]).deleted || spec_wire_kind(d[i].table_name@) is None by {
            assert(d[i] == recs[i]);
        }
        assert(x.deleted || spec_wire_kind(x.table_name@) is None) by {
            assert(recs[recs.len() - 1] == x);
        }
        lemma_run_sweeps(s, d, now);
        lemma_run_wf(s, d, now);
        let u = swept(s, d);
        assert(run(s, d, now).0 == u);
        lemma_spared_step(s.portfolios, recs, TableKind::Portfolio);
        lemma_spared_step(s.entries, recs, TableKind::Entry);
        lemma_spared_step(s.payments, recs, TableKind::CouponPayment);
        let sp = spared(s.portfolios, d, TableKind::Portfolio);
        let se = spared(s.entries, d, TableKind::Entry);
        let sc = spared(s.payments, d, TableKind::CouponPayment);
        let r = swept(s, recs);
        match spec_wire_kind(x.table_name@) {
            None => {
                assert(apply_step(u, x, now).0 == u);
            },
            Some(k) => {
                let id = x.row_id@;
                let hd = u.hard_deleted(k, id);
                assert(apply_step(u, x, now).0 == hd);
                match k {
                    TableKind::Portfolio => {
                        let pl = without_id(u.portfolios, id);
                        assert(r.portfolios == pl);
                        lemma_has_id_filter_sub(u.portfolios, |q: RowView| q.id != id);
                        lemma_keep_linked_narrow(se, u.portfolios, pl);
                        let el = keep_linked(u.entries, pl);
                        assert(hd.entries == el);
                        assert(r.entries == el);
                        lemma_has_id_filter_sub(u.entries, |q: RowView| linked(q, pl));
                        lemma_keep_linked_narrow(sc, u.entries, el);
                        assert(hd.payments == r.payments);
                    },
                    TableKind::Entry => {
                        let a = |q: RowView| linked(q, u.portfolios);
                        let b = |q: RowView| q.id != id;
                        lemma_filter_swap(se, a, b);
                        lemma_filter_again(without_id(se, id), a);
                        let el = keep_linked(without_id(u.entries, id), u.portfolios);
                        assert(hd.entries == el);
                        assert(el == keep_linked(without_id(se, id), u.portfolios));
                        assert(r.entries == el);
                        lemma_has_id_filter_sub(without_id(u.entries, id), a);
                        lemma_has_id_filter_sub(u.entries, b);
                        lemma_keep_linked_narrow(sc, u.entries, el);
                        assert(hd.payments == r.payments);
                    },
                    TableKind::CouponPayment => {
                        lemma_filter_keeps_all(u.entries, |q: RowView| linked(q, u.portfolios));
                        assert(hd.entries == u.entries);
                        let a = |q: RowView| linked(q, u.entries);
                        let b = |q: RowView| q.id != id;
                        lemma_filter_swap(sc, a, b);
                        lemma_filter_again(without_id(sc, id), a);
                        assert(hd.payments == r.payments);
                    },
                }
            },
        }
    }
}

/// Storing rows of distinct ids into a table that holds each of them as is
/// or lacks its id: the table, followed by the rows whose ids it lacked.
proof fn lemma_fold_up_append(y: Seq<RowView>, rows: Seq<RowView>)
    requires
        ids_unique(y),
        ids_unique(rows),
        forall|i: int| 0 <= i < rows.len() && has_id(y, (#[trigger] rows[i]).id) ==> y.contains(rows[i]),
    ensures
        fold_up(y, rows) == y + rows.filter(|a: RowView| !has_id(y, a.id)),
    decreases rows.len(),
{
    let pr = |a: RowView| !has_id(y, a.id);
    reveal(Seq::filter);
    if rows.len() == 0 {
        assert(y + rows.filter(pr) =~= y);
    } else {
        let d = rows.drop_last();
        let a = rows.last();
        assert(ids_unique(d)) by {
            assert forall|i: int, j: int|
                0 <= i < d.len() && 0 <= j < d.len() && i != j implies (#[trigger] d[i]).id != (#[trigger] d[j]).id by {
                assert(d[i] == rows[i] && d[j] == rows[j]);
            }
        }
        assert forall|i: int| 0 <= i < d.len() && has_id(y, (#[trigger] d[i]).id) implies y.contains(d[i]) by {
            assert(d[i] == rows[i]);
        }
        lemma_fold_up_append(y, d);
        let m = d.filter(pr);
        lemma_filter_rows(d, pr);
        let ym = y + m;
        assert forall|i: int| 0 <= i < m.len() implies (#[trigger] m[i]).id != a.id by {
            assert(d.contains(m[i]));
            let j = choose|j: int| 0 <= j < d.len() && d[j] == m[i];
            assert(rows[j] == d[j]);
            assert(rows[rows.len() - 1] == a);
        }
        assert(fold_up(y, rows) == crate::store::upsert_into(ym, a));
        if has_id(y, a.id) {
            assert(rows[rows.len() - 1] == a);
            assert(y.contains(a));
            let j = choose|j: int| 0 <= j < y.len() && y[j] == a;
            assert(ym[j] == a);
            assert(has_id(ym, a.id));
            assert(ym.map_values(|x: RowView| if x.id == a.id { a } else { x }) =~= ym) by {
                assert forall|i: int| 0 <= i < ym.len() && ym[i].id == a.id implies ym[i] == a by {
                    if i < y.len() {
                        if i != j {
                            assert(y[i].id != y[j].id);
                        }
                    } else {
                        assert(ym[i] == m[i - y.len()]);
                    }
                }
            }
            assert(rows.filter(pr) == m);
        } else {
            assert(!has_id(ym, a.id)) by {
                if has_id(ym, a.id) {
                    let i = choose|i: int| 0 <= i < ym.len() && ym[i].id == a.id;
                    if i < y.len() {
                        assert(y[i].id == a.id);
                    } else {
                        assert(ym[i] == m[i - y.len()]);
                    }
                }
            }
            assert(rows.filter(pr) == m.push(a));
            assert(ym.push(a) =~= y + m.push(a));
        }
    }
}

/// The rows of the accepted records carry those records' ids.
proof fn lemma_accepted_rows_ids(recs: Seq<SyncRecord>, k: TableKind, parents: Seq<RowView>, now: i64)
    ensures
        forall|i: int|
            0 <= i < accepted_rows(recs, k, parents, now).len() ==> exists|j: int|
                0 <= j < recs.len() && (#[trigger] accepted_rows(recs, k, parents, now)[i]).id == recs[j].row_id@
                    && accepted(recs[j], k, parents),
    decreases recs.len(),
{
    if recs.len() > 0 {
        let d = recs.drop_last();
        lemma_accepted_rows_ids(d, k, parents, now);
        let a = accepted_rows(d, k, parents, now);
        let r = accepted_rows(recs, k, parents, now);
        assert forall|i: int| 0 <= i < r.len() implies exists|j: int|
            0 <= j < recs.len() && (#[trigger] r[i]).id == recs[j].row_id@ && accepted(recs[j], k, parents) by {
            if i < a.len() {
                assert(r[i] == a[i]);
                let j = choose|j: int| 0 <= j < d.len() && a[i].id == d[j].row_id@ && accepted(d[j], k, parents);
                assert(recs[j] == d[j]);
            } else {
                assert(recs[recs.len() - 1] == recs.last());
            }
        }
    }
}

/// Records with pairwise distinct ids give accepted rows with distinct ids.
proof fn lemma_accepted_rows_unique(recs: Seq<SyncRecord>, k: TableKind, parents: Seq<RowView>, now: i64)
    requires
        forall|i: int, j: int|
            0 <= i < recs.len() && 0 <= j < recs.len() && i != j ==> (#[trigger] recs[i]).row_id@ != (#[trigger] recs[j]).row_id@,
    ensures
        ids_unique(accepted_rows(recs, k, parents, now)),
    decreases recs.len(),
{
    if recs.len() > 0 {
        let d = recs.drop_last();
        assert forall|i: int, j: int|
            0 <= i < d.len() && 0 <= j < d.len() && i != j implies (#[trigger] d[i]).row_id@ != (#[trigger] d[j]).row_id@ by {
            assert(d[i] == recs[i] && d[j] == recs[j]);
        }
        lemma_accepted_rows_unique(d, k, parents, now);
        lemma_accepted_rows_ids(d, k, parents, now);
        let a = accepted_rows(d, k, parents, now);
        let r = accepted_rows(recs, k, parents, now);
        if accepted(recs.last(), k, parents) {
            assert forall|i: int, j: int|
                0 <= i < r.len() && 0 <= j < r.len() && i != j implies (#[trigger] r[i]).id != (#[trigger] r[j]).id by {
                if i < a.len() && j < a.len() {
                    assert(r[i] == a[i] && r[j] == a[j]);
                } else {
                    let (x, y) = if i < a.len() { (i, j) } else { (j, i) };
                    assert(r[y].id == recs.last().row_id@);
                    if x < a.len() {
                        assert(r[x] == a[x]);
                        let m = choose|m: int| 0 <= m < d.len() && a[x].id == d[m].row_id@ && accepted(d[m], k, parents);
                        assert(recs[m] == d[m]);
                        assert(recs[recs.len() - 1] == recs.last());
                    }
                }
            }
        }
    }
}

/// A row accepted against a narrower parent table is accepted against a
/// wider one.
proof fn lemma_accepted_rows_mono(
    recs: Seq<SyncRecord>,
    k: TableKind,
    wide: Seq<RowView>,
    narrow: Seq<RowView>,
    now: i64,
)
    requires
        forall|id: Seq<char>| has_id(narrow, id) ==> has_id(wide, id),
    ensures
        forall|i: int|
            0 <= i < accepted_rows(recs, k, narrow, now).len() ==> accepted_rows(recs, k, wide, now).contains(
                #[trigger] accepted_rows(recs, k, narrow, now)[i],
            ),
    decreases recs.len(),
{
    if recs.len() > 0 {
        let d = recs.drop_last();
        lemma_accepted_rows_mono(d, k, wide, narrow, now);
        let a1 = accepted_rows(d, k, wide, now);
        let a2 = accepted_rows(d, k, narrow, now);
        let r1 = accepted_rows(recs, k, wide, now);
        let r2 = accepted_rows(recs, k, narrow, now);
        let x = recs.last();
        if accepted(x, k, narrow) {
            assert(accepted(x, k, wide)) by {
                if k != TableKind::Portfolio {
                    assert(has_id(narrow, crate::apply::parent_ref(x, k)->0));
                }
            }
        }
        assert forall|i: int| 0 <= i < r2.len() implies r1.contains(#[trigger] r2[i]) by {
            if i < a2.len() {
                assert(r2[i] == a2[i]);
                assert(a1.contains(a2[i]));
                let j = choose|j: int| 0 <= j < a1.len() && a1[j] == a2[i];
                assert(r1[j] == a1[j]);
            } else {
                assert(r1[r1.len() - 1] == r2[i]);
            }
        }
    }
}

/// In a list with distinct ids, the last row of a member's id is that member.
proof fn lemma_last_of_member(rows: Seq<RowView>, a: RowView)
    requires
        ids_unique(rows),
        rows.contains(a),
    ensures
        last_of(rows, a.id) == Some(a),
    decreases rows.len(),
{
    let d = rows.drop_last();
    if rows.last() != a {
        let j = choose|j: int| 0 <= j < rows.len() && rows[j] == a;
        assert(j != rows.len() - 1);
        assert(d[j] == a);
        assert(rows.last().id != a.id) by {
            assert(rows[rows.len() - 1] == rows.last());
        }
        assert(ids_unique(d)) by {
            assert forall|i: int, m: int|
                0 <= i < d.len() && 0 <= m < d.len() && i != m implies (#[trigger] d[i]).id != (#[trigger] d[m]).id by {
                assert(d[i] == rows[i] && d[m] == rows[m]);
            }
        }
        lemma_last_of_member(d, a);
    }
}

/// A filter whose predicate holds of no element keeps nothing.
pub proof fn lemma_filter_keeps_none<A>(t: Seq<A>, p: spec_fn(A) -> bool)
    requires
        forall|i: int| 0 <= i < t.len() ==> !p(#[trigger] t[i]),
    ensures
        t.filter(p) == Seq::<A>::empty(),
    decreases t.len(),
{
    reveal(Seq::filter);
    if t.len() > 0 {
        lemma_filter_keeps_none(t.drop_last(), p);
    } else {
        assert(t =~= Seq::<A>::empty());
    }
}

/// Records that pass a filter and have pairwise distinct ids keep them
/// distinct after it.
proof fn lemma_filter_distinct_ids(t: Seq<SyncRecord>, p: spec_fn(SyncRecord) -> bool)
    requires
        forall|i: int, j: int|
            0 <= i < t.len() && 0 <= j < t.len() && i != j && p(#[trigger] t[i]) && p(#[trigger] t[j]) ==> t[i].row_id@
                != t[j].row_id@,
    ensures
        forall|i: int, j: int|
            0 <= i < t.filter(p).len() && 0 <= j < t.filter(p).len() && i != j ==> (#[trigger] t.filter(p)[i]).row_id@
                != (#[trigger] t.filter(p)[j]).row_id@,
    decreases t.len(),
{
    reveal(Seq::filter);
    if t.len() > 0 {
        let d = t.drop_last();
        assert forall|i: int, j: int|
            0 <= i < d.len() && 0 <= j < d.len() && i != j && p(#[trigger] d[i]) && p(#[trigger] d[j]) implies d[i].row_id@
                != d[j].row_id@ by {
            assert(d[i] == t[i] && d[j] == t[j]);
        }
        lemma_filter_distinct_ids(d, p);
        let g = d.filter(p);
        let f = t.filter(p);
        d.filter_lemma(p);
        if p(t.last()) {
            assert forall|i: int, j: int| 0 <= i < f.len() && 0 <= j < f.len() && i != j implies (#[trigger] f[i]).row_id@
                != (#[trigger] f[j]).row_id@ by {
                if i < g.len() && j < g.len() {
                    assert(f[i] == g[i] && f[j] == g[j]);
                } else {
                    let (x, y) = if i < g.len() { (i, j) } else { (j, i) };
                    assert(f[y] == t.last());
                    assert(f[x] == g[x]);
                    assert(p(g[x]));
                    lemma_filter_members(d, p, x);
                    let m = choose|m: int| 0 <= m < d.len() && d[m] == g[x];
                    assert(t[m] == d[m]);
                    assert(t[t.len() - 1] == t.last());
                }
            }
        }
    }
}

/// Each element of a filter occurs in the filtered sequence.
proof fn lemma_filter_members<A>(t: Seq<A>, p: spec_fn(A) -> bool, i: int)
    requires
        0 <= i < t.filter(p).len(),
    ensures
        exists|m: int| 0 <= m < t.len() && t[m] == t.filter(p)[i],
    decreases t.len(),
{
    reveal(Seq::filter);
    let d = t.drop_last();
    if i < d.filter(p).len() {
        lemma_filter_members(d, p, i);
        let m = choose|m: int| 0 <= m < d.len() && d[m] == d.filter(p)[i];
        assert(t[m] == d[m]);
    } else {
        assert(t[t.len() - 1] == t.filter(p)[i]);
    }
}

/// One table through a second pass: re-storing (a part of) the rows stored
/// in the first pass into the table that the first pass kept, and keeping
/// the same rows again, gives that table back.
proof fn lemma_table_stable(
    tv: Seq<RowView>,
    rows: Seq<RowView>,
    rows2: Seq<RowView>,
    q: spec_fn(RowView) -> bool,
)
    requires
        ids_unique(tv),
        ids_unique(rows),
        ids_unique(rows2),
        forall|i: int| 0 <= i < rows2.len() ==> rows.contains(#[trigger] rows2[i]),
    ensures
        fold_up(fold_up(tv, rows).filter(q), rows2).filter(q) == fold_up(tv, rows).filter(q),
        forall|id: Seq<char>|
            has_id(fold_up(fold_up(tv, rows).filter(q), rows2), id) ==> has_id(fold_up(tv, rows), id),
{
    let tx = fold_up(tv, rows);
    let yt = tx.filter(q);
    lemma_fold_up_content(tv, rows);
    lemma_filter_rows(tx, q);
    tx.filter_lemma(q);
    // a stored row of the list is in the first-pass table as is
    assert forall|a: RowView| rows.contains(a) implies exists|m: int| 0 <= m < tx.len() && tx[m] == a by {
        lemma_last_of_member(rows, a);
        assert(has_id(tx, a.id));
        let m = choose|m: int| 0 <= m < tx.len() && tx[m].id == a.id;
        assert(last_of(rows, tx[m].id) is Some);
    }
    assert forall|i: int| 0 <= i < rows2.len() && has_id(yt, (#[trigger] rows2[i]).id) implies yt.contains(rows2[i]) by {
        let a = rows2[i];
        lemma_last_of_member(rows, a);
        let j = choose|j: int| 0 <= j < yt.len() && yt[j].id == a.id;
        assert(tx.contains(yt[j]));
        let m = choose|m: int| 0 <= m < tx.len() && tx[m] == yt[j];
        assert(last_of(rows, tx[m].id) is Some);
    }
    lemma_fold_up_append(yt, rows2);
    let pr = |a: RowView| !has_id(yt, a.id);
    let r = rows2.filter(pr);
    lemma_filter_rows(rows2, pr);
    rows2.filter_lemma(pr);
    Seq::filter_distributes_over_add(yt, r, q);
    lemma_filter_again(tx, q);
    assert forall|i: int| 0 <= i < r.len() implies !q(#[trigger] r[i]) by {
        let a = r[i];
        assert(rows2.contains(a));
        let n = choose|n: int| 0 <= n < rows2.len() && rows2[n] == a;
        assert(rows.contains(rows2[n]));
        let m = choose|m: int| 0 <= m < tx.len() && tx[m] == a;
        if q(a) {
            assert(yt.contains(tx[m]));
            let j = choose|j: int| 0 <= j < yt.len() && yt[j] == tx[m];
            assert(has_id(yt, a.id));
        }
    }
    lemma_filter_keeps_none(r, q);
    assert(yt + Seq::<RowView>::empty() =~= yt);
    assert forall|id: Seq<char>| has_id(yt + r, id) implies has_id(tx, id) by {
        let i = choose|i: int| 0 <= i < (yt + r).len() && (yt + r)[i].id == id;
        if i < yt.len() {
            assert(tx.contains(yt[i]));
            let m = choose|m: int| 0 <= m < tx.len() && tx[m] == yt[i];
        } else {
            let a = r[i - yt.len()];
            assert(rows2.contains(a));
            let n = choose|n: int| 0 <= n < rows2.len() && rows2[n] == a;
            assert(rows.contains(rows2[n]));
            let m = choose|m: int| 0 <= m < tx.len() && tx[m] == a;
        }
    }
}

/// The upsert groups of a batch applied to a store, in closed form.
pub open spec fn upserted(w: StoreView, batch: Seq<SyncRecord>, now: i64) -> StoreView {
    let p = fold_up(w.portfolios, accepted_rows(in_phase(batch, 0), TableKind::Portfolio, Seq::empty(), now));
    let e = fold_up(w.entries, accepted_rows(in_phase(batch, 1), TableKind::Entry, p, now));
    let c = fold_up(w.payments, accepted_rows(in_phase(batch, 2), TableKind::CouponPayment, e, now));
    StoreView { portfolios: p, entries: e, payments: c, checkpoint: w.checkpoint }
}

/// The replay groups after the upserts: tombstones, then unknown tables.
pub open spec fn tombstone_groups(batch: Seq<SyncRecord>) -> Seq<SyncRecord> {
    in_phase(batch, 3) + in_phase(batch, 4) + in_phase(batch, 5) + in_phase(batch, 6)
}

/// One application of a batch: its upserts, then its tombstones sweep.
proof fn lemma_one_pass(w: StoreView, batch: Seq<SyncRecord>, now: i64)
    requires
        w.wf(),
    ensures
        upserted(w, batch, now).wf(),
        run(w, replay_order(batch), now).0 == swept(upserted(w, batch, now), tombstone_groups(batch)),
{
    let g0 = in_phase(batch, 0);
    let g1 = in_phase(batch, 1);
    let g2 = in_phase(batch, 2);
    let tl = tombstone_groups(batch);
    lemma_unfold_phases(batch);
    let up = g0 + g1 + g2;
    assert(replay_order(batch) =~= up + tl);
    lemma_run_concat(w, up, tl, now);
    lemma_run_concat(w, g0 + g1, g2, now);
    lemma_run_concat(w, g0, g1, now);
    lemma_in_phase_members(batch, 0);
    lemma_in_phase_members(batch, 1);
    lemma_in_phase_members(batch, 2);
    lemma_in_phase_members(batch, 3);
    lemma_in_phase_members(batch, 4);
    lemma_in_phase_members(batch, 5);
    lemma_in_phase_members(batch, 6);
    assert forall|i: int| 0 <= i < g0.len() implies spec_wire_kind((#[trigger] g0[i]).table_name@) == Some(
        TableKind::Portfolio,
    ) && !g0[i].deleted by {
        assert(phase(g0[i]) == 0);
    }
    assert forall|i: int| 0 <= i < g1.len() implies spec_wire_kind((#[trigger] g1[i]).table_name@) == Some(
        TableKind::Entry,
    ) && !g1[i].deleted by {
        assert(phase(g1[i]) == 1);
    }
    assert forall|i: int| 0 <= i < g2.len() implies spec_wire_kind((#[trigger] g2[i]).table_name@) == Some(
        TableKind::CouponPayment,
    ) && !g2[i].deleted by {
        assert(phase(g2[i]) == 2);
    }
    lemma_run_upserts(w, g0, TableKind::Portfolio, now);
    let a1 = run(w, g0, now).0;
    lemma_run_upserts(a1, g1, TableKind::Entry, now);
    let a2 = run(a1, g1, now).0;
    lemma_run_upserts(a2, g2, TableKind::CouponPayment, now);
    let a3 = run(a2, g2, now).0;
    assert(a3 == upserted(w, batch, now));
    lemma_run_wf(w, up, now);
    let n3 = in_phase(batch, 3).len();
    let n4 = in_phase(batch, 4).len();
    let n5 = in_phase(batch, 5).len();
    assert forall|i: int| 0 <= i < tl.len() implies (#[trigger] tl[i]).deleted || spec_wire_kind(
        tl[i].table_name@,
    ) is None by {
        if i < n3 {
            assert(tl[i] == in_phase(batch, 3)[i]);
        } else if i < n3 + n4 {
            assert(tl[i] == in_phase(batch, 4)[i - n3]);
        } else if i < n3 + n4 + n5 {
            assert(tl[i] == in_phase(batch, 5)[i - n3 - n4]);
        } else {
            assert(tl[i] == in_phase(batch, 6)[i - n3 - n4 - n5]);
        }
        assert(phase(tl[i]) >= 3);
    }
    lemma_run_sweeps(a3, tl, now);
}

/// No two upserts of the batch name the same row of the same table.
pub open spec fn distinct_upserts(batch: Seq<SyncRecord>) -> bool {
    forall|i: int, j: int|
        0 <= i < batch.len() && 0 <= j < batch.len() && i != j && !(#[trigger] batch[i]).deleted
            && !(#[trigger] batch[j]).deleted && spec_wire_kind(batch[i].table_name@) is Some && spec_wire_kind(
            batch[i].table_name@,
        ) == spec_wire_kind(batch[j].table_name@) ==> batch[i].row_id@ != batch[j].row_id@
}

/// The upserts of one group have distinct ids.
proof fn lemma_group_ids_distinct(batch: Seq<SyncRecord>, q: int)
    requires
        distinct_upserts(batch),
        0 <= q < 3,
    ensures
        forall|i: int, j: int|
            0 <= i < in_phase(batch, q).len() && 0 <= j < in_phase(batch, q).len() && i != j ==> (#[trigger] in_phase(
                batch,
                q,
            )[i]).row_id@ != (#[trigger] in_phase(batch, q)[j]).row_id@,
{
    let p = |r: SyncRecord| phase(r) == q;
    assert forall|i: int, j: int|
        0 <= i < batch.len() && 0 <= j < batch.len() && i != j && p(#[trigger] batch[i]) && p(#[trigger] batch[j]) implies batch[i].row_id@
        != batch[j].row_id@ by {
        assert(!batch[i].deleted && !batch[j].deleted);
    }
    lemma_filter_distinct_ids(batch, p);
}

/// Idempotent apply: when no two upserts of a batch name the same row,
/// applying the batch a second time right after the first changes nothing.
pub proof fn lemma_apply_idempotent(v: StoreView, batch: Seq<SyncRecord>, now: i64)
    requires
        v.wf(),
        distinct_upserts(batch),
    ensures
        apply_batch(apply_batch(v, batch, now).0, batch, now).0 == apply_batch(v, batch, now).0,
{
    let tl = tombstone_groups(batch);
    let g0 = in_phase(batch, 0);
    let g1 = in_phase(batch, 1);
    let g2 = in_phase(batch, 2);
    lemma_one_pass(v, batch, now);
    let x = upserted(v, batch, now);
    let y = swept(x, tl);
    lemma_run_wf(v, replay_order(batch), now);
    lemma_one_pass(y, batch, now);
    let z = upserted(y, batch, now);
    let w = swept(z, tl);
    lemma_group_ids_distinct(batch, 0);
    lemma_group_ids_distinct(batch, 1);
    lemma_group_ids_distinct(batch, 2);
    let none = Seq::<RowView>::empty();
    let rows0 = accepted_rows(g0, TableKind::Portfolio, none, now);
    let rows1 = accepted_rows(g1, TableKind::Entry, x.portfolios, now);
    let rows1b = accepted_rows(g1, TableKind::Entry, z.portfolios, now);
    let rows2 = accepted_rows(g2, TableKind::CouponPayment, x.entries, now);
    let rows2b = accepted_rows(g2, TableKind::CouponPayment, z.entries, now);
    lemma_accepted_rows_unique(g0, TableKind::Portfolio, none, now);
    lemma_accepted_rows_unique(g1, TableKind::Entry, x.portfolios, now);
    lemma_accepted_rows_unique(g1, TableKind::Entry, z.portfolios, now);
    lemma_accepted_rows_unique(g2, TableKind::CouponPayment, x.entries, now);
    lemma_accepted_rows_unique(g2, TableKind::CouponPayment, z.entries, now);
    // portfolios
    let qp = |r: RowView| !tombstoned(tl, TableKind::Portfolio, r.id);
    assert forall|i: int| 0 <= i < rows0.len() implies rows0.contains(#[trigger] rows0[i]) by {}
    lemma_table_stable(v.portfolios, rows0, rows0, qp);
    assert(w.portfolios == y.portfolios);
    // entries
    lemma_accepted_rows_mono(g1, TableKind::Entry, x.portfolios, z.portfolios, now);
    let te = |r: RowView| !tombstoned(tl, TableKind::Entry, r.id);
    let le = |r: RowView| linked(r, y.portfolios);
    let qe = |r: RowView| !tombstoned(tl, TableKind::Entry, r.id) && linked(r, y.portfolios);
    lemma_filter_twice(x.entries, te, le, qe);
    lemma_filter_twice(z.entries, te, le, qe);
    lemma_table_stable(v.entries, rows1, rows1b, qe);
    assert(w.entries == y.entries);
    // payments
    lemma_accepted_rows_mono(g2, TableKind::CouponPayment, x.entries, z.entries, now);
    let tc = |r: RowView| !tombstoned(tl, TableKind::CouponPayment, r.id);
    let lc = |r: RowView| linked(r, y.entries);
    let qc = |r: RowView| !tombstoned(tl, TableKind::CouponPayment, r.id) && linked(r, y.entries);
    lemma_filter_twice(x.payments, tc, lc, qc);
    lemma_filter_twice(z.payments, tc, lc, qc);
    lemma_table_stable(v.payments, rows2, rows2b, qc);
    assert(w.payments == y.payments);
}

} // verus!
