//! The local store: three related tables and the single checkpoint slot.
use vstd::prelude::*;

use crate::record::{copy_fields, Checkpoint, Field, TableKind};

verus! {

/// One stored row of any of the three tables.
#[derive(Debug)]
pub struct Row {
    pub id: String,
    /// Id of the parent row: none for a portfolio, the portfolio for an
    /// entry, the entry for a coupon payment.
    pub parent_id: Option<String>,
    /// Domain fields; a null field is absent.
    pub fields: Vec<Field>,
    pub sync_version: i64,
    /// `None` marks the row dirty: it still has to be pushed.
    pub synced_at: Option<i64>,
    pub deleted: bool,
    pub deleted_at: Option<i64>,
}

/// Mathematical value of a row.
pub struct RowView {
    pub id: Seq<char>,
    pub parent_id: Option<Seq<char>>,
    pub fields: Seq<Field>,
    pub sync_version: i64,
    pub synced_at: Option<i64>,
    pub deleted: bool,
    pub deleted_at: Option<i64>,
}

pub open spec fn opt_view(o: Option<String>) -> Option<Seq<char>> {
    match o {
        Some(s) => Some(s@),
        None => None,
    }
}

impl View for Row {
    type V = RowView;

    open spec fn view(&self) -> RowView {
        RowView {
            id: self.id@,
            parent_id: opt_view(self.parent_id),
            fields: self.fields@,
            sync_version: self.sync_version,
            synced_at: self.synced_at,
            deleted: self.deleted,
            deleted_at: self.deleted_at,
        }
    }
}

/// The values of a sequence of rows.
pub open spec fn views(rows: Seq<Row>) -> Seq<RowView> {
    rows.map_values(|r: Row| r@)
}

/// Whether some row of the table has the given id.
pub open spec fn has_id(t: Seq<RowView>, id: Seq<char>) -> bool {
    exists|i: int| 0 <= i < t.len() && (#[trigger] t[i]).id == id
}

/// No two rows of the table share an id.
pub open spec fn ids_unique(t: Seq<RowView>) -> bool {
    forall|i: int, j: int|
        0 <= i < t.len() && 0 <= j < t.len() && i != j ==> (#[trigger] t[i]).id != (#[trigger] t[j]).id
}

/// Whether a child row's parent is present in the parent table.
pub open spec fn linked(r: RowView, parents: Seq<RowView>) -> bool {
    r.parent_id is Some && has_id(parents, r.parent_id->0)
}

/// Every row of `children` has its parent in `parents`.
pub open spec fn all_linked(children: Seq<RowView>, parents: Seq<RowView>) -> bool {
    forall|i: int| 0 <= i < children.len() ==> linked(#[trigger] children[i], parents)
}

/// No row of the table has a parent.
pub open spec fn all_roots(t: Seq<RowView>) -> bool {
    forall|i: int| 0 <= i < t.len() ==> (#[trigger] t[i]).parent_id is None
}

/// The table without the row of the given id.
pub open spec fn without_id(t: Seq<RowView>, id: Seq<char>) -> Seq<RowView> {
    t.filter(|r: RowView| r.id != id)
}

/// The rows of `children` whose parent is present in `parents`.
pub open spec fn keep_linked(children: Seq<RowView>, parents: Seq<RowView>) -> Seq<RowView> {
    children.filter(|r: RowView| linked(r, parents))
}

/// The table with `r` stored under its id: replaced in place when the id is
/// present, appended otherwise.
pub open spec fn upsert_into(t: Seq<RowView>, r: RowView) -> Seq<RowView> {
    if has_id(t, r.id) {
        t.map_values(|x: RowView| if x.id == r.id { r } else { x })
    } else {
        t.push(r)
    }
}

/// Mathematical value of the whole store.
pub struct StoreView {
    pub portfolios: Seq<RowView>,
    pub entries: Seq<RowView>,
    pub payments: Seq<RowView>,
    pub checkpoint: Option<Checkpoint>,
}

impl StoreView {
    pub open spec fn table(self, k: TableKind) -> Seq<RowView> {
        match k {
            TableKind::Portfolio => self.portfolios,
            TableKind::Entry => self.entries,
            TableKind::CouponPayment => self.payments,
        }
    }

    pub open spec fn with_table(self, k: TableKind, t: Seq<RowView>) -> StoreView {
        match k {
            TableKind::Portfolio => StoreView { portfolios: t, ..self },
            TableKind::Entry => StoreView { entries: t, ..self },
            TableKind::CouponPayment => StoreView { payments: t, ..self },
        }
    }

    /// The table that holds the parents of the rows of table `k`.
    pub open spec fn parent_table(self, k: TableKind) -> Seq<RowView> {
        match k {
            TableKind::Portfolio => Seq::empty(),
            TableKind::Entry => self.portfolios,
            TableKind::CouponPayment => self.entries,
        }
    }

    /// Referential integrity: ids are unique per table, portfolios have no
    /// parent, and every entry and payment has its parent present.
    pub open spec fn wf(self) -> bool {
        &&& ids_unique(self.portfolios)
        &&& ids_unique(self.entries)
        &&& ids_unique(self.payments)
        &&& all_roots(self.portfolios)
        &&& all_linked(self.entries, self.portfolios)
        &&& all_linked(self.payments, self.entries)
    }

    /// Drops every row whose parent is gone, children after parents.
    pub open spec fn pruned(self) -> StoreView {
        let e = keep_linked(self.entries, self.portfolios);
        StoreView { entries: e, payments: keep_linked(self.payments, e), ..self }
    }

    /// The store after a hard delete of row `id` of table `k`, cascading to
    /// the rows below it.
    pub open spec fn hard_deleted(self, k: TableKind, id: Seq<char>) -> StoreView {
        self.with_table(k, without_id(self.table(k), id)).pruned()
    }
}

/// Errors of the local mutations.
#[derive(Clone, Copy, Debug, PartialEq, Eq, Structural)]
pub enum StoreError {
    /// A row with this id already exists in the table.
    DuplicateId,
    /// No row with this id exists in the table.
    NotFound,
    /// The parent row named by a child does not exist.
    MissingParent,
}

/// The local store.  Its tables always satisfy referential integrity.
pub struct LocalStore {
    portfolios: Vec<Row>,
    entries: Vec<Row>,
    payments: Vec<Row>,
    checkpoint: Option<Checkpoint>,
}

impl View for LocalStore {
    type V = StoreView;

    closed spec fn view(&self) -> StoreView {
        StoreView {
            portfolios: views(self.portfolios@),
            entries: views(self.entries@),
            payments: views(self.payments@),
            checkpoint: self.checkpoint,
        }
    }
}

/// Every row kept by a filter comes from the table, and a filter keeps ids
/// unique.
pub proof fn lemma_filter_rows(t: Seq<RowView>, p: spec_fn(RowView) -> bool)
    ensures
        forall|i: int| 0 <= i < t.filter(p).len() ==> t.contains(#[trigger] t.filter(p)[i]),
        ids_unique(t) ==> ids_unique(t.filter(p)),
    decreases t.len(),
{
    reveal(Seq::filter);
    let f = t.filter(p);
    if t.len() > 0 {
        let d = t.drop_last();
        lemma_filter_rows(d, p);
        let g = d.filter(p);
        assert forall|i: int| 0 <= i < f.len() implies t.contains(#[trigger] f[i]) by {
            if i < g.len() {
                assert(f[i] == g[i]);
                assert(d.contains(g[i]));
                let j = choose|j: int| 0 <= j < d.len() && d[j] == g[i];
                assert(t[j] == g[i]);
            } else {
                assert(f[i] == t.last());
                assert(t[t.len() - 1] == f[i]);
            }
        }
        if ids_unique(t) {
            assert(ids_unique(d)) by {
                assert forall|a: int, b: int|
                    0 <= a < d.len() && 0 <= b < d.len() && a != b implies (#[trigger] d[a]).id != (#[trigger] d[b]).id by {
                    assert(d[a] == t[a] && d[b] == t[b]);
                }
            }
            assert forall|a: int, b: int|
                0 <= a < f.len() && 0 <= b < f.len() && a != b implies (#[trigger] f[a]).id != (#[trigger] f[b]).id by {
                if a < g.len() && b < g.len() {
                    assert(f[a] == g[a] && f[b] == g[b]);
                } else {
                    let (x, y) = if a < g.len() { (a, b) } else { (b, a) };
                    assert(f[y] == t.last());
                    if x < g.len() {
                        assert(f[x] == g[x]);
                        assert(d.contains(g[x]));
                        let j = choose|j: int| 0 <= j < d.len() && d[j] == g[x];
                        assert(t[j] == d[j]);
                        assert(t[j].id != t[t.len() - 1].id);
                    }
                }
            }
        }
    }
}

/// Every row kept by a filter satisfies its predicate.
pub proof fn lemma_filter_pred(t: Seq<RowView>, p: spec_fn(RowView) -> bool)
    ensures
        forall|i: int| 0 <= i < t.filter(p).len() ==> p(#[trigger] t.filter(p)[i]),
{
    t.filter_lemma(p);
}

/// After a hard delete the store again satisfies referential integrity.
pub proof fn lemma_hard_deleted_wf(v: StoreView, k: TableKind, id: Seq<char>)
    requires
        v.wf(),
    ensures
        v.hard_deleted(k, id).wf(),
{
    let t = without_id(v.table(k), id);
    lemma_filter_rows(v.table(k), |r: RowView| r.id != id);
    let w = v.with_table(k, t);
    let e = keep_linked(w.entries, w.portfolios);
    let c = keep_linked(w.payments, e);
    lemma_filter_rows(w.entries, |r: RowView| linked(r, w.portfolios));
    lemma_filter_rows(w.payments, |r: RowView| linked(r, e));
    lemma_filter_pred(w.entries, |r: RowView| linked(r, w.portfolios));
    lemma_filter_pred(w.payments, |r: RowView| linked(r, e));
    if k == TableKind::Portfolio {
        assert forall|i: int| 0 <= i < t.len() implies (#[trigger] t[i]).parent_id is None by {
            assert(v.portfolios.contains(t[i]));
        }
    }
}

/// What storing a row under its id does to a table: every row of the result
/// is the new row or an old one, no id is lost, and ids stay unique.
pub proof fn lemma_upsert_into(t: Seq<RowView>, r: RowView)
    ensures
        forall|i: int|
            0 <= i < upsert_into(t, r).len() ==> #[trigger] upsert_into(t, r)[i] == r || t.contains(
                upsert_into(t, r)[i],
            ),
        forall|x: Seq<char>| has_id(t, x) ==> has_id(upsert_into(t, r), x),
        has_id(upsert_into(t, r), r.id),
        ids_unique(t) ==> ids_unique(upsert_into(t, r)),
{
    let n = upsert_into(t, r);
    if has_id(t, r.id) {
        let k = choose|k: int| 0 <= k < t.len() && t[k].id == r.id;
        assert(n[k] == r);
        assert forall|i: int| 0 <= i < n.len() implies #[trigger] n[i] == r || t.contains(n[i]) by {
            if n[i] != r {
                assert(n[i] == t[i]);
            }
        }
        assert forall|x: Seq<char>| has_id(t, x) implies has_id(n, x) by {
            let j = choose|j: int| 0 <= j < t.len() && t[j].id == x;
            assert(n[j].id == x);
        }
        if ids_unique(t) {
            assert forall|a: int, b: int|
                0 <= a < n.len() && 0 <= b < n.len() && a != b implies (#[trigger] n[a]).id != (#[trigger] n[b]).id by {
                assert(n[a].id == t[a].id);
                assert(n[b].id == t[b].id);
            }
        }
    } else {
        assert(n[t.len() as int] == r);
        assert forall|i: int| 0 <= i < n.len() implies #[trigger] n[i] == r || t.contains(n[i]) by {
            if i < t.len() {
                assert(n[i] == t[i]);
            }
        }
        assert forall|x: Seq<char>| has_id(t, x) implies has_id(n, x) by {
            let j = choose|j: int| 0 <= j < t.len() && t[j].id == x;
            assert(n[j] == t[j]);
        }
        if ids_unique(t) {
            assert forall|a: int, b: int|
                0 <= a < n.len() && 0 <= b < n.len() && a != b implies (#[trigger] n[a]).id != (#[trigger] n[b]).id by {
                if a < t.len() {
                    assert(n[a] == t[a]);
                }
                if b < t.len() {
                    assert(n[b] == t[b]);
                }
            }
        }
    }
}

/// The parent table's kind of a child table.
pub open spec fn parent_kind(k: TableKind) -> TableKind {
    match k {
        TableKind::Portfolio => TableKind::Portfolio,
        TableKind::Entry => TableKind::Portfolio,
        TableKind::CouponPayment => TableKind::Entry,
    }
}

/// The parent table's kind of a child table.
pub fn parent_kind_of(k: TableKind) -> (r: TableKind)
    ensures
        r == parent_kind(k),
{
    match k {
        TableKind::Portfolio => TableKind::Portfolio,
        TableKind::Entry => TableKind::Portfolio,
        TableKind::CouponPayment => TableKind::Entry,
    }
}

/// Whether `r` may be stored in table `k` of `v`: a portfolio has no parent,
/// any other row has its parent present.
pub open spec fn placeable(v: StoreView, k: TableKind, r: RowView) -> bool {
    if k == TableKind::Portfolio {
        r.parent_id is None
    } else {
        linked(r, v.parent_table(k))
    }
}

/// Storing a placeable row keeps referential integrity.
pub proof fn lemma_upsert_wf(v: StoreView, k: TableKind, r: RowView)
    requires
        v.wf(),
        placeable(v, k, r),
    ensures
        v.with_table(k, upsert_into(v.table(k), r)).wf(),
{
    let t = v.table(k);
    let u = upsert_into(t, r);
    lemma_upsert_into(t, r);
    let w = v.with_table(k, u);
    match k {
        TableKind::Portfolio => {
            assert forall|i: int| 0 <= i < u.len() implies (#[trigger] u[i]).parent_id is None by {
                if u[i] != r {
                    let j = choose|j: int| 0 <= j < t.len() && t[j] == u[i];
                }
            }
            assert forall|i: int| 0 <= i < w.entries.len() implies linked(#[trigger] w.entries[i], u) by {
                assert(linked(v.entries[i], t));
            }
        },
        TableKind::Entry => {
            assert forall|i: int| 0 <= i < u.len() implies linked(#[trigger] u[i], w.portfolios) by {
                if u[i] != r {
                    let j = choose|j: int| 0 <= j < t.len() && t[j] == u[i];
                    assert(linked(t[j], v.portfolios));
                }
            }
            assert forall|i: int| 0 <= i < w.payments.len() implies linked(#[trigger] w.payments[i], u) by {
                assert(linked(v.payments[i], t));
            }
        },
        TableKind::CouponPayment => {
            assert forall|i: int| 0 <= i < u.len() implies linked(#[trigger] u[i], w.entries) by {
                if u[i] != r {
                    let j = choose|j: int| 0 <= j < t.len() && t[j] == u[i];
                    assert(linked(t[j], v.entries));
                }
            }
        },
    }
}

/// A row recorded as pushed at `now`: clean, with its version one higher
/// (a version already at the largest `i64` stays there).
pub open spec fn synced_row(r: RowView, now: i64) -> RowView {
    RowView {
        synced_at: Some(now),
        sync_version: if r.sync_version < i64::MAX { (r.sync_version + 1) as i64 } else { r.sync_version },
        ..r
    }
}

/// The table with the row of the given id recorded as pushed.
pub open spec fn mark_row(t: Seq<RowView>, id: Seq<char>, now: i64) -> Seq<RowView> {
    t.map_values(|r: RowView| if r.id == id { synced_row(r, now) } else { r })
}

/// Recording a row as pushed keeps referential integrity.
pub proof fn lemma_mark_row_wf(v: StoreView, k: TableKind, id: Seq<char>, now: i64)
    requires
        v.wf(),
    ensures
        v.with_table(k, mark_row(v.table(k), id, now)).wf(),
{
    let t = v.table(k);
    let u = mark_row(t, id, now);
    assert forall|x: Seq<char>| has_id(t, x) implies has_id(u, x) by {
        let j = choose|j: int| 0 <= j < t.len() && t[j].id == x;
        assert(u[j].id == x);
    }
    assert forall|a: int, b: int|
        0 <= a < u.len() && 0 <= b < u.len() && a != b implies (#[trigger] u[a]).id != (#[trigger] u[b]).id by {
        assert(u[a].id == t[a].id && u[b].id == t[b].id);
    }
    let w = v.with_table(k, u);
    match k {
        TableKind::Portfolio => {
            assert forall|i: int| 0 <= i < u.len() implies (#[trigger] u[i]).parent_id is None by {
                assert(u[i].parent_id == t[i].parent_id);
            }
            assert forall|i: int| 0 <= i < w.entries.len() implies linked(#[trigger] w.entries[i], u) by {
                assert(linked(v.entries[i], t));
            }
        },
        TableKind::Entry => {
            assert forall|i: int| 0 <= i < u.len() implies linked(#[trigger] u[i], w.portfolios) by {
                assert(u[i].parent_id == t[i].parent_id);
                assert(linked(t[i], v.portfolios));
            }
            assert forall|i: int| 0 <= i < w.payments.len() implies linked(#[trigger] w.payments[i], u) by {
                assert(linked(v.payments[i], t));
            }
        },
        TableKind::CouponPayment => {
            assert forall|i: int| 0 <= i < u.len() implies linked(#[trigger] u[i], w.entries) by {
                assert(u[i].parent_id == t[i].parent_id);
                assert(linked(t[i], v.entries));
            }
        },
    }
}

/// A row soft-deleted at `now`: flagged deleted and dirty again.
pub open spec fn soft_row(r: RowView, now: i64) -> RowView {
    RowView { deleted: true, deleted_at: Some(now), synced_at: None, ..r }
}

/// Whether the entry of id `pid` in `entries` belongs to portfolio `id`.
pub open spec fn entry_under(entries: Seq<RowView>, pid: Seq<char>, id: Seq<char>) -> bool {
    exists|j: int| 0 <= j < entries.len() && (#[trigger] entries[j]).id == pid && entries[j].parent_id == Some(id)
}

/// Whether row `r` of table `rk` lies at or below row `id` of table `k`.
pub open spec fn in_subtree(v: StoreView, k: TableKind, id: Seq<char>, rk: TableKind, r: RowView) -> bool {
    match (k, rk) {
        (TableKind::Portfolio, TableKind::Portfolio) => r.id == id,
        (TableKind::Portfolio, TableKind::Entry) => r.parent_id == Some(id),
        (TableKind::Portfolio, TableKind::CouponPayment) => r.parent_id is Some && entry_under(
            v.entries,
            r.parent_id->0,
            id,
        ),
        (TableKind::Entry, TableKind::Entry) => r.id == id,
        (TableKind::Entry, TableKind::CouponPayment) => r.parent_id == Some(id),
        (TableKind::CouponPayment, TableKind::CouponPayment) => r.id == id,
        _ => false,
    }
}

impl StoreView {
    /// The store after a local soft delete of row `id` of table `k`: the row
    /// and every row below it are flagged deleted and become dirty.
    pub open spec fn soft_deleted(self, k: TableKind, id: Seq<char>, now: i64) -> StoreView {
        StoreView {
            portfolios: self.portfolios.map_values(
                |r: RowView| if in_subtree(self, k, id, TableKind::Portfolio, r) { soft_row(r, now) } else { r },
            ),
            entries: self.entries.map_values(
                |r: RowView| if in_subtree(self, k, id, TableKind::Entry, r) { soft_row(r, now) } else { r },
            ),
            payments: self.payments.map_values(
                |r: RowView| if in_subtree(self, k, id, TableKind::CouponPayment, r) { soft_row(r, now) } else { r },
            ),
            checkpoint: self.checkpoint,
        }
    }

    /// The store with its checkpoint replaced.
    pub open spec fn with_checkpoint(self, c: Checkpoint) -> StoreView {
        StoreView { checkpoint: Some(c), ..self }
    }
}

/// A freshly created local row: version one, dirty, not deleted.
pub open spec fn new_row(id: Seq<char>, parent_id: Option<Seq<char>>, fields: Seq<Field>) -> RowView {
    RowView {
        id,
        parent_id,
        fields,
        sync_version: 1,
        synced_at: None,
        deleted: false,
        deleted_at: None,
    }
}

/// A row whose fields were edited locally: it becomes dirty.
pub open spec fn edited_row(r: RowView, fields: Seq<Field>) -> RowView {
    RowView { fields, synced_at: None, ..r }
}

/// A soft delete keeps referential integrity: no id or parent changes.
pub proof fn lemma_soft_deleted_wf(v: StoreView, k: TableKind, id: Seq<char>, now: i64)
    requires
        v.wf(),
    ensures
        v.soft_deleted(k, id, now).wf(),
{
    let w = v.soft_deleted(k, id, now);
    assert forall|a: int, b: int|
        0 <= a < w.portfolios.len() && 0 <= b < w.portfolios.len() && a != b implies (#[trigger] w.portfolios[a]).id
        != (#[trigger] w.portfolios[b]).id by {
        assert(w.portfolios[a].id == v.portfolios[a].id && w.portfolios[b].id == v.portfolios[b].id);
    }
    assert forall|a: int, b: int|
        0 <= a < w.entries.len() && 0 <= b < w.entries.len() && a != b implies (#[trigger] w.entries[a]).id
        != (#[trigger] w.entries[b]).id by {
        assert(w.entries[a].id == v.entries[a].id && w.entries[b].id == v.entries[b].id);
    }
    assert forall|a: int, b: int|
        0 <= a < w.payments.len() && 0 <= b < w.payments.len() && a != b implies (#[trigger] w.payments[a]).id
        != (#[trigger] w.payments[b]).id by {
        assert(w.payments[a].id == v.payments[a].id && w.payments[b].id == v.payments[b].id);
    }
    assert forall|i: int| 0 <= i < w.portfolios.len() implies (#[trigger] w.portfolios[i]).parent_id is None by {
        assert(w.portfolios[i].parent_id == v.portfolios[i].parent_id);
    }
    assert forall|i: int| 0 <= i < w.entries.len() implies linked(#[trigger] w.entries[i], w.portfolios) by {
        assert(linked(v.entries[i], v.portfolios));
        let j = choose|j: int| 0 <= j < v.portfolios.len() && v.portfolios[j].id == v.entries[i].parent_id->0;
        assert(w.portfolios[j].id == v.portfolios[j].id);
    }
    assert forall|i: int| 0 <= i < w.payments.len() implies linked(#[trigger] w.payments[i], w.entries) by {
        assert(linked(v.payments[i], v.entries));
        let j = choose|j: int| 0 <= j < v.entries.len() && v.entries[j].id == v.payments[i].parent_id->0;
        assert(w.entries[j].id == v.entries[j].id);
    }
}

/// A row that survives a hard delete was already there, and is not the row
/// deleted.
pub proof fn lemma_hard_deleted_rows(s: StoreView, kd: TableKind, id: Seq<char>, k: TableKind, y: RowView)
    requires
        s.hard_deleted(kd, id).table(k).contains(y),
    ensures
        s.table(k).contains(y),
        k == kd ==> y.id != id,
{
    let w = s.with_table(kd, without_id(s.table(kd), id));
    let e = keep_linked(w.entries, w.portfolios);
    lemma_filter_rows(s.table(kd), |r: RowView| r.id != id);
    s.table(kd).filter_lemma(|r: RowView| r.id != id);
    lemma_filter_rows(w.entries, |r: RowView| linked(r, w.portfolios));
    lemma_filter_rows(w.payments, |r: RowView| linked(r, e));
    if k == TableKind::Entry {
        assert(w.entries.contains(y));
    } else if k == TableKind::CouponPayment {
        assert(w.payments.contains(y));
    }
    if k == kd {
        assert(without_id(s.table(kd), id).contains(y));
    }
}

/// A filter whose predicate holds of every element changes nothing.
pub proof fn lemma_filter_keeps_all<A>(t: Seq<A>, p: spec_fn(A) -> bool)
    requires
        forall|i: int| 0 <= i < t.len() ==> p(#[trigger] t[i]),
    ensures
        t.filter(p) == t,
    decreases t.len(),
{
    reveal(Seq::filter);
    if t.len() > 0 {
        lemma_filter_keeps_all(t.drop_last(), p);
        assert(t.drop_last().push(t.last()) =~= t);
    }
}

/// Hard-deleting an absent row of a store with referential integrity
/// changes nothing.
pub proof fn lemma_hard_delete_absent(v: StoreView, k: TableKind, id: Seq<char>)
    requires
        v.wf(),
        !has_id(v.table(k), id),
    ensures
        v.hard_deleted(k, id) == v,
{
    let t = v.table(k);
    assert forall|i: int| 0 <= i < t.len() implies (|r: RowView| r.id != id)(#[trigger] t[i]) by {
        if t[i].id == id {
            assert(has_id(t, id));
        }
    }
    lemma_filter_keeps_all(t, |r: RowView| r.id != id);
    let w = v.with_table(k, without_id(t, id));
    assert(w == v);
    lemma_filter_keeps_all(v.entries, |r: RowView| linked(r, v.portfolios));
    lemma_filter_keeps_all(v.payments, |r: RowView| linked(r, v.entries));
}

/// Storing a row under its id twice is storing it once.
pub proof fn lemma_upsert_twice(t: Seq<RowView>, r: RowView)
    ensures
        upsert_into(upsert_into(t, r), r) == upsert_into(t, r),
{
    let u = upsert_into(t, r);
    lemma_upsert_into(t, r);
    let w = u.map_values(|x: RowView| if x.id == r.id { r } else { x });
    assert forall|j: int| 0 <= j < u.len() && u[j].id == r.id implies u[j] == r by {
        if has_id(t, r.id) {
        } else if j < t.len() {
            assert(u[j] == t[j]);
            assert(has_id(t, r.id));
        }
    }
    assert(w =~= u);
}

/// Copies a row.
pub fn copy_row(r: &Row) -> (out: Row)
    ensures
        out@ == r@,
{
    let parent_id = match &r.parent_id {
        Some(p) => Some(p.clone()),
        None => None,
    };
    Row {
        id: r.id.clone(),
        parent_id,
        fields: copy_fields(&r.fields),
        sync_version: r.sync_version,
        synced_at: r.synced_at,
        deleted: r.deleted,
        deleted_at: r.deleted_at,
    }
}

/// Rank of a table from parent to child.
pub open spec fn upsert_rank_of(k: TableKind) -> int {
    match k {
        TableKind::Portfolio => 0,
        TableKind::Entry => 1,
        TableKind::CouponPayment => 2,
    }
}

/// Copies a table.
pub fn copy_rows(rows: &Vec<Row>) -> (out: Vec<Row>)
    ensures
        views(out@) == views(rows@),
{
    let mut out: Vec<Row> = Vec::new();
    let mut i: usize = 0;
    while i < rows.len()
        invariant
            i <= rows@.len(),
            views(out@) == views(rows@).subrange(0, i as int),
        decreases rows.len() - i,
    {
        let ghost prev = out@;
        out.push(copy_row(&rows[i]));
        proof {
            assert(views(out@) =~= views(prev).push(rows@[i as int]@));
            assert(views(rows@).subrange(0, i + 1) =~= views(rows@).subrange(0, i as int).push(rows@[i as int]@));
        }
        i = i + 1;
    }
    proof {
        assert(views(rows@).subrange(0, rows@.len() as int) =~= views(rows@));
    }
    out
}

/// Position of the row with the given id.
pub fn find_index(rows: &Vec<Row>, id: &String) -> (r: Option<usize>)
    ensures
        match r {
            Some(i) => i < rows@.len() && rows@[i as int]@.id == id@,
            None => !has_id(views(rows@), id@),
        },
{
    let mut i: usize = 0;
    while i < rows.len()
        invariant
            i <= rows@.len(),
            forall|j: int| 0 <= j < i ==> rows@[j]@.id != id@,
        decreases rows.len() - i,
    {
        if rows[i].id == *id {
            return Some(i);
        }
        i = i + 1;
    }
    proof {
        assert forall|j: int| 0 <= j < views(rows@).len() implies (#[trigger] views(rows@)[j]).id != id@ by {
            assert(views(rows@)[j] == rows@[j]@);
        }
    }
    None
}

/// Stores `row` under its id: in place when present, appended otherwise.
fn upsert_row(rows: &mut Vec<Row>, row: Row)
    requires
        ids_unique(views(old(rows)@)),
    ensures
        views(final(rows)@) == upsert_into(views(old(rows)@), row@),
        ids_unique(views(final(rows)@)),
{
    let ghost t = views(rows@);
    let ghost r = row@;
    match find_index(rows, &row.id) {
        Some(i) => {
            proof {
                assert(has_id(t, r.id)) by {
                    assert(t[i as int].id == r.id);
                }
            }
            rows.set(i, row);
            proof {
                let u = t.map_values(|x: RowView| if x.id == r.id { r } else { x });
                assert(views(rows@) =~= u) by {
                    assert forall|j: int| 0 <= j < u.len() implies views(rows@)[j] == u[j] by {
                        if j != i {
                            assert(t[j].id != t[i as int].id);
                        }
                    }
                }
            }
        },
        None => {
            rows.push(row);
            proof {
                assert(views(rows@) =~= t.push(r));
            }
        },
    }
    proof {
        lemma_upsert_into(t, r);
    }
}

/// Records the row of the given id as pushed at `now`.
fn mark_row_synced(rows: &mut Vec<Row>, id: &String, now: i64)
    requires
        ids_unique(views(old(rows)@)),
    ensures
        views(final(rows)@) == mark_row(views(old(rows)@), id@, now),
{
    let ghost t = views(rows@);
    match find_index(rows, id) {
        Some(i) => {
            let mut r = copy_row(&rows[i]);
            r.synced_at = Some(now);
            if r.sync_version < i64::MAX {
                r.sync_version = r.sync_version + 1;
            }
            rows.set(i, r);
            proof {
                let u = mark_row(t, id@, now);
                assert(views(rows@) =~= u) by {
                    assert forall|j: int| 0 <= j < u.len() implies views(rows@)[j] == u[j] by {
                        if j != i {
                            assert(t[j].id != t[i as int].id);
                        }
                    }
                }
            }
        },
        None => {
            proof {
                assert(views(rows@) =~= mark_row(t, id@, now)) by {
                    assert forall|j: int| 0 <= j < t.len() implies t[j].id != id@ by {
                        if t[j].id == id@ {
                            assert(has_id(t, id@));
                        }
                    }
                }
            }
        },
    }
}

/// Flags the rows of one table that lie in the deleted subtree.
fn soft_delete_rows(
    rows: &mut Vec<Row>,
    entries: &Vec<Row>,
    k: TableKind,
    id: &String,
    rk: TableKind,
    now: i64,
    Ghost(v): Ghost<StoreView>,
)
    requires
        views(entries@) == v.entries,
        ids_unique(v.entries),
        k != rk ==> (upsert_rank_of(rk) > upsert_rank_of(k)),
    ensures
        views(final(rows)@) == views(old(rows)@).map_values(
            |r: RowView| if in_subtree(v, k, id@, rk, r) { soft_row(r, now) } else { r },
        ),
{
    let ghost t = views(rows@);
    let ghost f = |r: RowView| if in_subtree(v, k, id@, rk, r) { soft_row(r, now) } else { r };
    let mut i: usize = 0;
    while i < rows.len()
        invariant
            i <= rows@.len(),
            t.len() == rows@.len(),
            views(entries@) == v.entries,
            ids_unique(v.entries),
            k != rk ==> (upsert_rank_of(rk) > upsert_rank_of(k)),
            f == (|r: RowView| if in_subtree(v, k, id@, rk, r) { soft_row(r, now) } else { r }),
            forall|j: int| 0 <= j < i ==> rows@[j]@ == f(t[j]),
            forall|j: int| i <= j < rows@.len() ==> rows@[j]@ == t[j],
        decreases rows.len() - i,
    {
        let ghost r = rows@[i as int]@;
        let hit = if k == rk {
            rows[i].id == *id
        } else if k == TableKind::Portfolio && rk == TableKind::CouponPayment {
            match &rows[i].parent_id {
                Some(p) => match find_index(entries, p) {
                    Some(j) => {
                        let under = match &entries[j].parent_id {
                            Some(q) => *q == *id,
                            None => false,
                        };
                        proof {
                            assert(views(entries@)[j as int] == entries@[j as int]@);
                            if !under {
                                assert forall|m: int|
                                    0 <= m < v.entries.len() && (#[trigger] v.entries[m]).id == p@ implies v.entries[m].parent_id
                                    != Some(id@) by {
                                    if m != j {
                                        assert(v.entries[m].id != v.entries[j as int].id);
                                    }
                                }
                            }
                        }
                        under
                    },
                    None => {
                        proof {
                            if entry_under(v.entries, p@, id@) {
                                let m = choose|m: int|
                                    0 <= m < v.entries.len() && (#[trigger] v.entries[m]).id == p@ && v.entries[m].parent_id
                                        == Some(id@);
                                assert(has_id(views(entries@), p@));
                            }
                        }
                        false
                    },
                },
                None => false,
            }
        } else {
            match &rows[i].parent_id {
                Some(p) => *p == *id,
                None => false,
            }
        };
        proof {
            assert(hit == in_subtree(v, k, id@, rk, r));
        }
        if hit {
            let mut row = copy_row(&rows[i]);
            row.deleted = true;
            row.deleted_at = Some(now);
            row.synced_at = None;
            rows.set(i, row);
        }
        i = i + 1;
    }
    proof {
        assert(views(rows@) =~= t.map_values(f));
    }
}

/// The rows of the table other than the one with the given id.
fn rows_without_id(rows: &Vec<Row>, id: &String) -> (out: Vec<Row>)
    ensures
        views(out@) == without_id(views(rows@), id@),
{
    let ghost t = views(rows@);
    let mut out: Vec<Row> = Vec::new();
    let mut i: usize = 0;
    while i < rows.len()
        invariant
            i <= rows@.len(),
            t == views(rows@),
            views(out@) == without_id(t.subrange(0, i as int), id@),
        decreases rows.len() - i,
    {
        proof {
            reveal(Seq::filter);
            assert(t.subrange(0, i + 1).drop_last() =~= t.subrange(0, i as int));
            assert(t.subrange(0, i + 1).last() == rows@[i as int]@);
        }
        if !(rows[i].id == *id) {
            out.push(copy_row(&rows[i]));
            proof {
                assert(views(out@) =~= without_id(t.subrange(0, i + 1), id@));
            }
        }
        i = i + 1;
    }
    proof {
        assert(t.subrange(0, rows@.len() as int) =~= t);
    }
    out
}

/// The rows of `children` whose parent is present in `parents`.
fn rows_linked(children: &Vec<Row>, parents: &Vec<Row>) -> (out: Vec<Row>)
    ensures
        views(out@) == keep_linked(views(children@), views(parents@)),
{
    let ghost t = views(children@);
    let ghost ps = views(parents@);
    let mut out: Vec<Row> = Vec::new();
    let mut i: usize = 0;
    while i < children.len()
        invariant
            i <= children@.len(),
            t == views(children@),
            ps == views(parents@),
            views(out@) == keep_linked(t.subrange(0, i as int), ps),
        decreases children.len() - i,
    {
        proof {
            reveal(Seq::filter);
            assert(t.subrange(0, i + 1).drop_last() =~= t.subrange(0, i as int));
            assert(t.subrange(0, i + 1).last() == children@[i as int]@);
        }
        let keep = match &children[i].parent_id {
            Some(p) => match find_index(parents, p) {
                Some(j) => {
                    proof {
                        assert(ps[j as int] == parents@[j as int]@);
                    }
                    true
                },
                None => false,
            },
            None => false,
        };
        if keep {
            out.push(copy_row(&children[i]));
            proof {
                assert(views(out@) =~= keep_linked(t.subrange(0, i + 1), ps));
            }
        }
        i = i + 1;
    }
    proof {
        assert(t.subrange(0, children@.len() as int) =~= t);
    }
    out
}

impl LocalStore {
    /// An empty store with no checkpoint.
    pub fn new() -> (s: LocalStore)
        ensures
            s@.portfolios.len() == 0,
            s@.entries.len() == 0,
            s@.payments.len() == 0,
            s@.checkpoint is None,
            s@.wf(),
    {
        let s = LocalStore {
            portfolios: Vec::new(),
            entries: Vec::new(),
            payments: Vec::new(),
            checkpoint: None,
        };
        proof {
            assert(views(s.portfolios@) =~= Seq::<RowView>::empty());
            assert(views(s.entries@) =~= Seq::<RowView>::empty());
            assert(views(s.payments@) =~= Seq::<RowView>::empty());
        }
        s
    }

    /// The rows of one table.
    pub fn rows(&self, k: TableKind) -> (r: &Vec<Row>)
        ensures
            views(r@) == self@.table(k),
    {
        match k {
            TableKind::Portfolio => &self.portfolios,
            TableKind::Entry => &self.entries,
            TableKind::CouponPayment => &self.payments,
        }
    }

    /// The row of table `k` with the given id, if any.
    pub fn get(&self, k: TableKind, id: &String) -> (r: Option<&Row>)
        ensures
            match r {
                Some(row) => row@.id == id@ && self@.table(k).contains(row@),
                None => !has_id(self@.table(k), id@),
            },
    {
        let rows = self.rows(k);
        match find_index(rows, id) {
            Some(i) => {
                proof {
                    assert(views(rows@)[i as int] == rows@[i as int]@);
                }
                Some(&rows[i])
            },
            None => None,
        }
    }

    /// Stores `row` in table `k` under its id: the row of that id is
    /// replaced in place when present, otherwise `row` is appended.
    pub fn upsert(&mut self, k: TableKind, row: Row)
        requires
            old(self)@.wf(),
            placeable(old(self)@, k, row@),
        ensures
            final(self)@ == old(self)@.with_table(k, upsert_into(old(self)@.table(k), row@)),
            final(self)@.wf(),
    {
        proof {
            lemma_upsert_wf(self@, k, row@);
        }
        match k {
            TableKind::Portfolio => upsert_row(&mut self.portfolios, row),
            TableKind::Entry => upsert_row(&mut self.entries, row),
            TableKind::CouponPayment => upsert_row(&mut self.payments, row),
        }
    }

    /// Records row `id` of table `k` as pushed at `now`: it becomes clean
    /// and its version goes up by one.  An absent row changes nothing.
    pub fn mark_synced_row(&mut self, k: TableKind, id: &String, now: i64)
        requires
            old(self)@.wf(),
        ensures
            final(self)@ == old(self)@.with_table(k, mark_row(old(self)@.table(k), id@, now)),
            final(self)@.wf(),
    {
        proof {
            lemma_mark_row_wf(self@, k, id@, now);
        }
        match k {
            TableKind::Portfolio => mark_row_synced(&mut self.portfolios, id, now),
            TableKind::Entry => mark_row_synced(&mut self.entries, id, now),
            TableKind::CouponPayment => mark_row_synced(&mut self.payments, id, now),
        }
    }

    /// The current checkpoint, if one was ever saved.
    pub fn get_checkpoint(&self) -> (r: Option<Checkpoint>)
        ensures
            r == self@.checkpoint,
    {
        match &self.checkpoint {
            Some(c) => Some(Checkpoint { updated_at: c.updated_at.clone(), id: c.id.clone() }),
            None => None,
        }
    }

    /// Replaces the checkpoint; the tables are untouched.
    pub fn save_checkpoint(&mut self, c: Checkpoint)
        requires
            old(self)@.wf(),
        ensures
            final(self)@ == old(self)@.with_checkpoint(c),
            final(self)@.wf(),
    {
        self.checkpoint = Some(c);
    }

    /// Creates a local row: version one, dirty.  A child row needs its
    /// parent present; a portfolio has no parent.
    pub fn create(&mut self, k: TableKind, id: String, parent_id: Option<String>, fields: Vec<Field>) -> (r: Result<
        (),
        StoreError,
    >)
        requires
            old(self)@.wf(),
        ensures
            final(self)@.wf(),
            has_id(old(self)@.table(k), id@) ==> r == Err::<(), StoreError>(StoreError::DuplicateId) && final(self)@ == old(self)@,
            !has_id(old(self)@.table(k), id@) && k != TableKind::Portfolio && !(parent_id is Some && has_id(
                old(self)@.parent_table(k),
                parent_id->0@,
            )) ==> r == Err::<(), StoreError>(StoreError::MissingParent) && final(self)@ == old(self)@,
            r is Ok <==> !has_id(old(self)@.table(k), id@) && (k == TableKind::Portfolio || (parent_id is Some
                && has_id(old(self)@.parent_table(k), parent_id->0@))),
            r is Ok ==> final(self)@ == old(self)@.with_table(
                k,
                old(self)@.table(k).push(
                    new_row(id@, if k == TableKind::Portfolio { None } else { opt_view(parent_id) }, fields@),
                ),
            ),
    {
        if self.get(k, &id).is_some() {
            return Err(StoreError::DuplicateId);
        }
        let parent = match k {
            TableKind::Portfolio => None,
            _ => match parent_id {
                Some(p) => {
                    if self.get(parent_kind_of(k), &p).is_none() {
                        return Err(StoreError::MissingParent);
                    }
                    Some(p)
                },
                None => {
                    return Err(StoreError::MissingParent);
                },
            },
        };
        let row = Row {
            id,
            parent_id: parent,
            fields,
            sync_version: 1,
            synced_at: None,
            deleted: false,
            deleted_at: None,
        };
        let ghost t = self@.table(k);
        proof {
            lemma_upsert_into(t, row@);
        }
        self.upsert(k, row);
        Ok(())
    }

    /// Replaces the fields of a local row; the row becomes dirty.
    pub fn update(&mut self, k: TableKind, id: &String, fields: Vec<Field>) -> (r: Result<(), StoreError>)
        requires
            old(self)@.wf(),
        ensures
            final(self)@.wf(),
            r is Ok <==> has_id(old(self)@.table(k), id@),
            r is Err ==> r == Err::<(), StoreError>(StoreError::NotFound) && final(self)@ == old(self)@,
            r is Ok ==> final(self)@ == old(self)@.with_table(
                k,
                old(self)@.table(k).map_values(|x: RowView| if x.id == id@ { edited_row(x, fields@) } else { x }),
            ),
    {
        let old_row = match self.get(k, id) {
            Some(row) => copy_row(row),
            None => {
                return Err(StoreError::NotFound);
            },
        };
        let ghost t = self@.table(k);
        let row = Row {
            id: old_row.id,
            parent_id: old_row.parent_id,
            fields,
            sync_version: old_row.sync_version,
            synced_at: None,
            deleted: old_row.deleted,
            deleted_at: old_row.deleted_at,
        };
        proof {
            let a = choose|a: int| 0 <= a < t.len() && t[a] == old_row@;
            assert(has_id(t, row@.id));
            assert(linked(t[a], self@.parent_table(k)) || k == TableKind::Portfolio);
            if k == TableKind::Portfolio {
                assert(t[a].parent_id is None);
            }
            assert(t.map_values(|x: RowView| if x.id == row@.id { row@ } else { x }) =~= t.map_values(
                |x: RowView| if x.id == id@ { edited_row(x, fields@) } else { x },
            )) by {
                assert forall|j: int| 0 <= j < t.len() && t[j].id == id@ implies t[j] == old_row@ by {
                    if j != a {
                        assert(t[j].id != t[a].id);
                    }
                }
            }
        }
        self.upsert(k, row);
        Ok(())
    }

    /// Soft-deletes row `id` of table `k` and every row below it: each is
    /// flagged deleted at `now` and becomes dirty.
    pub fn soft_delete(&mut self, k: TableKind, id: &String, now: i64) -> (r: Result<(), StoreError>)
        requires
            old(self)@.wf(),
        ensures
            final(self)@.wf(),
            r is Ok <==> has_id(old(self)@.table(k), id@),
            r is Err ==> r == Err::<(), StoreError>(StoreError::NotFound) && final(self)@ == old(self)@,
            r is Ok ==> final(self)@ == old(self)@.soft_deleted(k, id@, now),
    {
        if self.get(k, id).is_none() {
            return Err(StoreError::NotFound);
        }
        let ghost v = self@;
        proof {
            lemma_soft_deleted_wf(v, k, id@, now);
        }
        let entries = copy_rows(&self.entries);
        match k {
            TableKind::Portfolio => {
                soft_delete_rows(&mut self.portfolios, &entries, k, id, TableKind::Portfolio, now, Ghost(v));
                soft_delete_rows(&mut self.entries, &entries, k, id, TableKind::Entry, now, Ghost(v));
                soft_delete_rows(&mut self.payments, &entries, k, id, TableKind::CouponPayment, now, Ghost(v));
            },
            TableKind::Entry => {
                soft_delete_rows(&mut self.entries, &entries, k, id, TableKind::Entry, now, Ghost(v));
                soft_delete_rows(&mut self.payments, &entries, k, id, TableKind::CouponPayment, now, Ghost(v));
            },
            TableKind::CouponPayment => {
                soft_delete_rows(&mut self.payments, &entries, k, id, TableKind::CouponPayment, now, Ghost(v));
            },
        }
        proof {
            let w = v.soft_deleted(k, id@, now);
            if k != TableKind::Portfolio {
                assert(w.portfolios =~= v.portfolios);
            }
            if k == TableKind::CouponPayment {
                assert(w.entries =~= v.entries);
            }
            assert(self@ == w);
        }
        Ok(())
    }

    /// Physically removes row `id` of table `k` together with every row
    /// below it; removing an absent row changes nothing.
    pub fn hard_delete(&mut self, k: TableKind, id: &String)
        requires
            old(self)@.wf(),
        ensures
            final(self)@ == old(self)@.hard_deleted(k, id@),
            final(self)@.wf(),
    {
        proof {
            lemma_hard_deleted_wf(self@, k, id@);
        }
        match k {
            TableKind::Portfolio => {
                self.portfolios = rows_without_id(&self.portfolios, id);
            },
            TableKind::Entry => {
                self.entries = rows_without_id(&self.entries, id);
            },
            TableKind::CouponPayment => {
                self.payments = rows_without_id(&self.payments, id);
            },
        }
        self.entries = rows_linked(&self.entries, &self.portfolios);
        self.payments = rows_linked(&self.payments, &self.entries);
    }
}

} // verus!
