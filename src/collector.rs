//! The change collector: turns the dirty rows of the store into the outbound
//! batch, and records a pushed batch as synced.
use vstd::prelude::*;

use crate::apply::{parent_key, spec_wire_kind, wire_kind};
use crate::record::{copy_fields, spec_local_name, spec_parent_key, Field, FieldValue, SyncRecord, TableKind};
use crate::store::{
    lemma_filter_rows, lemma_hard_deleted_rows, mark_row, views, LocalStore, Row, RowView, StoreView,
};
use crate::table_map::{db_to_sync, spec_db_to_sync};

verus! {

/// The dirty rows of a table, in table order.
pub open spec fn dirty(t: Seq<RowView>) -> Seq<RowView> {
    t.filter(|r: RowView| r.synced_at is None)
}

/// The dirty rows of the store tagged with their table: portfolios, then
/// entries, then payments.
pub open spec fn outbound_rows(v: StoreView) -> Seq<(TableKind, RowView)> {
    dirty(v.portfolios).map_values(|r: RowView| (TableKind::Portfolio, r))
        + dirty(v.entries).map_values(|r: RowView| (TableKind::Entry, r))
        + dirty(v.payments).map_values(|r: RowView| (TableKind::CouponPayment, r))
}

/// Wire name of a table.
pub open spec fn wire_name(k: TableKind) -> Seq<char> {
    spec_db_to_sync(spec_local_name(k))
}

/// The payload of an active row: for a child, its parent's id under the
/// parent key first, then the row's own fields (null fields are absent).
pub open spec fn payload_of(data: Seq<Field>, k: TableKind, r: RowView) -> bool {
    if k == TableKind::Portfolio {
        data == r.fields
    } else {
        &&& data.len() == r.fields.len() + 1
        &&& data[0].key@ == spec_parent_key(k)
        &&& r.parent_id is Some
        &&& data[0].value matches FieldValue::Text(p) && p@ == r.parent_id->0
        &&& data.drop_first() == r.fields
    }
}

/// `rec` is the outbound record of row `r` of table `k`: a tombstone with an
/// empty payload for a soft-deleted row, a full snapshot otherwise.
pub open spec fn describes(rec: SyncRecord, k: TableKind, r: RowView) -> bool {
    &&& rec.table_name@ == wire_name(k)
    &&& rec.row_id@ == r.id
    &&& rec.version == r.sync_version
    &&& rec.deleted == r.deleted
    &&& if r.deleted { rec.data@.len() == 0 } else { payload_of(rec.data@, k, r) }
}

/// `recs` is the outbound batch of store `v`: one record per dirty row.
pub open spec fn collected(v: StoreView, recs: Seq<SyncRecord>) -> bool {
    &&& recs.len() == outbound_rows(v).len()
    &&& forall|i: int|
        0 <= i < recs.len() ==> describes(#[trigger] recs[i], outbound_rows(v)[i].0, outbound_rows(v)[i].1)
}

/// The record that describes a dirty row.
fn record_of(k: TableKind, row: &Row) -> (rec: SyncRecord)
    requires
        k == TableKind::Portfolio || row.parent_id is Some,
    ensures
        describes(rec, k, row@),
{
    let table_name = db_to_sync(k.local_name()).to_owned();
    let data = if row.deleted {
        Vec::new()
    } else {
        match &row.parent_id {
            Some(p) if k != TableKind::Portfolio => {
                let mut d: Vec<Field> = Vec::new();
                d.push(Field { key: parent_key(k).to_owned(), value: FieldValue::Text(p.clone()) });
                let own = copy_fields(&row.fields);
                let mut i: usize = 0;
                while i < own.len()
                    invariant
                        i <= own@.len(),
                        d@.len() == i + 1,
                        d@[0].key@ == spec_parent_key(k),
                        d@[0].value matches FieldValue::Text(q) && q@ == p@,
                        d@.drop_first() == own@.subrange(0, i as int),
                    decreases own.len() - i,
                {
                    d.push(Field { key: own[i].key.clone(), value: crate::record::copy_value(&own[i].value) });
                    i = i + 1;
                    proof {
                        assert(d@.drop_first() =~= own@.subrange(0, i as int));
                    }
                }
                proof {
                    assert(own@.subrange(0, own@.len() as int) =~= own@);
                }
                d
            },
            _ => copy_fields(&row.fields),
        }
    };
    SyncRecord { table_name, row_id: row.id.clone(), data, version: row.sync_version, deleted: row.deleted }
}

/// Appends the records of the dirty rows of one table.
fn collect_table(k: TableKind, rows: &Vec<Row>, out: &mut Vec<SyncRecord>)
    requires
        forall|i: int|
            0 <= i < rows@.len() ==> k == TableKind::Portfolio || (#[trigger] rows@[i]).parent_id is Some,
    ensures
        final(out)@.len() == old(out)@.len() + dirty(views(rows@)).len(),
        final(out)@.subrange(0, old(out)@.len() as int) == old(out)@,
        forall|j: int|
            0 <= j < dirty(views(rows@)).len() ==> describes(
                #[trigger] final(out)@[old(out)@.len() + j],
                k,
                dirty(views(rows@))[j],
            ),
{
    let ghost t = views(rows@);
    let ghost base = out@;
    let mut i: usize = 0;
    while i < rows.len()
        invariant
            i <= rows@.len(),
            t == views(rows@),
            forall|m: int|
                0 <= m < rows@.len() ==> k == TableKind::Portfolio || (#[trigger] rows@[m]).parent_id is Some,
            out@.len() == base.len() + dirty(t.subrange(0, i as int)).len(),
            out@.subrange(0, base.len() as int) == base,
            forall|j: int|
                0 <= j < dirty(t.subrange(0, i as int)).len() ==> describes(
                    #[trigger] out@[base.len() + j],
                    k,
                    dirty(t.subrange(0, i as int))[j],
                ),
        decreases rows.len() - i,
    {
        let ghost before = dirty(t.subrange(0, i as int));
        proof {
            reveal(Seq::filter);
            assert(t.subrange(0, i + 1).drop_last() =~= t.subrange(0, i as int));
            assert(t.subrange(0, i + 1).last() == rows@[i as int]@);
        }
        if rows[i].synced_at.is_none() {
            let rec = record_of(k, &rows[i]);
            let ghost prev = out@;
            out.push(rec);
            proof {
                let after = dirty(t.subrange(0, i + 1));
                assert(after == before.push(rows@[i as int]@));
                assert(out@.subrange(0, base.len() as int) =~= base);
                assert forall|j: int| 0 <= j < after.len() implies describes(
                    #[trigger] out@[base.len() + j],
                    k,
                    after[j],
                ) by {
                    if j < before.len() {
                        assert(out@[base.len() + j] == prev[base.len() + j]);
                    }
                }
            }
        }
        i = i + 1;
    }
    proof {
        assert(t.subrange(0, rows@.len() as int) =~= t);
    }
}

impl LocalStore {
    /// The outbound batch: one record for every dirty row of the three
    /// tables, tombstones for soft-deleted rows and snapshots for the rest.
    /// The store is not changed.
    pub fn collect(&self) -> (recs: Vec<SyncRecord>)
        requires
            self@.wf(),
        ensures
            collected(self@, recs@),
    {
        let ghost v = self@;
        let mut out: Vec<SyncRecord> = Vec::new();
        proof {
            assert forall|i: int| 0 <= i < v.entries.len() implies (#[trigger] v.entries[i]).parent_id is Some by {
                assert(crate::store::linked(v.entries[i], v.portfolios));
            }
            assert forall|i: int| 0 <= i < v.payments.len() implies (#[trigger] v.payments[i]).parent_id is Some by {
                assert(crate::store::linked(v.payments[i], v.entries));
            }
        }
        let p = self.rows(TableKind::Portfolio);
        collect_table(TableKind::Portfolio, p, &mut out);
        let ghost o1 = out@;
        let e = self.rows(TableKind::Entry);
        proof {
            assert forall|i: int| 0 <= i < e@.len() implies (#[trigger] e@[i]).parent_id is Some by {
                assert(views(e@)[i] == e@[i]@);
            }
        }
        collect_table(TableKind::Entry, e, &mut out);
        let ghost o2 = out@;
        let c = self.rows(TableKind::CouponPayment);
        proof {
            assert forall|i: int| 0 <= i < c@.len() implies (#[trigger] c@[i]).parent_id is Some by {
                assert(views(c@)[i] == c@[i]@);
            }
        }
        collect_table(TableKind::CouponPayment, c, &mut out);
        proof {
            let rows = outbound_rows(v);
            let n1 = dirty(v.portfolios).len();
            let n2 = dirty(v.entries).len();
            assert forall|i: int| 0 <= i < out@.len() implies describes(
                #[trigger] out@[i],
                rows[i].0,
                rows[i].1,
            ) by {
                if i < n1 {
                    assert(out@[i] == o2[i]);
                    assert(o2[i] == o1[i]);
                    assert(o1[0 + i] == out@[i]);
                } else if i < n1 + n2 {
                    assert(out@[i] == o2[i]);
                    assert(o2[n1 + (i - n1)] == out@[i]);
                } else {
                    assert(out@[(n1 + n2) + (i - n1 - n2)] == out@[i]);
                }
            }
        }
        out
    }
}

/// Effect of recording one pushed record: a tombstone's row is hard-deleted,
/// any other row becomes clean with its version bumped.
pub open spec fn mark_step(v: StoreView, rec: SyncRecord, now: i64) -> StoreView {
    match spec_wire_kind(rec.table_name@) {
        None => v,
        Some(k) => if rec.deleted {
            v.hard_deleted(k, rec.row_id@)
        } else {
            v.with_table(k, mark_row(v.table(k), rec.row_id@, now))
        },
    }
}

/// Recording a whole pushed batch, in batch order.
pub open spec fn mark_all(v: StoreView, recs: Seq<SyncRecord>, now: i64) -> StoreView
    decreases recs.len(),
{
    if recs.len() == 0 {
        v
    } else {
        mark_step(mark_all(v, recs.drop_last(), now), recs.last(), now)
    }
}

impl LocalStore {
    /// Records an acknowledged outbound batch: every tombstoned row is
    /// hard-deleted, every other row named by the batch gets `synced_at =
    /// now` and its version bumped by one.
    pub fn mark_synced(&mut self, records: &Vec<SyncRecord>, now: i64)
        requires
            old(self)@.wf(),
        ensures
            final(self)@ == mark_all(old(self)@, records@, now),
            final(self)@.wf(),
    {
        let ghost v0 = self@;
        let mut i: usize = 0;
        while i < records.len()
            invariant
                i <= records@.len(),
                self@.wf(),
                self@ == mark_all(v0, records@.subrange(0, i as int), now),
            decreases records.len() - i,
        {
            proof {
                assert(records@.subrange(0, i + 1).drop_last() =~= records@.subrange(0, i as int));
            }
            let rec = &records[i];
            match wire_kind(&rec.table_name) {
                None => {},
                Some(k) => {
                    if rec.deleted {
                        self.hard_delete(k, &rec.row_id);
                    } else {
                        self.mark_synced_row(k, &rec.row_id, now);
                    }
                },
            }
            i = i + 1;
        }
        proof {
            assert(records@.subrange(0, records@.len() as int) =~= records@);
        }
    }
}

/// The wire table names of the three tables are distinct, and each one
/// denotes its own table.
pub proof fn lemma_wire_names(k: TableKind)
    ensures
        spec_wire_kind(wire_name(k)) == Some(k),
        forall|j: TableKind| wire_name(j) == wire_name(k) ==> j == k,
{
    reveal_strlit("portfolios");
    reveal_strlit("portfolio_entries");
    reveal_strlit("bond_coupon_payments");
    reveal_strlit("portfolioEntries");
    reveal_strlit("bondCouponPayments");
    assert("portfolios"@.len() == 10);
    assert("portfolioEntries"@.len() == 16);
    assert("portfolio_entries"@.len() == 17);
    assert("bondCouponPayments"@.len() == 18);
    assert("bond_coupon_payments"@.len() == 20);
}

/// `rec` names row `id` of table `k`.
pub open spec fn names(rec: SyncRecord, k: TableKind, id: Seq<char>) -> bool {
    rec.table_name@ == wire_name(k) && rec.row_id@ == id
}

/// Where the records of each table start in the outbound batch.
pub open spec fn segment_start(v: StoreView, k: TableKind) -> int {
    match k {
        TableKind::Portfolio => 0,
        TableKind::Entry => dirty(v.portfolios).len() as int,
        TableKind::CouponPayment => (dirty(v.portfolios).len() + dirty(v.entries).len()) as int,
    }
}

/// The outbound rows of table `k` sit in one segment of the batch.
proof fn lemma_outbound_segment(v: StoreView, k: TableKind, m: int)
    requires
        0 <= m < dirty(v.table(k)).len(),
    ensures
        0 <= segment_start(v, k) + m < outbound_rows(v).len(),
        outbound_rows(v)[segment_start(v, k) + m] == (k, dirty(v.table(k))[m]),
{
}

/// Locates an outbound row by its index in the batch: its position among
/// the dirty rows of its table.
proof fn lemma_outbound_index(v: StoreView, i: int) -> (m: int)
    requires
        0 <= i < outbound_rows(v).len(),
    ensures
        0 <= m < dirty(v.table(outbound_rows(v)[i].0)).len(),
        i == segment_start(v, outbound_rows(v)[i].0) + m,
        outbound_rows(v)[i].1 == dirty(v.table(outbound_rows(v)[i].0))[m],
{
    let n1 = dirty(v.portfolios).len() as int;
    let n2 = dirty(v.entries).len() as int;
    if i < n1 {
        assert(outbound_rows(v)[i].0 == TableKind::Portfolio);
        i
    } else if i < n1 + n2 {
        assert(outbound_rows(v)[i].0 == TableKind::Entry);
        assert(outbound_rows(v)[i].1 == dirty(v.entries)[i - n1]);
        i - n1
    } else {
        assert(outbound_rows(v)[i].0 == TableKind::CouponPayment);
        assert(outbound_rows(v)[i].1 == dirty(v.payments)[i - n1 - n2]);
        i - n1 - n2
    }
}

/// Dirty-set completeness: in a collected batch, every dirty row of the
/// store has exactly one record, and that record describes the row.
pub proof fn lemma_dirty_set_complete(v: StoreView, recs: Seq<SyncRecord>, k: TableKind, r: RowView)
    requires
        v.wf(),
        collected(v, recs),
        v.table(k).contains(r),
        r.synced_at is None,
    ensures
        exists|i: int| 0 <= i < recs.len() && names(recs[i], k, r.id) && describes(recs[i], k, r),
        forall|i: int, j: int|
            0 <= i < recs.len() && 0 <= j < recs.len() && names(recs[i], k, r.id) && names(recs[j], k, r.id)
                ==> i == j,
{
    let t = v.table(k);
    let d = dirty(t);
    let p = |x: RowView| x.synced_at is None;
    t.filter_lemma(p);
    lemma_filter_rows(t, p);
    lemma_wire_names(k);
    let a = choose|a: int| 0 <= a < t.len() && t[a] == r;
    assert(d.contains(t[a]));
    let m = choose|m: int| 0 <= m < d.len() && d[m] == r;
    lemma_outbound_segment(v, k, m);
    let i = segment_start(v, k) + m;
    assert(describes(recs[i], k, r));
    assert forall|x: int, y: int|
        0 <= x < recs.len() && 0 <= y < recs.len() && names(recs[x], k, r.id) && names(recs[y], k, r.id)
            implies x == y by {
        let mx = lemma_outbound_index(v, x);
        let my = lemma_outbound_index(v, y);
        let kx = outbound_rows(v)[x].0;
        let ky = outbound_rows(v)[y].0;
        assert(describes(recs[x], kx, outbound_rows(v)[x].1));
        assert(describes(recs[y], ky, outbound_rows(v)[y].1));
        assert(kx == k && ky == k);
        assert(d[mx].id == d[my].id);
    }
}

/// After the first `j` records of a pushed batch have been recorded, every
/// row still dirty was dirty before, and none of those `j` records names it.
pub open spec fn dirty_untouched(v: StoreView, s: StoreView, recs: Seq<SyncRecord>, j: int) -> bool {
    forall|k: TableKind, y: RowView|
        #[trigger] s.table(k).contains(y) && y.synced_at is None ==> v.table(k).contains(y) && forall|i: int|
            0 <= i < j ==> !names(#[trigger] recs[i], k, y.id)
}

proof fn lemma_mark_prefix(v: StoreView, recs: Seq<SyncRecord>, j: int, now: i64)
    requires
        0 <= j <= recs.len(),
    ensures
        dirty_untouched(v, mark_all(v, recs.subrange(0, j), now), recs, j),
    decreases j,
{
    if j == 0 {
        assert(recs.subrange(0, 0) =~= Seq::<SyncRecord>::empty());
    } else {
        lemma_mark_prefix(v, recs, j - 1, now);
        let pre = recs.subrange(0, j);
        assert(pre.drop_last() =~= recs.subrange(0, j - 1));
        let s = mark_all(v, recs.subrange(0, j - 1), now);
        let rec = recs[j - 1];
        let s2 = mark_step(s, rec, now);
        assert(mark_all(v, pre, now) == s2);
        assert forall|k: TableKind, y: RowView|
            #[trigger] s2.table(k).contains(y) && y.synced_at is None implies v.table(k).contains(y) && forall|i: int|
                0 <= i < j ==> !names(#[trigger] recs[i], k, y.id) by {
            lemma_wire_names(k);
            match spec_wire_kind(rec.table_name@) {
                None => {},
                Some(kd) => {
                    if rec.deleted {
                        lemma_hard_deleted_rows(s, kd, rec.row_id@, k, y);
                    } else if k == kd {
                        let t = s.table(k);
                        let u = mark_row(t, rec.row_id@, now);
                        let a = choose|a: int| 0 <= a < u.len() && u[a] == y;
                        assert(u[a] == t[a]);
                        assert(t.contains(y));
                    } else {
                        assert(s2.table(k) == s.table(k));
                    }
                },
            }
            assert forall|i: int| 0 <= i < j implies !names(#[trigger] recs[i], k, y.id) by {
                if i == j - 1 {
                    if names(recs[i], k, y.id) {
                        assert(spec_wire_kind(rec.table_name@) == Some(k));
                    }
                }
            }
        }
    }
}

/// Round trip: once a collected batch has been recorded as pushed, no row
/// of the store is dirty, so collecting again yields an empty batch.
pub proof fn lemma_round_trip(v: StoreView, recs: Seq<SyncRecord>, now: i64)
    requires
        v.wf(),
        collected(v, recs),
    ensures
        outbound_rows(mark_all(v, recs, now)).len() == 0,
{
    let s = mark_all(v, recs, now);
    lemma_mark_prefix(v, recs, recs.len() as int, now);
    assert(recs.subrange(0, recs.len() as int) =~= recs);
    assert forall|k: TableKind| dirty(#[trigger] s.table(k)).len() == 0 by {
        let t = s.table(k);
        let p = |x: RowView| x.synced_at is None;
        if dirty(t).len() > 0 {
            t.filter_lemma(p);
            lemma_filter_rows(t, p);
            let y = dirty(t)[0];
            assert(t.contains(y));
            assert(v.table(k).contains(y));
            lemma_dirty_set_complete(v, recs, k, y);
            let i = choose|i: int| 0 <= i < recs.len() && names(recs[i], k, y.id) && describes(recs[i], k, y);
            assert(!names(recs[i], k, y.id));
        }
    }
    assert(dirty(s.table(TableKind::Portfolio)).len() == 0);
    assert(dirty(s.table(TableKind::Entry)).len() == 0);
    assert(dirty(s.table(TableKind::CouponPayment)).len() == 0);
}

} // verus!
