//! The apply engine: replays a batch of remote records into the local store.
//!
//! Upserts are replayed before tombstones; upserts run parents first
//! (portfolios, entries, payments) and tombstones children first, each group
//! in batch order.  A record that cannot be applied is reported and skipped;
//! the rest of the batch still runs.
use vstd::prelude::*;

use crate::record::{
    copy_fields, copy_value, delete_rank, spec_local_name, spec_parent_key, upsert_rank, Field,
    FieldValue, SyncRecord, TableKind,
};
use crate::store::{
    has_id, ids_unique, lemma_hard_delete_absent, lemma_hard_deleted_rows, lemma_hard_deleted_wf,
    lemma_upsert_into, lemma_upsert_twice, lemma_upsert_wf, opt_view, parent_kind_of, upsert_into, LocalStore,
    Row, RowView, StoreView,
};
use crate::table_map::{spec_sync_to_db, str_eq, sync_to_db};

verus! {

/// Why one record of a batch was not applied.
#[derive(Clone, Copy, Debug, PartialEq, Eq, Structural)]
pub enum ApplyError {
    /// The table name is none of the three synchronized tables.
    UnknownTable,
    /// A child record carries no text parent reference in its payload.
    MissingParentRef,
    /// The referenced parent row is not present locally; the record is
    /// retried on a later cycle.
    MissingParent,
}

/// A record that was skipped, and why.
#[derive(Clone, Debug)]
pub struct ApplyFailure {
    pub table_name: String,
    pub row_id: String,
    pub error: ApplyError,
}

/// Outcome of applying a batch.
#[derive(Debug)]
pub struct ApplyReport {
    pub applied: usize,
    pub failed: Vec<ApplyFailure>,
}

/// The table a wire table name denotes, if any.
pub open spec fn spec_wire_kind(name: Seq<char>) -> Option<TableKind> {
    let local = spec_sync_to_db(name);
    if local == spec_local_name(TableKind::Portfolio) {
        Some(TableKind::Portfolio)
    } else if local == spec_local_name(TableKind::Entry) {
        Some(TableKind::Entry)
    } else if local == spec_local_name(TableKind::CouponPayment) {
        Some(TableKind::CouponPayment)
    } else {
        None
    }
}

/// The value of the first field with the given key.
pub open spec fn lookup(data: Seq<Field>, key: Seq<char>) -> Option<FieldValue>
    decreases data.len(),
{
    if data.len() == 0 {
        None
    } else if data[0].key@ == key {
        Some(data[0].value)
    } else {
        lookup(data.drop_first(), key)
    }
}

/// The text of a field value, if it is text.
pub open spec fn text_of(v: Option<FieldValue>) -> Option<Seq<char>> {
    match v {
        Some(FieldValue::Text(s)) => Some(s@),
        _ => None,
    }
}

/// The payload without the fields of the given key.
pub open spec fn strip_key(data: Seq<Field>, key: Seq<char>) -> Seq<Field> {
    data.filter(|f: Field| f.key@ != key)
}

/// The id of the parent row that a child record's payload names.
pub open spec fn parent_ref(r: SyncRecord, k: TableKind) -> Option<Seq<char>> {
    text_of(lookup(r.data@, spec_parent_key(k)))
}

/// The row an upsert record stores: the server's version, synced now.
pub open spec fn incoming_row(r: SyncRecord, k: TableKind, now: i64) -> RowView {
    RowView {
        id: r.row_id@,
        parent_id: if k == TableKind::Portfolio { None } else { parent_ref(r, k) },
        fields: if k == TableKind::Portfolio { r.data@ } else { strip_key(r.data@, spec_parent_key(k)) },
        sync_version: r.version,
        synced_at: Some(now),
        deleted: false,
        deleted_at: None,
    }
}

/// Effect of one record on the store, and the error it is reported with.
pub open spec fn apply_step(v: StoreView, r: SyncRecord, now: i64) -> (StoreView, Option<ApplyError>) {
    match spec_wire_kind(r.table_name@) {
        None => (v, Some(ApplyError::UnknownTable)),
        Some(k) => if r.deleted {
            (v.hard_deleted(k, r.row_id@), None)
        } else if k == TableKind::Portfolio {
            (v.with_table(k, upsert_into(v.table(k), incoming_row(r, k, now))), None)
        } else {
            match parent_ref(r, k) {
                None => (v, Some(ApplyError::MissingParentRef)),
                Some(p) => if has_id(v.parent_table(k), p) {
                    (v.with_table(k, upsert_into(v.table(k), incoming_row(r, k, now))), None)
                } else {
                    (v, Some(ApplyError::MissingParent))
                },
            }
        },
    }
}

/// Replay group of a record: upserts by table precedence (0..=2), then
/// tombstones children first (3..=5), then records of unknown tables (6).
pub open spec fn phase(r: SyncRecord) -> int {
    match spec_wire_kind(r.table_name@) {
        None => 6,
        Some(k) => if r.deleted { 3 + delete_rank(k) } else { upsert_rank(k) },
    }
}

/// The records of the batch in replay group `p`, in batch order.
pub open spec fn in_phase(batch: Seq<SyncRecord>, p: int) -> Seq<SyncRecord> {
    batch.filter(|r: SyncRecord| phase(r) == p)
}

/// The records of replay groups `0 .. p`, in replay order.
pub open spec fn phases_upto(batch: Seq<SyncRecord>, p: nat) -> Seq<SyncRecord>
    decreases p,
{
    if p == 0 {
        Seq::empty()
    } else {
        phases_upto(batch, (p - 1) as nat) + in_phase(batch, p - 1)
    }
}

/// The order in which a batch is replayed.
pub open spec fn replay_order(batch: Seq<SyncRecord>) -> Seq<SyncRecord> {
    phases_upto(batch, 7)
}

/// The failure reported for a skipped record.
pub open spec fn failure_of(r: SyncRecord, e: ApplyError) -> ApplyFailure {
    ApplyFailure { table_name: r.table_name, row_id: r.row_id, error: e }
}

/// Replaying `recs` in sequence: the final store, the failures in order, and
/// the number of records applied.
pub open spec fn run(v: StoreView, recs: Seq<SyncRecord>, now: i64) -> (StoreView, Seq<ApplyFailure>, nat)
    decreases recs.len(),
{
    if recs.len() == 0 {
        (v, Seq::empty(), 0)
    } else {
        let prev = run(v, recs.drop_last(), now);
        let step = apply_step(prev.0, recs.last(), now);
        match step.1 {
            Some(e) => (step.0, prev.1.push(failure_of(recs.last(), e)), prev.2),
            None => (step.0, prev.1, prev.2 + 1),
        }
    }
}

/// The outcome of applying a whole batch.
pub open spec fn apply_batch(v: StoreView, batch: Seq<SyncRecord>, now: i64) -> (StoreView, Seq<ApplyFailure>, nat) {
    run(v, replay_order(batch), now)
}

/// The table a wire table name denotes, if any.
pub fn wire_kind(name: &String) -> (r: Option<TableKind>)
    ensures
        r == spec_wire_kind(name@),
{
    let local = sync_to_db(name.as_str());
    if str_eq(local, "portfolios") {
        Some(TableKind::Portfolio)
    } else if str_eq(local, "portfolio_entries") {
        Some(TableKind::Entry)
    } else if str_eq(local, "bond_coupon_payments") {
        Some(TableKind::CouponPayment)
    } else {
        None
    }
}

/// Key of the parent reference in a payload of table `k`.
pub fn parent_key(k: TableKind) -> (r: &'static str)
    ensures
        r@ == spec_parent_key(k),
{
    match k {
        TableKind::Portfolio => "",
        TableKind::Entry => "portfolioSyncUuid",
        TableKind::CouponPayment => "entrySyncUuid",
    }
}

/// The text of the first field with the given key, if it is text.
pub fn find_text(data: &Vec<Field>, key: &str) -> (r: Option<String>)
    ensures
        opt_view(r) == text_of(lookup(data@, key@)),
{
    let mut i: usize = 0;
    proof {
        assert(data@.subrange(0, data@.len() as int) =~= data@);
    }
    while i < data.len()
        invariant
            i <= data@.len(),
            lookup(data@, key@) == lookup(data@.subrange(i as int, data@.len() as int), key@),
        decreases data.len() - i,
    {
        let ghost rest = data@.subrange(i as int, data@.len() as int);
        proof {
            assert(rest[0] == data@[i as int]);
            assert(rest.drop_first() =~= data@.subrange(i + 1, data@.len() as int));
        }
        if str_eq(data[i].key.as_str(), key) {
            return match &data[i].value {
                FieldValue::Text(s) => Some(s.clone()),
                _ => None,
            };
        }
        i = i + 1;
    }
    None
}

/// The payload without the fields of the given key.
pub fn strip_field(data: &Vec<Field>, key: &str) -> (out: Vec<Field>)
    ensures
        out@ == strip_key(data@, key@),
{
    let mut out: Vec<Field> = Vec::new();
    let mut i: usize = 0;
    while i < data.len()
        invariant
            i <= data@.len(),
            out@ == strip_key(data@.subrange(0, i as int), key@),
        decreases data.len() - i,
    {
        proof {
            reveal(Seq::filter);
            assert(data@.subrange(0, i + 1).drop_last() =~= data@.subrange(0, i as int));
            assert(data@.subrange(0, i + 1).last() == data@[i as int]);
        }
        if !str_eq(data[i].key.as_str(), key) {
            out.push(Field { key: data[i].key.clone(), value: copy_value(&data[i].value) });
            proof {
                assert(out@ =~= strip_key(data@.subrange(0, i + 1), key@));
            }
        }
        i = i + 1;
    }
    proof {
        assert(data@.subrange(0, data@.len() as int) =~= data@);
    }
    out
}

/// Replay group of a record.
fn record_phase(rec: &SyncRecord) -> (p: usize)
    ensures
        p == phase(*rec),
{
    match wire_kind(&rec.table_name) {
        None => 6,
        Some(k) => {
            let rank: usize = match k {
                TableKind::Portfolio => 0,
                TableKind::Entry => 1,
                TableKind::CouponPayment => 2,
            };
            if rec.deleted {
                5 - rank
            } else {
                rank
            }
        },
    }
}

/// Applies one record.
fn apply_record(store: &mut LocalStore, rec: &SyncRecord, now: i64) -> (r: Option<ApplyError>)
    requires
        old(store)@.wf(),
    ensures
        (final(store)@, r) == apply_step(old(store)@, *rec, now),
        final(store)@.wf(),
{
    let kind = match wire_kind(&rec.table_name) {
        Some(k) => k,
        None => {
            return Some(ApplyError::UnknownTable);
        },
    };
    if rec.deleted {
        store.hard_delete(kind, &rec.row_id);
        return None;
    }
    let parent_id = match kind {
        TableKind::Portfolio => None,
        _ => {
            match find_text(&rec.data, parent_key(kind)) {
                None => {
                    return Some(ApplyError::MissingParentRef);
                },
                Some(p) => {
                    if store.get(parent_kind_of(kind), &p).is_none() {
                        return Some(ApplyError::MissingParent);
                    }
                    Some(p)
                },
            }
        },
    };
    let fields = match kind {
        TableKind::Portfolio => copy_fields(&rec.data),
        _ => strip_field(&rec.data, parent_key(kind)),
    };
    let row = Row {
        id: rec.row_id.clone(),
        parent_id,
        fields,
        sync_version: rec.version,
        synced_at: Some(now),
        deleted: false,
        deleted_at: None,
    };
    proof {
        assert(row@ == incoming_row(*rec, kind, now));
    }
    store.upsert(kind, row);
    None
}

/// Splitting a filter by two disjoint predicates splits its length.
proof fn lemma_filter_len_split(
    s: Seq<SyncRecord>,
    a: spec_fn(SyncRecord) -> bool,
    b: spec_fn(SyncRecord) -> bool,
    c: spec_fn(SyncRecord) -> bool,
)
    requires
        forall|x: SyncRecord| #[trigger] c(x) == (a(x) || b(x)),
        forall|x: SyncRecord| !(#[trigger] a(x) && b(x)),
    ensures
        s.filter(c).len() == s.filter(a).len() + s.filter(b).len(),
    decreases s.len(),
{
    reveal(Seq::filter);
    if s.len() > 0 {
        lemma_filter_len_split(s.drop_last(), a, b, c);
    }
}

/// A filter whose predicate always holds keeps every element; one whose
/// predicate never holds keeps none.
proof fn lemma_filter_len_const(s: Seq<SyncRecord>, a: spec_fn(SyncRecord) -> bool, all: bool)
    requires
        forall|x: SyncRecord| #[trigger] a(x) == all,
    ensures
        s.filter(a).len() == if all { s.len() } else { 0 },
    decreases s.len(),
{
    reveal(Seq::filter);
    if s.len() > 0 {
        lemma_filter_len_const(s.drop_last(), a, all);
    }
}

/// The first `p` replay groups hold exactly the records whose group is
/// below `p`.
proof fn lemma_phases_len(batch: Seq<SyncRecord>, p: nat)
    ensures
        phases_upto(batch, p).len() == batch.filter(|r: SyncRecord| phase(r) < p).len(),
    decreases p,
{
    if p == 0 {
        lemma_filter_len_const(batch, |r: SyncRecord| phase(r) < 0, false);
    } else {
        let q = (p - 1) as nat;
        lemma_phases_len(batch, q);
        lemma_filter_len_split(
            batch,
            |r: SyncRecord| phase(r) < q,
            |r: SyncRecord| phase(r) == q,
            |r: SyncRecord| phase(r) < p,
        );
    }
}

/// Every record of a batch is replayed exactly once.
pub proof fn lemma_replay_len(batch: Seq<SyncRecord>)
    ensures
        replay_order(batch).len() == batch.len(),
{
    lemma_phases_len(batch, 7);
    lemma_filter_len_const(batch, |r: SyncRecord| phase(r) < 7, true);
}

/// Each record replayed is either applied or reported.
proof fn lemma_run_counts(v: StoreView, recs: Seq<SyncRecord>, now: i64)
    ensures
        run(v, recs, now).1.len() + run(v, recs, now).2 == recs.len(),
    decreases recs.len(),
{
    if recs.len() > 0 {
        lemma_run_counts(v, recs.drop_last(), now);
    }
}

/// Applies a batch of remote records to the store.  Upserts go first,
/// parents before children; tombstones follow, children before parents.
/// A record that cannot be applied is skipped and reported; it does not stop
/// the rest of the batch.
pub fn apply(store: &mut LocalStore, records: &Vec<SyncRecord>, now: i64) -> (report: ApplyReport)
    requires
        old(store)@.wf(),
    ensures
        final(store)@ == apply_batch(old(store)@, records@, now).0,
        report.failed@ == apply_batch(old(store)@, records@, now).1,
        report.applied as nat == apply_batch(old(store)@, records@, now).2,
        final(store)@.wf(),
{
    let ghost v0 = store@;
    let ghost batch = records@;
    let mut failed: Vec<ApplyFailure> = Vec::new();
    let mut applied: usize = 0;
    let mut p: usize = 0;
    proof {
        lemma_replay_len(batch);
    }
    while p < 7
        invariant
            p <= 7,
            store@.wf(),
            batch == records@,
            replay_order(batch).len() == batch.len(),
            run(v0, phases_upto(batch, p as nat), now) == (store@, failed@, applied as nat),
        decreases 7 - p,
    {
        let mut i: usize = 0;
        let ghost done = phases_upto(batch, p as nat);
        proof {
            assert(batch.subrange(0, 0).filter(|r: SyncRecord| phase(r) == p) =~= Seq::<SyncRecord>::empty()) by {
                reveal(Seq::filter);
            }
            assert(done + Seq::<SyncRecord>::empty() =~= done);
        }
        while i < records.len()
            invariant
                p < 7,
                i <= batch.len(),
                store@.wf(),
                batch == records@,
                replay_order(batch).len() == batch.len(),
                done == phases_upto(batch, p as nat),
                run(v0, done + batch.subrange(0, i as int).filter(|r: SyncRecord| phase(r) == p), now)
                    == (store@, failed@, applied as nat),
            decreases batch.len() - i,
        {
            let ghost pre = batch.subrange(0, i as int).filter(|r: SyncRecord| phase(r) == p);
            let ghost post = batch.subrange(0, i + 1).filter(|r: SyncRecord| phase(r) == p);
            proof {
                reveal(Seq::filter);
                assert(batch.subrange(0, i + 1).drop_last() =~= batch.subrange(0, i as int));
                assert(batch.subrange(0, i + 1).last() == batch[i as int]);
            }
            let rec = &records[i];
            if record_phase(rec) == p {
                proof {
                    assert(post == pre.push(*rec));
                    assert((done + post).drop_last() =~= done + pre);
                    assert((done + post).last() == *rec);
                    // bound the counters by the length of the replay order
                    lemma_run_counts(v0, done + post, now);
                    lemma_phases_len(batch, (p + 1) as nat);
                    lemma_phases_len(batch, 7);
                    lemma_filter_len_split(
                        batch,
                        |r: SyncRecord| phase(r) < p + 1,
                        |r: SyncRecord| p + 1 <= phase(r) < 7,
                        |r: SyncRecord| phase(r) < 7,
                    );
                    Seq::filter_distributes_over_add(
                        batch.subrange(0, i + 1),
                        batch.subrange(i + 1, batch.len() as int),
                        |r: SyncRecord| phase(r) == p,
                    );
                    assert(batch.subrange(0, i + 1) + batch.subrange(i + 1, batch.len() as int) =~= batch);
                    lemma_phases_len(batch, p as nat);
                    lemma_filter_len_split(
                        batch,
                        |r: SyncRecord| phase(r) < p,
                        |r: SyncRecord| phase(r) == p,
                        |r: SyncRecord| phase(r) < p + 1,
                    );
                }
                match apply_record(store, rec, now) {
                    Some(e) => {
                        failed.push(ApplyFailure {
                            table_name: rec.table_name.clone(),
                            row_id: rec.row_id.clone(),
                            error: e,
                        });
                    },
                    None => {
                        applied = applied + 1;
                    },
                }
            } else {
                proof {
                    assert(post == pre);
                }
            }
            i = i + 1;
        }
        proof {
            assert(batch.subrange(0, batch.len() as int) =~= batch);
        }
        p = p + 1;
    }
    ApplyReport { applied, failed }
}

/// Every single step keeps referential integrity.
proof fn lemma_step_wf(v: StoreView, r: SyncRecord, now: i64)
    requires
        v.wf(),
    ensures
        apply_step(v, r, now).0.wf(),
{
    match spec_wire_kind(r.table_name@) {
        None => {},
        Some(k) => {
            if r.deleted {
                lemma_hard_deleted_wf(v, k, r.row_id@);
            } else if k == TableKind::Portfolio {
                lemma_upsert_wf(v, k, incoming_row(r, k, now));
            } else if let Some(p) = parent_ref(r, k) {
                if has_id(v.parent_table(k), p) {
                    lemma_upsert_wf(v, k, incoming_row(r, k, now));
                }
            }
        },
    }
}

/// Replaying any sequence of records keeps referential integrity.
pub proof fn lemma_run_wf(v: StoreView, recs: Seq<SyncRecord>, now: i64)
    requires
        v.wf(),
    ensures
        run(v, recs, now).0.wf(),
    decreases recs.len(),
{
    if recs.len() > 0 {
        lemma_run_wf(v, recs.drop_last(), now);
        lemma_step_wf(run(v, recs.drop_last(), now).0, recs.last(), now);
    }
}

/// Replaying `a + b` is replaying `a`, then `b` from where `a` ended.
pub proof fn lemma_run_concat(v: StoreView, a: Seq<SyncRecord>, b: Seq<SyncRecord>, now: i64)
    ensures
        run(v, a + b, now).0 == run(run(v, a, now).0, b, now).0,
    decreases b.len(),
{
    if b.len() == 0 {
        assert(a + b =~= a);
    } else {
        assert((a + b).drop_last() =~= a + b.drop_last());
        assert((a + b).last() == b.last());
        lemma_run_concat(v, a, b.drop_last(), now);
    }
}

/// Once a row is gone, replaying tombstones and unknown-table records never
/// brings it back; and replaying a tombstone for it removes it.
proof fn lemma_tombstones_remove(s: StoreView, recs: Seq<SyncRecord>, now: i64, k: TableKind, id: Seq<char>)
    requires
        forall|i: int| 0 <= i < recs.len() ==> phase(#[trigger] recs[i]) >= 3,
        !has_id(s.table(k), id) || exists|i: int|
            0 <= i < recs.len() && spec_wire_kind((#[trigger] recs[i]).table_name@) == Some(k) && recs[i].row_id@ == id
                && recs[i].deleted,
    ensures
        !has_id(run(s, recs, now).0.table(k), id),
    decreases recs.len(),
{
    if recs.len() > 0 {
        let d = recs.drop_last();
        let x = recs.last();
        let hit = spec_wire_kind(x.table_name@) == Some(k) && x.row_id@ == id && x.deleted;
        if !hit {
            if has_id(s.table(k), id) {
                let i = choose|i: int|
                    0 <= i < recs.len() && spec_wire_kind((#[trigger] recs[i]).table_name@) == Some(k) && recs[i].row_id@
                        == id && recs[i].deleted;
                assert(d[i] == recs[i]);
            }
            lemma_tombstones_remove(s, d, now, k, id);
        }
        let prev = run(s, d, now).0;
        assert(phase(recs[recs.len() - 1]) >= 3);
        let after = apply_step(prev, x, now).0;
        if has_id(after.table(k), id) {
            let j = choose|j: int| 0 <= j < after.table(k).len() && after.table(k)[j].id == id;
            match spec_wire_kind(x.table_name@) {
                None => {},
                Some(kd) => {
                    lemma_hard_deleted_rows(prev, kd, x.row_id@, k, after.table(k)[j]);
                    let m = choose|m: int| 0 <= m < prev.table(k).len() && prev.table(k)[m] == after.table(k)[j];
                },
            }
        }
    }
}

/// Delete ordering: applying a batch never breaks referential integrity,
/// and every row the batch holds a tombstone for is gone afterwards.
pub proof fn lemma_delete_ordering(v: StoreView, batch: Seq<SyncRecord>, now: i64, t: SyncRecord)
    requires
        v.wf(),
        batch.contains(t),
        t.deleted,
        spec_wire_kind(t.table_name@) is Some,
    ensures
        apply_batch(v, batch, now).0.wf(),
        !has_id(apply_batch(v, batch, now).0.table(spec_wire_kind(t.table_name@)->0), t.row_id@),
{
    let k = spec_wire_kind(t.table_name@)->0;
    lemma_run_wf(v, replay_order(batch), now);
    let head = phases_upto(batch, 3);
    let tail = in_phase(batch, 3) + in_phase(batch, 4) + in_phase(batch, 5) + in_phase(batch, 6);
    lemma_unfold_phases(batch);
    assert(replay_order(batch) =~= head + tail);
    lemma_run_concat(v, head, tail, now);
    let q = phase(t);
    let i0 = choose|i: int| 0 <= i < batch.len() && batch[i] == t;
    let pq = |r: SyncRecord| phase(r) == q;
    batch.filter_lemma(pq);
    assert(in_phase(batch, q).contains(t));
    let n3 = in_phase(batch, 3).len();
    let n4 = in_phase(batch, 4).len();
    let n5 = in_phase(batch, 5).len();
    batch.filter_lemma(|r: SyncRecord| phase(r) == 3);
    batch.filter_lemma(|r: SyncRecord| phase(r) == 4);
    batch.filter_lemma(|r: SyncRecord| phase(r) == 5);
    batch.filter_lemma(|r: SyncRecord| phase(r) == 6);
    assert forall|i: int| 0 <= i < tail.len() implies phase(#[trigger] tail[i]) >= 3 by {
        if i < n3 {
            assert(tail[i] == in_phase(batch, 3)[i]);
        } else if i < n3 + n4 {
            assert(tail[i] == in_phase(batch, 4)[i - n3]);
        } else if i < n3 + n4 + n5 {
            assert(tail[i] == in_phase(batch, 5)[i - n3 - n4]);
        } else {
            assert(tail[i] == in_phase(batch, 6)[i - n3 - n4 - n5]);
        }
    }
    let j = choose|j: int| 0 <= j < in_phase(batch, q).len() && in_phase(batch, q)[j] == t;
    let pos = if q == 3 { j } else if q == 4 { n3 + j } else { n3 + n4 + j };
    assert(tail[pos] == t);
    lemma_tombstones_remove(run(v, head, now).0, tail, now, k, t.row_id@);
}

/// Ordering invariant: a batch made of an upsert of a portfolio, an upsert
/// of an entry under it and an upsert of a coupon payment under that entry
/// applies without any failure, whatever the order of the three records.
pub proof fn lemma_ordering_invariant(
    v: StoreView,
    batch: Seq<SyncRecord>,
    now: i64,
    p: SyncRecord,
    e: SyncRecord,
    c: SyncRecord,
)
    requires
        v.wf(),
        batch.len() == 3,
        batch.contains(p),
        batch.contains(e),
        batch.contains(c),
        spec_wire_kind(p.table_name@) == Some(TableKind::Portfolio),
        spec_wire_kind(e.table_name@) == Some(TableKind::Entry),
        spec_wire_kind(c.table_name@) == Some(TableKind::CouponPayment),
        !p.deleted && !e.deleted && !c.deleted,
        parent_ref(e, TableKind::Entry) == Some(p.row_id@),
        parent_ref(c, TableKind::CouponPayment) == Some(e.row_id@),
    ensures
        apply_batch(v, batch, now).1.len() == 0,
{
    reveal_with_fuel(Seq::filter, 4);
    assert(batch =~= seq![batch[0], batch[1], batch[2]]);
    assert(in_phase(batch, 0) =~= seq![p]);
    assert(in_phase(batch, 1) =~= seq![e]);
    assert(in_phase(batch, 2) =~= seq![c]);
    assert(in_phase(batch, 3) =~= Seq::<SyncRecord>::empty());
    assert(in_phase(batch, 4) =~= Seq::<SyncRecord>::empty());
    assert(in_phase(batch, 5) =~= Seq::<SyncRecord>::empty());
    assert(in_phase(batch, 6) =~= Seq::<SyncRecord>::empty());
    let order = seq![p, e, c];
    lemma_unfold_phases(batch);
    assert(replay_order(batch) =~= order);
    lemma_parent_chain_applies(v, now, p, e, c);
}

/// A portfolio, an entry under it and a payment under that entry, replayed
/// in this order, all apply.
proof fn lemma_parent_chain_applies(v: StoreView, now: i64, p: SyncRecord, e: SyncRecord, c: SyncRecord)
    requires
        v.wf(),
        spec_wire_kind(p.table_name@) == Some(TableKind::Portfolio),
        spec_wire_kind(e.table_name@) == Some(TableKind::Entry),
        spec_wire_kind(c.table_name@) == Some(TableKind::CouponPayment),
        !p.deleted && !e.deleted && !c.deleted,
        parent_ref(e, TableKind::Entry) == Some(p.row_id@),
        parent_ref(c, TableKind::CouponPayment) == Some(e.row_id@),
    ensures
        run(v, seq![p, e, c], now).1.len() == 0,
{
    reveal_with_fuel(run, 4);
    let s1 = apply_step(v, p, now).0;
    lemma_upsert_into(v.portfolios, incoming_row(p, TableKind::Portfolio, now));
    assert(has_id(s1.portfolios, p.row_id@));
    let s2 = apply_step(s1, e, now).0;
    lemma_upsert_into(s1.entries, incoming_row(e, TableKind::Entry, now));
    assert(has_id(s2.entries, e.row_id@));
    assert(apply_step(s2, c, now).1 is None);
    assert(seq![p, e, c].drop_last() =~= seq![p, e]);
    assert(seq![p, e].drop_last() =~= seq![p]);
    assert(seq![p].drop_last() =~= Seq::<SyncRecord>::empty());
}

/// The replay order spelled out group by group.
pub proof fn lemma_unfold_phases(batch: Seq<SyncRecord>)
    ensures
        replay_order(batch) == Seq::<SyncRecord>::empty() + in_phase(batch, 0) + in_phase(batch, 1) + in_phase(batch, 2)
            + in_phase(batch, 3) + in_phase(batch, 4) + in_phase(batch, 5) + in_phase(batch, 6),
        phases_upto(batch, 3) == Seq::<SyncRecord>::empty() + in_phase(batch, 0) + in_phase(batch, 1) + in_phase(batch, 2),
{
    reveal_with_fuel(phases_upto, 8);
}

/// Applying the same record twice in a row is applying it once: an upsert
/// is keyed by id, and a tombstone of an absent row is a no-op.
pub proof fn lemma_step_idempotent(v: StoreView, r: SyncRecord, now: i64)
    requires
        v.wf(),
    ensures
        apply_step(apply_step(v, r, now).0, r, now).0 == apply_step(v, r, now).0,
{
    let s1 = apply_step(v, r, now).0;
    lemma_step_wf(v, r, now);
    match spec_wire_kind(r.table_name@) {
        None => {},
        Some(k) => {
            if r.deleted {
                if has_id(s1.table(k), r.row_id@) {
                    let j = choose|j: int| 0 <= j < s1.table(k).len() && s1.table(k)[j].id == r.row_id@;
                    lemma_hard_deleted_rows(v, k, r.row_id@, k, s1.table(k)[j]);
                }
                lemma_hard_delete_absent(s1, k, r.row_id@);
            } else {
                let row = incoming_row(r, k, now);
                lemma_upsert_twice(v.table(k), row);
                if k != TableKind::Portfolio {
                    assert(s1.parent_table(k) == v.parent_table(k));
                }
            }
        },
    }
}

/// A filter whose predicate holds of no element keeps nothing.
proof fn lemma_filter_none(s: Seq<SyncRecord>, p: spec_fn(SyncRecord) -> bool)
    requires
        forall|i: int| 0 <= i < s.len() ==> !p(#[trigger] s[i]),
    ensures
        s.filter(p).len() == 0,
    decreases s.len(),
{
    reveal(Seq::filter);
    if s.len() > 0 {
        lemma_filter_none(s.drop_last(), p);
    }
}

/// Storing a list of rows one after the other, each under its id.
pub open spec fn fold_up(t: Seq<RowView>, rows: Seq<RowView>) -> Seq<RowView>
    decreases rows.len(),
{
    if rows.len() == 0 {
        t
    } else {
        upsert_into(fold_up(t, rows.drop_last()), rows.last())
    }
}

/// The last row of the list with the given id.
pub open spec fn last_of(rows: Seq<RowView>, id: Seq<char>) -> Option<RowView>
    decreases rows.len(),
{
    if rows.len() == 0 {
        None
    } else if rows.last().id == id {
        Some(rows.last())
    } else {
        last_of(rows.drop_last(), id)
    }
}

/// The table with every row whose id the list names replaced by the list's
/// last row of that id.
pub open spec fn overlay(u: Seq<RowView>, rows: Seq<RowView>) -> Seq<RowView> {
    u.map_values(|r: RowView| match last_of(rows, r.id) {
        Some(x) => x,
        None => r,
    })
}

/// The last row of a given id has that id.
proof fn lemma_last_of_id(rows: Seq<RowView>, id: Seq<char>)
    ensures
        last_of(rows, id) is Some ==> last_of(rows, id)->0.id == id,
    decreases rows.len(),
{
    if rows.len() > 0 {
        lemma_last_of_id(rows.drop_last(), id);
    }
}

/// What storing a list leaves: ids stay unique, every id of the list is
/// present, and a row whose id the list names is the list's last row of
/// that id.
pub proof fn lemma_fold_up_content(t: Seq<RowView>, rows: Seq<RowView>)
    requires
        ids_unique(t),
    ensures
        ids_unique(fold_up(t, rows)),
        forall|x: Seq<char>| last_of(rows, x) is Some ==> has_id(fold_up(t, rows), x),
        forall|i: int|
            0 <= i < fold_up(t, rows).len() && (#[trigger] last_of(rows, fold_up(t, rows)[i].id)) is Some
                ==> fold_up(t, rows)[i] == last_of(rows, fold_up(t, rows)[i].id)->0,
    decreases rows.len(),
{
    if rows.len() > 0 {
        let d = rows.drop_last();
        let r = rows.last();
        lemma_fold_up_content(t, d);
        let u0 = fold_up(t, d);
        let u = fold_up(t, rows);
        lemma_upsert_into(u0, r);
        assert(u == upsert_into(u0, r));
        assert forall|x: Seq<char>| last_of(rows, x) is Some implies has_id(u, x) by {
            if x != r.id {
                assert(last_of(rows, x) == last_of(d, x));
                assert(last_of(d, x) is Some);
                assert(has_id(u0, x));
            } else {
                assert(has_id(upsert_into(u0, r), r.id));
            }
        }
        assert forall|i: int|
            0 <= i < u.len() && (#[trigger] last_of(rows, u[i].id)) is Some implies u[i] == last_of(rows, u[i].id)->0 by {
            if u[i].id == r.id {
                if has_id(u0, r.id) {
                    assert(u[i] == r);
                } else if i < u0.len() {
                    assert(u[i] == u0[i]);
                    assert(has_id(u0, r.id));
                }
            } else {
                if has_id(u0, r.id) {
                    assert(u[i] == u0[i]);
                } else if i < u0.len() {
                    assert(u[i] == u0[i]);
                }
                assert(last_of(d, u[i].id) is Some);
            }
        }
    }
}

/// Storing a list into a table that already holds, for each id of the
/// list, its last row there: the result is the overlay of the list.
proof fn lemma_fold_up_overlay(u: Seq<RowView>, rows: Seq<RowView>)
    requires
        ids_unique(u),
        forall|x: Seq<char>| last_of(rows, x) is Some ==> has_id(u, x),
    ensures
        fold_up(u, rows) == overlay(u, rows),
    decreases rows.len(),
{
    if rows.len() == 0 {
        assert(overlay(u, rows) =~= u);
    } else {
        let d = rows.drop_last();
        let r = rows.last();
        assert forall|x: Seq<char>| last_of(d, x) is Some implies has_id(u, x) by {
            if x != r.id {
                assert(last_of(rows, x) is Some);
            }
        }
        lemma_fold_up_overlay(u, d);
        let o = overlay(u, d);
        assert(last_of(rows, r.id) == Some(r));
        assert(has_id(u, r.id));
        let j = choose|j: int| 0 <= j < u.len() && u[j].id == r.id;
        lemma_last_of_id(d, u[j].id);
        assert(o[j].id == r.id);
        assert(has_id(o, r.id));
        assert forall|i: int| 0 <= i < u.len() implies o[i].id == u[i].id by {
            lemma_last_of_id(d, u[i].id);
        }
        assert(fold_up(u, rows) == upsert_into(fold_up(u, d), r));
        assert(upsert_into(o, r) =~= overlay(u, rows));
    }
}

/// Storing the same list twice is storing it once.
pub proof fn lemma_fold_up_twice(t: Seq<RowView>, rows: Seq<RowView>)
    requires
        ids_unique(t),
    ensures
        fold_up(fold_up(t, rows), rows) == fold_up(t, rows),
{
    let u = fold_up(t, rows);
    lemma_fold_up_content(t, rows);
    lemma_fold_up_overlay(u, rows);
    assert(overlay(u, rows) =~= u) by {
        assert forall|i: int| 0 <= i < u.len() implies overlay(u, rows)[i] == u[i] by {
            if last_of(rows, u[i].id) is Some {
            }
        }
    }
}

/// Whether an upsert record of table `k` is applied when the parent table
/// is `parents`.
pub open spec fn accepted(r: SyncRecord, k: TableKind, parents: Seq<RowView>) -> bool {
    k == TableKind::Portfolio || (parent_ref(r, k) is Some && has_id(parents, parent_ref(r, k)->0))
}

/// The rows stored by the upsert records that are applied.
pub open spec fn accepted_rows(recs: Seq<SyncRecord>, k: TableKind, parents: Seq<RowView>, now: i64) -> Seq<RowView>
    decreases recs.len(),
{
    if recs.len() == 0 {
        Seq::empty()
    } else {
        let a = accepted_rows(recs.drop_last(), k, parents, now);
        if accepted(recs.last(), k, parents) {
            a.push(incoming_row(recs.last(), k, now))
        } else {
            a
        }
    }
}

/// Replaying upserts of one table stores the accepted rows into it; the
/// parent table does not change meanwhile.
pub proof fn lemma_run_upserts(s: StoreView, recs: Seq<SyncRecord>, k: TableKind, now: i64)
    requires
        forall|i: int|
            0 <= i < recs.len() ==> spec_wire_kind((#[trigger] recs[i]).table_name@) == Some(k) && !recs[i].deleted,
    ensures
        run(s, recs, now).0 == s.with_table(
            k,
            fold_up(s.table(k), accepted_rows(recs, k, s.parent_table(k), now)),
        ),
    decreases recs.len(),
{
    if recs.len() == 0 {
        assert(s.with_table(k, s.table(k)) == s);
    } else {
        let d = recs.drop_last();
        assert forall|i: int|
            0 <= i < d.len() implies spec_wire_kind((#[trigger] d[i]).table_name@) == Some(k) && !d[i].deleted by {
            assert(d[i] == recs[i]);
        }
        lemma_run_upserts(s, d, k, now);
        let x = recs[recs.len() - 1];
        let prev = run(s, d, now).0;
        assert(prev.parent_table(k) == s.parent_table(k));
        assert(prev.table(k) == fold_up(s.table(k), accepted_rows(d, k, s.parent_table(k), now)));
        let a = accepted_rows(d, k, s.parent_table(k), now);
        if accepted(x, k, s.parent_table(k)) {
            assert(a.push(incoming_row(x, k, now)).drop_last() =~= a);
        }
    }
}

/// Replaying records of unknown tables changes nothing.
proof fn lemma_run_unknown(s: StoreView, recs: Seq<SyncRecord>, now: i64)
    requires
        forall|i: int| 0 <= i < recs.len() ==> spec_wire_kind((#[trigger] recs[i]).table_name@) is None,
    ensures
        run(s, recs, now).0 == s,
    decreases recs.len(),
{
    if recs.len() > 0 {
        let d = recs.drop_last();
        assert forall|i: int| 0 <= i < d.len() implies spec_wire_kind((#[trigger] d[i]).table_name@) is None by {
            assert(d[i] == recs[i]);
        }
        lemma_run_unknown(s, d, now);
    }
}

/// The records of one replay group all have that group.
pub proof fn lemma_in_phase_members(batch: Seq<SyncRecord>, q: int)
    ensures
        forall|i: int| 0 <= i < in_phase(batch, q).len() ==> phase(#[trigger] in_phase(batch, q)[i]) == q,
{
    batch.filter_lemma(|r: SyncRecord| phase(r) == q);
}

/// Idempotent apply, for batches without tombstones: applying such a batch
/// a second time changes nothing.
pub proof fn lemma_upsert_batch_idempotent(v: StoreView, batch: Seq<SyncRecord>, now: i64)
    requires
        v.wf(),
        forall|i: int| 0 <= i < batch.len() ==> !(#[trigger] batch[i]).deleted,
    ensures
        apply_batch(apply_batch(v, batch, now).0, batch, now).0 == apply_batch(v, batch, now).0,
{
    let g0 = in_phase(batch, 0);
    let g1 = in_phase(batch, 1);
    let g2 = in_phase(batch, 2);
    let g6 = in_phase(batch, 6);
    lemma_unfold_phases(batch);
    assert forall|q: int| 3 <= q < 6 implies in_phase(batch, q).len() == 0 by {
        assert forall|i: int| 0 <= i < batch.len() implies !(|r: SyncRecord| phase(r) == q)(#[trigger] batch[i]) by {
            assert(!batch[i].deleted);
        }
        lemma_filter_none(batch, |r: SyncRecord| phase(r) == q);
    }
    assert(in_phase(batch, 3) =~= Seq::<SyncRecord>::empty());
    assert(in_phase(batch, 4) =~= Seq::<SyncRecord>::empty());
    assert(in_phase(batch, 5) =~= Seq::<SyncRecord>::empty());
    let o = replay_order(batch);
    assert(o =~= g0 + g1 + g2 + g6);
    lemma_in_phase_members(batch, 0);
    lemma_in_phase_members(batch, 1);
    lemma_in_phase_members(batch, 2);
    lemma_in_phase_members(batch, 6);
    assert forall|i: int| 0 <= i < g0.len() implies spec_wire_kind((#[trigger] g0[i]).table_name@) == Some(
        TableKind::Portfolio,
    ) && !g0[i].deleted by {
        assert(phase(g0[i]) == 0);
    }
    assert forall|i: int| 0 <= i < g1.len() implies spec_wire_kind((#[trigger] g1[i]).table_name@) == Some(
        TableKind::Entry,
    ) && !g1[i].deleted by {
        assert(phase(g1[i]) == 1);
    }
    assert forall|i: int| 0 <= i < g2.len() implies spec_wire_kind((#[trigger] g2[i]).table_name@) == Some(
        TableKind::CouponPayment,
    ) && !g2[i].deleted by {
        assert(phase(g2[i]) == 2);
    }
    assert forall|i: int| 0 <= i < g6.len() implies spec_wire_kind((#[trigger] g6[i]).table_name@) is None by {
        assert(phase(g6[i]) == 6);
    }
    // one pass, phase by phase
    assert forall|w: StoreView| w.wf() implies #[trigger] run(w, o, now).0 == {
        let a1 = w.with_table(
            TableKind::Portfolio,
            fold_up(w.portfolios, accepted_rows(g0, TableKind::Portfolio, Seq::empty(), now)),
        );
        let a2 = a1.with_table(
            TableKind::Entry,
            fold_up(w.entries, accepted_rows(g1, TableKind::Entry, a1.portfolios, now)),
        );
        a2.with_table(
            TableKind::CouponPayment,
            fold_up(w.payments, accepted_rows(g2, TableKind::CouponPayment, a2.entries, now)),
        )
    } by {
        lemma_run_concat(w, g0 + g1 + g2, g6, now);
        lemma_run_concat(w, g0 + g1, g2, now);
        lemma_run_concat(w, g0, g1, now);
        lemma_run_upserts(w, g0, TableKind::Portfolio, now);
        let a1 = run(w, g0, now).0;
        lemma_run_upserts(a1, g1, TableKind::Entry, now);
        let a2 = run(a1, g1, now).0;
        lemma_run_upserts(a2, g2, TableKind::CouponPayment, now);
        let a3 = run(a2, g2, now).0;
        lemma_run_unknown(a3, g6, now);
    }
    let rows0 = accepted_rows(g0, TableKind::Portfolio, Seq::empty(), now);
    let ports = fold_up(v.portfolios, rows0);
    let rows1 = accepted_rows(g1, TableKind::Entry, ports, now);
    let e1 = fold_up(v.entries, rows1);
    let rows2 = accepted_rows(g2, TableKind::CouponPayment, e1, now);
    let c1 = fold_up(v.payments, rows2);
    let s1 = run(v, o, now).0;
    assert(s1 == StoreView { portfolios: ports, entries: e1, payments: c1, checkpoint: v.checkpoint });
    lemma_run_wf(v, o, now);
    lemma_fold_up_twice(v.portfolios, rows0);
    lemma_fold_up_twice(v.entries, rows1);
    lemma_fold_up_twice(v.payments, rows2);
}

} // verus!
