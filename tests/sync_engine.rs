use fin_catch_sync::apply::{apply, ApplyError};
use fin_catch_sync::checkpoint::{checkpoint_time, CheckpointError};
use fin_catch_sync::status::sync_status;
use fin_catch_sync::portfolio::Portfolio;
use fin_catch_sync::orchestrator::{begin_cycle, finish_cycle, Conflict, DeltaResponse, SyncError};
use fin_catch_sync::record::{Checkpoint, Field, FieldValue, SyncRecord, TableKind};
use fin_catch_sync::store::{LocalStore, StoreError};
use fin_catch_sync::table_map::{db_to_sync, sync_to_db};

fn text(key: &str, value: &str) -> Field {
    Field { key: key.to_string(), value: FieldValue::Text(value.to_string()) }
}

fn upsert(table: &str, id: &str, data: Vec<Field>, version: i64) -> SyncRecord {
    SyncRecord { table_name: table.to_string(), row_id: id.to_string(), data, version, deleted: false }
}

fn tombstone(table: &str, id: &str) -> SyncRecord {
    SyncRecord { table_name: table.to_string(), row_id: id.to_string(), data: Vec::new(), version: 3, deleted: true }
}

fn checkpoint(at: &str, id: &str) -> Checkpoint {
    Checkpoint { updated_at: at.to_string(), id: id.to_string() }
}

fn response(synced: usize, records: Vec<SyncRecord>, c: Checkpoint) -> DeltaResponse {
    DeltaResponse { synced, conflicts: Vec::new(), records, checkpoint: c }
}

fn ids(store: &LocalStore, k: TableKind) -> Vec<String> {
    store.rows(k).iter().map(|r| r.id.clone()).collect()
}

fn snapshot(store: &LocalStore) -> Vec<(String, Option<String>, usize, i64, Option<i64>, bool)> {
    let mut out = Vec::new();
    for k in [TableKind::Portfolio, TableKind::Entry, TableKind::CouponPayment] {
        for r in store.rows(k) {
            out.push((r.id.clone(), r.parent_id.clone(), r.fields.len(), r.sync_version, r.synced_at, r.deleted));
        }
    }
    out
}

fn chain_batch() -> (SyncRecord, SyncRecord, SyncRecord) {
    let p = upsert("portfolios", "P", vec![text("name", "Main")], 4);
    let e = upsert("portfolioEntries", "E", vec![text("portfolioSyncUuid", "P"), text("symbol", "VNM")], 5);
    let c = upsert("bondCouponPayments", "C", vec![text("entrySyncUuid", "E"), text("currency", "VND")], 6);
    (p, e, c)
}

#[test]
fn table_names_map_both_ways() {
    assert_eq!(sync_to_db("portfolioEntries"), "portfolio_entries");
    assert_eq!(sync_to_db("bondCouponPayments"), "bond_coupon_payments");
    assert_eq!(sync_to_db("portfolios"), "portfolios");
    assert_eq!(db_to_sync("portfolio_entries"), "portfolioEntries");
    assert_eq!(db_to_sync("bond_coupon_payments"), "bondCouponPayments");
    assert_eq!(db_to_sync("settings"), "settings");
}

#[test]
fn example_scenario_push_then_delete() {
    let mut store = LocalStore::new();
    store.create(TableKind::Portfolio, "A".to_string(), None, vec![text("name", "Savings")]).unwrap();
    store
        .create(TableKind::Entry, "B".to_string(), Some("A".to_string()), vec![text("symbol", "FPT")])
        .unwrap();
    assert_eq!(store.rows(TableKind::Portfolio)[0].sync_version, 1);
    assert_eq!(store.rows(TableKind::Portfolio)[0].synced_at, None);

    let req = begin_cycle(&store, 100);
    assert_eq!(req.records.len(), 2);
    let report = finish_cycle(&mut store, &req, Ok(response(2, Vec::new(), checkpoint("t1", "x1"))), 100).unwrap();
    assert_eq!(report.result.pushed, 2);
    assert!(report.result.success);
    for k in [TableKind::Portfolio, TableKind::Entry] {
        let row = &store.rows(k)[0];
        assert_eq!(row.synced_at, Some(100));
        assert_eq!(row.sync_version, 2);
    }

    store.soft_delete(TableKind::Entry, &"B".to_string(), 150).unwrap();
    let req = begin_cycle(&store, 200);
    assert_eq!(req.records.len(), 1);
    let rec = &req.records[0];
    assert_eq!(rec.row_id, "B");
    assert_eq!(rec.table_name, "portfolioEntries");
    assert!(rec.deleted);
    assert!(rec.data.is_empty());
    finish_cycle(&mut store, &req, Ok(response(1, Vec::new(), checkpoint("t2", "x2"))), 200).unwrap();
    assert!(store.get(TableKind::Entry, &"B".to_string()).is_none());
    assert_eq!(ids(&store, TableKind::Portfolio), vec!["A".to_string()]);
}

#[test]
fn collected_record_carries_parent_id_and_fields() {
    let mut store = LocalStore::new();
    store.create(TableKind::Portfolio, "A".to_string(), None, vec![text("name", "Savings")]).unwrap();
    store
        .create(TableKind::Entry, "B".to_string(), Some("A".to_string()), vec![text("symbol", "FPT")])
        .unwrap();
    let recs = store.collect();
    assert_eq!(recs[0].table_name, "portfolios");
    assert_eq!(recs[0].data, vec![text("name", "Savings")]);
    assert_eq!(recs[1].data, vec![text("portfolioSyncUuid", "A"), text("symbol", "FPT")]);
    assert_eq!(recs[1].version, 1);
}

#[test]
fn apply_twice_is_apply_once() {
    let mut store = LocalStore::new();
    store.create(TableKind::Portfolio, "Q".to_string(), None, vec![]).unwrap();
    let (p, e, c) = chain_batch();
    let batch = vec![c, tombstone("portfolios", "Q"), e, p, upsert("unknown", "Z", vec![], 1)];
    apply(&mut store, &batch, 500);
    let once = snapshot(&store);
    apply(&mut store, &batch, 500);
    assert_eq!(snapshot(&store), once);
}

#[test]
fn parents_applied_before_children_in_any_order() {
    let (p, e, c) = chain_batch();
    let orders = vec![
        vec![p.clone(), e.clone(), c.clone()],
        vec![c.clone(), e.clone(), p.clone()],
        vec![e.clone(), c.clone(), p.clone()],
        vec![c.clone(), p.clone(), e.clone()],
    ];
    for batch in orders {
        let mut store = LocalStore::new();
        let report = apply(&mut store, &batch, 10);
        assert!(report.failed.is_empty());
        assert_eq!(report.applied, 3);
        assert_eq!(ids(&store, TableKind::CouponPayment), vec!["C".to_string()]);
        let entry = store.get(TableKind::Entry, &"E".to_string()).unwrap();
        assert_eq!(entry.parent_id, Some("P".to_string()));
        assert_eq!(entry.fields, vec![text("symbol", "VNM")]);
        assert_eq!(entry.sync_version, 5);
        assert_eq!(entry.synced_at, Some(10));
    }
}

#[test]
fn tombstones_remove_children_before_parents() {
    let mut store = LocalStore::new();
    let (p, e, c) = chain_batch();
    apply(&mut store, &vec![p, e, c], 10);
    let batch = vec![
        tombstone("portfolios", "P"),
        tombstone("portfolioEntries", "E"),
        tombstone("bondCouponPayments", "C"),
    ];
    let report = apply(&mut store, &batch, 20);
    assert!(report.failed.is_empty());
    assert!(store.rows(TableKind::Portfolio).is_empty());
    assert!(store.rows(TableKind::Entry).is_empty());
    assert!(store.rows(TableKind::CouponPayment).is_empty());
}

#[test]
fn hard_delete_cascades_to_children() {
    let mut store = LocalStore::new();
    let (p, e, c) = chain_batch();
    apply(&mut store, &vec![p, e, c], 10);
    apply(&mut store, &vec![tombstone("portfolios", "P")], 20);
    assert!(store.rows(TableKind::Entry).is_empty());
    assert!(store.rows(TableKind::CouponPayment).is_empty());
}

#[test]
fn apply_reports_each_error() {
    let mut store = LocalStore::new();
    let batch = vec![
        upsert("widgets", "W", vec![], 1),
        upsert("portfolioEntries", "E1", vec![text("symbol", "X")], 1),
        upsert("portfolioEntries", "E2", vec![text("portfolioSyncUuid", "missing")], 1),
        upsert("portfolios", "P", vec![], 1),
    ];
    let report = apply(&mut store, &batch, 10);
    assert_eq!(report.applied, 1);
    let errors: Vec<ApplyError> = report.failed.iter().map(|f| f.error).collect();
    assert_eq!(errors, vec![ApplyError::MissingParentRef, ApplyError::MissingParent, ApplyError::UnknownTable]);
    assert_eq!(report.failed[1].row_id, "E2");
    assert_eq!(ids(&store, TableKind::Portfolio), vec!["P".to_string()]);
}

#[test]
fn upsert_updates_existing_row_in_place() {
    let mut store = LocalStore::new();
    apply(&mut store, &vec![upsert("portfolios", "P", vec![text("name", "Old")], 1)], 10);
    apply(&mut store, &vec![upsert("portfolios", "P", vec![text("name", "New")], 7)], 20);
    let rows = store.rows(TableKind::Portfolio);
    assert_eq!(rows.len(), 1);
    assert_eq!(rows[0].fields, vec![text("name", "New")]);
    assert_eq!(rows[0].sync_version, 7);
    assert_eq!(rows[0].synced_at, Some(20));
}

#[test]
fn every_dirty_row_collected_once() {
    let mut store = LocalStore::new();
    let (p, e, c) = chain_batch();
    apply(&mut store, &vec![p, e, c], 10);
    store.create(TableKind::Portfolio, "N".to_string(), None, vec![]).unwrap();
    store.update(TableKind::Entry, &"E".to_string(), vec![text("symbol", "HPG")]).unwrap();
    let recs = store.collect();
    let mut names: Vec<(String, String)> = recs.iter().map(|r| (r.table_name.clone(), r.row_id.clone())).collect();
    names.sort();
    assert_eq!(
        names,
        vec![("portfolioEntries".to_string(), "E".to_string()), ("portfolios".to_string(), "N".to_string())]
    );
    assert_eq!(store.pending_changes(), 2);
}

#[test]
fn collect_after_marking_synced_is_empty() {
    let mut store = LocalStore::new();
    store.create(TableKind::Portfolio, "A".to_string(), None, vec![]).unwrap();
    store.create(TableKind::Entry, "B".to_string(), Some("A".to_string()), vec![]).unwrap();
    store.create(TableKind::CouponPayment, "C".to_string(), Some("B".to_string()), vec![]).unwrap();
    store.create(TableKind::Portfolio, "D".to_string(), None, vec![]).unwrap();
    store.soft_delete(TableKind::Portfolio, &"D".to_string(), 5).unwrap();
    let recs = store.collect();
    assert_eq!(recs.len(), 4);
    store.mark_synced(&recs, 9);
    assert!(store.collect().is_empty());
    assert!(store.get(TableKind::Portfolio, &"D".to_string()).is_none());
}

#[test]
fn later_checkpoint_save_wins() {
    let mut store = LocalStore::new();
    assert_eq!(store.get_checkpoint(), None);
    store.save_checkpoint(checkpoint("2024-01-01T00:00:00Z", "a"));
    store.save_checkpoint(checkpoint("2024-02-01T00:00:00Z", "b"));
    assert_eq!(store.get_checkpoint(), Some(checkpoint("2024-02-01T00:00:00Z", "b")));
}

#[test]
fn failed_cycle_changes_nothing() {
    let mut store = LocalStore::new();
    store.create(TableKind::Portfolio, "A".to_string(), None, vec![]).unwrap();
    store.save_checkpoint(checkpoint("t0", "c0"));
    let before = snapshot(&store);
    let req = begin_cycle(&store, 50);
    assert_eq!(req.since, Some(checkpoint("t0", "c0")));
    let err = finish_cycle(&mut store, &req, Err(SyncError::Transport("timeout".to_string())), 50);
    assert_eq!(err.unwrap_err(), SyncError::Transport("timeout".to_string()));
    let err = finish_cycle(&mut store, &req, Err(SyncError::Authentication("expired".to_string())), 50);
    assert!(matches!(err, Err(SyncError::Authentication(_))));
    assert_eq!(snapshot(&store), before);
    assert_eq!(store.get_checkpoint(), Some(checkpoint("t0", "c0")));
}

#[test]
fn conflicting_record_stays_dirty() {
    let mut store = LocalStore::new();
    store.create(TableKind::Portfolio, "A".to_string(), None, vec![]).unwrap();
    store.create(TableKind::Portfolio, "B".to_string(), None, vec![]).unwrap();
    let req = begin_cycle(&store, 50);
    let resp = DeltaResponse {
        synced: 1,
        conflicts: vec![Conflict {
            table_name: "portfolios".to_string(),
            row_id: "B".to_string(),
            reason: "version".to_string(),
        }],
        records: Vec::new(),
        checkpoint: checkpoint("t1", "c1"),
    };
    let report = finish_cycle(&mut store, &req, Ok(resp), 50).unwrap();
    assert_eq!(report.result.conflicts, 1);
    let recs = store.collect();
    assert_eq!(recs.len(), 1);
    assert_eq!(recs[0].row_id, "B");
}

#[test]
fn checkpoint_held_back_when_a_pulled_record_fails() {
    let mut store = LocalStore::new();
    let req = begin_cycle(&store, 50);
    let pulled = vec![upsert("portfolioEntries", "E", vec![text("portfolioSyncUuid", "nowhere")], 2)];
    let report = finish_cycle(&mut store, &req, Ok(response(0, pulled, checkpoint("t1", "c1"))), 50).unwrap();
    assert!(!report.checkpoint_saved);
    assert_eq!(report.result.pulled, 1);
    assert_eq!(report.failed.len(), 1);
    assert_eq!(store.get_checkpoint(), None);

    let pulled = vec![upsert("portfolios", "P", vec![], 2)];
    let report = finish_cycle(&mut store, &req, Ok(response(0, pulled, checkpoint("t2", "c2"))), 60).unwrap();
    assert!(report.checkpoint_saved);
    assert_eq!(store.get_checkpoint(), Some(checkpoint("t2", "c2")));
}

#[test]
fn store_rejects_bad_mutations() {
    let mut store = LocalStore::new();
    store.create(TableKind::Portfolio, "A".to_string(), None, vec![]).unwrap();
    assert_eq!(store.create(TableKind::Portfolio, "A".to_string(), None, vec![]), Err(StoreError::DuplicateId));
    assert_eq!(
        store.create(TableKind::Entry, "E".to_string(), Some("nope".to_string()), vec![]),
        Err(StoreError::MissingParent)
    );
    assert_eq!(store.create(TableKind::Entry, "E".to_string(), None, vec![]), Err(StoreError::MissingParent));
    assert_eq!(store.update(TableKind::Entry, &"E".to_string(), vec![]), Err(StoreError::NotFound));
    assert_eq!(store.soft_delete(TableKind::Portfolio, &"Z".to_string(), 1), Err(StoreError::NotFound));
}

#[test]
fn soft_delete_cascades_and_marks_dirty() {
    let mut store = LocalStore::new();
    let (p, e, c) = chain_batch();
    apply(&mut store, &vec![p, e, c], 10);
    store.soft_delete(TableKind::Portfolio, &"P".to_string(), 77).unwrap();
    for k in [TableKind::Portfolio, TableKind::Entry, TableKind::CouponPayment] {
        let row = &store.rows(k)[0];
        assert!(row.deleted);
        assert_eq!(row.deleted_at, Some(77));
        assert_eq!(row.synced_at, None);
    }
    let recs = store.collect();
    assert_eq!(recs.len(), 3);
    assert!(recs.iter().all(|r| r.deleted && r.data.is_empty()));
}

#[test]
fn update_keeps_version_and_marks_dirty() {
    let mut store = LocalStore::new();
    apply(&mut store, &vec![upsert("portfolios", "P", vec![], 4)], 10);
    store.update(TableKind::Portfolio, &"P".to_string(), vec![text("name", "Renamed")]).unwrap();
    let row = &store.rows(TableKind::Portfolio)[0];
    assert_eq!(row.sync_version, 4);
    assert_eq!(row.synced_at, None);
    assert_eq!(row.fields, vec![text("name", "Renamed")]);
}

#[test]
fn checkpoint_time_is_read_from_rfc3339() {
    assert_eq!(checkpoint_time(&checkpoint("2024-01-01T00:00:00Z", "a")), Ok(1704067200));
    assert_eq!(checkpoint_time(&checkpoint("2024-01-01T07:00:00+07:00", "a")), Ok(1704067200));
    assert_eq!(checkpoint_time(&checkpoint("yesterday", "a")), Err(CheckpointError::MalformedTimestamp));
    let mut store = LocalStore::new();
    assert_eq!(store.last_sync_at(), Ok(None));
    store.save_checkpoint(checkpoint("1970-01-01T00:01:40Z", "z"));
    assert_eq!(store.last_sync_at(), Ok(Some(100)));
}

#[test]
fn sync_status_counts_pending_rows() {
    let mut store = LocalStore::new();
    store.create(TableKind::Portfolio, "A".to_string(), None, vec![]).unwrap();
    let s = sync_status(&store, true, Some("https://sync.example".to_string()), Some(5));
    assert!(s.configured);
    assert!(s.authenticated);
    assert_eq!(s.pending_changes, 1);
    assert_eq!(s.last_sync_at, Some(5));
    let s = sync_status(&store, false, None, None);
    assert!(!s.configured);
}

#[test]
fn portfolio_fields_skip_unset_values_and_read_back() {
    let p = Portfolio {
        id: "A".to_string(),
        name: "Savings".to_string(),
        description: None,
        base_currency: Some("VND".to_string()),
        created_at: 1700000000,
        sync_version: 1,
        synced_at: None,
    };
    let fields = p.to_fields();
    assert_eq!(
        fields,
        vec![
            text("name", "Savings"),
            text("baseCurrency", "VND"),
            Field { key: "createdAt".to_string(), value: FieldValue::Integer(1700000000) },
        ]
    );
    let mut store = LocalStore::new();
    store.create(TableKind::Portfolio, "A".to_string(), None, fields).unwrap();
    let back = Portfolio::from_row(store.get(TableKind::Portfolio, &"A".to_string()).unwrap());
    assert_eq!(back.name, "Savings");
    assert_eq!(back.description, None);
    assert_eq!(back.base_currency, Some("VND".to_string()));
    assert_eq!(back.created_at, 1700000000);
    assert_eq!(back.sync_version, 1);
    let empty = Portfolio::from_row(&store.rows(TableKind::Portfolio)[0]);
    assert_eq!(empty.id, "A");
}
