//! One synchronization cycle.  The cycle is split around its only
//! suspension point, the combined push/pull exchange with the server: the
//! host asks [`begin_cycle`] for the request, performs the exchange (and the
//! credential lookup before it), and hands the outcome to [`finish_cycle`].
//! The host holds exclusive access to the store for the whole cycle.
use vstd::prelude::*;

use crate::apply::{apply, apply_batch, in_phase, phases_upto, replay_order, run, wire_kind, ApplyFailure};
use crate::collector::{collected, lemma_round_trip, mark_all, outbound_rows};
use crate::record::{Checkpoint, SyncRecord};
use crate::store::{lemma_filter_keeps_all, LocalStore, StoreView};

verus! {

/// Why a cycle failed.  None of these changes the local store.
#[derive(Clone, Debug, PartialEq, Eq)]
pub enum SyncError {
    /// The network exchange failed or timed out.
    Transport(String),
    /// The credential was missing, invalid or expired.
    Authentication(String),
    /// The server's response could not be parsed.
    Protocol(String),
}

/// A pushed record that the server rejected.
#[derive(Clone, Debug)]
pub struct Conflict {
    pub table_name: String,
    pub row_id: String,
    pub reason: String,
}

/// The outbound half of the exchange: the dirty records and the cursor to
/// pull from.
#[derive(Debug)]
pub struct DeltaRequest {
    pub records: Vec<SyncRecord>,
    pub client_timestamp: i64,
    pub since: Option<Checkpoint>,
}

/// The server's answer: push acknowledgement and pulled changes.
#[derive(Debug)]
pub struct DeltaResponse {
    pub synced: usize,
    pub conflicts: Vec<Conflict>,
    pub records: Vec<SyncRecord>,
    pub checkpoint: Checkpoint,
}

/// Result of a sync operation.
#[derive(Clone, Debug)]
pub struct SyncResult {
    pub pushed: usize,
    pub pulled: usize,
    pub conflicts: usize,
    pub success: bool,
    pub error: Option<String>,
    /// Unix timestamp of the cycle.
    pub synced_at: i64,
}

/// Outcome of a completed cycle.
#[derive(Debug)]
pub struct CycleReport {
    pub result: SyncResult,
    /// Pulled records that could not be applied; they come again next cycle.
    pub failed: Vec<ApplyFailure>,
    /// Whether the checkpoint advanced.
    pub checkpoint_saved: bool,
}

/// The server reported a conflict for this record.
pub open spec fn conflicted(r: SyncRecord, cs: Seq<Conflict>) -> bool {
    exists|i: int| 0 <= i < cs.len() && (#[trigger] cs[i]).table_name@ == r.table_name@ && cs[i].row_id@ == r.row_id@
}

/// The pushed records the server accepted.
pub open spec fn acknowledged(recs: Seq<SyncRecord>, cs: Seq<Conflict>) -> Seq<SyncRecord> {
    recs.filter(|r: SyncRecord| !conflicted(r, cs))
}

/// The store after a successful exchange: accepted records recorded as
/// pushed, pulled records applied, and the checkpoint advanced only when
/// every pulled record was applied.
pub open spec fn after_exchange(v: StoreView, req: Seq<SyncRecord>, resp: DeltaResponse, now: i64) -> StoreView {
    let pushed = mark_all(v, acknowledged(req, resp.conflicts@), now);
    let applied = apply_batch(pushed, resp.records@, now);
    if applied.1.len() == 0 {
        applied.0.with_checkpoint(resp.checkpoint)
    } else {
        applied.0
    }
}

/// Builds the request of a cycle: the outbound batch and the current
/// checkpoint.  Nothing is changed.
pub fn begin_cycle(store: &LocalStore, now: i64) -> (req: DeltaRequest)
    requires
        store@.wf(),
    ensures
        collected(store@, req.records@),
        req.since == store@.checkpoint,
        req.client_timestamp == now,
{
    DeltaRequest { records: store.collect(), client_timestamp: now, since: store.get_checkpoint() }
}

/// Whether the server reported a conflict for this record.
fn is_conflicted(r: &SyncRecord, cs: &Vec<Conflict>) -> (b: bool)
    ensures
        b == conflicted(*r, cs@),
{
    let mut i: usize = 0;
    while i < cs.len()
        invariant
            i <= cs@.len(),
            forall|j: int|
                0 <= j < i ==> !((#[trigger] cs@[j]).table_name@ == r.table_name@ && cs@[j].row_id@ == r.row_id@),
        decreases cs.len() - i,
    {
        if cs[i].table_name == r.table_name && cs[i].row_id == r.row_id {
            return true;
        }
        i = i + 1;
    }
    false
}

/// Records the accepted part of a pushed batch; conflicting records stay
/// dirty for the next cycle.
fn mark_acknowledged(store: &mut LocalStore, recs: &Vec<SyncRecord>, cs: &Vec<Conflict>, now: i64)
    requires
        old(store)@.wf(),
    ensures
        final(store)@ == mark_all(old(store)@, acknowledged(recs@, cs@), now),
        final(store)@.wf(),
{
    let ghost v0 = store@;
    let mut i: usize = 0;
    while i < recs.len()
        invariant
            i <= recs@.len(),
            store@.wf(),
            store@ == mark_all(v0, acknowledged(recs@.subrange(0, i as int), cs@), now),
        decreases recs.len() - i,
    {
        let ghost before = acknowledged(recs@.subrange(0, i as int), cs@);
        proof {
            reveal(Seq::filter);
            assert(recs@.subrange(0, i + 1).drop_last() =~= recs@.subrange(0, i as int));
            assert(recs@.subrange(0, i + 1).last() == recs@[i as int]);
        }
        let rec = &recs[i];
        if !is_conflicted(rec, cs) {
            proof {
                let after = acknowledged(recs@.subrange(0, i + 1), cs@);
                assert(after == before.push(*rec));
                assert(after.drop_last() =~= before);
            }
            match wire_kind(&rec.table_name) {
                None => {},
                Some(k) => {
                    if rec.deleted {
                        store.hard_delete(k, &rec.row_id);
                    } else {
                        store.mark_synced_row(k, &rec.row_id, now);
                    }
                },
            }
        }
        i = i + 1;
    }
    proof {
        assert(recs@.subrange(0, recs@.len() as int) =~= recs@);
    }
}

/// Completes a cycle with the outcome of the exchange.  On failure nothing
/// local changes and the error is returned.  On success the accepted
/// records are recorded as pushed, the pulled records are applied, and the
/// checkpoint is saved only if every pulled record was applied.
pub fn finish_cycle(
    store: &mut LocalStore,
    req: &DeltaRequest,
    outcome: Result<DeltaResponse, SyncError>,
    now: i64,
) -> (r: Result<CycleReport, SyncError>)
    requires
        old(store)@.wf(),
    ensures
        final(store)@.wf(),
        match outcome {
            Err(e) => r == Err::<CycleReport, SyncError>(e) && final(store)@ == old(store)@,
            Ok(resp) => {
                let pushed = mark_all(old(store)@, acknowledged(req.records@, resp.conflicts@), now);
                let applied = apply_batch(pushed, resp.records@, now);
                &&& r is Ok
                &&& final(store)@ == after_exchange(old(store)@, req.records@, resp, now)
                &&& r->Ok_0.result == SyncResult {
                    pushed: resp.synced,
                    pulled: resp.records@.len() as usize,
                    conflicts: resp.conflicts@.len() as usize,
                    success: true,
                    error: None,
                    synced_at: now,
                }
                &&& r->Ok_0.failed@ == applied.1
                &&& r->Ok_0.checkpoint_saved == (applied.1.len() == 0)
            },
        },
{
    let resp = match outcome {
        Err(e) => {
            return Err(e);
        },
        Ok(resp) => resp,
    };
    mark_acknowledged(store, &req.records, &resp.conflicts, now);
    let report = apply(store, &resp.records, now);
    let saved = report.failed.len() == 0;
    let result = SyncResult {
        pushed: resp.synced,
        pulled: resp.records.len(),
        conflicts: resp.conflicts.len(),
        success: true,
        error: None,
        synced_at: now,
    };
    if saved {
        store.save_checkpoint(resp.checkpoint);
    }
    Ok(CycleReport { result, failed: report.failed, checkpoint_saved: saved })
}

/// Round trip through a whole cycle: when the server accepts every pushed
/// record and sends nothing back, no row is left dirty.
pub proof fn lemma_cycle_leaves_nothing_pending(v: StoreView, req: Seq<SyncRecord>, resp: DeltaResponse, now: i64)
    requires
        v.wf(),
        collected(v, req),
        resp.conflicts@.len() == 0,
        resp.records@.len() == 0,
    ensures
        outbound_rows(after_exchange(v, req, resp, now)).len() == 0,
{
    lemma_filter_keeps_all(req, |r: SyncRecord| !conflicted(r, resp.conflicts@));
    assert(acknowledged(req, resp.conflicts@) == req);
    lemma_round_trip(v, req, now);
    let pulled = resp.records@;
    assert(replay_order(pulled) =~= Seq::<SyncRecord>::empty()) by {
        reveal(Seq::filter);
        reveal_with_fuel(phases_upto, 8);
        assert forall|q: int| 0 <= q < 7 implies in_phase(pulled, q) =~= Seq::<SyncRecord>::empty() by {}
    }
    let pushed = mark_all(v, req, now);
    assert(run(pushed, Seq::<SyncRecord>::empty(), now).1.len() == 0);
}

} // verus!
