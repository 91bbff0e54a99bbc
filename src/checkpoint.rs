//! The checkpoint manager: the single cursor that marks how far remote
//! changes have been pulled.  Saving and reading it are methods of the
//! store; this module reads the time a checkpoint stands for.
use vstd::prelude::*;

use crate::record::Checkpoint;
use crate::store::{LocalStore, StoreView};

verus! {

/// Unix time (seconds) of an RFC 3339 date-time text, or `None` when the
/// text is not a valid RFC 3339 date-time.
pub uninterp spec fn rfc3339_seconds(s: Seq<char>) -> Option<i64>;

/// Relies on `chrono::DateTime::parse_from_rfc3339`, then
/// `DateTime::timestamp`: the instant denoted by the text, in whole seconds
/// since the Unix epoch, or `None` for text that does not parse.
#[verifier::external_body]
fn parse_rfc3339(s: &str) -> (r: Option<i64>)
    ensures
        r == rfc3339_seconds(s@),
{
    chrono::DateTime::parse_from_rfc3339(s).ok().map(|d| d.timestamp())
}

/// Why the stored checkpoint could not be read.
#[derive(Clone, Copy, Debug, PartialEq, Eq, Structural)]
pub enum CheckpointError {
    /// The checkpoint's time is not an RFC 3339 date-time.
    MalformedTimestamp,
}

/// The time a checkpoint stands for, in Unix seconds.
pub fn checkpoint_time(c: &Checkpoint) -> (r: Result<i64, CheckpointError>)
    ensures
        match rfc3339_seconds(c.updated_at@) {
            Some(t) => r == Ok::<i64, CheckpointError>(t),
            None => r == Err::<i64, CheckpointError>(CheckpointError::MalformedTimestamp),
        },
{
    match parse_rfc3339(c.updated_at.as_str()) {
        Some(t) => Ok(t),
        None => Err(CheckpointError::MalformedTimestamp),
    }
}

impl LocalStore {
    /// When the last successful pull happened: `None` before the first one.
    pub fn last_sync_at(&self) -> (r: Result<Option<i64>, CheckpointError>)
        ensures
            match self@.checkpoint {
                None => r == Ok::<Option<i64>, CheckpointError>(None),
                Some(c) => match rfc3339_seconds(c.updated_at@) {
                    Some(t) => r == Ok::<Option<i64>, CheckpointError>(Some(t)),
                    None => r == Err::<Option<i64>, CheckpointError>(CheckpointError::MalformedTimestamp),
                },
            },
    {
        match self.get_checkpoint() {
            None => Ok(None),
            Some(c) => match checkpoint_time(&c) {
                Ok(t) => Ok(Some(t)),
                Err(e) => Err(e),
            },
        }
    }
}

/// Checkpoint monotonicity: of two saves, the later one is what the store
/// holds afterwards.
pub proof fn lemma_checkpoint_last_save(v: StoreView, c1: Checkpoint, c2: Checkpoint)
    ensures
        v.with_checkpoint(c1).with_checkpoint(c2).checkpoint == Some(c2),
{
}

} // verus!
