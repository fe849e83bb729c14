//! The wire form of one sync round: one request carries the requester's
//! version vector and the entries it ships; one response carries the
//! responder's vector after applying them and the entries the requester
//! lacked.

use vstd::prelude::*;
use crate::seam::{ErrorView, NodeId, SeamError};
use crate::text;

verus! {

/// The protocol name registered with the transport; a breaking change to the
/// messages is a new name.
pub const PROTOCOL: &'static str = "inseam/sync/1";

/// Most entries one batch carries.
pub const LOG_ENTRIES_PER_BATCH_MAX: usize = 2_000;

/// How far one origin's log is known.
#[derive(Debug, Clone, Copy, PartialEq, Eq)]
pub struct VectorEntry {
    pub origin: NodeId,
    pub epoch: u64,
    pub seq: u64,
}

/// What a node holds of every origin's log.
#[derive(Debug, PartialEq, Eq)]
pub struct VersionVector {
    pub entries: Vec<VectorEntry>,
}

impl VersionVector {
    /// Whether two vectors say the same.
    pub fn same(&self, other: &VersionVector) -> (r: bool)
        ensures
            r == (self.entries@ == other.entries@),
    {
        if self.entries.len() != other.entries.len() {
            return false;
        }
        let mut i: usize = 0;
        while i < self.entries.len()
            invariant
                i <= self.entries@.len(),
                self.entries@.len() == other.entries@.len(),
                forall|j: int| 0 <= j < i ==> #[trigger] self.entries@[j] == other.entries@[j],
            decreases self.entries@.len() - i,
        {
            let a = self.entries[i];
            let b = other.entries[i];
            if !(a.origin.same(&b.origin) && a.epoch == b.epoch && a.seq == b.seq) {
                return false;
            }
            i = i + 1;
        }
        proof {
            assert(self.entries@ =~= other.entries@);
        }
        true
    }
}

/// What a log entry records.
#[derive(Debug, Clone, Copy, PartialEq, Eq)]
pub enum RecordKind {
    Node,
    Host,
    Stewardship,
    StewardshipWithdrawn,
    Expulsion,
    Source,
    SourceGone,
}

/// One entry of an origin's log.
#[derive(Debug, Clone, Copy, PartialEq, Eq)]
pub struct LogEntry {
    pub origin: NodeId,
    pub epoch: u64,
    pub seq: u64,
    pub record: RecordKind,
}

#[derive(Debug, PartialEq, Eq)]
pub struct SyncRequest {
    /// What the requester holds, so the responder ships only what it lacks.
    pub vector: VersionVector,
    /// Entries the requester knows the responder lacks.
    pub entries: Vec<LogEntry>,
}

#[derive(Debug, PartialEq, Eq)]
pub struct SyncResponse {
    /// What the responder holds after applying the request's entries.
    pub vector: VersionVector,
    /// Entries the request's vector lacked, at most one batch.
    pub entries: Vec<LogEntry>,
}

/// What a batch over the bound is told.
pub open spec fn batch_too_large(entries: nat) -> Seq<char> {
    "sync batch carries "@ + text::decimal(entries) + " entries; the bound is "@ + text::decimal(
        LOG_ENTRIES_PER_BATCH_MAX as nat,
    )
}

/// Refuse a batch over the bound by name before anything is applied.
pub fn check_batch_bound(entries_len: usize) -> (r: Result<(), SeamError>)
    ensures
        r is Ok <==> entries_len <= LOG_ENTRIES_PER_BATCH_MAX,
        r matches Err(e) ==> e@ == ErrorView::Refused(batch_too_large(entries_len as nat)),
{
    if entries_len > LOG_ENTRIES_PER_BATCH_MAX {
        let mut message = "sync batch carries ".to_owned();
        message.append(text::number(entries_len as u64).as_str());
        message.append(" entries; the bound is ");
        message.append(text::number(LOG_ENTRIES_PER_BATCH_MAX as u64).as_str());
        return Err(SeamError::Refused(message));
    }
    Ok(())
}

/// Whether a record stands in the roster rather than the catalog.
pub open spec fn is_roster_record(record: RecordKind) -> bool {
    match record {
        RecordKind::Node | RecordKind::Host | RecordKind::Stewardship
        | RecordKind::StewardshipWithdrawn | RecordKind::Expulsion => true,
        RecordKind::Source | RecordKind::SourceGone => false,
    }
}

/// Whether applying `entries` could have changed the roster tables.
pub fn carries_roster_record(entries: &Vec<LogEntry>) -> (r: bool)
    ensures
        r == exists|i: int|
            0 <= i < entries@.len() && is_roster_record((#[trigger] entries@[i]).record),
{
    let mut i: usize = 0;
    while i < entries.len()
        invariant
            i <= entries@.len(),
            forall|j: int| 0 <= j < i ==> !is_roster_record((#[trigger] entries@[j]).record),
        decreases entries@.len() - i,
    {
        let found = match entries[i].record {
            RecordKind::Node => true,
            RecordKind::Host => true,
            RecordKind::Stewardship => true,
            RecordKind::StewardshipWithdrawn => true,
            RecordKind::Expulsion => true,
            RecordKind::Source => false,
            RecordKind::SourceGone => false,
        };
        if found {
            return true;
        }
        i = i + 1;
    }
    false
}

/// Whether a roster change is announced: something was applied, and what was
/// shipped could have changed the roster.
pub fn announces_roster(applied: u64, entries: &Vec<LogEntry>) -> (r: bool)
    ensures
        r == (applied > 0 && exists|i: int|
            0 <= i < entries@.len() && is_roster_record((#[trigger] entries@[i]).record)),
{
    applied > 0 && carries_roster_record(entries)
}

/// What a message that does not encode is told.
pub fn encoding_failed(what: &str, reason: &str) -> (r: SeamError)
    ensures
        r@ == ErrorView::Failed("encoding "@ + what@ + ": "@ + reason@),
{
    let mut message = "encoding ".to_owned();
    message.append(what);
    message.append(": ");
    message.append(reason);
    SeamError::Failed(message)
}

/// What a message that does not decode is told.
pub fn decoding_failed(what: &str, reason: &str) -> (r: SeamError)
    ensures
        r@ == ErrorView::Failed(what@ + " is not valid: "@ + reason@),
{
    let mut message = what.to_owned();
    message.append(" is not valid: ");
    message.append(reason);
    SeamError::Failed(message)
}

} // verus!
