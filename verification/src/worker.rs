//! What an upload worker decides: a chunk whose file cannot be read counts as stored.

use crate::chunks::ChunkRef;
use crate::scheduler::WorkerOutcome;
use vstd::prelude::*;

verus! {

/// What a worker does once it has tried to read its chunk from disk.
#[derive(Clone, Debug, PartialEq, Eq)]
pub enum AfterRead {
    /// The bytes are there: they are submitted to the network.
    Submit,
    /// The file could not be read. The worker ends here, with this report.
    Finish(WorkerReport),
}

/// How a worker ended, and what it leaves to be shown.
#[derive(Clone, Debug, PartialEq, Eq)]
pub struct WorkerReport {
    /// What the scheduler is told.
    pub outcome: WorkerOutcome,
    /// By how much the progress bar moves.
    pub progress: u64,
    /// Whether to warn that the chunk was missing on disk.
    pub missing: bool,
}

/// Decides what follows the attempt to read a chunk from disk. A chunk that cannot be read
/// is taken to be stored already: a run that was cut short while it cleaned up leaves such
/// chunks behind, and to fail on them would mean to retry them for ever.
pub fn after_read(chunk: &ChunkRef, readable: bool) -> (next: AfterRead)
    ensures
        readable ==> next is Submit,
        !readable ==> (next matches AfterRead::Finish(report) && report.outcome
            == WorkerOutcome::Stored(chunk.address) && report.progress == 0 && report.missing),
{
    if readable {
        AfterRead::Submit
    } else {
        AfterRead::Finish(
            WorkerReport { outcome: WorkerOutcome::Stored(chunk.address), progress: 0, missing: true },
        )
    }
}

/// Decides how a worker ends once the network has answered: a chunk that was stored moves
/// the progress bar by one, a chunk that was not stays pending.
pub fn after_put(chunk: &ChunkRef, stored: bool) -> (report: WorkerReport)
    ensures
        !report.missing,
        stored ==> report.outcome == WorkerOutcome::Stored(chunk.address) && report.progress == 1,
        !stored ==> report.outcome == WorkerOutcome::Failed(chunk.address) && report.progress == 0,
{
    if stored {
        WorkerReport { outcome: WorkerOutcome::Stored(chunk.address), progress: 1, missing: false }
    } else {
        WorkerReport { outcome: WorkerOutcome::Failed(chunk.address), progress: 0, missing: false }
    }
}

} // verus!
