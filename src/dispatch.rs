//! Run parameters and the decisions of the record dispatcher.
use vstd::prelude::*;

verus! {

/// k-mer length of the shipped configuration.
pub const DEFAULT_K: usize = 7;

/// Longest window, in bases, of the shipped configuration.
pub const DEFAULT_MAX_WINDOW: usize = 5000;

/// Threshold of the shipped configuration, 0.6, in units of 10^-12.
pub const DEFAULT_THRESHOLD: u64 = 600_000_000_000;

/// Queued records per worker at which the reader waits.
pub const BACKLOG_PER_WORKER: usize = 4;

/// Command-line arguments: input FASTA, output TSV, worker count.
pub struct DustArgs {
    pub input_file: String,
    pub output_file: String,
    pub threads: usize,
}

impl DustArgs {
    /// The worker pool size; `None` where no worker was asked for.
    pub fn pool_size(&self) -> (r: Option<usize>)
        ensures
            r == (if self.threads >= 1 {
                Some(self.threads)
            } else {
                None::<usize>
            }),
    {
        if self.threads >= 1 {
            Some(self.threads)
        } else {
            None
        }
    }
}

/// Whether the reader should wait before handing out another record: the
/// queue holds `BACKLOG_PER_WORKER` records for each worker.
pub fn backlog_full(queued: usize, threads: usize) -> (r: bool)
    ensures
        r == (queued >= BACKLOG_PER_WORKER * threads),
{
    queued / BACKLOG_PER_WORKER >= threads
}

} // verus!
