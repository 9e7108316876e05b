//! The bookkeeping rules of the worker pool: thread-count validation, job
//! outcome accounting, and the completion-polling decision. Thread spawning,
//! channels and joins happen outside the library; the pool that runs them
//! applies these rules.

use vstd::prelude::*;

use crate::errors::{Error, ErrorKind};

verus! {

/// The rule a pool applies to its construction parameter before spawning
/// anything: at least one worker thread is needed, and a request for fewer
/// fails with [`ErrorKind::InvalidArgument`].
pub fn check_thread_count(threads: usize) -> (r: Result<(), Error>)
    ensures
        r is Ok <==> threads >= 1,
        r is Err ==> r->Err_0.kind == ErrorKind::InvalidArgument,
{
    if threads < 1 {
        Err(
            Error::new(
                ErrorKind::InvalidArgument,
                "you must have at least one thread to run the algorithm",
            ),
        )
    } else {
        Ok(())
    }
}

/// Cumulative counts of the job outcomes drained from a pool's result channel
/// since the last reset.
pub struct OutcomeLog {
    pub received_ok: usize,
    pub received_err: usize,
}

impl OutcomeLog {
    /// A fresh log: no outcome received yet.
    pub fn new() -> (r: Self)
        ensures
            r.received_ok == 0,
            r.received_err == 0,
    {
        OutcomeLog { received_ok: 0, received_err: 0 }
    }

    /// Accounts one drained outcome: a success bumps the success counter, a
    /// failure the failure counter, and neither touches the other.
    pub fn record(&mut self, succeeded: bool)
        requires
            succeeded ==> old(self).received_ok < usize::MAX,
            !succeeded ==> old(self).received_err < usize::MAX,
        ensures
            succeeded ==> final(self).received_ok == old(self).received_ok + 1
                && final(self).received_err == old(self).received_err,
            !succeeded ==> final(self).received_err == old(self).received_err + 1
                && final(self).received_ok == old(self).received_ok,
    {
        if succeeded {
            self.received_ok = self.received_ok + 1;
        } else {
            self.received_err = self.received_err + 1;
        }
    }

    /// How many jobs have reported success since the last reset.
    pub fn jobs_ok(&self) -> (r: usize)
        ensures
            r == self.received_ok,
    {
        self.received_ok
    }

    /// How many jobs have reported failure since the last reset.
    pub fn jobs_err(&self) -> (r: usize)
        ensures
            r == self.received_err,
    {
        self.received_err
    }

    /// Resets both cumulative counters to zero.
    pub fn reset_log(&mut self)
        ensures
            final(self).received_ok == 0,
            final(self).received_err == 0,
    {
        self.received_ok = 0;
        self.received_err = 0;
    }
}

/// Where a batch of submitted jobs stands.
#[derive(Debug, Clone, Copy, PartialEq, Eq, Structural)]
pub enum BatchStatus {
    /// No failure observed and not every job has succeeded yet: keep polling.
    Pending,
    /// Every job of the batch has reported success.
    Complete,
    /// At least one job anywhere in the batch has reported failure, which
    /// blocks retrieval of every node's result.
    Failed,
}

/// The decision the blocking query applies on each poll round, from the
/// outcome counters and the batch size: one observed failure fails the whole
/// batch; otherwise the batch is complete exactly when the success count has
/// reached the job count.
pub fn batch_status(jobs_ok: usize, jobs_err: usize, node_count: usize) -> (r: BatchStatus)
    ensures
        r == BatchStatus::Failed <==> jobs_err > 0,
        r == BatchStatus::Complete <==> (jobs_err == 0 && jobs_ok >= node_count),
        r == BatchStatus::Pending <==> (jobs_err == 0 && jobs_ok < node_count),
{
    if jobs_err > 0 {
        BatchStatus::Failed
    } else if jobs_ok >= node_count {
        BatchStatus::Complete
    } else {
        BatchStatus::Pending
    }
}

} // verus!
