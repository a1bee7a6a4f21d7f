//! The decisions of a bounded, fail-fast job pool. The caller runs the jobs:
//! it asks for the next action, starts a job or waits for one, and reports
//! each job's end; the pool never has more than `limit` jobs running and
//! starts none once a job has failed.
use vstd::prelude::*;

use crate::error::{ErrorKind, MyError};

verus! {

/// What the caller does next.
#[derive(Clone, Copy, Debug, PartialEq, Eq, Structural)]
pub enum PoolAction {
    /// Start the job of this index.
    Start(usize),
    /// Wait for a running job to end, and report it.
    Wait,
    /// Nothing runs and nothing more will start.
    Finished,
}

/// The state of a pool of `total` jobs run at most `limit` at a time.
pub struct JobPool {
    pub total: usize,
    pub limit: usize,
    /// The jobs `0..started` have been started.
    pub started: usize,
    pub running: usize,
    pub failed: bool,
}

/// The action that a pool in the given state asks for.
pub open spec fn action_of(total: int, limit: int, started: int, running: int, failed: bool) -> PoolAction {
    if !failed && started < total && running < limit {
        PoolAction::Start(started as usize)
    } else if running > 0 {
        PoolAction::Wait
    } else {
        PoolAction::Finished
    }
}

impl JobPool {
    pub open spec fn wf(&self) -> bool {
        &&& self.limit >= 1
        &&& self.running <= self.started <= self.total
        &&& self.running <= self.limit
    }

    pub open spec fn action(&self) -> PoolAction {
        action_of(
            self.total as int,
            self.limit as int,
            self.started as int,
            self.running as int,
            self.failed,
        )
    }

    /// A pool for `total` jobs, at most `limit` at a time (a limit of 0 is
    /// taken as 1).
    pub fn new(total: usize, limit: usize) -> (r: JobPool)
        ensures
            r.wf(),
            r.total == total,
            r.limit == if limit == 0 {
                1
            } else {
                limit
            },
            r.started == 0,
            r.running == 0,
            !r.failed,
    {
        JobPool {
            total,
            limit: if limit == 0 {
                1
            } else {
                limit
            },
            started: 0,
            running: 0,
            failed: false,
        }
    }

    /// The next action: start the next job while no job has failed and a slot
    /// is free, else wait while jobs run, else finish.
    pub fn next_action(&self) -> (r: PoolAction)
        requires
            self.wf(),
        ensures
            r == self.action(),
    {
        if !self.failed && self.started < self.total && self.running < self.limit {
            PoolAction::Start(self.started)
        } else if self.running > 0 {
            PoolAction::Wait
        } else {
            PoolAction::Finished
        }
    }

    /// Records that the job the pool asked for has started.
    pub fn job_started(&mut self)
        requires
            old(self).wf(),
            old(self).action() is Start,
        ensures
            final(self).wf(),
            final(self).total == old(self).total,
            final(self).limit == old(self).limit,
            final(self).started == old(self).started + 1,
            final(self).running == old(self).running + 1,
            final(self).failed == old(self).failed,
    {
        self.started = self.started + 1;
        self.running = self.running + 1;
    }

    /// Records that a running job ended, successfully or not.
    pub fn job_finished(&mut self, ok: bool)
        requires
            old(self).wf(),
            old(self).running > 0,
        ensures
            final(self).wf(),
            final(self).total == old(self).total,
            final(self).limit == old(self).limit,
            final(self).started == old(self).started,
            final(self).running == old(self).running - 1,
            final(self).failed == (old(self).failed || !ok),
    {
        self.running = self.running - 1;
        if !ok {
            self.failed = true;
        }
    }

    /// The pool's result once it has finished: `JobPoolFailure` where any job
    /// failed, success otherwise, in which case every job was run.
    pub fn outcome(&self) -> (r: Result<(), MyError>)
        requires
            self.wf(),
            self.action() is Finished,
        ensures
            r is Err <==> self.failed,
            r is Err ==> r->Err_0.kind == ErrorKind::JobPoolFailure,
            r is Ok ==> self.started == self.total && self.running == 0,
    {
        if self.failed {
            Err(MyError::with_kind(ErrorKind::JobPoolFailure, "Failed to run jobs in parallel"))
        } else {
            Ok(())
        }
    }
}

/// Once a job has failed the pool starts no further job, and its result,
/// when it finishes, is `JobPoolFailure`; reporting more jobs' ends, of
/// either kind, never clears the failure.
pub proof fn lemma_failure_is_final(p: JobPool, ok: bool)
    requires
        p.wf(),
        p.failed,
    ensures
        !(p.action() is Start),
        p.running > 0 ==> p.action() is Wait,
        p.running == 0 ==> p.action() is Finished,
        p.running > 0 ==> action_of(
            p.total as int,
            p.limit as int,
            p.started as int,
            p.running - 1,
            p.failed || !ok,
        ) != PoolAction::Start(p.started),
{
}

/// A pool whose jobs all succeed starts every job, each exactly once and in
/// order, without more than `limit` running: while jobs remain and a slot is
/// free it asks to start the next one.
pub proof fn lemma_all_jobs_start(p: JobPool)
    requires
        p.wf(),
        !p.failed,
    ensures
        p.started < p.total && p.running < p.limit ==> p.action() == PoolAction::Start(
            p.started,
        ),
        p.action() is Finished ==> p.started == p.total,
{
}

} // verus!
