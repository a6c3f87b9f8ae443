//! One long job at a time, with a cancel request that reaches it, and the
//! way a finished run is recorded.

use vstd::prelude::*;
use crate::text::{chars_of, contains_seq};

verus! {

/// Returned when the caller asked to stop mid-pass.
#[derive(Debug, Clone, Copy, PartialEq, Eq, Structural)]
pub struct Cancelled;

impl Cancelled {
    /// "операцію скасовано".
    pub fn message(&self) -> (r: String)
        ensures
            r@ == "операцію скасовано"@,
    {
        "операцію скасовано".to_owned()
    }
}

/// The one job that may run, and the cancel request of the running one.
pub struct JobManager {
    running: bool,
    /// The cancel flag of the running job, while there is one.
    cancel: Option<bool>,
}

/// What the worker holds to say that its job is over.
pub struct JobHandle {
    pub run_id: i64,
}

impl JobManager {
    pub closed spec fn spec_running(&self) -> bool {
        self.running
    }

    /// The flag of the running job; `None` once it finished.
    pub closed spec fn spec_flag(&self) -> Option<bool> {
        self.cancel
    }

    /// No job.
    pub fn idle() -> (r: JobManager)
        ensures
            !r.spec_running(),
            r.spec_flag() is None,
    {
        JobManager { running: false, cancel: None }
    }

    /// Start a job: it runs, and nobody asked it to stop yet.
    pub fn begin(&mut self, run_id: i64) -> (r: JobHandle)
        ensures
            final(self).spec_running(),
            final(self).spec_flag() == Some(false),
            r.run_id == run_id,
    {
        self.cancel = Some(false);
        self.running = true;
        JobHandle { run_id }
    }

    /// Ask the running job to stop at its next checkpoint; with no job,
    /// nothing changes.
    pub fn cancel(&mut self)
        ensures
            final(self).spec_running() == old(self).spec_running(),
            final(self).spec_flag() == (match old(self).spec_flag() {
                Some(_) => Some(true),
                None => None::<bool>,
            }),
    {
        if self.cancel.is_some() {
            self.cancel = Some(true);
        }
    }

    pub fn is_running(&self) -> (r: bool)
        ensures
            r == self.spec_running(),
    {
        self.running
    }

    /// What the worker sees at a checkpoint: was it asked to stop?
    pub fn cancel_requested(&self) -> (r: bool)
        ensures
            r == (self.spec_flag() == Some(true)),
    {
        match self.cancel {
            Some(flag) => flag,
            None => false,
        }
    }

    /// A handle for the worker of the running job.
    pub fn clone_handle(&self, run_id: i64) -> (r: JobHandle)
        ensures
            r.run_id == run_id,
    {
        JobHandle { run_id }
    }
}

impl JobHandle {
    /// The job is over: nothing runs, and its flag is gone, so a later
    /// cancel reaches nothing.
    pub fn finish(&self, manager: &mut JobManager)
        ensures
            !final(manager).spec_running(),
            final(manager).spec_flag() is None,
    {
        manager.running = false;
        manager.cancel = None;
    }
}

/// A cancel request reaches the running job, and once it finished a later
/// cancel does not bring it back.
pub proof fn lemma_cancel_reaches_job_and_clears(m0: JobManager, m1: JobManager, m2: JobManager, m3: JobManager)
    requires
        m0.spec_running() && m0.spec_flag() is Some,
        m1.spec_running() == m0.spec_running(),
        m1.spec_flag() == (match m0.spec_flag() { Some(_) => Some(true), None => None::<bool> }),
        !m2.spec_running() && m2.spec_flag() is None,
        m3.spec_running() == m2.spec_running(),
        m3.spec_flag() == (match m2.spec_flag() { Some(_) => Some(true), None => None::<bool> }),
    ensures
        m1.spec_running() && m1.spec_flag() == Some(true),
        !m3.spec_running() && m3.spec_flag() is None,
{
}

/// How a run is recorded when it ends: `cancelled` when its error says it
/// was cancelled (`скасовано`), `failed` on any other error, `completed`
/// without one.
pub open spec fn spec_run_status(error: Option<Seq<char>>) -> Seq<char> {
    match error {
        Some(message) => if contains_seq(message, "скасовано"@) { "cancelled"@ } else { "failed"@ },
        None => "completed"@,
    }
}

pub fn run_status(error: Option<&str>) -> (r: String)
    ensures
        r@ == spec_run_status(match error { Some(e) => Some(e@), None => None::<Seq<char>> }),
{
    match error {
        Some(message) => {
            let m = chars_of(message);
            let word = chars_of("скасовано");
            if crate::text::contains_chars(&m, &word) {
                "cancelled".to_owned()
            } else {
                "failed".to_owned()
            }
        },
        None => "completed".to_owned(),
    }
}

/// One row of the run history.
pub struct RunRecord {
    pub id: i64,
    /// `index` or `scan`.
    pub kind: String,
    pub started_at: String,
    pub finished_at: Option<String>,
    pub status: String,
    pub rank_metric: String,
    pub targets: Vec<String>,
    pub output_dir: String,
    pub error: Option<String>,
}

impl RunRecord {
    /// A run that has just started: `running`, not finished, no error.
    pub fn start(id: i64, kind: String, started_at: String, rank_metric: String, targets: Vec<String>, output_dir: String)
        -> (r: RunRecord)
        ensures
            r.id == id,
            r.kind@ == kind@,
            r.started_at@ == started_at@,
            r.finished_at is None,
            r.status@ == "running"@,
            r.rank_metric@ == rank_metric@,
            r.targets@ == targets@,
            r.output_dir@ == output_dir@,
            r.error is None,
    {
        RunRecord { id, kind, started_at, finished_at: None, status: "running".to_owned(), rank_metric, targets, output_dir, error: None }
    }

    /// The run ended at `finished_at`, with `error` if it failed: its status
    /// says how it ended.
    pub fn finish(&mut self, finished_at: String, error: Option<String>)
        ensures
            final(self).finished_at matches Some(f) && f@ == finished_at@,
            final(self).status@ == spec_run_status(match error { Some(e) => Some(e@), None => None::<Seq<char>> }),
            final(self).error == error,
            final(self).id == old(self).id,
            final(self).kind == old(self).kind,
            final(self).started_at == old(self).started_at,
            final(self).rank_metric == old(self).rank_metric,
            final(self).targets == old(self).targets,
            final(self).output_dir == old(self).output_dir,
    {
        self.status = match &error {
            Some(e) => run_status(Some(e.as_str())),
            None => run_status(None),
        };
        self.finished_at = Some(finished_at);
        self.error = error;
    }
}

/// One saved discovery report, summarised.
pub struct SeoReportRecord {
    pub id: i64,
    pub generated_at: String,
    pub provider: String,
    pub evidence_count: i64,
}

} // verus!
