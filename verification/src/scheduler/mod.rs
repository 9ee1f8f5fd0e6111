//! The job scheduler's list of jobs and the changes made to it. Loading and
//! persisting the list is the caller's I/O.

use vstd::prelude::*;

use crate::keyed::{
    key_position, law_put_keeps_other_keys, law_stored_after_put, lemma_position_prefix, put_step,
    stored,
};
use crate::text::str_equal;

verus! {

/// Where a job stands.
#[derive(Debug, Clone, Copy, PartialEq, Eq, Structural)]
pub enum ScheduledJobStatus {
    Pending,
    Missed,
    Completed,
}

/// A job on a schedule. Times are milliseconds since the Unix epoch.
pub struct ScheduledJob {
    pub id: String,
    pub name: String,
    /// The cron expression the job runs on.
    pub schedule: String,
    pub last_run: Option<i64>,
    pub next_run: i64,
    pub status: ScheduledJobStatus,
}

/// A job as mathematical values.
pub struct JobView {
    pub id: Seq<char>,
    pub name: Seq<char>,
    pub schedule: Seq<char>,
    pub last_run: Option<i64>,
    pub next_run: i64,
    pub status: ScheduledJobStatus,
}

impl View for ScheduledJob {
    type V = JobView;

    open spec fn view(&self) -> JobView {
        JobView {
            id: self.id@,
            name: self.name@,
            schedule: self.schedule@,
            last_run: self.last_run,
            next_run: self.next_run,
            status: self.status,
        }
    }
}

/// How missed jobs are recovered after a restart.
#[derive(Debug, Clone, Copy, PartialEq, Eq, Structural)]
pub struct RecoveryConfig {
    /// How far back (milliseconds) a missed run still counts.
    pub missed_window_ms: i64,
    /// At most this many jobs are recovered per restart.
    pub max_per_restart: usize,
    /// Pause between recovered jobs, in milliseconds.
    pub stagger_ms: u64,
}

/// Where the job list is kept and how missed jobs are recovered.
pub struct SchedulerConfig {
    pub storage_path: String,
    pub recovery: RecoveryConfig,
}

/// The jobs as (id, job) entries.
pub open spec fn job_entries(v: Seq<ScheduledJob>) -> Seq<(Seq<char>, JobView)> {
    v.map_values(|j: ScheduledJob| (j.id@, j@))
}

/// The scheduler: its jobs and its configuration.
pub struct JobScheduler {
    jobs: Vec<ScheduledJob>,
    config: SchedulerConfig,
}

impl JobScheduler {
    /// The jobs, in order.
    pub closed spec fn jobs_spec(&self) -> Seq<ScheduledJob> {
        self.jobs@
    }

    /// The jobs, keyed by id.
    pub open spec fn entries(&self) -> Seq<(Seq<char>, JobView)> {
        job_entries(self.jobs_spec())
    }

    pub closed spec fn config_spec(&self) -> SchedulerConfig {
        self.config
    }

    /// A scheduler with no jobs.
    pub fn new(config: SchedulerConfig) -> (s: JobScheduler)
        ensures
            s.jobs_spec().len() == 0,
            s.config_spec() == config,
    {
        JobScheduler { jobs: Vec::new(), config }
    }

    /// A scheduler with the jobs that were loaded for it.
    pub fn with_jobs(config: SchedulerConfig, jobs: Vec<ScheduledJob>) -> (s: JobScheduler)
        ensures
            s.jobs_spec() == jobs@,
            s.config_spec() == config,
    {
        JobScheduler { jobs, config }
    }

    /// The configuration.
    pub fn config(&self) -> (c: &SchedulerConfig)
        ensures
            *c == self.config_spec(),
    {
        &self.config
    }

    /// The jobs.
    pub fn jobs(&self) -> (js: &[ScheduledJob])
        ensures
            js@ == self.jobs_spec(),
    {
        self.jobs.as_slice()
    }

    /// The jobs, to change in place.
    pub fn jobs_mut(&mut self) -> (js: &mut [ScheduledJob])
        ensures
            js@ == old(self).jobs_spec(),
            final(js)@ == final(self).jobs_spec(),
            final(self).config_spec() == old(self).config_spec(),
    {
        self.jobs.as_mut_slice()
    }

    /// Appends a job.
    pub fn add_job(&mut self, job: ScheduledJob)
        ensures
            final(self).jobs_spec() == old(self).jobs_spec().push(job),
            final(self).config_spec() == old(self).config_spec(),
    {
        self.jobs.push(job);
    }

    /// The position of the first job with an id.
    fn position(&self, id: &str) -> (r: Option<usize>)
        ensures
            r matches Some(i) ==> key_position(self.entries(), id@) == Some(i as int) && i
                < self.jobs_spec().len(),
            r is None ==> key_position(self.entries(), id@) is None,
    {
        let ghost es = self.entries();
        let mut i: usize = 0;
        while i < self.jobs.len()
            invariant
                i <= self.jobs.len(),
                es == self.entries(),
                key_position(es.take(i as int), id@) is None,
            decreases self.jobs.len() - i,
        {
            assert(es.take(i + 1).drop_last() =~= es.take(i as int));
            if str_equal(self.jobs[i].id.as_str(), id) {
                proof {
                    assert(key_position(es.take(i + 1), id@) == Some(i as int));
                    lemma_position_prefix(es, id@, (i + 1) as nat);
                }
                return Some(i);
            }
            i += 1;
        }
        assert(es.take(self.jobs.len() as int) =~= es);
        None
    }

    /// Replaces the first job with the same id, or appends the job.
    pub fn upsert_job(&mut self, job: ScheduledJob)
        ensures
            final(self).entries() == put_step(old(self).entries(), job.id@, job@),
            final(self).jobs_spec().len() == old(self).jobs_spec().len() + (if key_position(
                old(self).entries(),
                job.id@,
            ) is Some {
                0int
            } else {
                1int
            }),
            stored(final(self).entries(), job.id@) == Some(job@),
            forall|k: Seq<char>|
                k != job.id@ ==> #[trigger] stored(final(self).entries(), k) == stored(old(self).entries(), k),
            final(self).config_spec() == old(self).config_spec(),
    {
        let ghost es = self.entries();
        let ghost jv = job@;
        let ghost jid = job.id@;
        match self.position(job.id.as_str()) {
            Some(i) => {
                self.jobs.set(i, job);
                assert(self.entries() =~= es.update(i as int, (jid, jv)));
            },
            None => {
                self.jobs.push(job);
                assert(self.entries() =~= es.push((jid, jv)));
            },
        }
        proof {
            law_stored_after_put(es, jid, jv);
            assert forall|k: Seq<char>| k != jid implies #[trigger] stored(self.entries(), k) == stored(es, k) by {
                law_put_keeps_other_keys(es, jid, jv, k);
            }
        }
    }
}

} // verus!
