//! The cluster: workers, jobs, and the steps that bring them together.
//!
//! A step that leaves something for the caller to do hands out a token: an [`Accepted`] for a job
//! that is to go through the task channel, a [`Launch`] for a job that waits for its browser, a
//! [`Run`] for a job that runs, a [`Tried`] for one that ran, a [`Spent`] for one that has given
//! back its worker and still holds its permit, a [`Retry`] for one that failed and is to be queued
//! again, a [`Fill`] for launches that are to fill the idle pool, a [`Retired`] for a browser to
//! close, a [`Watch`] and a [`Pass`] for the monitor of the idle workers. The token goes into the
//! step that reports what came of it. Tokens can neither be made nor copied outside this module.
use std::collections::VecDeque;
use std::sync::Arc;
use vstd::multiset::Multiset;
use vstd::prelude::*;

use crate::clock::remaining;
use crate::error::{BrowserError, ErrorModel};
use crate::job::{Arrival, JobEntry};
use crate::model::{
    ClusterModel, LookModel, NextModel, RetryModel, SourceModel, StartModel, StepModel, TriedModel,
    WatchModel,
};
use crate::options::{ClusterOptions, Nanos, QueueMode};
use crate::permits::Permits;
use crate::worker::Worker;

verus! {

/// A job that was accepted and is on its way to the queue.
pub struct Accepted<F, T> {
    job: JobEntry<F, T>,
}

/// A job that failed and is on its way back to the queue.
pub struct Retry<F, T> {
    job: JobEntry<F, T>,
    failed_at: Nanos,
}

/// A job that runs.
pub struct Run {
    permit: usize,
}

/// A job that ran, and still has its worker.
pub struct Tried {
    permit: usize,
    ends: bool,
}

/// A job that ran, and still holds its permit.
pub struct Spent {
    permit: usize,
    ends: bool,
}

/// A job that waits for a browser to be launched.
pub struct Launch<F, T> {
    permit: usize,
    job: JobEntry<F, T>,
}

/// Launches that are to fill the idle pool.
pub struct Fill {
    count: usize,
}

/// A browser that is to be closed and is still counted.
pub struct Retired<B> {
    browser: Arc<B>,
}

/// The monitor of the idle workers, while it waits.
pub struct Watch {
    since: Nanos,
}

/// The monitor of the idle workers, while it makes a pass.
pub struct Pass {}

impl<F, T> View for Accepted<F, T> {
    type V = JobEntry<F, T>;

    /// The job.
    closed spec fn view(&self) -> JobEntry<F, T> {
        self.job
    }
}

impl<F, T> View for Retry<F, T> {
    type V = RetryModel<F, T>;

    /// The job, and when it failed.
    closed spec fn view(&self) -> RetryModel<F, T> {
        RetryModel { job: self.job, failed_at: self.failed_at }
    }
}

impl View for Watch {
    type V = Nanos;

    /// Since when the monitor waits.
    closed spec fn view(&self) -> Nanos {
        self.since
    }
}

impl View for Run {
    type V = usize;

    /// The permit under which the job runs.
    closed spec fn view(&self) -> usize {
        self.permit
    }
}

impl Run {
    /// The job is over: it succeeded, or it is given up.
    pub fn done(self) -> (tried: Tried)
        ensures
            tried@ == (TriedModel { permit: self@, ends: true }),
    {
        Tried { permit: self.permit, ends: true }
    }
}

impl View for Tried {
    type V = TriedModel;

    /// The permit that the job holds, and whether the job has ended.
    closed spec fn view(&self) -> TriedModel {
        TriedModel { permit: self.permit, ends: self.ends }
    }
}

impl View for Spent {
    type V = TriedModel;

    /// The permit that the job still holds, and whether the job has ended.
    closed spec fn view(&self) -> TriedModel {
        TriedModel { permit: self.permit, ends: self.ends }
    }
}

impl<F, T> View for Launch<F, T> {
    type V = StartModel<F, T>;

    /// The job, and the permit under which it is to run.
    closed spec fn view(&self) -> StartModel<F, T> {
        StartModel { permit: self.permit, job: self.job }
    }
}

impl<F, T> Launch<F, T> {
    /// The job that waits.
    pub fn job(&self) -> (job: &JobEntry<F, T>)
        ensures
            *job == self@.job,
    {
        &self.job
    }
}

impl View for Fill {
    type V = nat;

    /// How many browsers are to be launched.
    closed spec fn view(&self) -> nat {
        self.count as nat
    }
}

impl Fill {
    /// How many browsers are to be launched.
    pub fn count(&self) -> (count: usize)
        ensures
            count == self@,
    {
        self.count
    }
}

impl<B> View for Retired<B> {
    type V = Arc<B>;

    /// The browser to close.
    closed spec fn view(&self) -> Arc<B> {
        self.browser
    }
}

impl<B> Retired<B> {
    /// The browser to close.
    pub fn browser(&self) -> (browser: &Arc<B>)
        ensures
            *browser == self@,
    {
        &self.browser
    }
}

/// A job to run now.
pub struct Start<F, T> {
    /// What to report the end of the job with.
    pub run: Run,
    /// The job.
    pub job: JobEntry<F, T>,
}

impl<F, T> View for Start<F, T> {
    type V = StartModel<F, T>;

    open spec fn view(&self) -> StartModel<F, T> {
        StartModel { permit: self.run@, job: self.job }
    }
}

/// What to do after the jobs of a round were started.
pub enum Next<F, T> {
    /// Nothing.
    Done,
    /// Nothing, but a job was left waiting because no worker could be had for it.
    NoWorker(BrowserError),
    /// Launch a browser for a job and report the result to [`Cluster::launched`].
    Launch(Launch<F, T>),
    /// The same, but after a sleep of [`WAIT_INTERVAL`]: the launch failed, and the queue has no
    /// room for the job.
    Relaunch(Launch<F, T>, BrowserError),
}

impl<F, T> View for Next<F, T> {
    type V = NextModel<F, T>;

    open spec fn view(&self) -> NextModel<F, T> {
        match *self {
            Next::Done => NextModel::Done,
            Next::NoWorker(error) => NextModel::NoWorker(error@),
            Next::Launch(launch) => NextModel::Launch(launch@.permit, launch@.job),
            Next::Relaunch(launch, error) => NextModel::Relaunch(
                launch@.permit,
                launch@.job,
                error@,
            ),
        }
    }
}

/// The jobs to start, in order, and what to do after that.
pub struct Round<F, T> {
    /// The jobs to start.
    pub starts: Vec<Start<F, T>>,
    /// What to do after that.
    pub next: Next<F, T>,
}

impl<F, T> Round<F, T> {
    /// The jobs to start.
    pub open spec fn started(self) -> Seq<StartModel<F, T>> {
        Seq::new(self.starts@.len(), |i: int| self.starts@[i]@)
    }

    /// Whether the cluster waits for what the round asks for: each job to start has a worker and
    /// holds its permit, and the job whose browser is to be launched, if any, awaits it.
    pub open spec fn open_in<B>(self, m: ClusterModel<B, F, T>) -> bool {
        &&& forall|i: int|
            0 <= i < self.starts@.len() ==> is_open(m, #[trigger] self.starts@[i])
        &&& self.next matches Next::Launch(launch) ==> is_awaited(m, launch)
        &&& self.next matches Next::Relaunch(launch, _) ==> is_awaited(m, launch)
    }
}

/// Whether the cluster waits for a job to start and end: it has a worker, and holds its permit.
pub open spec fn is_open<B, F, T>(m: ClusterModel<B, F, T>, start: Start<F, T>) -> bool {
    &&& m.is_active(start.run@)
    &&& m.is_running(start.run@)
    &&& m.carried[start.run@] == start.job
}

/// Whether the cluster waits for a launch.
pub open spec fn is_awaited<B, F, T>(m: ClusterModel<B, F, T>, launch: Launch<F, T>) -> bool {
    &&& m.awaiting.contains(launch@.permit)
    &&& m.carried[launch@.permit] == launch@.job
}

/// What one look at the queue comes to.
enum Step<F, T> {
    Start(Start<F, T>),
    Halt(Next<F, T>),
}

impl<F, T> Step<F, T> {
    spec fn model(self) -> StepModel<F, T> {
        match self {
            Step::Start(start) => StepModel::Start(start@),
            Step::Halt(next) => StepModel::Halt(next@),
        }
    }
}

/// Where the worker for a job comes from.
enum Source<B> {
    Idle(Worker<B>),
    Launch,
}

impl<B> Source<B> {
    spec fn model(self) -> SourceModel<B> {
        match self {
            Source::Idle(worker) => SourceModel::Idle(worker),
            Source::Launch => SourceModel::Launch,
        }
    }
}

/// What to do about a job that failed.
pub enum Failure<F, T> {
    /// Queue the job again, after the delay.
    Retry {
        /// The job to queue.
        retry: Retry<F, T>,
        /// How long to wait before that.
        delay: Nanos,
    },
    /// Give the job up: it was tried again as often as the limit allows.
    GiveUp {
        /// The limit.
        retry_limit: usize,
    },
}

/// What came of a job from the task channel.
pub enum Received<F, T> {
    /// The cluster is closed: the job is dropped, and the channel need not be read any more.
    Closed,
    /// The queue has no room for the job now. It is handed back.
    Full(Accepted<F, T>),
    /// The job is queued, and these jobs are to start.
    Taken(Round<F, T>),
}

/// What came of a job that is to be queued again.
pub enum Requeued<F, T> {
    /// It is too early. The job is handed back, with the time still to wait.
    Early(Retry<F, T>, Nanos),
    /// The queue has no room for the job now. It is handed back.
    Full(Retry<F, T>),
    /// The cluster is closed, and its queue has no room: the job is dropped.
    Dropped,
    /// The job is queued.
    Queued,
}

/// What the monitor of the idle workers has to do.
pub enum Look<B> {
    /// Wait for that long, then look again.
    Wait(Watch, Nanos),
    /// Stop: the cluster is closed.
    Stop,
    /// Close these browsers, fill the idle pool, and report the end of the pass.
    Sweep(Pass, Vec<Retired<B>>),
}

impl<B> Look<B> {
    /// What the monitor has to do.
    pub open spec fn model(self) -> LookModel {
        match self {
            Look::Wait(_, _) => LookModel::Wait,
            Look::Stop => LookModel::Stop,
            Look::Sweep(_, _) => LookModel::Sweep,
        }
    }
}

/// What to do while waiting for all jobs to be done.
pub enum WaitStep {
    /// Stop waiting: there is nothing to wait for.
    Done,
    /// Sleep for that long, then look again.
    Sleep(Nanos),
    /// Stop waiting: the cluster was closed.
    Failed(BrowserError),
}

/// How long to sleep between two looks at whether all jobs are done, and before a job that found no
/// room in the queue comes again.
pub const WAIT_INTERVAL: Nanos = 100_000_000;

/// The browsers of retired workers.
pub open spec fn retired_browsers<B>(retired: Seq<Retired<B>>) -> Seq<Arc<B>> {
    Seq::new(retired.len(), |i: int| retired[i]@)
}

/// The browsers of workers.
pub open spec fn browsers_of<B>(workers: Seq<Worker<B>>) -> Seq<Arc<B>> {
    Seq::new(workers.len(), |i: int| workers[i].browser)
}

/// A pool of browsers and the jobs that wait for them.
#[verifier::reject_recursive_types(F)]
#[verifier::reject_recursive_types(T)]
pub struct Cluster<B, F, T> {
    options: ClusterOptions,
    active_workers: Vec<(usize, Worker<B>)>,
    idle_workers: VecDeque<Worker<B>>,
    job_queue: VecDeque<JobEntry<F, T>>,
    arrivals: Arrival,
    permits: Permits,
    worker_count: usize,
    unfinished: usize,
    accepted: Ghost<nat>,
    retrying: Ghost<Multiset<RetryModel<F, T>>>,
    carried: Ghost<Map<usize, JobEntry<F, T>>>,
    awaiting: Ghost<Set<usize>>,
    filling: Ghost<nat>,
    closing: Ghost<nat>,
    watch: Ghost<WatchModel>,
    is_closed: bool,
}

impl<B, F, T> View for Cluster<B, F, T> {
    type V = ClusterModel<B, F, T>;

    closed spec fn view(&self) -> ClusterModel<B, F, T> {
        ClusterModel {
            options: self.options,
            active: self.active_workers@,
            idle: self.idle_workers@,
            accepted: self.accepted@,
            retrying: self.retrying@,
            queue: self.job_queue@,
            arrivals: self.arrivals,
            held: self.permits@,
            carried: self.carried@,
            unended: self.unfinished as nat,
            worker_count: self.worker_count as nat,
            awaiting: self.awaiting@,
            filling: self.filling@,
            closing: self.closing@,
            watch: self.watch@,
            closed: self.is_closed,
        }
    }
}

impl<B, F, T> Cluster<B, F, T> {
    /// What holds of a cluster at all times.
    pub closed spec fn wf(self) -> bool {
        &&& self@.wf()
        &&& self.permits.wf()
        &&& self.permits.limit() == self.options.concurrency
    }

    /// A sound cluster has a sound model: what is proved of models holds of it.
    pub proof fn lemma_model_is_sound(self)
        requires
            self.wf(),
        ensures
            self@.wf(),
    {
    }

    /// A cluster without workers and without jobs.
    pub fn new(options: ClusterOptions) -> (cluster: Self)
        requires
            options.valid(),
        ensures
            cluster.wf(),
            cluster@ == ClusterModel::<B, F, T>::empty(options),
    {
        Cluster {
            options,
            active_workers: Vec::new(),
            idle_workers: VecDeque::new(),
            job_queue: VecDeque::new(),
            arrivals: 0,
            permits: Permits::new(options.concurrency),
            worker_count: 0,
            unfinished: 0,
            accepted: Ghost(0),
            retrying: Ghost(Multiset::empty()),
            carried: Ghost(Map::empty()),
            awaiting: Ghost(Set::empty()),
            filling: Ghost(0),
            closing: Ghost(0),
            watch: Ghost(WatchModel::Off),
            is_closed: false,
        }
    }

    /// Finds a worker for the job with the permit: the idle worker at the front, or else a browser
    /// to launch if one more may exist. A browser to launch is counted at once.
    fn get_or_create_worker(&mut self, Ghost(permit): Ghost<usize>) -> (source: Result<
        Source<B>,
        BrowserError,
    >)
        requires
            old(self).wf(),
            old(self)@.is_running(permit),
            !old(self)@.is_active(permit),
        ensures
            final(self).wf(),
            final(self)@ == old(self)@.worker_source(permit).0,
            match old(self)@.worker_source(permit).1 {
                Ok(found) => source matches Ok(s) && s.model() == found,
                Err(error) => source matches Err(e) && e@ == error,
            },
    {
        if let Some(worker) = self.idle_workers.pop_front() {
            return Ok(Source::Idle(worker));
        }
        if self.worker_count >= self.options.max_concurrent_browsers {
            return Err(BrowserError::max_browsers());
        }
        self.worker_count = self.worker_count + 1;
        proof {
            self.awaiting@ = self.awaiting@.insert(permit);
        }
        Ok(Source::Launch)
    }

    /// One look at the queue.
    fn step(&mut self) -> (step: Step<F, T>)
        requires
            old(self).wf(),
        ensures
            final(self).wf(),
            final(self)@ == old(self)@.step().0,
            step.model() == old(self)@.step().1,
    {
        if self.is_closed {
            return Step::Halt(Next::Done);
        }
        let ghost before = self@;
        let job = match self.job_queue.pop_front() {
            Some(job) => job,
            None => {
                return Step::Halt(Next::Done);
            },
        };
        let permit: usize = match self.permits.try_acquire() {
            Some(permit) => permit,
            None => {
                self.job_queue.push_front(job);
                assert(self@ =~= before);
                return Step::Halt(Next::Done);
            },
        };
        proof {
            crate::permits::lemma_lowest_free(before.held);
            self.carried@ = self.carried@.insert(permit, job);
            assert(self@ =~= before.taken(permit));
        }
        match self.get_or_create_worker(Ghost(permit)) {
            Ok(Source::Idle(worker)) => {
                self.active_workers.push((permit, worker));
                Step::Start(Start { run: Run { permit }, job })
            },
            Ok(Source::Launch) => Step::Halt(Next::Launch(Launch { permit, job })),
            Err(error) => {
                self.job_queue.push_front(job);
                self.permits.release(permit);
                proof {
                    self.carried@ = self.carried@.remove(permit);
                    assert(self@ =~= before);
                }
                Step::Halt(Next::NoWorker(error))
            },
        }
    }

    /// Starts jobs from the front of the queue for as long as that is possible: until the cluster
    /// is closed, the queue is empty, no permit is left, or no worker is idle. In the last case a
    /// browser is to be launched, if one more may exist. A job that cannot run keeps its place.
    pub fn process_queue(&mut self) -> (round: Round<F, T>)
        requires
            old(self).wf(),
        ensures
            final(self).wf(),
            (final(self)@, round.started(), round.next@) == old(self)@.round(),
            round.open_in(final(self)@),
            round.starts@.len() == old(self)@.round().1.len(),
            forall|i: int|
                0 <= i < round.starts@.len() ==> (#[trigger] round.starts@[i]).job
                    == old(self)@.queue[i],
            round.next matches Next::NoWorker(e) ==> (e matches BrowserError::OperationError(s)
                && s@ == "Max concurrent browsers reached"@),
            round.next matches Next::Launch(launch) ==> launch@.job
                == old(self)@.queue[round.starts@.len() as int],
    {
        let mut starts: Vec<Start<F, T>> = Vec::new();
        let ghost first = self@;
        loop
            invariant
                self.wf(),
                first == old(self)@,
                first.wf(),
                first.round() == ({
                    let (last, rest, next) = self@.round();
                    (last, Seq::new(starts@.len(), |i: int| starts@[i]@) + rest, next)
                }),
            decreases self@.queue.len(),
        {
            let ghost before = self@;
            let ghost sofar = Seq::new(starts@.len(), |i: int| starts@[i]@);
            match self.step() {
                Step::Start(start) => {
                    starts.push(start);
                    proof {
                        let (last, rest, next) = self@.round();
                        assert(Seq::new(starts@.len(), |i: int| starts@[i]@) + rest =~= sofar + (
                        seq![start@] + rest));
                    }
                },
                Step::Halt(next) => {
                    let round = Round { starts, next };
                    proof {
                        assert(round.started() =~= sofar + Seq::<StartModel<F, T>>::empty());
                        crate::laws::law_round_starts_what_it_can(first);
                        assert forall|i: int| 0 <= i < round.starts@.len() implies is_open(
                            self@,
                            #[trigger] round.starts@[i],
                        ) by {
                            crate::laws::law_started_jobs_have_workers(first, i);
                            assert(round.started()[i] == round.starts@[i]@);
                        }
                        crate::laws::law_round_does_what_can_be_done(first);
                        assert forall|i: int| 0 <= i < round.starts@.len() implies (
                        #[trigger] round.starts@[i]).job == first.queue[i] by {
                            assert(round.started()[i] == round.starts@[i]@);
                        }
                    }
                    return round;
                },
            }
        }
    }

    /// Goes on with a round after the launch that it asked for. On success the job starts, and
    /// more may follow. On failure the job goes back to its turn in the queue: behind the jobs that
    /// came before it in first-in-first-out mode, behind those that came after it in
    /// last-in-first-out mode. While there is no room for it, a browser is to be launched for it
    /// again; but a closed cluster drops it.
    pub fn launched(
        &mut self,
        launch: Launch<F, T>,
        result: Result<Worker<B>, BrowserError>,
    ) -> (round: Round<F, T>)
        requires
            old(self).wf(),
            is_awaited(old(self)@, launch),
        ensures
            final(self).wf(),
            (final(self)@, round.started(), round.next@) == old(self)@.launched(
                launch@.permit,
                result,
            ),
            round.open_in(final(self)@),
            result is Ok ==> round.starts@.len() > 0 && round.starts@[0].job == launch@.job
                && round.starts@[0].run@ == launch@.permit,
            result matches Err(error) ==> round.starts@.len() == 0 && match round.next {
                Next::NoWorker(e) => e == error,
                Next::Relaunch(again, e) => e == error && again@ == launch@,
                _ => false,
            },
    {
        let ghost before = self@;
        match result {
            Ok(worker) => {
                let Launch { permit, job } = launch;
                self.active_workers.push((permit, worker));
                proof {
                    self.awaiting@ = self.awaiting@.remove(permit);
                    assert(self@ =~= before.launch_succeeded(permit, worker));
                }
                let mut round = self.process_queue();
                let start = Start { run: Run { permit }, job };
                let ghost rest = round.started();
                let ghost starts = round.starts@;
                round.starts.insert(0, start);
                proof {
                    assert(round.started() =~= seq![start@] + rest);
                    crate::laws::law_launch_serves_its_job(before, permit, result);
                    assert forall|i: int| 0 <= i < round.starts@.len() implies is_open(
                        self@,
                        #[trigger] round.starts@[i],
                    ) by {
                        assert(round.started()[i] == round.starts@[i]@);
                        if i > 0 {
                            assert(round.starts@[i] == starts[i - 1]);
                        }
                    }
                }
                round
            },
            Err(error) => {
                let room = self.has_room();
                if !room && !self.is_closed {
                    let round = Round { starts: Vec::new(), next: Next::Relaunch(launch, error) };
                    assert(round.started() =~= seq![]);
                    return round;
                }
                let Launch { permit, job } = launch;
                proof {
                    crate::laws::lemma_launch_ended(before, permit);
                }
                if room {
                    self.put_back(job);
                } else {
                    self.unfinished = self.unfinished - 1;
                }
                self.worker_count = self.worker_count - 1;
                self.permits.release(permit);
                proof {
                    self.awaiting@ = self.awaiting@.remove(permit);
                    self.carried@ = self.carried@.remove(permit);
                    assert(self@ =~= before.launched(permit, result).0);
                }
                let round = Round { starts: Vec::new(), next: Next::NoWorker(error) };
                assert(round.started() =~= seq![]);
                round
            },
        }
    }

    /// Puts a job that was taken from the queue back in its turn.
    fn put_back(&mut self, job: JobEntry<F, T>)
        ensures
            final(self)@ == (ClusterModel { queue: old(self)@.with_back(job), ..old(self)@ }),
            final(self).permits == old(self).permits,
    {
        let mode = self.options.queue_mode;
        let mut turn: usize = 0;
        while turn < self.job_queue.len() && mode.runs_before(
            self.job_queue[turn].arrival,
            job.arrival,
        )
            invariant
                mode == self@.options.queue_mode,
                self@ == old(self)@,
                self.permits == old(self).permits,
                turn <= self@.queue.len(),
                forall|i: int|
                    0 <= i < turn ==> mode.precedes(
                        (#[trigger] self@.queue[i]).arrival,
                        job.arrival,
                    ),
            decreases self@.queue.len() - turn,
        {
            turn = turn + 1;
        }
        proof {
            let queue = self@.queue;
            let least = crate::model::turn_of(mode, queue, job);
            crate::model::lemma_turn(mode, queue, job);
            assert(turn == least) by {
                if least < turn {
                    assert(mode.precedes(queue[least as int].arrival, job.arrival));
                } else if turn < least {
                    assert(mode.precedes(queue[turn as int].arrival, job.arrival));
                }
            }
        }
        self.job_queue.insert(turn, job);
    }

    /// Accepts or refuses a new job. A job that is accepted is handed back for the task channel,
    /// and from now on counts as not ended. A closed cluster refuses every job; an open one
    /// refuses a job while the queue is full.
    pub fn execute(&mut self, task: Arc<F>, data: T) -> (answer: Result<
        Accepted<F, T>,
        BrowserError,
    >)
        requires
            old(self).wf(),
            old(self)@.refusal() is None ==> old(self)@.unended < usize::MAX,
        ensures
            final(self).wf(),
            match old(self)@.refusal() {
                Some(error) => {
                    &&& answer matches Err(e)
                    &&& e@ == error
                    &&& final(self)@ == old(self)@
                },
                None => {
                    &&& answer matches Ok(accepted)
                    &&& accepted@ == JobEntry::fresh(task, data)
                    &&& final(self)@ == old(self)@.accepting()
                },
            },
            answer is Ok <==> !old(self)@.closed && match old(self)@.options.max_queue_size {
                Some(most) => old(self)@.queue.len() < most,
                None => true,
            },
            answer matches Ok(accepted) ==> {
                &&& accepted@.task == task
                &&& accepted@.data == data
                &&& accepted@.retries == 0
                &&& final(self)@.unended == old(self)@.unended + 1
                &&& final(self)@.accepted == old(self)@.accepted + 1
            },
            answer matches Err(e) ==> {
                &&& final(self)@ == old(self)@
                &&& if old(self)@.closed {
                    e matches BrowserError::OperationError(s) && s@ == "Cluster is closed"@
                } else {
                    e is QueueFullError
                }
            },
    {
        if self.is_closed {
            return Err(BrowserError::cluster_closed());
        }
        if !self.has_room() {
            return Err(BrowserError::QueueFullError);
        }
        self.unfinished = self.unfinished + 1;
        proof {
            self.accepted@ = self.accepted@ + 1;
        }
        Ok(Accepted { job: JobEntry::new(task, data) })
    }

    /// The answer to a job that was accepted, given what came of the task channel. A job that the
    /// channel did not take is handed back and comes to nothing.
    pub fn sent(&mut self, outcome: Result<(), Accepted<F, T>>) -> (answer: Result<
        (),
        BrowserError,
    >)
        requires
            old(self).wf(),
            outcome is Err ==> old(self)@.accepted > 0,
        ensures
            final(self).wf(),
            match outcome {
                Ok(_) => answer is Ok && final(self)@ == old(self)@,
                Err(_) => {
                    &&& answer matches Err(e)
                    &&& e@ == ErrorModel::send_failed()
                    &&& e matches BrowserError::OperationError(s)
                    &&& s@ == "Failed to send task"@
                    &&& final(self)@ == old(self)@.withdrawn()
                },
            },
    {
        match outcome {
            Ok(_) => Ok(()),
            Err(_) => {
                self.withdraw();
                Err(BrowserError::send_failed())
            },
        }
    }

    /// A job that was accepted comes to nothing.
    fn withdraw(&mut self)
        requires
            old(self).wf(),
            old(self)@.accepted > 0,
        ensures
            final(self).wf(),
            final(self)@ == old(self)@.withdrawn(),
    {
        self.unfinished = self.unfinished - 1;
        proof {
            self.accepted@ = (self.accepted@ - 1) as nat;
        }
    }

    /// Whether the queue has room for one more job.
    fn has_room(&self) -> (room: bool)
        ensures
            room == self@.has_room(),
    {
        match self.options.max_queue_size {
            Some(most) => self.job_queue.len() < most,
            None => true,
        }
    }

    /// Puts a job into the queue under the next number: at the back in first-in-first-out mode, at
    /// the front in last-in-first-out mode.
    fn enqueue(&mut self, job: JobEntry<F, T>)
        requires
            old(self)@.has_number(),
        ensures
            final(self)@ == old(self)@.enqueued(job),
            final(self).permits == old(self).permits,
    {
        let numbered = JobEntry { arrival: self.arrivals, ..job };
        self.arrivals = self.arrivals + 1;
        match self.options.queue_mode {
            QueueMode::FIFO => self.job_queue.push_back(numbered),
            QueueMode::LIFO => self.job_queue.push_front(numbered),
        }
    }

    /// Takes a job from the task channel, and starts what can be started. A closed cluster drops
    /// the job. While the queue has no room the job is handed back.
    pub fn receive(&mut self, accepted: Accepted<F, T>) -> (received: Received<F, T>)
        requires
            old(self).wf(),
            old(self)@.accepted > 0,
            accepted@.retries == 0,
            !old(self)@.closed && old(self)@.has_room() ==> old(self)@.has_number(),
        ensures
            final(self).wf(),
            received is Closed <==> old(self)@.closed,
            received is Full <==> !old(self)@.closed && !old(self)@.has_room(),
            final(self)@ == old(self)@.received(accepted@).0,
            match received {
                Received::Closed => true,
                Received::Full(back) => back@ == accepted@,
                Received::Taken(r) => {
                    &&& (final(self)@, r.started(), r.next@) == old(self)@.received(accepted@)
                    &&& r.open_in(final(self)@)
                },
            },
            received is Taken <==> !old(self)@.closed && match old(self)@.options.max_queue_size {
                Some(most) => old(self)@.queue.len() < most,
                None => true,
            },
    {
        if self.is_closed {
            self.withdraw();
            return Received::Closed;
        }
        if !self.has_room() {
            return Received::Full(accepted);
        }
        let ghost before = self@;
        self.enqueue(accepted.job);
        proof {
            self.accepted@ = (self.accepted@ - 1) as nat;
            assert(self@ =~= before.arrived(accepted@));
            crate::laws::lemma_enqueued(before, accepted@);
        }
        Received::Taken(self.process_queue())
    }

    /// The browser that runs the job, or `None` if the cluster was closed since the job started.
    pub fn browser(&self, run: &Run) -> (browser: Option<&Arc<B>>)
        requires
            self.wf(),
        ensures
            browser is Some <==> self@.is_active(run@),
            browser matches Some(b) ==> *b == self@.worker_of(run@).browser,
            forall|i: int|
                0 <= i < self@.active.len() && (#[trigger] self@.active[i]).0 == run@
                    ==> browser == Some(&self@.active[i].1.browser),
            (forall|i: int|
                0 <= i < self@.active.len() ==> (#[trigger] self@.active[i]).0 != run@)
                ==> browser is None,
    {
        match self.find(run.permit) {
            Some(i) => Some(&self.active_workers[i].1.browser),
            None => None,
        }
    }

    /// The place of the worker that is active under the permit.
    fn find(&self, permit: usize) -> (place: Option<usize>)
        requires
            self.wf(),
        ensures
            place is Some <==> self@.is_active(permit),
            place matches Some(i) ==> i < self@.active.len() && i == self@.place(permit),
    {
        let mut i: usize = 0;
        while i < self.active_workers.len()
            invariant
                self.wf(),
                i <= self@.active.len(),
                forall|j: int| 0 <= j < i ==> (#[trigger] self@.active[j]).0 != permit,
            decreases self@.active.len() - i,
        {
            if self.active_workers[i].0 == permit {
                assert(self@.active[i as int].0 == permit);
                return Some(i);
            }
            i = i + 1;
        }
        None
    }

    /// Takes back the worker of a job that is over, whatever came of the job. The worker goes to
    /// the back of the idle pool; or it is retired, if it has outlived the limits by now; or there
    /// is none, if the cluster was closed meanwhile.
    pub fn finish_run(&mut self, tried: Tried, finished_at: Nanos, now: Nanos) -> (over: (
        Spent,
        Option<Retired<B>>,
    ))
        requires
            old(self).wf(),
            old(self)@.held.contains(tried@.permit),
            !old(self)@.awaiting.contains(tried@.permit),
        ensures
            final(self).wf(),
            final(self)@ == old(self)@.finished(tried@.permit, finished_at, now),
            !final(self)@.is_active(tried@.permit),
            over.0@ == tried@,
            match old(self)@.replaced_browser(tried@.permit, finished_at, now) {
                Some(browser) => over.1 matches Some(retired) && retired@ == browser,
                None => over.1 is None,
            },
            forall|i: int|
                0 <= i < old(self)@.active.len() && (#[trigger] old(self)@.active[i]).0
                    == tried@.permit ==> {
                    let worker = old(self)@.active[i].1;
                    let outlived = {
                        ||| old(self)@.options.max_browser_lifetime matches Some(most) && now
                            > worker.created_at + most
                        ||| old(self)@.options.idle_timeout matches Some(most) && now > finished_at
                            + most
                    };
                    &&& over.1 is Some <==> outlived
                    &&& over.1 matches Some(retired) ==> retired@ == worker.browser
                        && final(self)@.idle == old(self)@.idle
                    &&& over.1 is None ==> final(self)@.idle == old(self)@.idle.push(
                        Worker {
                            browser: worker.browser,
                            created_at: worker.created_at,
                            last_used: finished_at,
                        },
                    )
                },
            (forall|i: int|
                0 <= i < old(self)@.active.len() ==> (#[trigger] old(self)@.active[i]).0
                    != tried@.permit) ==> over.1 is None && final(self)@ == old(self)@,
    {
        let ghost before = self@;
        let permit: usize = tried.permit;
        let spent = Spent { permit, ends: tried.ends };
        match self.find(permit) {
            None => (spent, None),
            Some(i) => {
                let (_, mut worker) = self.active_workers.remove(i);
                worker.last_used = finished_at;
                let limits = self.options.worker_options();
                if worker.should_replace_at(&limits, now) {
                    proof {
                        self.closing@ = self.closing@ + 1;
                        assert(self@ =~= before.finished(permit, finished_at, now));
                    }
                    (spent, Some(Retired { browser: worker.browser }))
                } else {
                    self.idle_workers.push_back(worker);
                    assert(self@ =~= before.finished(permit, finished_at, now));
                    (spent, None)
                }
            },
        }
    }

    /// Gives back the permit of a job that is over, and starts jobs that wait. Unless the job is
    /// to be tried again, it has ended now.
    pub fn conclude_run(&mut self, spent: Spent) -> (round: Round<F, T>)
        requires
            old(self).wf(),
            old(self)@.held.contains(spent@.permit),
            !old(self)@.is_active(spent@.permit),
            !old(self)@.awaiting.contains(spent@.permit),
            spent@.ends == old(self)@.carried.contains_key(spent@.permit),
        ensures
            final(self).wf(),
            (final(self)@, round.started(), round.next@) == old(self)@.concluded(spent@.permit),
            round.open_in(final(self)@),
    {
        let ghost before = self@;
        let permit: usize = spent.permit;
        self.permits.release(permit);
        if spent.ends {
            self.unfinished = self.unfinished - 1;
        }
        proof {
            self.carried@ = self.carried@.remove(permit);
            assert(self@ =~= before.released(permit));
            crate::laws::lemma_released(before, permit);
        }
        self.process_queue()
    }

    /// Decides about a job that failed at the given moment. It is to be queued again, after the
    /// delay, unless it was tried again as often as the limit allows.
    pub fn after_failure(&mut self, run: Run, job: JobEntry<F, T>, failed_at: Nanos) -> (outcome: (
        Tried,
        Failure<F, T>,
    ))
        requires
            old(self).wf(),
            old(self)@.is_running(run@),
            old(self)@.carried[run@] == job,
        ensures
            final(self).wf(),
            final(self)@ == old(self)@.failed(run@, failed_at),
            outcome.0@.permit == run@,
            outcome.0@.ends == final(self)@.carried.contains_key(run@),
            match old(self)@.retry_after(run@, failed_at) {
                Some(again) => {
                    &&& outcome.1 matches Failure::Retry { retry, delay }
                    &&& retry@ == again
                    &&& delay == old(self)@.options.retry_delay
                    &&& final(self)@.retrying.contains(again)
                },
                None => outcome.1 == (Failure::<F, T>::GiveUp {
                    retry_limit: old(self)@.options.retry_limit,
                }),
            },
            outcome.1 is Retry <==> job.retries < old(self)@.options.retry_limit,
            outcome.0@.ends <==> job.retries >= old(self)@.options.retry_limit,
            outcome.1 matches Failure::Retry { retry, delay } ==> {
                &&& retry@.job.task == job.task
                &&& retry@.job.data == job.data
                &&& retry@.job.retries == job.retries + 1
                &&& retry@.failed_at == failed_at
                &&& delay == old(self)@.options.retry_delay
            },
            outcome.1 matches Failure::GiveUp { retry_limit } ==> retry_limit
                == old(self)@.options.retry_limit && final(self)@ == old(self)@,
    {
        let ghost before = self@;
        let permit: usize = run.permit;
        match job.retry(self.options.retry_limit) {
            Some(again) => {
                let retry = Retry { job: again, failed_at };
                proof {
                    self.retrying@ = self.retrying@.insert(retry@);
                    self.carried@ = self.carried@.remove(permit);
                    assert(self@ =~= before.failed(permit, failed_at));
                }
                (
                    Tried { permit, ends: false },
                    Failure::Retry { retry, delay: self.options.retry_delay },
                )
            },
            None => (
                Tried { permit, ends: true },
                Failure::GiveUp { retry_limit: self.options.retry_limit },
            ),
        }
    }

    /// Queues a job that failed again. While the delay has not passed since the failure, or the
    /// queue has no room, the job is handed back; but a closed cluster whose queue has no room
    /// drops it.
    pub fn requeue(&mut self, retry: Retry<F, T>, now: Nanos) -> (requeued: Requeued<F, T>)
        requires
            old(self).wf(),
            old(self)@.retrying.contains(retry@),
            old(self)@.retry_is_due(retry@, now) && old(self)@.has_room()
                ==> old(self)@.has_number(),
        ensures
            final(self).wf(),
            requeued is Early <==> !old(self)@.retry_is_due(retry@, now),
            requeued is Queued <==> old(self)@.retry_is_due(retry@, now) && old(self)@.has_room(),
            requeued is Dropped <==> old(self)@.retry_is_due(retry@, now) && !old(
                self,
            )@.has_room() && old(self)@.closed,
            final(self)@ == old(self)@.requeued(retry@, now),
            match requeued {
                Requeued::Early(back, rest) => {
                    &&& back@ == retry@
                    &&& rest + crate::clock::elapsed(retry@.failed_at, now)
                        == old(self)@.options.retry_delay
                },
                Requeued::Full(back) => back@ == retry@,
                Requeued::Queued => {
                    let job = JobEntry {
                        task: retry@.job.task,
                        data: retry@.job.data,
                        retries: retry@.job.retries,
                        arrival: old(self)@.arrivals,
                    };
                    final(self)@.queue == match old(self)@.options.queue_mode {
                        QueueMode::FIFO => old(self)@.queue.push(job),
                        QueueMode::LIFO => seq![job] + old(self)@.queue,
                    }
                },
                Requeued::Dropped => final(self)@.queue == old(self)@.queue,
            },
            requeued is Early <==> old(self)@.options.retry_delay > 0 && now < retry@.failed_at
                + old(self)@.options.retry_delay,
            requeued matches Requeued::Early(_, rest) ==> rest == if now >= retry@.failed_at {
                old(self)@.options.retry_delay - (now - retry@.failed_at)
            } else {
                old(self)@.options.retry_delay as int
            },
            requeued is Full ==> !old(self)@.closed && (old(self)@.options.max_queue_size matches Some(most)
                && old(self)@.queue.len() >= most),
            requeued is Dropped ==> old(self)@.closed && (old(self)@.options.max_queue_size matches Some(most)
                && old(self)@.queue.len() >= most),
    {
        if let Some(rest) = remaining(self.options.retry_delay, retry.failed_at, now) {
            return Requeued::Early(retry, rest);
        }
        let ghost before = self@;
        proof {
            crate::laws::lemma_returned(before, retry@);
        }
        if !self.has_room() {
            if !self.is_closed {
                return Requeued::Full(retry);
            }
            self.unfinished = self.unfinished - 1;
            proof {
                self.retrying@ = self.retrying@.remove(retry@);
                assert(self@ =~= before.forgotten(retry@));
            }
            return Requeued::Dropped;
        }
        self.enqueue(retry.job);
        proof {
            self.retrying@ = self.retrying@.remove(retry@);
            assert(self@ =~= before.returned(retry@));
        }
        Requeued::Queued
    }

    /// Finds out how many browsers the idle pool lacks, as far as more may exist, and counts them
    /// at once. They are to be launched, and the results reported to
    /// [`Cluster::add_idle_browsers`].
    pub fn ensure_min_idle_browsers(&mut self) -> (fill: Fill)
        requires
            old(self).wf(),
        ensures
            final(self).wf(),
            final(self)@ == old(self)@.filling(),
            fill@ == old(self)@.missing_idle(),
            // As many as are lacking or as may still exist, whichever is less.
            fill@ + old(self)@.idle.len() <= old(self)@.options.min_idle_browsers || fill@ == 0,
            fill@ + old(self)@.worker_count <= old(self)@.options.max_concurrent_browsers,
            fill@ + old(self)@.idle.len() >= old(self)@.options.min_idle_browsers || fill@
                + old(self)@.worker_count == old(self)@.options.max_concurrent_browsers,
            final(self)@.worker_count == old(self)@.worker_count + fill@,
    {
        let lacking: usize = self.options.min_idle_browsers.saturating_sub(self.idle_workers.len());
        let room: usize = self.options.max_concurrent_browsers - self.worker_count;
        let count: usize = if lacking <= room {
            lacking
        } else {
            room
        };
        self.worker_count = self.worker_count + count;
        proof {
            self.filling@ = self.filling@ + count as nat;
        }
        Fill { count }
    }

    /// Takes in the results of the launches for the idle pool. The workers before the first error
    /// are idle now, in order, and jobs that wait are started on them. The first error is returned;
    /// it takes one browser off the count, and the results after it are dropped and stay counted.
    pub fn add_idle_browsers(
        &mut self,
        fill: Fill,
        results: Vec<Result<Worker<B>, BrowserError>>,
    ) -> (added: (Result<(), BrowserError>, Round<F, T>))
        requires
            old(self).wf(),
            fill@ <= old(self)@.filling,
            results@.len() == fill@,
        ensures
            final(self).wf(),
            (final(self)@, added.1.started(), added.1.next@) == old(self)@.filled(results@).round(),
            added.1.open_in(final(self)@),
            added.0 is Ok <==> forall|i: int|
                0 <= i < results@.len() ==> (#[trigger] results@[i]) is Ok,
            added.0 matches Err(e) ==> results@[crate::model::leading(results@) as int] == Err::<
                Worker<B>,
                BrowserError,
            >(e),
            added.0 matches Err(e) ==> forall|k: int|
                0 <= k < results@.len() && (#[trigger] results@[k]) is Err && (forall|i: int|
                    0 <= i < k ==> (#[trigger] results@[i]) is Ok) ==> results@[k]->Err_0 == e,
    {
        proof {
            crate::model::lemma_leading(results@);
        }
        let outcome = self.take_in(results);
        (outcome, self.process_queue())
    }

    /// Takes in the results of the launches for the idle pool.
    fn take_in(&mut self, results: Vec<Result<Worker<B>, BrowserError>>) -> (outcome: Result<
        (),
        BrowserError,
    >)
        requires
            old(self).wf(),
            results@.len() <= old(self)@.filling,
        ensures
            final(self).wf(),
            final(self)@ == old(self)@.filled(results@),
            outcome is Ok <==> forall|i: int|
                0 <= i < results@.len() ==> (#[trigger] results@[i]) is Ok,
            outcome matches Err(e) ==> results@[crate::model::leading(results@) as int] == Err::<
                Worker<B>,
                BrowserError,
            >(e),
    {
        let ghost before = self@;
        let ghost all = results@;
        let mut rest = results;
        let mut done: usize = 0;
        proof {
            crate::model::lemma_leading(all);
        }
        while rest.len() > 0
            invariant
                done <= all.len(),
                rest@ == all.skip(done as int),
                forall|i: int| 0 <= i < done ==> (#[trigger] all[i]) is Ok,
                self.permits == old(self).permits,
                self@ == (ClusterModel {
                    idle: before.idle + Seq::new(done as nat, |i: int| all[i]->Ok_0),
                    ..before
                }),
                before == old(self)@,
                old(self).wf(),
                all.len() <= before.filling,
                all == results@,
                crate::model::leading(all) <= all.len(),
                forall|i: int|
                    0 <= i < crate::model::leading(all) ==> (#[trigger] all[i]) is Ok,
                crate::model::leading(all) < all.len() ==> all[crate::model::leading(
                    all,
                ) as int] is Err,
            decreases rest@.len(),
        {
            match rest.remove(0) {
                Ok(worker) => {
                    let ghost idle = self@.idle;
                    self.idle_workers.push_back(worker);
                    proof {
                        assert(all[done as int] == Ok::<Worker<B>, BrowserError>(worker));
                        assert(before.idle + Seq::new((done + 1) as nat, |i: int| all[i]->Ok_0)
                            =~= idle.push(worker));
                    }
                    done = done + 1;
                },
                Err(error) => {
                    self.worker_count = self.worker_count - 1;
                    proof {
                        assert(all[done as int] is Err);
                        assert(crate::model::leading(all) == done);
                        self.filling@ = (self.filling@ - all.len()) as nat;
                        assert(self@ =~= before.filled(all));
                    }
                    return Err(error);
                },
            }
        }
        proof {
            assert(crate::model::leading(all) == done);
            self.filling@ = (self.filling@ - all.len()) as nat;
            assert(self@ =~= before.filled(all));
        }
        Ok(())
    }

    /// Takes a retired browser that is closed now off the count, and starts jobs that wait: one
    /// more browser may exist.
    pub fn worker_closed(&mut self, retired: Retired<B>) -> (round: Round<F, T>)
        requires
            old(self).wf(),
            old(self)@.closing > 0,
        ensures
            final(self).wf(),
            (final(self)@, round.started(), round.next@) == old(self)@.browser_closed().round(),
            round.open_in(final(self)@),
    {
        self.uncount();
        self.process_queue()
    }

    /// Takes a browser that was being closed off the count.
    fn uncount(&mut self)
        requires
            old(self).wf(),
            old(self)@.closing > 0,
        ensures
            final(self).wf(),
            final(self)@ == old(self)@.browser_closed(),
    {
        self.worker_count = self.worker_count - 1;
        proof {
            self.closing@ = (self.closing@ - 1) as nat;
        }
    }

    /// Takes a retired browser that is closed now off the count, and unless the cluster is closed,
    /// asks for what the idle pool lacks. The round that follows when the job gives back its permit
    /// makes use of what is left.
    pub fn worker_replaced(&mut self, retired: Retired<B>) -> (fill: Fill)
        requires
            old(self).wf(),
            old(self)@.closing > 0,
        ensures
            final(self).wf(),
            final(self)@ == old(self)@.replaced(),
            fill@ == if old(self)@.closed {
                0
            } else {
                old(self)@.browser_closed().missing_idle()
            },
    {
        self.uncount();
        if self.is_closed {
            Fill { count: 0 }
        } else {
            self.ensure_min_idle_browsers()
        }
    }

    /// The monitor begins to wait at the given moment. A monitor that was begun before is replaced.
    pub fn start_monitor(&mut self, now: Nanos) -> (watch: Watch)
        requires
            old(self).wf(),
        ensures
            final(self).wf(),
            final(self)@ == old(self)@.watching(now),
            watch@ == now,
    {
        proof {
            self.watch@ = WatchModel::Since(now);
        }
        Watch { since: now }
    }

    /// A pass of the monitor is over at the given moment, and it begins to wait again. Jobs that
    /// could make use of what the pass freed were handed out as it was freed, by
    /// [`Cluster::worker_closed`] and [`Cluster::add_idle_browsers`].
    pub fn end_pass(&mut self, pass: Pass, now: Nanos) -> (watch: Watch)
        requires
            old(self).wf(),
            old(self)@.watch == WatchModel::Pass,
        ensures
            final(self).wf(),
            final(self)@ == old(self)@.watching(now),
            watch@ == now,
    {
        proof {
            self.watch@ = WatchModel::Since(now);
        }
        Watch { since: now }
    }

    /// The monitor looks at the time. It waits until the interval has passed. Then it stops, if the
    /// cluster is closed; or else it begins a pass and retires the idle workers that have outlived
    /// the limits.
    pub fn monitor(&mut self, watch: Watch, now: Nanos) -> (look: Look<B>)
        requires
            old(self).wf(),
            old(self)@.watch == WatchModel::Since(watch@),
        ensures
            final(self).wf(),
            final(self)@ == old(self)@.monitored(watch@, now),
            look.model() == old(self)@.look(watch@, now),
            match look {
                Look::Wait(back, rest) => {
                    &&& back@ == watch@
                    &&& rest + crate::clock::elapsed(watch@, now)
                        == old(self)@.options.monitor_interval
                },
                Look::Stop => true,
                Look::Sweep(_, list) => retired_browsers(list@) == browsers_of(
                    old(self)@.outlived_idle(now),
                ),
            },
            look is Wait <==> old(self)@.options.monitor_interval > 0 && now < watch@ + old(
                self,
            )@.options.monitor_interval,
            look is Stop <==> look !is Wait && old(self)@.closed,
            look matches Look::Wait(_, rest) ==> rest == if now >= watch@ {
                old(self)@.options.monitor_interval - (now - watch@)
            } else {
                old(self)@.options.monitor_interval as int
            },
            look matches Look::Sweep(_, list) ==> {
                let gone = old(self)@.outlived_idle(now);
                &&& list@.len() == gone.len()
                &&& forall|i: int| 0 <= i < gone.len() ==> #[trigger] list@[i]@ == gone[i].browser
            },
    {
        if let Some(rest) = remaining(self.options.monitor_interval, watch.since, now) {
            return Look::Wait(watch, rest);
        }
        if self.is_closed {
            proof {
                self.watch@ = WatchModel::Off;
            }
            return Look::Stop;
        }
        let ghost before = self@;
        let retired = self.sweep(now);
        proof {
            let gone = before.outlived_idle(now);
            assert(retired_browsers(retired@).len() == retired@.len());
            assert(browsers_of(gone).len() == gone.len());
            assert forall|i: int| 0 <= i < gone.len() implies #[trigger] retired@[i]@
                == gone[i].browser by {
                assert(retired_browsers(retired@)[i] == browsers_of(gone)[i]);
            }
            self.watch@ = WatchModel::Pass;
        }
        Look::Sweep(Pass {}, retired)
    }

    /// Retires the idle workers that have outlived the limits.
    fn sweep(&mut self, now: Nanos) -> (retired: Vec<Retired<B>>)
        requires
            old(self).wf(),
        ensures
            final(self).wf(),
            final(self)@ == old(self)@.swept(now),
            retired_browsers(retired@) == browsers_of(old(self)@.outlived_idle(now)),
    {
        let limits = self.options.worker_options();
        let mut retired: Vec<Retired<B>> = Vec::new();
        let ghost before = self@;
        let ghost mut seen: int = 0;
        let mut i: usize = 0;
        proof {
            assert(before.idle.take(0) =~= seq![]);
        }
        while i < self.idle_workers.len()
            invariant
                before == old(self)@,
                old(self).wf(),
                limits == before.options.worker_limits(),
                self.permits == old(self).permits,
                0 <= seen <= before.idle.len(),
                i == before.idle.take(seen).filter(before.within_limits(now)).len(),
                self@ == (ClusterModel {
                    idle: before.idle.take(seen).filter(before.within_limits(now))
                        + before.idle.skip(seen),
                    closing: before.closing + before.idle.take(seen).filter(
                        before.outlived(now),
                    ).len(),
                    ..before
                }),
                retired_browsers(retired@) == browsers_of(
                    before.idle.take(seen).filter(before.outlived(now)),
                ),
                before.idle.take(seen).filter(before.within_limits(now)).len()
                    + before.idle.take(seen).filter(before.outlived(now)).len() == seen,
            decreases before.idle.len() - seen,
        {
            let ghost kept = before.idle.take(seen).filter(before.within_limits(now));
            let ghost gone = before.idle.take(seen).filter(before.outlived(now));
            let ghost worker = before.idle[seen];
            let ghost list = retired@;
            proof {
                assert(self@.idle[i as int] == worker);
                assert(before.idle.take(seen + 1).drop_last() =~= before.idle.take(seen));
                assert(before.idle.take(seen + 1).last() == worker);
                reveal(Seq::filter);
            }
            if self.idle_workers[i].should_replace_at(&limits, now) {
                if let Some(old_worker) = self.idle_workers.remove(i) {
                    retired.push(Retired { browser: old_worker.browser });
                }
                proof {
                    self.closing@ = self.closing@ + 1;
                    assert((kept + before.idle.skip(seen)).remove(i as int) =~= kept
                        + before.idle.skip(seen + 1));
                    let now_gone = browsers_of(gone.push(worker));
                    assert(list.len() == retired_browsers(list).len() == browsers_of(gone).len());
                    assert forall|j: int| 0 <= j < retired@.len() implies #[trigger]
                        retired_browsers(retired@)[j] == now_gone[j] by {
                        if j < list.len() {
                            assert(retired_browsers(list)[j] == browsers_of(gone)[j]);
                        }
                    }
                    assert(retired_browsers(retired@) =~= now_gone);
                }
            } else {
                proof {
                    assert(kept + before.idle.skip(seen) =~= kept.push(worker)
                        + before.idle.skip(seen + 1));
                }
                i = i + 1;
            }
            proof {
                seen = seen + 1;
            }
        }
        proof {
            assert(before.idle.take(seen) =~= before.idle);
            assert(self@ =~= before.swept(now));
        }
        retired
    }

    /// How many jobs wait.
    pub fn queue_size(&self) -> (size: usize)
        ensures
            size == self@.queue.len(),
    {
        self.job_queue.len()
    }

    /// How many jobs were accepted and have not ended.
    pub fn unfinished_size(&self) -> (size: usize)
        ensures
            size == self@.unended,
    {
        self.unfinished
    }

    /// How many jobs have entered the queue, those that entered it again included.
    pub fn arrivals(&self) -> (count: Arrival)
        ensures
            count == self@.arrivals,
    {
        self.arrivals
    }

    /// How many workers are idle.
    pub fn idle_size(&self) -> (size: usize)
        ensures
            size == self@.idle.len(),
    {
        self.idle_workers.len()
    }

    /// How many workers run a job.
    pub fn active_size(&self) -> (size: usize)
        ensures
            size == self@.active.len(),
    {
        self.active_workers.len()
    }

    /// Whether the cluster was closed.
    pub fn is_closed(&self) -> (closed: bool)
        ensures
            closed == self@.closed,
    {
        self.is_closed
    }

    /// How many browsers the cluster counts.
    pub fn worker_count(&self) -> (count: usize)
        ensures
            count == self@.worker_count,
    {
        self.worker_count
    }

    /// Closes the cluster and hands over the browsers of the active workers to close, in order.
    /// Those of the idle workers are handed over by [`Cluster::drain_idle`].
    pub fn close(&mut self) -> (browsers: Vec<Arc<B>>)
        requires
            old(self).wf(),
        ensures
            final(self).wf(),
            final(self)@ == old(self)@.shut_down(),
            browsers@ == old(self)@.active_browsers(),
            browsers@.len() == old(self)@.active.len(),
            forall|i: int|
                0 <= i < browsers@.len() ==> #[trigger] browsers@[i]
                    == old(self)@.active[i].1.browser,
            final(self)@.active.len() == 0,
            final(self)@.closed,
    {
        let ghost before = self@;
        self.is_closed = true;
        let mut active: Vec<Arc<B>> = Vec::new();
        while self.active_workers.len() > 0
            invariant
                self.wf(),
                self@.closed,
                active@.len() + self@.active.len() == before.active.len(),
                forall|i: int|
                    0 <= i < active@.len() ==> #[trigger] active@[i]
                        == before.active[i].1.browser,
                self@ == (ClusterModel {
                    active: before.active.skip(active@.len() as int),
                    closed: true,
                    ..before
                }),
            decreases self@.active.len(),
        {
            let (_, worker) = self.active_workers.remove(0);
            active.push(worker.browser);
            assert(self@.active =~= before.active.skip(active@.len() as int));
        }
        proof {
            assert(active@ =~= before.active_browsers());
            assert(self@ =~= before.shut_down());
        }
        active
    }

    /// Hands over the browsers of the idle workers to close, in order.
    pub fn drain_idle(&mut self) -> (browsers: Vec<Arc<B>>)
        requires
            old(self).wf(),
        ensures
            final(self).wf(),
            final(self)@ == old(self)@.drained(),
            browsers@ == old(self)@.idle_browsers(),
            browsers@.len() == old(self)@.idle.len(),
            forall|i: int|
                0 <= i < browsers@.len() ==> #[trigger] browsers@[i] == old(self)@.idle[i].browser,
            final(self)@.idle.len() == 0,
    {
        let ghost before = self@;
        let mut idle: Vec<Arc<B>> = Vec::new();
        while self.idle_workers.len() > 0
            invariant
                self.wf(),
                idle@.len() + self@.idle.len() == before.idle.len(),
                forall|i: int|
                    0 <= i < idle@.len() ==> #[trigger] idle@[i] == before.idle[i].browser,
                self@ == (ClusterModel { idle: before.idle.skip(idle@.len() as int), ..before }),
            decreases self@.idle.len(),
        {
            if let Some(worker) = self.idle_workers.pop_front() {
                idle.push(worker.browser);
            }
            assert(self@.idle =~= before.idle.skip(idle@.len() as int));
        }
        proof {
            assert(idle@ =~= before.idle_browsers());
            assert(self@ =~= before.drained());
        }
        idle
    }

    /// Decides what to do while waiting for all jobs to be done. The wait is over when no job is in
    /// the queue, no worker is active and, unless the cluster was closed, every job that was
    /// accepted has ended. After a sleep, a closed cluster ends the wait with an error.
    pub fn wait_for_all(&self, slept: bool) -> (step: WaitStep)
        ensures
            if slept && self@.closed {
                step matches WaitStep::Failed(e) && e@ == ErrorModel::cluster_closed()
            } else if self@.all_done() {
                step is Done
            } else {
                step == WaitStep::Sleep(WAIT_INTERVAL)
            },
            step is Done && !self@.closed ==> self@.unended == 0 && self@.queue.len() == 0
                && self@.active.len() == 0,
            step is Failed ==> self@.closed,
            match step {
                WaitStep::Done => self@.queue.len() == 0 && self@.active.len() == 0 && !(slept
                    && self@.closed) && (self@.closed || self@.unended == 0),
                WaitStep::Sleep(interval) => interval == 100_000_000 && !(slept && self@.closed)
                    && (self@.queue.len() > 0 || self@.active.len() > 0 || (!self@.closed
                    && self@.unended > 0)),
                WaitStep::Failed(e) => slept && self@.closed && (
                e matches BrowserError::OperationError(s) && s@ == "Cluster is closed"@),
            },
    {
        if slept && self.is_closed {
            return WaitStep::Failed(BrowserError::cluster_closed());
        }
        if self.queue_size() > 0 || self.active_size() > 0 {
            return WaitStep::Sleep(WAIT_INTERVAL);
        }
        if !self.is_closed && self.unfinished > 0 {
            return WaitStep::Sleep(WAIT_INTERVAL);
        }
        WaitStep::Done
    }
}

} // verus!
