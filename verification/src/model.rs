//! The cluster as a mathematical object, and each of its steps as a function on that object.
use std::sync::Arc;
use vstd::multiset::Multiset;
use vstd::prelude::*;

use crate::clock::has_passed;
use crate::error::{BrowserError, ErrorModel};
use crate::job::{Arrival, JobEntry};
use crate::options::{ClusterOptions, Nanos, QueueMode};
use crate::worker::Worker;

verus! {

/// The state of a cluster.
#[verifier::ext_equal]
#[verifier::reject_recursive_types(F)]
#[verifier::reject_recursive_types(T)]
pub struct ClusterModel<B, F, T> {
    /// The settings.
    pub options: ClusterOptions,
    /// The workers that run a job, each under the permit of the job that it runs.
    pub active: Seq<(usize, Worker<B>)>,
    /// The workers that wait for a job. The front is the next to get one.
    pub idle: Seq<Worker<B>>,
    /// How many jobs were accepted and are on their way to the queue.
    pub accepted: nat,
    /// The jobs that failed and are on their way back to the queue.
    pub retrying: Multiset<RetryModel<F, T>>,
    /// The jobs that wait for a worker. The front is the next to run.
    pub queue: Seq<JobEntry<F, T>>,
    /// The number under which the next job enters the queue: how many have entered it.
    pub arrivals: Arrival,
    /// The permits that are held: by a job whose browser is being launched, by a job that runs, or
    /// by the remains of a job that ran, until it is concluded.
    pub held: Set<usize>,
    /// The job for which each permit is held. A permit whose job failed and is on its way back to
    /// the queue is held for none.
    pub carried: Map<usize, JobEntry<F, T>>,
    /// How many jobs were accepted and have not ended: they neither succeeded nor were given up.
    pub unended: nat,
    /// How many browsers the cluster counts.
    pub worker_count: nat,
    /// The permits of the jobs whose browser is being launched.
    pub awaiting: Set<usize>,
    /// How many browsers are being launched for the idle pool.
    pub filling: nat,
    /// How many browsers are being closed, one by one.
    pub closing: nat,
    /// Where the monitor is.
    pub watch: WatchModel,
    /// Whether the cluster was closed.
    pub closed: bool,
}

/// Where the monitor of the idle workers is.
pub enum WatchModel {
    /// It has not begun, or it has stopped.
    Off,
    /// It waits, since the given moment.
    Since(Nanos),
    /// It makes a pass.
    Pass,
}

/// What a look at the time comes to for the monitor.
pub enum LookModel {
    /// It is too early for a pass.
    Wait,
    /// The monitor stops.
    Stop,
    /// A pass begins.
    Sweep,
}

/// A job that is to be tried again, and when it failed.
pub struct RetryModel<F, T> {
    pub job: JobEntry<F, T>,
    pub failed_at: Nanos,
}

/// The permit of a job that ran, and whether the job has ended: it succeeded or is given up, and is
/// not to be tried again.
pub struct TriedModel {
    pub permit: usize,
    pub ends: bool,
}

/// A job that is to run, and the permit under which it runs.
pub struct StartModel<F, T> {
    pub permit: usize,
    pub job: JobEntry<F, T>,
}

/// What a round of the queue ends with.
pub enum NextModel<F, T> {
    /// There is nothing more to start for now.
    Done,
    /// A job was left waiting because no worker could be had for it.
    NoWorker(ErrorModel),
    /// A browser is to be launched for a job that has a permit.
    Launch(usize, JobEntry<F, T>),
    /// The browser for a job that has a permit could not be launched, and there is no room for the
    /// job in the queue: it goes on waiting for its browser.
    Relaunch(usize, JobEntry<F, T>, ErrorModel),
}

/// What one look at the queue comes to.
pub enum StepModel<F, T> {
    /// A job is to run.
    Start(StartModel<F, T>),
    /// The round is over.
    Halt(NextModel<F, T>),
}

/// Where the worker for a job comes from.
pub enum SourceModel<B> {
    /// It was idle.
    Idle(Worker<B>),
    /// Its browser is to be launched.
    Launch,
}

/// The number of results before the first error, and the number of results if there is none.
pub open spec fn leading<B>(results: Seq<Result<Worker<B>, BrowserError>>) -> nat
    decreases results.len(),
{
    if results.len() == 0 || results[0] is Err {
        0
    } else {
        1 + leading(results.skip(1))
    }
}

/// The results before the first error are not errors, and the one after them is.
pub proof fn lemma_leading<B>(results: Seq<Result<Worker<B>, BrowserError>>)
    ensures
        leading(results) <= results.len(),
        forall|i: int| 0 <= i < leading(results) ==> (#[trigger] results[i]) is Ok,
        leading(results) < results.len() ==> results[leading(
            results,
        ) as int] is Err,
    decreases results.len(),
{
    if results.len() > 0 && results[0] is Ok {
        let rest = results.skip(1);
        lemma_leading(rest);
        assert forall|i: int| 0 <= i < leading(
            results,
        ) implies (#[trigger] results[i]) is Ok by {
            if i > 0 {
                assert(rest[i - 1] == results[i]);
            }
        }
    }
}

/// The workers of the results before the first error, in order.
pub open spec fn launched_workers<B>(results: Seq<Result<Worker<B>, BrowserError>>) -> Seq<
    Worker<B>,
> {
    Seq::new(leading(results), |i: int| results[i]->Ok_0)
}

/// How many of the first jobs in a queue run before the job.
pub open spec fn turn_of<F, T>(
    mode: QueueMode,
    queue: Seq<JobEntry<F, T>>,
    job: JobEntry<F, T>,
) -> nat
    decreases queue.len(),
{
    if queue.len() == 0 || !mode.precedes(queue[0].arrival, job.arrival) {
        0
    } else {
        1 + turn_of(mode, queue.skip(1), job)
    }
}

/// The jobs before the turn of a job run before it, and the one after them does not.
pub proof fn lemma_turn<F, T>(
    mode: QueueMode,
    queue: Seq<JobEntry<F, T>>,
    job: JobEntry<F, T>,
)
    ensures
        turn_of(mode, queue, job) <= queue.len(),
        forall|i: int|
            0 <= i < turn_of(mode, queue, job) ==> mode.precedes(
                (#[trigger] queue[i]).arrival,
                job.arrival,
            ),
        turn_of(mode, queue, job) < queue.len() ==> !mode.precedes(
            queue[turn_of(mode, queue, job) as int].arrival,
            job.arrival,
        ),
    decreases queue.len(),
{
    if queue.len() > 0 && mode.precedes(queue[0].arrival, job.arrival) {
        let rest = queue.skip(1);
        lemma_turn(mode, rest, job);
        assert forall|i: int| 0 <= i < turn_of(mode, queue, job) implies mode.precedes(
            (#[trigger] queue[i]).arrival,
            job.arrival,
        ) by {
            if i > 0 {
                assert(rest[i - 1] == queue[i]);
            }
        }
    }
}

impl<B, F, T> ClusterModel<B, F, T> {
    /// A cluster without workers and without jobs.
    pub open spec fn empty(options: ClusterOptions) -> Self {
        ClusterModel {
            options,
            active: seq![],
            idle: seq![],
            accepted: 0,
            retrying: Multiset::empty(),
            queue: seq![],
            arrivals: 0,
            held: set![],
            carried: Map::empty(),
            unended: 0,
            worker_count: 0,
            awaiting: set![],
            filling: 0,
            closing: 0,
            watch: WatchModel::Off,
            closed: false,
        }
    }

    /// What holds of a cluster at all times.
    pub open spec fn wf(self) -> bool {
        &&& self.options.valid()
        // No more permits are held than jobs may run.
        &&& self.held.finite()
        &&& self.held.len() <= self.options.concurrency
        // A worker is active under a permit that is held, and no two under the same.
        &&& forall|i: int|
            0 <= i < self.active.len() ==> self.held.contains((#[trigger] self.active[i]).0)
        &&& forall|i: int, j: int|
            0 <= i < j < self.active.len() ==> (#[trigger] self.active[i]).0
                != (#[trigger] self.active[j]).0
        // A job that is carried holds a permit.
        &&& self.carried.dom().finite()
        &&& self.carried.dom().subset_of(self.held)
        // A browser is launched for a job that is carried and has no worker.
        &&& self.awaiting.finite()
        &&& self.awaiting.subset_of(self.carried.dom())
        &&& forall|permit: usize| #[trigger]
            self.awaiting.contains(permit) ==> !self.is_active(permit)
        // The queue is no longer than it may be.
        &&& self.options.max_queue_size matches Some(most) ==> self.queue.len() <= most
        // Jobs wait in the order in which they run.
        &&& self.in_order()
        // The jobs that are carried came under numbers that were given out, no two under the same.
        &&& forall|p: usize| #[trigger]
            self.carried.contains_key(p) ==> self.carried[p].arrival < self.arrivals
        &&& forall|p: usize, q: usize| #[trigger]
            self.carried.contains_key(p) && #[trigger] self.carried.contains_key(q) && p != q
                ==> self.carried[p].arrival != self.carried[q].arrival
        // A job that was accepted and has not ended is on its way to the queue, in it, or carried.
        &&& self.unended == self.accepted + self.retrying.len() + self.queue.len()
            + self.carried.len()
        // Every browser is counted, and no more are counted than may exist.
        &&& self.idle.len() + self.active.len() + self.awaiting.len() + self.filling + self.closing
            <= self.worker_count
        &&& self.worker_count <= self.options.max_concurrent_browsers
    }

    /// Whether jobs wait in the order in which they run, under numbers that were given out and that
    /// no job that is carried has.
    pub open spec fn in_order(self) -> bool {
        &&& forall|i: int, j: int|
            0 <= i < j < self.queue.len() ==> self.options.queue_mode.precedes(
                (#[trigger] self.queue[i]).arrival,
                (#[trigger] self.queue[j]).arrival,
            )
        &&& forall|i: int|
            0 <= i < self.queue.len() ==> (#[trigger] self.queue[i]).arrival < self.arrivals
        &&& forall|p: usize, i: int|
            #![trigger self.carried.contains_key(p), self.queue[i]]
            self.carried.contains_key(p) && 0 <= i < self.queue.len() ==> self.carried[p].arrival
                != self.queue[i].arrival
    }

    /// Whether a worker is active under the permit.
    pub open spec fn is_active(self, permit: usize) -> bool {
        exists|i: int| 0 <= i < self.active.len() && (#[trigger] self.active[i]).0 == permit
    }

    /// The place among the active workers of the one under the permit.
    pub open spec fn place(self, permit: usize) -> int {
        choose|i: int| 0 <= i < self.active.len() && (#[trigger] self.active[i]).0 == permit
    }

    /// The worker that is active under the permit.
    pub open spec fn worker_of(self, permit: usize) -> Worker<B> {
        self.active[self.place(permit)].1
    }

    /// Why a new job is refused, if it is: the cluster is closed, or the queue is full.
    pub open spec fn refusal(self) -> Option<ErrorModel> {
        if self.closed {
            Some(ErrorModel::cluster_closed())
        } else if !self.has_room() {
            Some(ErrorModel::QueueFull)
        } else {
            None
        }
    }

    /// A new job is accepted. It is on its way to the queue.
    pub open spec fn accepting(self) -> Self {
        ClusterModel { accepted: self.accepted + 1, unended: self.unended + 1, ..self }
    }

    /// A job that was accepted comes to nothing before it reaches the queue.
    pub open spec fn withdrawn(self) -> Self {
        ClusterModel {
            accepted: (self.accepted - 1) as nat,
            unended: (self.unended - 1) as nat,
            ..self
        }
    }

    /// Whether the queue has room for one more job.
    pub open spec fn has_room(self) -> bool {
        self.options.max_queue_size matches Some(most) ==> self.queue.len() < most
    }

    /// Whether there is a number left under which a job can enter the queue.
    pub open spec fn has_number(self) -> bool {
        self.arrivals < Arrival::MAX
    }

    /// A job enters the queue, under the next number.
    pub open spec fn enqueued(self, job: JobEntry<F, T>) -> Self {
        ClusterModel {
            queue: self.options.queue_mode.added(self.queue, job.numbered(self.arrivals)),
            arrivals: (self.arrivals + 1) as Arrival,
            ..self
        }
    }

    /// The queue with a job that was taken from it back in its turn: behind all that run before
    /// it.
    pub open spec fn with_back(self, job: JobEntry<F, T>) -> Seq<JobEntry<F, T>> {
        self.queue.insert(turn_of(self.options.queue_mode, self.queue, job) as int, job)
    }

    /// A job that was accepted enters the queue.
    pub open spec fn arrived(self, job: JobEntry<F, T>) -> Self {
        ClusterModel { accepted: (self.accepted - 1) as nat, ..self.enqueued(job) }
    }

    /// A job comes from the task channel. A closed cluster drops it; an open one queues it, and
    /// starts what can be started, unless there is no room.
    pub open spec fn received(self, job: JobEntry<F, T>) -> (
        Self,
        Seq<StartModel<F, T>>,
        NextModel<F, T>,
    ) {
        if self.closed {
            (self.withdrawn(), seq![], NextModel::Done)
        } else if !self.has_room() {
            (self, seq![], NextModel::Done)
        } else {
            self.arrived(job).round()
        }
    }

    /// A job that failed enters the queue again.
    pub open spec fn returned(self, retry: RetryModel<F, T>) -> Self {
        ClusterModel { retrying: self.retrying.remove(retry), ..self.enqueued(retry.job) }
    }

    /// Whether a job that failed may be tried again at the given moment: the delay has passed.
    pub open spec fn retry_is_due(self, retry: RetryModel<F, T>, now: Nanos) -> bool {
        has_passed(self.options.retry_delay, retry.failed_at, now)
    }

    /// A job that failed is dropped.
    pub open spec fn forgotten(self, retry: RetryModel<F, T>) -> Self {
        ClusterModel {
            retrying: self.retrying.remove(retry),
            unended: (self.unended - 1) as nat,
            ..self
        }
    }

    /// A job that failed is to be queued again. Nothing happens while it is too early, or while
    /// there is no room; but a closed cluster without room drops the job.
    pub open spec fn requeued(self, retry: RetryModel<F, T>, now: Nanos) -> Self {
        if !self.retry_is_due(retry, now) {
            self
        } else if self.has_room() {
            self.returned(retry)
        } else if self.closed {
            self.forgotten(retry)
        } else {
            self
        }
    }

    /// A worker is found for the job with the permit: the idle worker at the front, or else a
    /// browser to launch if one more may exist.
    pub open spec fn worker_source(self, permit: usize) -> (Self, Result<SourceModel<B>, ErrorModel>) {
        if self.idle.len() > 0 {
            (
                ClusterModel { idle: self.idle.skip(1), ..self },
                Ok(SourceModel::Idle(self.idle[0])),
            )
        } else if self.worker_count >= self.options.max_concurrent_browsers {
            (self, Err(ErrorModel::max_browsers()))
        } else {
            (
                ClusterModel {
                    worker_count: self.worker_count + 1,
                    awaiting: self.awaiting.insert(permit),
                    ..self
                },
                Ok(SourceModel::Launch),
            )
        }
    }

    /// The front job takes a permit.
    pub open spec fn taken(self, permit: usize) -> Self {
        ClusterModel {
            queue: self.queue.skip(1),
            held: self.held.insert(permit),
            carried: self.carried.insert(permit, self.queue[0]),
            ..self
        }
    }

    /// A worker takes up the job that holds the permit.
    pub open spec fn activated(self, permit: usize, worker: Worker<B>) -> Self {
        ClusterModel { active: self.active.push((permit, worker)), ..self }
    }

    /// One look at the queue. A job that cannot run keeps its place at the front.
    pub open spec fn step(self) -> (Self, StepModel<F, T>) {
        if self.closed || self.queue.len() == 0 || self.held.len() >= self.options.concurrency {
            (self, StepModel::Halt(NextModel::Done))
        } else {
            let job = self.queue[0];
            let permit = crate::permits::lowest_free(self.held);
            let (after, source) = self.taken(permit).worker_source(permit);
            match source {
                Ok(SourceModel::Idle(worker)) => (
                    after.activated(permit, worker),
                    StepModel::Start(StartModel { permit, job }),
                ),
                Ok(SourceModel::Launch) => (after, StepModel::Halt(NextModel::Launch(permit, job))),
                Err(error) => (self, StepModel::Halt(NextModel::NoWorker(error))),
            }
        }
    }

    /// A round: jobs are started from the front of the queue for as long as that is possible.
    pub open spec fn round(self) -> (Self, Seq<StartModel<F, T>>, NextModel<F, T>)
        decreases self.queue.len(),
    {
        match self.step() {
            (after, StepModel::Halt(next)) => (after, seq![], next),
            (after, StepModel::Start(start)) => {
                let (last, starts, next) = after.round();
                (last, seq![start] + starts, next)
            },
        }
    }

    /// The browser for a job was launched.
    pub open spec fn launch_succeeded(self, permit: usize, worker: Worker<B>) -> Self {
        ClusterModel {
            active: self.active.push((permit, worker)),
            awaiting: self.awaiting.remove(permit),
            ..self
        }
    }

    /// The browser for a job was not launched: the job goes back to its turn in the queue and
    /// gives up its permit, and the browser is not counted any more.
    pub open spec fn launch_failed(self, permit: usize) -> Self {
        ClusterModel {
            queue: self.with_back(self.carried[permit]),
            held: self.held.remove(permit),
            carried: self.carried.remove(permit),
            worker_count: (self.worker_count - 1) as nat,
            awaiting: self.awaiting.remove(permit),
            ..self
        }
    }

    /// The browser for a job was not launched, and the job is dropped.
    pub open spec fn launch_dropped(self, permit: usize) -> Self {
        ClusterModel {
            held: self.held.remove(permit),
            carried: self.carried.remove(permit),
            unended: (self.unended - 1) as nat,
            worker_count: (self.worker_count - 1) as nat,
            awaiting: self.awaiting.remove(permit),
            ..self
        }
    }

    /// The round goes on after a launch. If the launch failed, and the queue has no room for the
    /// job, the job goes on waiting for its browser; but a closed cluster drops it.
    pub open spec fn launched(self, permit: usize, result: Result<Worker<B>, BrowserError>) -> (
        Self,
        Seq<StartModel<F, T>>,
        NextModel<F, T>,
    ) {
        match result {
            Ok(worker) => {
                let (last, starts, next) = self.launch_succeeded(permit, worker).round();
                (last, seq![StartModel { permit, job: self.carried[permit] }] + starts, next)
            },
            Err(error) => if self.has_room() {
                (self.launch_failed(permit), seq![], NextModel::NoWorker(error@))
            } else if self.closed {
                (self.launch_dropped(permit), seq![], NextModel::NoWorker(error@))
            } else {
                (self, seq![], NextModel::Relaunch(permit, self.carried[permit], error@))
            },
        }
    }

    /// Whether a job runs under the permit.
    pub open spec fn is_running(self, permit: usize) -> bool {
        self.carried.contains_key(permit) && !self.awaiting.contains(permit)
    }

    /// The job to try again after the one under the permit failed, if it is to be tried again.
    pub open spec fn retry_after(self, permit: usize, failed_at: Nanos) -> Option<
        RetryModel<F, T>,
    > {
        match self.carried[permit].again(self.options.retry_limit) {
            Some(job) => Some(RetryModel { job, failed_at }),
            None => None,
        }
    }

    /// The job under the permit failed. If it is to be tried again, it is on its way back to the
    /// queue, and the permit is held for none.
    pub open spec fn failed(self, permit: usize, failed_at: Nanos) -> Self {
        match self.retry_after(permit, failed_at) {
            Some(retry) => ClusterModel {
                retrying: self.retrying.insert(retry),
                carried: self.carried.remove(permit),
                ..self
            },
            None => self,
        }
    }

    /// How many browsers have to be launched for the idle pool: as many as it lacks, but no more
    /// than may still come to exist.
    pub open spec fn missing_idle(self) -> nat {
        let lacking = self.options.min_idle_browsers - self.idle.len();
        let room = self.options.max_concurrent_browsers - self.worker_count;
        if lacking <= 0 || room <= 0 {
            0
        } else if lacking <= room {
            lacking as nat
        } else {
            room as nat
        }
    }

    /// The browsers that the idle pool lacks are counted and about to be launched.
    pub open spec fn filling(self) -> Self {
        ClusterModel {
            worker_count: self.worker_count + self.missing_idle(),
            filling: self.filling + self.missing_idle(),
            ..self
        }
    }

    /// The launches for the idle pool ended. The workers before the first error are idle now. The
    /// error takes one browser off the count; what came after it is lost.
    pub open spec fn filled(self, results: Seq<Result<Worker<B>, BrowserError>>) -> Self {
        ClusterModel {
            idle: self.idle + launched_workers(results),
            worker_count: if leading(results) < results.len() {
                (self.worker_count - 1) as nat
            } else {
                self.worker_count
            },
            filling: (self.filling - results.len()) as nat,
            ..self
        }
    }

    /// The worker under the permit, last used at the given moment.
    pub open spec fn used_worker(self, permit: usize, finished_at: Nanos) -> Worker<B> {
        let worker = self.worker_of(permit);
        Worker {
            browser: worker.browser,
            created_at: worker.created_at,
            last_used: finished_at,
        }
    }

    /// The browser that has to be closed now that the job under the permit is over.
    pub open spec fn replaced_browser(
        self,
        permit: usize,
        finished_at: Nanos,
        now: Nanos,
    ) -> Option<Arc<B>> {
        let worker = self.used_worker(permit, finished_at);
        if self.is_active(permit) && worker.expired(self.options.worker_limits(), now) {
            Some(worker.browser)
        } else {
            None
        }
    }

    /// The job under the permit is over. Its worker, unless the cluster was closed meanwhile, goes
    /// to the back of the idle pool, or is to be closed if it has outlived the limits.
    pub open spec fn finished(self, permit: usize, finished_at: Nanos, now: Nanos) -> Self {
        if !self.is_active(permit) {
            self
        } else {
            let worker = self.used_worker(permit, finished_at);
            let rest = self.active.remove(self.place(permit));
            if worker.expired(self.options.worker_limits(), now) {
                ClusterModel { active: rest, closing: self.closing + 1, ..self }
            } else {
                ClusterModel { active: rest, idle: self.idle.push(worker), ..self }
            }
        }
    }

    /// The permit is given back. The job for which it is held, if any, has ended.
    pub open spec fn released(self, permit: usize) -> Self {
        ClusterModel {
            held: self.held.remove(permit),
            carried: self.carried.remove(permit),
            unended: if self.carried.contains_key(permit) {
                (self.unended - 1) as nat
            } else {
                self.unended
            },
            ..self
        }
    }

    /// The permit is given back, and a round follows.
    pub open spec fn concluded(self, permit: usize) -> (
        Self,
        Seq<StartModel<F, T>>,
        NextModel<F, T>,
    ) {
        self.released(permit).round()
    }

    /// A browser that was being closed is closed.
    pub open spec fn browser_closed(self) -> Self {
        ClusterModel {
            worker_count: (self.worker_count - 1) as nat,
            closing: (self.closing - 1) as nat,
            ..self
        }
    }

    /// A browser that was being replaced is closed, and unless the cluster is, the idle pool is
    /// filled.
    pub open spec fn replaced(self) -> Self {
        if self.closed {
            self.browser_closed()
        } else {
            self.browser_closed().filling()
        }
    }

    /// Whether the worker has outlived the limits of the cluster.
    pub open spec fn outlived(self, now: Nanos) -> spec_fn(Worker<B>) -> bool {
        |worker: Worker<B>| worker.expired(self.options.worker_limits(), now)
    }

    /// Whether the worker is within the limits of the cluster.
    pub open spec fn within_limits(self, now: Nanos) -> spec_fn(Worker<B>) -> bool {
        |worker: Worker<B>| !worker.expired(self.options.worker_limits(), now)
    }

    /// The idle workers that have outlived the limits, in order.
    pub open spec fn outlived_idle(self, now: Nanos) -> Seq<Worker<B>> {
        self.idle.filter(self.outlived(now))
    }

    /// The idle workers that have outlived the limits leave the pool to be closed. The others stay
    /// in order.
    pub open spec fn swept(self, now: Nanos) -> Self {
        ClusterModel {
            idle: self.idle.filter(self.within_limits(now)),
            closing: self.closing + self.outlived_idle(now).len(),
            ..self
        }
    }

    /// The browsers of the active workers, in order.
    pub open spec fn active_browsers(self) -> Seq<Arc<B>> {
        Seq::new(self.active.len(), |i: int| self.active[i].1.browser)
    }

    /// The browsers of the idle workers, in order.
    pub open spec fn idle_browsers(self) -> Seq<Arc<B>> {
        Seq::new(self.idle.len(), |i: int| self.idle[i].browser)
    }

    /// The cluster is closed and hands over the browsers of its active workers. They stay counted.
    pub open spec fn shut_down(self) -> Self {
        ClusterModel { active: seq![], closed: true, ..self }
    }

    /// The cluster hands over the browsers of its idle workers. They stay counted.
    pub open spec fn drained(self) -> Self {
        ClusterModel { idle: seq![], ..self }
    }

    /// Whether there is nothing to wait for: no job is in the queue and no worker is active; and,
    /// unless the cluster was closed, every job that was accepted has ended.
    pub open spec fn all_done(self) -> bool {
        &&& self.queue.len() == 0
        &&& self.active.len() == 0
        &&& self.closed || self.unended == 0
    }

    /// The monitor begins to wait at the given moment.
    pub open spec fn watching(self, since: Nanos) -> Self {
        ClusterModel { watch: WatchModel::Since(since), ..self }
    }

    /// What the monitor does at the given moment, having waited since another: it waits until the
    /// interval has passed, and then makes a pass unless the cluster is closed.
    pub open spec fn look(self, since: Nanos, now: Nanos) -> LookModel {
        if !has_passed(self.options.monitor_interval, since, now) {
            LookModel::Wait
        } else if self.closed {
            LookModel::Stop
        } else {
            LookModel::Sweep
        }
    }

    /// The monitor looks at the time.
    pub open spec fn monitored(self, since: Nanos, now: Nanos) -> Self {
        match self.look(since, now) {
            LookModel::Wait => self,
            LookModel::Stop => ClusterModel { watch: WatchModel::Off, ..self },
            LookModel::Sweep => ClusterModel { watch: WatchModel::Pass, ..self.swept(now) },
        }
    }
}

} // verus!
