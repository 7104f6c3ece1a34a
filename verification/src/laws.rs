//! What holds of a cluster across its steps.
use vstd::prelude::*;

use crate::clock::has_passed;
use crate::error::{BrowserError, ErrorModel};
use crate::job::{Arrival, JobEntry};
use crate::model::{
    ClusterModel, LookModel, NextModel, RetryModel, StartModel, StepModel, WatchModel,
};
use crate::options::{ClusterOptions, Nanos, QueueMode, WorkerOptions};
use crate::worker::Worker;

verus! {

/// Something that happens to a cluster.
pub enum Event<B, F, T> {
    /// A new job is accepted.
    Accepted,
    /// The task channel does not take a job that was accepted.
    Withdrawn,
    /// A job comes from the task channel.
    Received(JobEntry<F, T>),
    /// The queue is looked through.
    Processed,
    /// The launch for the job with the permit ends.
    Launched(usize, Result<Worker<B>, BrowserError>),
    /// The job with the permit fails at the given moment.
    Failed(usize, Nanos),
    /// A job that failed is to be queued again, at the given moment.
    Requeued(RetryModel<F, T>, Nanos),
    /// The job with the permit is over: at the first moment, and looked at the second.
    Finished(usize, Nanos, Nanos),
    /// The permit is given back.
    Concluded(usize),
    /// Launches for the idle pool begin.
    Filling,
    /// Launches for the idle pool end.
    Filled(Seq<Result<Worker<B>, BrowserError>>),
    /// A retired browser is closed.
    BrowserClosed,
    /// A retired browser is closed and replaced.
    Replaced,
    /// The monitor begins to wait at the given moment.
    WatchStarted(Nanos),
    /// The monitor looks at the time.
    Monitored(Nanos),
    /// A pass of the monitor is over at the given moment.
    PassEnded(Nanos),
    /// The cluster is closed.
    ShutDown,
    /// The idle workers are handed over.
    Drained,
}

impl<B, F, T> ClusterModel<B, F, T> {
    /// Whether the event can happen to the cluster: whether what it ends was begun, and whether a
    /// number is left for a job that it queues.
    pub open spec fn possible(self, event: Event<B, F, T>) -> bool {
        match event {
            Event::Accepted => self.refusal() is None,
            Event::Withdrawn => self.accepted > 0,
            Event::Received(job) => self.accepted > 0 && job.retries == 0 && (!self.closed
                && self.has_room() ==> self.has_number()),
            Event::Launched(permit, _) => self.awaiting.contains(permit),
            Event::Failed(permit, _) => self.is_running(permit),
            Event::Requeued(retry, now) => self.retrying.contains(retry) && (self.retry_is_due(
                retry,
                now,
            ) && self.has_room() ==> self.has_number()),
            Event::Finished(permit, _, _) => self.held.contains(permit) && !self.awaiting.contains(
                permit,
            ),
            Event::Concluded(permit) => self.held.contains(permit) && !self.awaiting.contains(
                permit,
            ) && !self.is_active(permit),
            Event::Filled(results) => results.len() <= self.filling,
            Event::BrowserClosed => self.closing > 0,
            Event::Replaced => self.closing > 0,
            Event::Monitored(_) => self.watch is Since,
            Event::PassEnded(_) => self.watch is Pass,
            _ => true,
        }
    }

    /// The cluster after the event.
    pub open spec fn after(self, event: Event<B, F, T>) -> Self {
        match event {
            Event::Accepted => self.accepting(),
            Event::Withdrawn => self.withdrawn(),
            Event::Received(job) => self.received(job).0,
            Event::Processed => self.round().0,
            Event::Launched(permit, result) => self.launched(permit, result).0,
            Event::Failed(permit, failed_at) => self.failed(permit, failed_at),
            Event::Requeued(retry, now) => self.requeued(retry, now),
            Event::Finished(permit, finished_at, now) => self.finished(permit, finished_at, now),
            Event::Concluded(permit) => self.concluded(permit).0,
            Event::Filling => self.filling(),
            Event::Filled(results) => self.filled(results).round().0,
            Event::BrowserClosed => self.browser_closed().round().0,
            Event::Replaced => self.replaced(),
            Event::WatchStarted(now) => self.watching(now),
            Event::Monitored(now) => self.monitored(self.watch->Since_0, now),
            Event::PassEnded(now) => self.watching(now),
            Event::ShutDown => self.shut_down(),
            Event::Drained => self.drained(),
        }
    }

    /// The cluster after the events, `events[0]` first.
    pub open spec fn after_all(self, events: Seq<Event<B, F, T>>) -> Self
        decreases events.len(),
    {
        if events.len() == 0 {
            self
        } else {
            self.after_all(events.drop_last()).after(events.last())
        }
    }

    /// Whether each of the events can happen after those before it.
    pub open spec fn possible_all(self, events: Seq<Event<B, F, T>>) -> bool
        decreases events.len(),
    {
        events.len() > 0 ==> {
            &&& self.possible_all(events.drop_last())
            &&& self.after_all(events.drop_last()).possible(events.last())
        }
    }

    /// The cluster as the event leaves it before a round, if the event ends with a round.
    pub open spec fn before_round(self, event: Event<B, F, T>) -> Option<Self> {
        match event {
            Event::Received(job) => if !self.closed && self.has_room() {
                Some(self.arrived(job))
            } else {
                None
            },
            Event::Processed => Some(self),
            Event::Launched(permit, Ok(worker)) => Some(self.launch_succeeded(permit, worker)),
            Event::Concluded(permit) => Some(self.released(permit)),
            Event::Filled(results) => Some(self.filled(results)),
            Event::BrowserClosed => Some(self.browser_closed()),
            _ => None,
        }
    }

    /// The job that the event adds to the queue, if any.
    pub open spec fn came(self, event: Event<B, F, T>) -> Seq<JobEntry<F, T>> {
        match event {
            Event::Received(job) => if !self.closed && self.has_room() {
                seq![job.numbered(self.arrivals)]
            } else {
                seq![]
            },
            Event::Requeued(retry, now) => if self.retry_is_due(retry, now) && self.has_room() {
                seq![retry.job.numbered(self.arrivals)]
            } else {
                seq![]
            },
            _ => seq![],
        }
    }

    /// The queue with what the event adds to it, before anything is taken from it. A job whose
    /// browser could not be launched comes back to its turn, if there is room.
    pub open spec fn line(self, event: Event<B, F, T>) -> Seq<JobEntry<F, T>> {
        match event {
            Event::Launched(permit, Err(_)) => if self.has_room() {
                self.with_back(self.carried[permit])
            } else {
                self.queue
            },
            _ => self.options.queue_mode.added_all(self.queue, self.came(event)),
        }
    }

    /// The jobs that the event takes from the queue, in order: those that start, and the one for
    /// which a browser is to be launched, if any.
    pub open spec fn served(self, event: Event<B, F, T>) -> Seq<JobEntry<F, T>> {
        match self.before_round(event) {
            Some(ready) => ready.taken_by_round(),
            None => seq![],
        }
    }

    /// The jobs that a round takes from the queue, in order.
    pub open spec fn taken_by_round(self) -> Seq<JobEntry<F, T>> {
        let (last, starts, next) = self.round();
        match next {
            NextModel::Launch(_, job) => jobs_of(starts).push(job),
            _ => jobs_of(starts),
        }
    }

    /// The jobs that the events add to the queue, in order.
    pub open spec fn came_in_all(self, events: Seq<Event<B, F, T>>) -> Seq<JobEntry<F, T>>
        decreases events.len(),
    {
        if events.len() == 0 {
            seq![]
        } else {
            self.came_in_all(events.drop_last()) + self.after_all(events.drop_last()).came(
                events.last(),
            )
        }
    }

    /// The jobs that the events take from the queue, in order.
    pub open spec fn served_in_all(self, events: Seq<Event<B, F, T>>) -> Seq<JobEntry<F, T>>
        decreases events.len(),
    {
        if events.len() == 0 {
            seq![]
        } else {
            self.served_in_all(events.drop_last()) + self.after_all(events.drop_last()).served(
                events.last(),
            )
        }
    }

    /// For each job that the event adds to the queue, the number under which the attempt came that
    /// failed and that it repeats, if it repeats one.
    pub open spec fn repeats(self, event: Event<B, F, T>) -> Seq<Option<Arrival>> {
        if self.came(event).len() == 0 {
            seq![]
        } else {
            match event {
                Event::Requeued(retry, _) => seq![Some(retry.job.arrival)],
                _ => seq![None],
            }
        }
    }

    /// For each job that the events add to the queue, in order, the number of the attempt that it
    /// repeats, if it repeats one.
    pub open spec fn repeats_in_all(self, events: Seq<Event<B, F, T>>) -> Seq<Option<Arrival>>
        decreases events.len(),
    {
        if events.len() == 0 {
            seq![]
        } else {
            self.repeats_in_all(events.drop_last()) + self.after_all(events.drop_last()).repeats(
                events.last(),
            )
        }
    }

    /// The jobs that start with the event, in order.
    pub open spec fn starts(self, event: Event<B, F, T>) -> Seq<JobEntry<F, T>> {
        match event {
            Event::Received(job) => jobs_of(self.received(job).1),
            Event::Processed => jobs_of(self.round().1),
            Event::Launched(permit, result) => jobs_of(self.launched(permit, result).1),
            Event::Concluded(permit) => jobs_of(self.concluded(permit).1),
            Event::Filled(results) => jobs_of(self.filled(results).round().1),
            Event::BrowserClosed => jobs_of(self.browser_closed().round().1),
            _ => seq![],
        }
    }

    /// The jobs that start with the events, in order.
    pub open spec fn starts_in_all(self, events: Seq<Event<B, F, T>>) -> Seq<JobEntry<F, T>>
        decreases events.len(),
    {
        if events.len() == 0 {
            seq![]
        } else {
            self.starts_in_all(events.drop_last()) + self.after_all(events.drop_last()).starts(
                events.last(),
            )
        }
    }

    /// Whether a job that waits or holds a permit came under the number.
    pub open spec fn is_live(self, number: Arrival) -> bool {
        ||| exists|i: int| 0 <= i < self.queue.len() && (#[trigger] self.queue[i]).arrival == number
        ||| exists|p: usize| #[trigger]
            self.carried.contains_key(p) && self.carried[p].arrival == number
    }

    /// Whether a job that waits, in the queue or for its browser, came under the number.
    pub open spec fn is_waiting(self, number: Arrival) -> bool {
        ||| exists|i: int| 0 <= i < self.queue.len() && (#[trigger] self.queue[i]).arrival == number
        ||| exists|p: usize| #[trigger]
            self.awaiting.contains(p) && self.carried[p].arrival == number
    }

    /// Whether a job ends with the event: it succeeded or is given up, and is not to be tried
    /// again.
    pub open spec fn ends_job(self, event: Event<B, F, T>) -> bool {
        event matches Event::Concluded(permit) && self.carried.contains_key(permit)
    }

    /// Whether a job is dropped with the event, because the cluster is closed: a job from the task
    /// channel, or one that would go back to the queue and finds no room there.
    pub open spec fn drops_job(self, event: Event<B, F, T>) -> bool {
        self.closed && match event {
            Event::Received(_) => true,
            Event::Launched(_, Err(_)) => !self.has_room(),
            Event::Requeued(retry, now) => self.retry_is_due(retry, now) && !self.has_room(),
            _ => false,
        }
    }

    /// How many jobs the events accept, and the task channel takes.
    pub open spec fn accepted_in_all(self, events: Seq<Event<B, F, T>>) -> int
        decreases events.len(),
    {
        if events.len() == 0 {
            0
        } else {
            self.accepted_in_all(events.drop_last()) + match events.last() {
                Event::Accepted => 1int,
                Event::Withdrawn => -1int,
                _ => 0int,
            }
        }
    }

    /// How many jobs end with the events.
    pub open spec fn ended_in_all(self, events: Seq<Event<B, F, T>>) -> nat
        decreases events.len(),
    {
        if events.len() == 0 {
            0
        } else {
            self.ended_in_all(events.drop_last()) + if self.after_all(
                events.drop_last(),
            ).ends_job(events.last()) {
                1nat
            } else {
                0nat
            }
        }
    }

    /// How many jobs are dropped with the events.
    pub open spec fn dropped_in_all(self, events: Seq<Event<B, F, T>>) -> nat
        decreases events.len(),
    {
        if events.len() == 0 {
            0
        } else {
            self.dropped_in_all(events.drop_last()) + if self.after_all(
                events.drop_last(),
            ).drops_job(events.last()) {
                1nat
            } else {
                0nat
            }
        }
    }

    /// Whether the event at the place is the failure after which the job is to be tried again.
    pub open spec fn failed_into(
        self,
        events: Seq<Event<B, F, T>>,
        place: int,
        retry: RetryModel<F, T>,
    ) -> bool {
        &&& 0 <= place < events.len()
        &&& events[place] matches Event::Failed(permit, failed_at)
        &&& self.after_all(events.take(place)).retry_after(permit, failed_at) == Some(retry)
    }

    /// Whether the event at the place queues the job again, after it failed and the delay has
    /// passed since.
    pub open spec fn waited_for(
        self,
        events: Seq<Event<B, F, T>>,
        place: int,
        retry: RetryModel<F, T>,
    ) -> bool {
        &&& 0 <= place < events.len()
        &&& events[place] matches Event::Requeued(again, now)
        &&& again == retry
        &&& has_passed(self.options.retry_delay, retry.failed_at, now)
        &&& exists|earlier: int|
            earlier < place && #[trigger] self.failed_into(events, earlier, retry)
    }

    /// Whether the job, as it is in the queue, was queued again by one of the events, after it
    /// failed and the delay has passed since.
    pub open spec fn was_retried(self, events: Seq<Event<B, F, T>>, job: JobEntry<F, T>) -> bool {
        exists|place: int, retry: RetryModel<F, T>|
            retry.job.numbered(job.arrival) == job && #[trigger] self.waited_for(
                events,
                place,
                retry,
            )
    }

    /// Whether the count of browsers is exact: each browser that is counted is idle, active, being
    /// launched or being closed.
    pub open spec fn count_is_exact(self) -> bool {
        self.worker_count == self.idle.len() + self.active.len() + self.awaiting.len()
            + self.filling + self.closing
    }
}

/// The jobs that a round starts, in order.
pub open spec fn jobs_of<F, T>(starts: Seq<StartModel<F, T>>) -> Seq<JobEntry<F, T>> {
    Seq::new(starts.len(), |i: int| starts[i].job)
}

/// Whether the event at the place is the last with which the monitor begins to wait, and it waits
/// since the given moment.
pub open spec fn waits_from<B, F, T>(
    events: Seq<Event<B, F, T>>,
    place: int,
    since: Nanos,
) -> bool {
    &&& 0 <= place < events.len()
    &&& events[place] == Event::<B, F, T>::WatchStarted(since) || events[place] == Event::<
        B,
        F,
        T,
    >::PassEnded(since)
    &&& forall|later: int|
        place < later < events.len() ==> !((#[trigger] events[later]) is WatchStarted) && !(
        events[later] is PassEnded)
}

/// Whether one of the jobs that a round starts gets the permit.
pub open spec fn is_started<F, T>(starts: Seq<StartModel<F, T>>, permit: usize) -> bool {
    exists|i: int| 0 <= i < starts.len() && (#[trigger] starts[i]).permit == permit
}

/// What a round that comes to `(last, starts, next)` has done to the cluster.
spec fn round_effect<B, F, T>(
    m: ClusterModel<B, F, T>,
    last: ClusterModel<B, F, T>,
    starts: Seq<StartModel<F, T>>,
    next: NextModel<F, T>,
) -> bool {
    let n = starts.len() as int;
    &&& last.wf()
    &&& last.options == m.options
    &&& last.closed == m.closed
    &&& last.filling == m.filling
    &&& last.closing == m.closing
    &&& last.accepted == m.accepted
    &&& last.retrying == m.retrying
    &&& last.unended == m.unended
    &&& last.watch == m.watch
    &&& last.arrivals == m.arrivals
    // The jobs and the idle workers come from the front.
    &&& n <= m.queue.len()
    &&& n <= m.idle.len()
    &&& forall|i: int| 0 <= i < n ==> (#[trigger] starts[i]).job == m.queue[i]
    &&& last.idle == m.idle.skip(n)
    // The workers that were active stay; those that took up a job follow.
    &&& last.active.len() == m.active.len() + n
    &&& forall|i: int| 0 <= i < m.active.len() ==> #[trigger] last.active[i] == m.active[i]
    &&& forall|i: int|
        0 <= i < n ==> #[trigger] last.active[m.active.len() + i] == (starts[i].permit, m.idle[i])
    // The permits are new, and held for the jobs.
    &&& m.held.subset_of(last.held)
    &&& forall|i: int| 0 <= i < n ==> !m.held.contains((#[trigger] starts[i]).permit)
    &&& forall|i: int|
        0 <= i < n ==> last.carried.contains_key((#[trigger] starts[i]).permit)
            && last.carried[starts[i].permit] == starts[i].job
    &&& forall|p: usize| #[trigger]
        m.carried.contains_key(p) ==> last.carried.contains_key(p) && last.carried[p]
            == m.carried[p]
    &&& forall|p: usize| #[trigger]
        last.carried.contains_key(p) && !m.carried.contains_key(p) ==> !m.held.contains(p)
            && m.queue.contains(last.carried[p])
    &&& forall|p: usize| #[trigger]
        last.held.contains(p) && !m.held.contains(p) ==> is_started(starts, p) || (
        next matches NextModel::Launch(permit, _) && permit == p)
    &&& match next {
        NextModel::Launch(permit, job) => {
            &&& n < m.queue.len()
            &&& job == m.queue[n]
            &&& last.queue == m.queue.skip(n + 1)
            &&& !m.held.contains(permit)
            &&& last.held.contains(permit)
            &&& last.carried.contains_key(permit)
            &&& last.carried[permit] == job
            &&& n == 0 ==> last.held == m.held.insert(permit)
            &&& n == 0 ==> last.carried == m.carried.insert(permit, job)
            &&& last.held.len() == m.held.len() + n + 1
            &&& last.awaiting == m.awaiting.insert(permit)
            &&& last.worker_count == m.worker_count + 1
            &&& last.idle.len() == 0
            &&& !m.closed
        },
        NextModel::NoWorker(error) => {
            &&& error == ErrorModel::max_browsers()
            &&& last.queue == m.queue.skip(n)
            &&& last.queue.len() > 0
            &&& last.held.len() == m.held.len() + n
            &&& last.awaiting == m.awaiting
            &&& last.worker_count == m.worker_count
            &&& last.worker_count == m.options.max_concurrent_browsers
            &&& last.idle.len() == 0
            &&& last.held.len() < m.options.concurrency
            &&& !m.closed
        },
        NextModel::Done => {
            &&& last.queue == m.queue.skip(n)
            &&& last.held.len() == m.held.len() + n
            &&& last.awaiting == m.awaiting
            &&& last.worker_count == m.worker_count
            &&& m.closed || last.queue.len() == 0 || last.held.len() == m.options.concurrency
        },
        NextModel::Relaunch(_, _, _) => false,
    }
}

proof fn lemma_step<B, F, T>(m: ClusterModel<B, F, T>)
    requires
        m.wf(),
    ensures
        m.step().0.wf(),
        match m.step().1 {
            StepModel::Halt(next) => round_effect(m, m.step().0, seq![], next),
            StepModel::Start(start) => {
                let after = m.step().0;
                &&& m.idle.len() > 0
                &&& m.queue.len() > 0
                &&& !m.closed
                &&& !m.held.contains(start.permit)
                &&& start.job == m.queue[0]
                &&& after == (ClusterModel {
                    queue: m.queue.skip(1),
                    idle: m.idle.skip(1),
                    held: m.held.insert(start.permit),
                    carried: m.carried.insert(start.permit, start.job),
                    active: m.active.push((start.permit, m.idle[0])),
                    ..m
                })
            },
        },
{
    assert(m.idle.skip(0) =~= m.idle);
    assert(m.queue.skip(0) =~= m.queue);
    if !(m.closed || m.queue.len() == 0 || m.held.len() >= m.options.concurrency) {
        let permit = crate::permits::lowest_free(m.held);
        crate::permits::lemma_lowest_free(m.held);
        let (after, source) = m.taken(permit).worker_source(permit);
        assert(!m.is_active(permit));
        assert(!m.carried.contains_key(permit));
        assert(!m.awaiting.contains(permit));
        assert(m.queue.contains(m.queue[0]));
        let end = m.step().0;
        assert forall|p: usize| #[trigger] end.awaiting.contains(p) implies !end.is_active(p) by {
            assert(m.awaiting.contains(p) || p == permit);
            if end.is_active(p) {
                let i = choose|i: int|
                    0 <= i < end.active.len() && (#[trigger] end.active[i]).0 == p;
                if i < m.active.len() {
                    assert(m.active[i].0 == p);
                }
            }
        }
    }
}

/// A round does what [`round_effect`] says.
proof fn lemma_round<B, F, T>(m: ClusterModel<B, F, T>)
    requires
        m.wf(),
    ensures
        round_effect(m, m.round().0, m.round().1, m.round().2),
    decreases m.queue.len(),
{
    lemma_step(m);
    match m.step().1 {
        StepModel::Halt(next) => {},
        StepModel::Start(start) => {
            let after = m.step().0;
            lemma_round(after);
            let (last, rest, next) = after.round();
            let starts = seq![start] + rest;
            let n = rest.len() as int;
            assert(m.idle.skip(1).skip(n) =~= m.idle.skip(n + 1));
            assert(m.queue.skip(1).skip(n) =~= m.queue.skip(n + 1));
            assert(n < m.queue.len() - 1 ==> m.queue.skip(1).skip(n + 1) =~= m.queue.skip(n + 2));
            assert forall|i: int| 0 <= i < starts.len() implies (#[trigger] starts[i]).job
                == m.queue[i] && !m.held.contains(starts[i].permit) && last.carried.contains_key(
                starts[i].permit,
            ) && last.carried[starts[i].permit] == starts[i].job by {
                if i > 0 {
                    assert(starts[i] == rest[i - 1]);
                } else {
                    assert(after.carried.contains_key(start.permit));
                }
            }
            assert forall|p: usize| #[trigger]
                m.carried.contains_key(p) implies last.carried.contains_key(p) && last.carried[p]
                == m.carried[p] by {
                assert(m.held.contains(p));
                assert(after.carried.contains_key(p));
            }
            assert forall|p: usize| #[trigger]
                last.carried.contains_key(p) && !m.carried.contains_key(p) implies !m.held.contains(
                p,
            ) && m.queue.contains(last.carried[p]) by {
                if after.carried.contains_key(p) {
                    assert(p == start.permit);
                    assert(m.queue[0] == start.job);
                } else {
                    let k = choose|k: int|
                        0 <= k < after.queue.len() && after.queue[k] == last.carried[p];
                    assert(m.queue[k + 1] == after.queue[k]);
                }
            }
            assert forall|p: usize| #[trigger]
                last.held.contains(p) && !m.held.contains(p) implies is_started(starts, p) || (
            next matches NextModel::Launch(permit, _) && permit == p) by {
                if p == start.permit {
                    assert(starts[0].permit == p);
                } else if is_started(rest, p) {
                    let k = choose|k: int| 0 <= k < rest.len() && (#[trigger] rest[k]).permit == p;
                    assert(starts[k + 1].permit == p);
                }
            }
            assert forall|i: int| 0 <= i < m.active.len() implies #[trigger] last.active[i]
                == m.active[i] by {
                assert(last.active[i] == after.active[i]);
            }
            assert forall|i: int| 0 <= i < starts.len() implies #[trigger] last.active[
            m.active.len() + i] == (starts[i].permit, m.idle[i]) by {
                if i > 0 {
                    assert(last.active[after.active.len() + (i - 1)] == (
                        rest[i - 1].permit,
                        after.idle[i - 1],
                    ));
                } else {
                    assert(last.active[m.active.len() as int] == after.active[m.active.len() as int]);
                }
            }
        },
    }
}

/// Taking the worker of a permit out of the active ones leaves the others.
proof fn lemma_finished<B, F, T>(
    m: ClusterModel<B, F, T>,
    permit: usize,
    finished_at: Nanos,
    now: Nanos,
)
    requires
        m.wf(),
        m.possible(Event::Finished(permit, finished_at, now)),
    ensures
        m.finished(permit, finished_at, now).wf(),
        !m.finished(permit, finished_at, now).is_active(permit),
        forall|other: usize|
            other != permit ==> #[trigger] m.finished(permit, finished_at, now).is_active(other)
                == m.is_active(other),
{
    let after = m.finished(permit, finished_at, now);
    if m.is_active(permit) {
        let k = m.place(permit);
        assert forall|i: int| 0 <= i < after.active.len() implies after.held.contains(
            (#[trigger] after.active[i]).0,
        ) && after.active[i].0 != permit by {
            assert(after.active[i] == if i < k {
                m.active[i]
            } else {
                m.active[i + 1]
            });
        }
        assert forall|other: usize| other != permit implies #[trigger] after.is_active(other)
            == m.is_active(other) by {
            if after.is_active(other) {
                let i = choose|i: int|
                    0 <= i < after.active.len() && (#[trigger] after.active[i]).0 == other;
                let j = if i < k {
                    i
                } else {
                    i + 1
                };
                assert(m.active[j].0 == other);
            }
            if m.is_active(other) {
                let i = choose|i: int|
                    0 <= i < m.active.len() && (#[trigger] m.active[i]).0 == other;
                let j = if i < k {
                    i
                } else {
                    i - 1
                };
                assert(after.active[j].0 == other);
            }
        }
        assert forall|p: usize| #[trigger] after.awaiting.contains(p) implies !after.is_active(
            p,
        ) by {
            assert(m.awaiting.contains(p));
        }
    }
}

/// A job that comes under the next number leaves the queue in order.
pub(crate) proof fn lemma_enqueued<B, F, T>(m: ClusterModel<B, F, T>, job: JobEntry<F, T>)
    requires
        m.wf(),
        m.has_number(),
    ensures
        m.enqueued(job).in_order(),
{
    let after = m.enqueued(job);
    let shift: int = match m.options.queue_mode {
        QueueMode::FIFO => 0,
        QueueMode::LIFO => 1,
    };
    assert forall|i: int|
        0 <= i < after.queue.len() && after.queue[i] != job.numbered(
            m.arrivals,
        ) implies #[trigger] after.queue[i] == m.queue[i - shift] by {}
    assert forall|i: int, j: int| 0 <= i < j < after.queue.len() implies m.options.queue_mode.precedes(
        (#[trigger] after.queue[i]).arrival,
        (#[trigger] after.queue[j]).arrival,
    ) by {
        if 0 <= i - shift && j - shift < m.queue.len() {
            assert(m.options.queue_mode.precedes(
                m.queue[i - shift].arrival,
                m.queue[j - shift].arrival,
            ));
        }
    }
}

/// A job that goes back to its turn leaves the queue in order.
proof fn lemma_launch_failed<B, F, T>(m: ClusterModel<B, F, T>, permit: usize)
    requires
        m.wf(),
        m.carried.contains_key(permit),
    ensures
        m.launch_failed(permit).in_order(),
        m.launch_failed(permit).queue.len() == m.queue.len() + 1,
        forall|i: int|
            crate::model::turn_of(m.options.queue_mode, m.queue, m.carried[permit]) <= i
                < m.queue.len() ==> m.options.queue_mode.precedes(
                m.carried[permit].arrival,
                (#[trigger] m.queue[i]).arrival,
            ),
{
    let mode = m.options.queue_mode;
    let job = m.carried[permit];
    let after = m.launch_failed(permit);
    let turn = crate::model::turn_of(mode, m.queue, job) as int;
    crate::model::lemma_turn(mode, m.queue, job);
    assert forall|i: int| turn <= i < m.queue.len() implies mode.precedes(
        job.arrival,
        (#[trigger] m.queue[i]).arrival,
    ) by {
        assert(m.queue[turn].arrival != job.arrival);
        if i > turn {
            assert(mode.precedes(m.queue[turn].arrival, m.queue[i].arrival));
        }
    }
    assert forall|i: int| 0 <= i < after.queue.len() implies #[trigger] after.queue[i] == if i
        < turn {
        m.queue[i]
    } else if i == turn {
        job
    } else {
        m.queue[i - 1]
    } by {}
    assert forall|i: int, j: int| 0 <= i < j < after.queue.len() implies mode.precedes(
        (#[trigger] after.queue[i]).arrival,
        (#[trigger] after.queue[j]).arrival,
    ) by {
        let a = if i < turn {
            i
        } else {
            i - 1
        };
        let b = if j < turn {
            j
        } else {
            j - 1
        };
        if i != turn && j != turn {
            assert(mode.precedes(m.queue[a].arrival, m.queue[b].arrival));
        } else if i == turn {
            assert(mode.precedes(job.arrival, m.queue[b].arrival));
        } else {
            assert(mode.precedes(m.queue[a].arrival, job.arrival));
        }
    }
    assert forall|p: usize, i: int|
        #![trigger after.carried.contains_key(p), after.queue[i]]
        after.carried.contains_key(p) && 0 <= i
            < after.queue.len() implies after.carried[p].arrival != after.queue[i].arrival by {
        assert(m.carried.contains_key(p));
        if i < turn {
            assert(after.queue[i] == m.queue[i]);
        } else if i > turn {
            assert(after.queue[i] == m.queue[i - 1]);
        }
    }
}

/// However a launch for a job ends, the cluster stays sound.
pub(crate) proof fn lemma_launch_ended<B, F, T>(m: ClusterModel<B, F, T>, permit: usize)
    requires
        m.wf(),
        m.awaiting.contains(permit),
    ensures
        forall|worker: Worker<B>| (#[trigger] m.launch_succeeded(permit, worker)).wf(),
        m.has_room() ==> m.launch_failed(permit).wf(),
        m.launch_dropped(permit).wf(),
{
    assert(m.carried.contains_key(permit));
    assert(m.held.contains(permit));
    assert forall|i: int| 0 <= i < m.active.len() implies (#[trigger] m.active[i]).0 != permit by {
        assert(!m.is_active(permit));
    }
    assert forall|worker: Worker<B>| (#[trigger] m.launch_succeeded(permit, worker)).wf() by {
        let good = m.launch_succeeded(permit, worker);
        assert forall|p: usize| #[trigger] good.awaiting.contains(p) implies !good.is_active(
            p,
        ) by {
            assert(m.awaiting.contains(p));
            if good.is_active(p) {
                let i = good.place(p);
                if i < m.active.len() {
                    assert(m.active[i].0 == p);
                }
            }
        }
    }
    let bad = m.launch_failed(permit);
    let dropped = m.launch_dropped(permit);
    assert forall|p: usize| #[trigger] bad.awaiting.contains(p) implies !bad.is_active(p)
        && !dropped.is_active(p) by {
        assert(m.awaiting.contains(p));
        assert(bad.is_active(p) ==> m.is_active(p));
        assert(dropped.is_active(p) ==> m.is_active(p));
    }
    lemma_launch_failed(m, permit);
}

/// A permit that is given back leaves the cluster sound.
pub(crate) proof fn lemma_released<B, F, T>(m: ClusterModel<B, F, T>, permit: usize)
    requires
        m.wf(),
        m.possible(Event::Concluded(permit)),
    ensures
        m.released(permit).wf(),
{
    let after = m.released(permit);
    assert forall|i: int| 0 <= i < after.active.len() implies after.held.contains(
        (#[trigger] after.active[i]).0,
    ) by {
        assert(m.active[i].0 != permit);
    }
    assert forall|p: usize| #[trigger] after.awaiting.contains(p) implies !after.is_active(p) by {
        assert(m.awaiting.contains(p));
        assert(after.is_active(p) ==> m.is_active(p));
    }
    if !m.carried.contains_key(permit) {
        assert(after.carried =~= m.carried);
    }
}

/// A job that fails leaves the cluster sound.
proof fn lemma_failed<B, F, T>(
    m: ClusterModel<B, F, T>,
    permit: usize,
    failed_at: Nanos,
)
    requires
        m.wf(),
        m.is_running(permit),
    ensures
        m.failed(permit, failed_at).wf(),
        m.retry_after(permit, failed_at) matches Some(retry) ==> m.failed(
            permit,
            failed_at,
        ).retrying.contains(retry),
{
    let after = m.failed(permit, failed_at);
    lemma_same_pool(m, after);
    if let Some(retry) = m.retry_after(permit, failed_at) {
        assert(after.retrying.len() == m.retrying.len() + 1);
        assert(after.retrying.count(retry) == m.retrying.count(retry) + 1);
    }
}

/// A job that failed and is queued again, or dropped, leaves the cluster sound.
pub(crate) proof fn lemma_returned<B, F, T>(m: ClusterModel<B, F, T>, retry: RetryModel<F, T>)
    requires
        m.wf(),
        m.retrying.contains(retry),
    ensures
        m.has_room() && m.has_number() ==> m.returned(retry).wf(),
        m.forgotten(retry).wf(),
{
    if m.has_number() {
        lemma_enqueued(m, retry.job);
    }
    lemma_same_pool(m, m.returned(retry));
    lemma_same_pool(m, m.forgotten(retry));
    assert(m.retrying.remove(retry).len() == m.retrying.len() - 1) by {
        assert(m.retrying.remove(retry).insert(retry) =~= m.retrying);
    }
}

/// What has a property and what has not are together all there is.
proof fn lemma_partition<A>(s: Seq<A>, yes: spec_fn(A) -> bool, no: spec_fn(A) -> bool)
    requires
        forall|a: A| #[trigger] no(a) == !yes(a),
    ensures
        s.filter(yes).len() + s.filter(no).len() == s.len(),
    decreases s.len(),
{
    reveal(Seq::filter);
    if s.len() > 0 {
        lemma_partition(s.drop_last(), yes, no);
    }
}

/// A cluster that differs from another in neither active workers nor launches assigns them as
/// soundly.
proof fn lemma_same_pool<B, F, T>(
    m: ClusterModel<B, F, T>,
    other: ClusterModel<B, F, T>,
)
    requires
        m.wf(),
        other.active == m.active,
        other.awaiting == m.awaiting,
    ensures
        forall|permit: usize| #[trigger]
            other.awaiting.contains(permit) ==> !other.is_active(permit),
{
    assert forall|permit: usize| #[trigger] other.awaiting.contains(
        permit,
    ) implies !other.is_active(permit) by {
        assert(m.awaiting.contains(permit));
        assert(other.is_active(permit) ==> m.is_active(permit));
    }
}

/// A round begins in a sound cluster, and what follows it is the cluster after the event.
proof fn lemma_before_round<B, F, T>(m: ClusterModel<B, F, T>, event: Event<B, F, T>)
    requires
        m.wf(),
        m.possible(event),
        m.before_round(event) is Some,
    ensures
        m.before_round(event)->0.wf(),
        m.after(event) == m.before_round(event)->0.round().0,
        round_effect(
            m.before_round(event)->0,
            m.before_round(event)->0.round().0,
            m.before_round(event)->0.round().1,
            m.before_round(event)->0.round().2,
        ),
{
    match event {
        Event::Received(job) => {
            lemma_enqueued(m, job);
            lemma_same_pool(m, m.arrived(job));
        },
        Event::Filled(results) => {
            crate::model::lemma_leading(results);
            lemma_same_pool(m, m.filled(results));
        },
        Event::BrowserClosed => {
            lemma_same_pool(m, m.browser_closed());
        },
        Event::Launched(permit, _) => {
            lemma_launch_ended(m, permit);
        },
        Event::Concluded(permit) => {
            lemma_released(m, permit);
        },
        _ => {},
    }
    lemma_round(m.before_round(event)->0);
}

/// Every step keeps what holds of a cluster at all times.
pub proof fn law_steps_keep_invariant<B, F, T>(m: ClusterModel<B, F, T>, event: Event<B, F, T>)
    requires
        m.wf(),
        m.possible(event),
    ensures
        m.after(event).wf(),
        m.after(event).options == m.options,
{
    if m.before_round(event) is Some {
        lemma_before_round(m, event);
    } else {
        match event {
            Event::Launched(permit, _) => {
                lemma_launch_ended(m, permit);
            },
            Event::Failed(permit, failed_at) => {
                lemma_failed(m, permit, failed_at);
            },
            Event::Requeued(retry, now) => {
                lemma_returned(m, retry);
            },
            Event::Finished(permit, finished_at, now) => {
                lemma_finished(m, permit, finished_at, now);
            },
            Event::Monitored(now) => {
                lemma_partition(m.idle, m.outlived(now), m.within_limits(now));
                lemma_same_pool(m, m.after(event));
            },
            Event::ShutDown => {},
            _ => {
                lemma_same_pool(m, m.after(event));
            },
        }
    }
}

/// Whatever happens to a new cluster, it keeps its settings and what holds of a cluster at all
/// times.
pub proof fn law_reachable_states_are_sound<B, F, T>(
    options: ClusterOptions,
    events: Seq<Event<B, F, T>>,
)
    requires
        options.valid(),
        ClusterModel::empty(options).possible_all(events),
    ensures
        ClusterModel::empty(options).after_all(events).wf(),
        ClusterModel::empty(options).after_all(events).options == options,
    decreases events.len(),
{
    if events.len() > 0 {
        law_reachable_states_are_sound(options, events.drop_last());
        law_steps_keep_invariant(
            ClusterModel::empty(options).after_all(events.drop_last()),
            events.last(),
        );
    }
}

/// The queue is never longer than it may be, whatever happens: not when jobs come, not when they
/// are tried again, and not when their browsers cannot be launched.
pub proof fn law_queue_is_limited<B, F, T>(options: ClusterOptions, events: Seq<Event<B, F, T>>)
    requires
        options.valid(),
        ClusterModel::empty(options).possible_all(events),
    ensures
        options.max_queue_size matches Some(most) ==> ClusterModel::empty(options).after_all(
            events,
        ).queue.len() <= most,
{
    law_reachable_states_are_sound(options, events);
}

/// Jobs wait in their turn, whatever happens, launches that fail one after the other or all at once
/// included: along the queue the numbers under which the jobs came rise if the mode is first in,
/// first out, and fall if it is last in, first out.
pub proof fn law_waiting_jobs_keep_their_turn<B, F, T>(
    options: ClusterOptions,
    events: Seq<Event<B, F, T>>,
)
    requires
        options.valid(),
        ClusterModel::empty(options).possible_all(events),
    ensures
        ({
            let queue = ClusterModel::<B, F, T>::empty(options).after_all(events).queue;
            forall|i: int, j: int|
                0 <= i < j < queue.len() ==> match options.queue_mode {
                    QueueMode::FIFO => (#[trigger] queue[i]).arrival < (#[trigger] queue[j]).arrival,
                    QueueMode::LIFO => queue[i].arrival > queue[j].arrival,
                }
        }),
{
    law_reachable_states_are_sound(options, events);
}

/// Jobs are taken from the queue in their turn, whatever happens: those that an event takes run
/// before every job that goes on waiting, and are taken in the order in which they run.
pub proof fn law_jobs_are_served_in_turn<B, F, T>(
    m: ClusterModel<B, F, T>,
    event: Event<B, F, T>,
)
    requires
        m.wf(),
        m.possible(event),
    ensures
        forall|i: int, j: int|
            0 <= i < m.served(event).len() && 0 <= j < m.after(event).queue.len()
                ==> m.options.queue_mode.precedes(
                (#[trigger] m.served(event)[i]).arrival,
                (#[trigger] m.after(event).queue[j]).arrival,
            ),
        forall|i: int, j: int|
            0 <= i < j < m.served(event).len() ==> m.options.queue_mode.precedes(
                (#[trigger] m.served(event)[i]).arrival,
                (#[trigger] m.served(event)[j]).arrival,
            ),
{
    if m.before_round(event) is Some {
        lemma_before_round(m, event);
        let ready = m.before_round(event)->0;
        law_round_serves_the_front(ready);
        let served = m.served(event);
        let rest = m.after(event).queue;
        assert forall|i: int, j: int|
            0 <= i < served.len() && 0 <= j < rest.len() implies m.options.queue_mode.precedes(
            (#[trigger] served[i]).arrival,
            (#[trigger] rest[j]).arrival,
        ) by {
            assert(ready.queue[i] == served[i]);
            assert(ready.queue[served.len() + j] == rest[j]);
        }
        assert forall|i: int, j: int|
            0 <= i < j < served.len() implies m.options.queue_mode.precedes(
            (#[trigger] served[i]).arrival,
            (#[trigger] served[j]).arrival,
        ) by {
            assert(ready.queue[i] == served[i]);
            assert(ready.queue[j] == served[j]);
        }
    }
}

/// The number of a job is its place in the order in which jobs come to the queue, and a job keeps
/// it: over any course of events, the jobs that come are numbered from zero, and every job that
/// waits or holds a permit is the one that came under its number.
pub proof fn law_numbers_tell_the_order_of_coming<B, F, T>(
    options: ClusterOptions,
    events: Seq<Event<B, F, T>>,
)
    requires
        options.valid(),
        ClusterModel::empty(options).possible_all(events),
    ensures
        ({
            let new = ClusterModel::<B, F, T>::empty(options);
            let m = new.after_all(events);
            let came = new.came_in_all(events);
            &&& came.len() == m.arrivals
            &&& forall|i: int| 0 <= i < came.len() ==> (#[trigger] came[i]).arrival == i
            &&& forall|i: int|
                0 <= i < m.queue.len() ==> (#[trigger] m.queue[i]).arrival < came.len()
                    && came[m.queue[i].arrival as int] == m.queue[i]
            &&& forall|p: usize| #[trigger]
                m.carried.contains_key(p) ==> m.carried[p].arrival < came.len()
                    && came[m.carried[p].arrival as int] == m.carried[p]
        }),
    decreases events.len(),
{
    if events.len() > 0 {
        let new = ClusterModel::<B, F, T>::empty(options);
        let earlier = events.drop_last();
        let event = events.last();
        let before = new.after_all(earlier);
        let m = new.after_all(events);
        let old_came = new.came_in_all(earlier);
        let came = new.came_in_all(events);
        law_numbers_tell_the_order_of_coming(options, earlier);
        law_reachable_states_are_sound(options, earlier);
        law_queue_is_served_in_order(before, event);
        if before.before_round(event) is Some {
            lemma_before_round(before, event);
        }
        let line = before.line(event);
        assert forall|i: int| 0 <= i < line.len() implies (#[trigger] line[i]).arrival < came.len()
            && came[line[i].arrival as int] == line[i] by {
            lemma_line(before, event, i);
            if before.queue.contains(line[i]) {
                let k = choose|k: int| 0 <= k < before.queue.len() && before.queue[k] == line[i];
                assert(old_came[before.queue[k].arrival as int] == before.queue[k]);
            }
        }
        assert forall|i: int| 0 <= i < m.queue.len() implies (#[trigger] m.queue[i]).arrival
            < came.len() && came[m.queue[i].arrival as int] == m.queue[i] by {
            assert(line[before.served(event).len() + i] == m.queue[i]);
        }
        assert forall|p: usize| #[trigger]
            m.carried.contains_key(p) implies m.carried[p].arrival < came.len()
            && came[m.carried[p].arrival as int] == m.carried[p] by {
            if before.carried.contains_key(p) && before.carried[p] == m.carried[p] {
                assert(old_came[before.carried[p].arrival as int] == before.carried[p]);
            } else {
                lemma_newly_carried(before, event, p);
                let k = choose|k: int| 0 <= k < line.len() && line[k] == m.carried[p];
                assert(came[line[k].arrival as int] == line[k]);
            }
        }
    }
}

/// A job that an event finds in the queue or adds to it was there before, comes with the event, or
/// was left without a browser.
proof fn lemma_line<B, F, T>(m: ClusterModel<B, F, T>, event: Event<B, F, T>, i: int)
    requires
        m.wf(),
        m.possible(event),
        0 <= i < m.line(event).len(),
    ensures
        ({
            let job = m.line(event)[i];
            ||| m.queue.contains(job)
            ||| m.came(event) == seq![job]
            ||| event matches Event::Launched(permit, Err(_)) && m.carried.contains_key(permit)
                && m.carried[permit] == job
        }),
{
    let mode = m.options.queue_mode;
    let job = m.line(event)[i];
    let none = Seq::<JobEntry<F, T>>::empty();
    assert(mode.added_all(m.queue, none) == m.queue);
    if m.came(event).len() > 0 {
        lemma_added_one(mode, m.queue, m.came(event)[0]);
        assert(m.came(event) =~= seq![m.came(event)[0]]);
    } else {
        assert(m.came(event) =~= none);
    }
    let old_place = match event {
        Event::Launched(permit, Err(_)) => if m.has_room() {
            let turn = crate::model::turn_of(mode, m.queue, m.carried[permit]) as int;
            crate::model::lemma_turn(mode, m.queue, m.carried[permit]);
            if i < turn {
                i
            } else if i == turn {
                -1
            } else {
                i - 1
            }
        } else {
            i
        },
        _ => if m.came(event).len() > 0 && mode == QueueMode::LIFO {
            i - 1
        } else {
            i
        },
    };
    if 0 <= old_place < m.queue.len() {
        assert(m.queue[old_place] == job);
    }
}

/// No job is lost: over any course of events, each job that was accepted, and that the task channel
/// took, has ended, was dropped because the cluster is closed, or is counted as not ended. An open
/// cluster has dropped none.
pub proof fn law_no_job_is_lost<B, F, T>(options: ClusterOptions, events: Seq<Event<B, F, T>>)
    requires
        options.valid(),
        ClusterModel::empty(options).possible_all(events),
    ensures
        ({
            let new = ClusterModel::empty(options);
            let m = new.after_all(events);
            &&& new.accepted_in_all(events) == new.ended_in_all(events) + new.dropped_in_all(events)
                + m.unended
            &&& !m.closed ==> new.dropped_in_all(events) == 0
        }),
    decreases events.len(),
{
    if events.len() > 0 {
        let earlier = events.drop_last();
        let event = events.last();
        let before = ClusterModel::empty(options).after_all(earlier);
        law_no_job_is_lost(options, earlier);
        law_reachable_states_are_sound(options, earlier);
        if before.closed {
            law_closed_for_good(before, event);
        }
        if before.before_round(event) is Some {
            lemma_before_round(before, event);
        }
        if let Event::Requeued(retry, _) = event {
            lemma_returned(before, retry);
        }
    }
}

/// A wait for an open cluster is over only when every job that was accepted, and that the task
/// channel took, has ended: none is on its way to the queue, none waits in it, none is to be tried
/// again, none waits for its browser and none runs. And then the wait is over, as soon as no worker
/// is active.
pub proof fn law_wait_lasts_until_all_ended<B, F, T>(
    options: ClusterOptions,
    events: Seq<Event<B, F, T>>,
)
    requires
        options.valid(),
        ClusterModel::empty(options).possible_all(events),
        !ClusterModel::empty(options).after_all(events).closed,
    ensures
        ({
            let new = ClusterModel::empty(options);
            let m = new.after_all(events);
            &&& m.all_done() <==> new.accepted_in_all(events) == new.ended_in_all(events)
                && m.active.len() == 0
            &&& m.all_done() ==> {
                &&& m.accepted == 0
                &&& m.retrying.len() == 0
                &&& m.queue.len() == 0
                &&& m.carried.len() == 0
                &&& m.awaiting.len() == 0
                &&& m.active.len() == 0
            }
        }),
{
    law_no_job_is_lost(options, events);
    law_reachable_states_are_sound(options, events);
    let m = ClusterModel::empty(options).after_all(events);
    vstd::set_lib::lemma_len_subset(m.awaiting, m.carried.dom());
}

/// A wait for a closed cluster is over at once when no job is in its queue.
pub proof fn law_closed_cluster_is_not_waited_for<B, F, T>(m: ClusterModel<B, F, T>)
    ensures
        m.shut_down().all_done() <==> m.queue.len() == 0,
{
}

/// A job that fails either is to be tried again, and goes on being counted as not ended, or has
/// used up its retries, and ends when it gives back its permit.
pub proof fn law_failed_job_is_tried_again_or_ends<B, F, T>(
    m: ClusterModel<B, F, T>,
    permit: usize,
    failed_at: Nanos,
)
    requires
        m.wf(),
        m.is_running(permit),
    ensures
        ({
            let after = m.failed(permit, failed_at);
            &&& after.unended == m.unended
            &&& after.ends_job(Event::Concluded(permit)) <==> m.carried[permit].retries
                >= m.options.retry_limit
            &&& m.retry_after(permit, failed_at) matches Some(retry) ==> {
                &&& after.retrying.contains(retry)
                &&& retry.job.task == m.carried[permit].task
                &&& retry.job.data == m.carried[permit].data
                &&& retry.job.retries == m.carried[permit].retries + 1
            }
        }),
{
    lemma_failed(m, permit, failed_at);
}

/// A span that has passed between two readings of a clock separates them by that much. No time at
/// all has always passed.
pub proof fn law_passed_means_later(span: Nanos, from: Nanos, to: Nanos)
    ensures
        has_passed(span, from, to) <==> span == 0 || to >= from + span,
{
}

/// Where the jobs come from: a job that was tried before and that is in the queue or holds a permit
/// was queued again after it failed and waited; and a job that is to be tried again has failed.
spec fn retries_waited<B, F, T>(new: ClusterModel<B, F, T>, events: Seq<Event<B, F, T>>) -> bool {
    let m = new.after_all(events);
    &&& forall|i: int|
        0 <= i < m.queue.len() && (#[trigger] m.queue[i]).retries > 0 ==> new.was_retried(
            events,
            m.queue[i],
        )
    &&& forall|p: usize| #[trigger]
        m.carried.contains_key(p) && m.carried[p].retries > 0 ==> new.was_retried(
            events,
            m.carried[p],
        )
    &&& forall|retry: RetryModel<F, T>| #[trigger]
        m.retrying.contains(retry) ==> exists|place: int| new.failed_into(events, place, retry)
}

/// A job that is to be tried again was to be tried again before the event, or fails with it.
proof fn lemma_still_retrying<B, F, T>(
    m: ClusterModel<B, F, T>,
    event: Event<B, F, T>,
    retry: RetryModel<F, T>,
)
    requires
        m.wf(),
        m.possible(event),
        m.after(event).retrying.contains(retry),
        !m.retrying.contains(retry),
    ensures
        event matches Event::Failed(permit, failed_at) && m.retry_after(permit, failed_at) == Some(
            retry,
        ),
{
    if m.before_round(event) is Some {
        lemma_before_round(m, event);
    }
}

/// A failure stays where it is when one more event happens.
proof fn lemma_failed_later<B, F, T>(
    new: ClusterModel<B, F, T>,
    events: Seq<Event<B, F, T>>,
    place: int,
    retry: RetryModel<F, T>,
)
    requires
        events.len() > 0,
        new.failed_into(events.drop_last(), place, retry),
    ensures
        new.failed_into(events, place, retry),
{
    assert(events.drop_last().take(place) =~= events.take(place));
}

/// A job that was queued again stays so when one more event happens.
proof fn lemma_retried_later<B, F, T>(
    new: ClusterModel<B, F, T>,
    events: Seq<Event<B, F, T>>,
    job: JobEntry<F, T>,
)
    requires
        events.len() > 0,
        new.was_retried(events.drop_last(), job),
    ensures
        new.was_retried(events, job),
{
    let before = events.drop_last();
    let (place, retry) = choose|place: int, retry: RetryModel<F, T>|
        retry.job.numbered(job.arrival) == job && #[trigger] new.waited_for(before, place, retry);
    let earlier = choose|earlier: int|
        earlier < place && #[trigger] new.failed_into(before, earlier, retry);
    lemma_failed_later(new, events, earlier, retry);
    assert(new.waited_for(events, place, retry));
}

/// A job that was tried before and that an event finds in the queue or adds to it was queued again
/// after it failed and waited.
proof fn lemma_line_waited<B, F, T>(
    new: ClusterModel<B, F, T>,
    events: Seq<Event<B, F, T>>,
    i: int,
)
    requires
        events.len() > 0,
        new.after_all(events.drop_last()).wf(),
        new.after_all(events.drop_last()).options == new.options,
        new.after_all(events.drop_last()).possible(events.last()),
        retries_waited(new, events.drop_last()),
        0 <= i < new.after_all(events.drop_last()).line(events.last()).len(),
        new.after_all(events.drop_last()).line(events.last())[i].retries > 0,
    ensures
        new.was_retried(events, new.after_all(events.drop_last()).line(events.last())[i]),
{
    let before = events.drop_last();
    let event = events.last();
    let m = new.after_all(before);
    let job = m.line(event)[i];
    if let Event::Requeued(retry, now) = event {
        if m.retry_is_due(retry, now) && m.has_room() && job == retry.job.numbered(m.arrivals) {
            let earlier = choose|place: int| new.failed_into(before, place, retry);
            lemma_failed_later(new, events, earlier, retry);
            assert(new.waited_for(events, events.len() - 1, retry));
            assert(new.was_retried(events, job));
        }
    }
    if !new.was_retried(events, job) {
        lemma_line(m, event, i);
        if m.queue.contains(job) {
            let k = choose|k: int| 0 <= k < m.queue.len() && m.queue[k] == job;
            assert(m.queue[k].retries > 0);
        } else if m.came(event) == seq![job] {
            assert(m.came(event)[0] == job);
            assert(seq![job].len() == 1);
            assert(event matches Event::Received(fresh) ==> job == fresh.numbered(m.arrivals));
            assert(event matches Event::Requeued(retry, _) ==> job == retry.job.numbered(
                m.arrivals,
            ));
        }
        lemma_retried_later(new, events, job);
    }
}

/// A job that comes to hold a permit comes from the queue.
proof fn lemma_newly_carried<B, F, T>(
    m: ClusterModel<B, F, T>,
    event: Event<B, F, T>,
    permit: usize,
)
    requires
        m.wf(),
        m.possible(event),
        m.after(event).carried.contains_key(permit),
        !(m.carried.contains_key(permit) && m.carried[permit] == m.after(event).carried[permit]),
    ensures
        m.line(event).contains(m.after(event).carried[permit]),
{
    let mode = m.options.queue_mode;
    let none = Seq::<JobEntry<F, T>>::empty();
    assert(mode.added_all(m.queue, none) == m.queue);
    if m.before_round(event) is Some {
        lemma_before_round(m, event);
        let ready = m.before_round(event)->0;
        if let Event::Received(job) = event {
            lemma_added_one(mode, m.queue, job.numbered(m.arrivals));
        }
        assert(ready.queue == m.line(event));
        assert(!ready.carried.contains_key(permit));
    }
}

/// The jobs that are tried again are accounted for over any course of events.
proof fn lemma_retries_waited<B, F, T>(options: ClusterOptions, events: Seq<Event<B, F, T>>)
    requires
        options.valid(),
        ClusterModel::empty(options).possible_all(events),
    ensures
        retries_waited(ClusterModel::<B, F, T>::empty(options), events),
    decreases events.len(),
{
    let new = ClusterModel::<B, F, T>::empty(options);
    let m = new.after_all(events);
    if events.len() > 0 {
        let earlier = events.drop_last();
        let event = events.last();
        let before = new.after_all(earlier);
        law_reachable_states_are_sound(options, earlier);
        lemma_retries_waited(options, earlier);
        assert forall|retry: RetryModel<F, T>| #[trigger]
            m.retrying.contains(retry) implies exists|place: int|
            new.failed_into(events, place, retry) by {
            if before.retrying.contains(retry) {
                let place = choose|place: int| new.failed_into(earlier, place, retry);
                lemma_failed_later(new, events, place, retry);
            } else {
                lemma_still_retrying(before, event, retry);
                assert(events.take(events.len() - 1) =~= earlier);
                assert(new.failed_into(events, events.len() - 1, retry));
            }
        }
        law_queue_is_served_in_order(before, event);
        let line = before.line(event);
        let served = before.served(event);
        assert forall|i: int|
            0 <= i < m.queue.len() && (#[trigger] m.queue[i]).retries
                > 0 implies new.was_retried(events, m.queue[i]) by {
            assert(line[served.len() + i] == m.queue[i]);
            lemma_line_waited(new, events, served.len() + i);
        }
        assert forall|p: usize| #[trigger]
            m.carried.contains_key(p) && m.carried[p].retries > 0 implies new.was_retried(
            events,
            m.carried[p],
        ) by {
            if before.carried.contains_key(p) && before.carried[p] == m.carried[p] {
                lemma_retried_later(new, events, m.carried[p]);
            } else {
                lemma_newly_carried(before, event, p);
                let i = choose|i: int| 0 <= i < line.len() && line[i] == m.carried[p];
                lemma_line_waited(new, events, i);
            }
        }
    }
}

/// A job is tried again only after the delay: over any course of events, a job that an event takes
/// from the queue, and that was tried before, was put there by an earlier event (or the same), at a
/// moment at which the delay had passed since a failure of the job, which is an event before that.
pub proof fn law_retries_wait_for_the_delay<B, F, T>(
    options: ClusterOptions,
    events: Seq<Event<B, F, T>>,
    job: JobEntry<F, T>,
)
    requires
        options.valid(),
        ClusterModel::empty(options).possible_all(events),
        events.len() > 0,
        ClusterModel::empty(options).after_all(events.drop_last()).served(events.last()).contains(
            job,
        ),
        job.retries > 0,
    ensures
        ClusterModel::<B, F, T>::empty(options).was_retried(events, job),
{
    let new = ClusterModel::<B, F, T>::empty(options);
    let before = new.after_all(events.drop_last());
    law_reachable_states_are_sound(options, events.drop_last());
    lemma_retries_waited(options, events.drop_last());
    law_queue_is_served_in_order(before, events.last());
    let served = before.served(events.last());
    let i = choose|i: int| 0 <= i < served.len() && served[i] == job;
    assert(before.line(events.last())[i] == job);
    lemma_line_waited(new, events, i);
}

/// A monitor that waits does so since the last event with which it began to wait.
proof fn lemma_waits_from<B, F, T>(options: ClusterOptions, events: Seq<Event<B, F, T>>)
    requires
        options.valid(),
        ClusterModel::empty(options).possible_all(events),
    ensures
        ClusterModel::<B, F, T>::empty(options).after_all(events).watch matches WatchModel::Since(
            since,
        ) ==> exists|place: int| waits_from(events, place, since),
    decreases events.len(),
{
    let new = ClusterModel::<B, F, T>::empty(options);
    if events.len() > 0 {
        let earlier = events.drop_last();
        let event = events.last();
        let before = new.after_all(earlier);
        lemma_waits_from(options, earlier);
        law_reachable_states_are_sound(options, earlier);
        if before.before_round(event) is Some {
            lemma_before_round(before, event);
        }
        if let WatchModel::Since(since) = new.after_all(events).watch {
            if event is WatchStarted || event is PassEnded {
                assert(waits_from(events, events.len() - 1, since));
            } else {
                assert(before.watch == WatchModel::Since(since));
                let place = choose|place: int| waits_from(earlier, place, since);
                assert(events[place] == earlier[place]);
                assert forall|later: int| place < later < events.len() implies !((
                #[trigger] events[later]) is WatchStarted) && !(events[later] is PassEnded) by {
                    if later < earlier.len() {
                        assert(events[later] == earlier[later]);
                    }
                }
                assert(waits_from(events, place, since));
            }
        }
    }
}

/// The monitor keeps its interval: over any course of events, a pass begins only at a moment at
/// which the interval has passed since the monitor was started or since the last pass was over,
/// whichever is later.
pub proof fn law_monitor_keeps_its_interval<B, F, T>(
    options: ClusterOptions,
    events: Seq<Event<B, F, T>>,
    now: Nanos,
)
    requires
        options.valid(),
        ClusterModel::empty(options).possible_all(events.push(Event::Monitored(now))),
        ClusterModel::<B, F, T>::empty(options).after_all(
            events.push(Event::Monitored(now)),
        ).watch is Pass,
    ensures
        exists|place: int, since: Nanos| #[trigger]
            waits_from(events, place, since) && has_passed(options.monitor_interval, since, now),
{
    let new = ClusterModel::<B, F, T>::empty(options);
    let all = events.push(Event::Monitored(now));
    assert(all.drop_last() =~= events);
    lemma_waits_from(options, events);
    law_reachable_states_are_sound(options, events);
    let since = new.after_all(events).watch->Since_0;
    let place = choose|place: int| waits_from(events, place, since);
    assert(waits_from(events, place, since));
}

/// The monitor goes on for as long as the cluster is open, whatever happens, failed launches for
/// the idle pool included: it stops only when it looks at the time of a closed cluster.
pub proof fn law_monitor_goes_on<B, F, T>(m: ClusterModel<B, F, T>, event: Event<B, F, T>)
    requires
        m.wf(),
        m.possible(event),
        m.watch !is Off,
        !m.closed,
    ensures
        m.after(event).watch !is Off,
        event matches Event::PassEnded(now) ==> m.after(event).watch == WatchModel::Since(now),
        event matches Event::Monitored(now) ==> {
            &&& m.after(event).watch is Pass <==> has_passed(
                m.options.monitor_interval,
                m.watch->Since_0,
                now,
            )
            &&& m.after(event).watch is Pass ==> m.after(event).idle == m.swept(now).idle
        },
{
    if m.before_round(event) is Some {
        lemma_before_round(m, event);
    }
}

/// No more jobs hold a worker, or wait for one to be launched for them, than may run at a time.
pub proof fn law_concurrency_is_limited<B, F, T>(m: ClusterModel<B, F, T>)
    requires
        m.wf(),
    ensures
        m.active.len() + m.awaiting.len() <= m.held.len() <= m.options.concurrency,
{
    let permits = Seq::new(m.active.len(), |i: int| m.active[i].0);
    assert(permits.no_duplicates()) by {
        assert forall|i: int, j: int|
            0 <= i < permits.len() && 0 <= j < permits.len() && i != j implies permits[i]
            != permits[j] by {
            if i < j {
                assert(m.active[i].0 != m.active[j].0);
            } else {
                assert(m.active[j].0 != m.active[i].0);
            }
        }
    }
    permits.unique_seq_to_set();
    vstd::seq_lib::seq_to_set_is_finite(permits);
    let busy = permits.to_set();
    assert forall|p: usize| busy.contains(p) implies m.is_active(p) && m.held.contains(p) by {
        let i = choose|i: int| 0 <= i < permits.len() && permits[i] == p;
        assert(m.active[i].0 == p);
    }
    assert(busy.disjoint(m.awaiting));
    vstd::set_lib::lemma_set_disjoint_lens(busy, m.awaiting);
    assert((busy + m.awaiting).subset_of(m.held));
    vstd::set_lib::lemma_len_subset(busy + m.awaiting, m.held);
}

/// No more browsers exist than may: those that are idle, that run a job, that are being launched
/// and that are being closed are together no more than the limit.
pub proof fn law_browsers_are_limited<B, F, T>(m: ClusterModel<B, F, T>)
    requires
        m.wf(),
    ensures
        m.idle.len() + m.active.len() + m.awaiting.len() + m.filling + m.closing
            <= m.worker_count <= m.options.max_concurrent_browsers,
{
}

/// The count of browsers stays exact, unless the cluster is closed, which hands its browsers over
/// and leaves them counted, or launches for the idle pool fail before the last one, which drops
/// the later ones and leaves them counted.
pub proof fn law_count_stays_exact<B, F, T>(m: ClusterModel<B, F, T>, event: Event<B, F, T>)
    requires
        m.wf(),
        m.possible(event),
        m.count_is_exact(),
        event !is ShutDown,
        event !is Drained,
        event matches Event::Filled(results) ==> results.len() <= crate::model::leading(results) + 1,
    ensures
        m.after(event).count_is_exact(),
{
    law_steps_keep_invariant(m, event);
    if m.before_round(event) is Some {
        lemma_before_round(m, event);
    }
    match event {
        Event::Filled(results) => {
            crate::model::lemma_leading(results);
        },
        Event::Monitored(now) => {
            lemma_partition(m.idle, m.outlived(now), m.within_limits(now));
        },
        _ => {},
    }
}

/// A cluster that was closed stays closed.
pub proof fn law_closed_for_good<B, F, T>(m: ClusterModel<B, F, T>, event: Event<B, F, T>)
    requires
        m.wf(),
        m.possible(event),
        m.closed,
    ensures
        m.after(event).closed,
{
    if m.before_round(event) is Some {
        lemma_before_round(m, event);
    }
}

/// A closed cluster takes no job from its queue and refuses every new one.
pub proof fn law_closed_cluster_starts_nothing<B, F, T>(m: ClusterModel<B, F, T>)
    requires
        m.closed,
    ensures
        m.round() == (m, Seq::<StartModel<F, T>>::empty(), NextModel::<F, T>::Done),
        m.refusal() == Some(ErrorModel::cluster_closed()),
{
}

/// A cluster that was closed is left alone, whatever happens later: it stays closed, refuses every
/// new job, and takes no job from its queue. The jobs that wait stay there.
pub proof fn law_closed_cluster_is_left_alone<B, F, T>(
    m: ClusterModel<B, F, T>,
    events: Seq<Event<B, F, T>>,
)
    requires
        m.wf(),
        m.closed,
        m.possible_all(events),
    ensures
        m.after_all(events).wf(),
        m.after_all(events).closed,
        m.after_all(events).refusal() == Some(ErrorModel::cluster_closed()),
        m.served_in_all(events) == Seq::<JobEntry<F, T>>::empty(),
        forall|i: int|
            0 <= i < m.queue.len() ==> m.after_all(events).queue.contains(#[trigger] m.queue[i]),
    decreases events.len(),
{
    if events.len() > 0 {
        let earlier = events.drop_last();
        let event = events.last();
        let before = m.after_all(earlier);
        let after = m.after_all(events);
        law_closed_cluster_is_left_alone(m, earlier);
        law_steps_keep_invariant(before, event);
        law_closed_for_good(before, event);
        if before.before_round(event) is Some {
            lemma_before_round(before, event);
            law_closed_cluster_starts_nothing(before.before_round(event)->0);
        }
        assert(before.served(event) =~= Seq::<JobEntry<F, T>>::empty());
        law_queue_is_served_in_order(before, event);
        assert(before.line(event) =~= after.queue);
        assert forall|i: int| 0 <= i < m.queue.len() implies after.queue.contains(
            #[trigger] m.queue[i],
        ) by {
            lemma_line_keeps(before, event, m.queue[i]);
        }
    }
}

/// An event takes no job out of the queue before its round.
proof fn lemma_line_keeps<B, F, T>(
    m: ClusterModel<B, F, T>,
    event: Event<B, F, T>,
    job: JobEntry<F, T>,
)
    requires
        m.wf(),
        m.possible(event),
        m.queue.contains(job),
    ensures
        m.line(event).contains(job),
{
    let mode = m.options.queue_mode;
    let line = m.line(event);
    let none = Seq::<JobEntry<F, T>>::empty();
    assert(mode.added_all(m.queue, none) == m.queue);
    if m.came(event).len() > 0 {
        lemma_added_one(mode, m.queue, m.came(event)[0]);
        assert(m.came(event) =~= seq![m.came(event)[0]]);
    } else {
        assert(m.came(event) =~= none);
    }
    let k = choose|k: int| 0 <= k < m.queue.len() && m.queue[k] == job;
    let place = match event {
        Event::Launched(permit, Err(_)) => {
            let turn = crate::model::turn_of(mode, m.queue, m.carried[permit]) as int;
            crate::model::lemma_turn(mode, m.queue, m.carried[permit]);
            if m.has_room() && turn <= k {
                k + 1
            } else {
                k
            }
        },
        _ => if m.came(event).len() > 0 && mode == QueueMode::LIFO {
            k + 1
        } else {
            k
        },
    };
    assert(line[place] == job);
}

/// The monitor of a closed cluster stops when it is next due, and changes nothing: from then on, and
/// before, it retires no worker and asks for no browser.
pub proof fn law_monitor_of_a_closed_cluster_stops<B, F, T>(m: ClusterModel<B, F, T>, now: Nanos)
    requires
        m.closed,
        m.watch is Since,
    ensures
        ({
            let since = m.watch->Since_0;
            let after = m.after(Event::Monitored(now));
            &&& m.look(since, now) !is Sweep
            &&& has_passed(m.options.monitor_interval, since, now) ==> m.look(since, now) is Stop
            &&& after == (ClusterModel { watch: after.watch, ..m })
            &&& after.watch is Off <==> has_passed(m.options.monitor_interval, since, now)
        }),
{
}

/// Closing the cluster leaves no active worker in it, and handing over the idle ones leaves no
/// worker at all. The jobs that wait stay where they are.
pub proof fn law_closing_empties_the_pool<B, F, T>(m: ClusterModel<B, F, T>)
    ensures
        m.shut_down().closed,
        m.shut_down().active.len() == 0,
        m.shut_down().idle == m.idle,
        m.shut_down().queue == m.queue,
        m.shut_down().drained().active.len() == 0,
        m.shut_down().drained().idle.len() == 0,
        m.shut_down().drained().queue == m.queue,
{
}

/// A round serves the queue from the front, and loses no job: the jobs that it takes and the jobs
/// that go on waiting are together the queue, in order.
pub proof fn law_round_serves_the_front<B, F, T>(m: ClusterModel<B, F, T>)
    requires
        m.wf(),
    ensures
        m.queue == m.taken_by_round() + m.round().0.queue,
{
    lemma_round(m);
    assert(m.queue =~= m.taken_by_round() + m.round().0.queue);
}

/// No step loses a job or serves one out of turn: what a step takes from the queue and what goes
/// on waiting after it are together the queue with what the step added, in order.
pub proof fn law_queue_is_served_in_order<B, F, T>(m: ClusterModel<B, F, T>, event: Event<B, F, T>)
    requires
        m.wf(),
        m.possible(event),
    ensures
        m.line(event) == m.served(event) + m.after(event).queue,
{
    let mode = m.options.queue_mode;
    let none = Seq::<JobEntry<F, T>>::empty();
    assert(mode.added_all(m.queue, none) == m.queue);
    assert(none + m.after(event).queue =~= m.after(event).queue);
    if m.came(event).len() > 0 {
        lemma_added_one(mode, m.queue, m.came(event)[0]);
        assert(m.came(event) =~= seq![m.came(event)[0]]);
    } else {
        assert(m.came(event) =~= none);
    }
    if m.before_round(event) is Some {
        lemma_before_round(m, event);
        law_round_serves_the_front(m.before_round(event)->0);
    }
}

proof fn lemma_added_one<J>(mode: QueueMode, queue: Seq<J>, job: J)
    ensures
        mode.added_all(queue, seq![job]) == mode.added(queue, job),
{
    let one = seq![job];
    assert(one.drop_last() =~= Seq::<J>::empty());
    assert(mode.added_all(queue, one.drop_last()) == queue);
}

/// First in, first out: over any course of events in which no launch for a job fails, and so no job
/// is taken twice, jobs are taken from the queue in exactly the order in which they came into it.
/// What holds of the order in every course is [`law_waiting_jobs_keep_their_turn`] and
/// [`law_jobs_are_served_in_turn`].
pub proof fn law_first_in_first_out<B, F, T>(m: ClusterModel<B, F, T>, events: Seq<Event<B, F, T>>)
    requires
        m.wf(),
        m.options.queue_mode == QueueMode::FIFO,
        m.possible_all(events),
        forall|i: int|
            0 <= i < events.len() ==> !((#[trigger] events[i]) matches Event::Launched(_, Err(_))),
    ensures
        m.after_all(events).wf(),
        m.after_all(events).options == m.options,
        m.served_in_all(events) + m.after_all(events).queue == m.queue + m.came_in_all(events),
    decreases events.len(),
{
    if events.len() == 0 {
        assert(m.served_in_all(events) + m.queue =~= m.queue + m.came_in_all(events));
    } else {
        let earlier = events.drop_last();
        let event = events.last();
        let before = m.after_all(earlier);
        assert forall|i: int| 0 <= i < earlier.len() implies !((
        #[trigger] earlier[i]) matches Event::Launched(_, Err(_))) by {
            assert(earlier[i] == events[i]);
        }
        law_first_in_first_out(m, earlier);
        law_steps_keep_invariant(before, event);
        law_queue_is_served_in_order(before, event);
        law_fifo_keeps_order(before.queue, before.came(event));
        assert(event == events[events.len() - 1]);
        assert(before.line(event) == before.queue + before.came(event));
        let served = m.served_in_all(earlier);
        let came = m.came_in_all(earlier);
        assert((served + before.served(event)) + before.after(event).queue =~= served + (
        before.served(event) + before.after(event).queue));
        assert(served + (before.queue + before.came(event)) =~= (served + before.queue)
            + before.came(event));
        assert((m.queue + came) + before.came(event) =~= m.queue + (came + before.came(event)));
    }
}

/// A round starts as many jobs as it can. It ends only when the cluster is closed, when no job
/// waits, when no permit is left, or when no worker is idle; and in the last case it asks for
/// another browser unless no more may exist.
pub proof fn law_round_starts_what_it_can<B, F, T>(m: ClusterModel<B, F, T>)
    requires
        m.wf(),
    ensures
        ({
            let (last, starts, next) = m.round();
            match next {
                NextModel::Done => last.closed || last.queue.len() == 0 || last.held.len()
                    == last.options.concurrency,
                NextModel::NoWorker(error) => last.idle.len() == 0 && last.worker_count
                    == last.options.max_concurrent_browsers && error == ErrorModel::max_browsers(),
                NextModel::Launch(permit, job) => last.idle.len() == 0 && last.awaiting.contains(
                    permit,
                ) && last.carried[permit] == job,
                NextModel::Relaunch(_, _, _) => false,
            }
        }),
{
    lemma_round(m);
}

/// No job waits for what is there: after every event that ends with a round, be it that a browser is
/// closed or that browsers for the idle pool were launched, no job waits, or no permit is free, or
/// no worker is idle and no more browsers may exist, or a browser is being launched for the job that
/// was next; unless the cluster is closed.
pub proof fn law_no_job_waits_in_vain<B, F, T>(m: ClusterModel<B, F, T>, event: Event<B, F, T>)
    requires
        m.wf(),
        m.possible(event),
        m.before_round(event) is Some,
    ensures
        ({
            let after = m.after(event);
            let next = m.before_round(event)->0.round().2;
            ||| after.closed
            ||| after.queue.len() == 0
            ||| after.held.len() == after.options.concurrency
            ||| after.idle.len() == 0 && after.worker_count
                == after.options.max_concurrent_browsers
            ||| next matches NextModel::Launch(permit, _) && after.awaiting.contains(permit)
                && !m.awaiting.contains(permit)
        }),
{
    lemma_before_round(m, event);
    if let Event::Launched(permit, Ok(worker)) = event {
        assert(m.held.contains(permit));
    }
    let ready = m.before_round(event)->0;
    if let NextModel::Launch(permit, _) = ready.round().2 {
        if let Event::Concluded(other) = event {
            assert(!m.awaiting.contains(other));
        }
    }
}

/// A place that is freed is used: when a browser is closed, or a worker comes to the idle pool, the
/// round that follows starts the job that is next, or asks for a browser for it, if a permit is
/// free and the cluster open.
pub proof fn law_freed_place_is_used<B, F, T>(m: ClusterModel<B, F, T>)
    requires
        m.wf(),
        !m.closed,
        m.queue.len() > 0,
        m.held.len() < m.options.concurrency,
        m.idle.len() > 0 || m.worker_count < m.options.max_concurrent_browsers,
    ensures
        m.taken_by_round().len() > 0,
        m.taken_by_round()[0] == m.queue[0],
{
    lemma_round(m);
    if m.idle.len() > 0 {
        assert(m.step().1 is Start);
    } else {
        assert(m.step().1 is Halt);
    }
}

/// Every job that a round starts gets the idle worker that was first in line for it, under a
/// permit of its own.
pub proof fn law_started_jobs_have_workers<B, F, T>(m: ClusterModel<B, F, T>, i: int)
    requires
        m.wf(),
        0 <= i < m.round().1.len(),
    ensures
        i < m.idle.len(),
        m.round().0.is_active(m.round().1[i].permit),
        m.round().0.worker_of(m.round().1[i].permit) == m.idle[i],
        !m.held.contains(m.round().1[i].permit),
        m.round().0.is_running(m.round().1[i].permit),
        m.round().0.carried[m.round().1[i].permit] == m.round().1[i].job,
{
    lemma_round(m);
    let (last, starts, next) = m.round();
    let k = m.active.len() + i;
    assert(last.active[k] == (starts[i].permit, m.idle[i]));
    let p = last.place(starts[i].permit);
    assert(last.active[p].0 == starts[i].permit);
    assert(p == k) by {
        if p < k {
            assert(last.active[p].0 != last.active[k].0);
        } else if k < p {
            assert(last.active[k].0 != last.active[p].0);
        }
    }
}

/// A job that comes to an open cluster with an idle worker, a free permit and room in its queue
/// finds them at once: a job starts without any browser being launched, and it is this one if no
/// other waits.
pub proof fn law_idle_worker_serves_at_once<B, F, T>(m: ClusterModel<B, F, T>, job: JobEntry<F, T>)
    requires
        m.wf(),
        !m.closed,
        m.idle.len() > 0,
        m.held.len() < m.options.concurrency,
        m.has_room(),
        m.has_number(),
    ensures
        m.received(job).1.len() > 0,
        m.queue.len() == 0 ==> m.received(job).1[0].job == job.numbered(m.arrivals),
{
    assert(m.arrived(job).step().1 is Start);
}

/// Jobs that are queued first in, first out, wait in the order in which they came.
pub proof fn law_fifo_keeps_order<J>(queue: Seq<J>, jobs: Seq<J>)
    ensures
        QueueMode::FIFO.added_all(queue, jobs) == queue + jobs,
    decreases jobs.len(),
{
    if jobs.len() > 0 {
        law_fifo_keeps_order(queue, jobs.drop_last());
        assert((queue + jobs.drop_last()).push(jobs.last()) =~= queue + jobs);
    } else {
        assert(queue + jobs =~= queue);
    }
}

/// Jobs that are queued last in, first out, wait in the reverse of the order in which they came.
pub proof fn law_lifo_reverses_order<J>(queue: Seq<J>, jobs: Seq<J>)
    ensures
        QueueMode::LIFO.added_all(queue, jobs) == jobs.reverse() + queue,
    decreases jobs.len(),
{
    if jobs.len() > 0 {
        law_lifo_reverses_order(queue, jobs.drop_last());
        assert(seq![jobs.last()] + (jobs.drop_last().reverse() + queue) =~= jobs.reverse() + queue);
    } else {
        assert(jobs.reverse() + queue =~= queue);
    }
}

/// A round starts the jobs that were queued into an empty queue in the order in which they came if
/// the mode is first in, first out, and in the reverse order if it is last in, first out.
pub proof fn law_jobs_start_in_queue_order<B, F, T>(
    m: ClusterModel<B, F, T>,
    jobs: Seq<JobEntry<F, T>>,
)
    requires
        m.wf(),
        m.queue == m.options.queue_mode.added_all(seq![], jobs),
    ensures
        jobs_of(m.round().1).is_prefix_of(
            match m.options.queue_mode {
                QueueMode::FIFO => jobs,
                QueueMode::LIFO => jobs.reverse(),
            },
        ),
{
    let none = Seq::<JobEntry<F, T>>::empty();
    law_fifo_keeps_order(none, jobs);
    law_lifo_reverses_order(none, jobs);
    assert(none + jobs =~= jobs);
    assert(jobs.reverse() + none =~= jobs.reverse());
    lemma_round(m);
    let (last, starts, next) = m.round();
    assert(jobs_of(starts) =~= m.queue.subrange(0, starts.len() as int));
}

/// A launch that fails undoes what asking for it did: the job is again next in line, its permit is
/// free and the browser is not counted. What the round had started before stays started.
pub proof fn law_failed_launch_is_undone<B, F, T>(m: ClusterModel<B, F, T>, error: BrowserError)
    requires
        m.wf(),
        m.round().2 is Launch,
    ensures
        ({
            let (last, starts, next) = m.round();
            &&& next matches NextModel::Launch(permit, job)
            &&& {
                let back = last.launched(permit, Err(error)).0;
                &&& back.queue == m.queue.skip(starts.len() as int)
                &&& back.worker_count == m.worker_count
                &&& back.awaiting == m.awaiting
                &&& back.held.len() == m.held.len() + starts.len()
                &&& back.active == last.active
                &&& starts.len() == 0 ==> back == m
            }
        }),
{
    lemma_round(m);
    let (last, starts, next) = m.round();
    if let NextModel::Launch(permit, job) = next {
        let back = last.launched(permit, Err(error)).0;
        assert(last.has_room());
        lemma_launch_failed(last, permit);
        let mode = m.options.queue_mode;
        crate::model::lemma_turn(mode, last.queue, job);
        assert(crate::model::turn_of(mode, last.queue, job) == 0) by {
            if last.queue.len() > 0 {
                let n = starts.len() as int;
                assert(last.queue[0] == m.queue[n + 1]);
                assert(mode.precedes(m.queue[n].arrival, m.queue[n + 1].arrival));
            }
        }
        assert(back.queue =~= m.queue.skip(starts.len() as int));
        assert(!m.awaiting.contains(permit));
        assert(back.awaiting =~= m.awaiting);
        if starts.len() == 0 {
            assert(m.idle.skip(0) =~= m.idle);
            assert(m.queue.skip(0) =~= m.queue);
            assert(back.held =~= m.held);
            assert(back.active =~= m.active);
            assert(!m.carried.contains_key(permit));
            assert(back.carried =~= m.carried);
            assert(back =~= m);
        }
    }
}

/// A job that a launch was asked for starts, on the worker that was launched, before any other,
/// unless the launch fails. Then it waits in its turn again, behind all that run before it and
/// before all others; or it goes on waiting for its browser while the queue has no room for it; or
/// it is dropped, if the cluster is closed.
pub proof fn law_launch_serves_its_job<B, F, T>(
    m: ClusterModel<B, F, T>,
    permit: usize,
    result: Result<Worker<B>, BrowserError>,
)
    requires
        m.wf(),
        m.awaiting.contains(permit),
    ensures
        ({
            let (last, starts, next) = m.launched(permit, result);
            match result {
                Ok(worker) => {
                    &&& starts.len() > 0
                    &&& starts[0] == StartModel { permit, job: m.carried[permit] }
                    &&& last.is_active(permit)
                    &&& last.is_running(permit)
                    &&& last.carried[permit] == m.carried[permit]
                    &&& last.worker_of(permit) == worker
                },
                Err(error) => {
                    &&& starts.len() == 0
                    &&& if m.has_room() {
                        let turn = crate::model::turn_of(
                            m.options.queue_mode,
                            m.queue,
                            m.carried[permit],
                        ) as int;
                        &&& last.queue == m.queue.insert(turn, m.carried[permit])
                        &&& forall|i: int|
                            0 <= i < turn ==> m.options.queue_mode.precedes(
                                (#[trigger] m.queue[i]).arrival,
                                m.carried[permit].arrival,
                            )
                        &&& forall|i: int|
                            turn <= i < m.queue.len() ==> m.options.queue_mode.precedes(
                                m.carried[permit].arrival,
                                (#[trigger] m.queue[i]).arrival,
                            )
                        &&& next == NextModel::<F, T>::NoWorker(error@)
                        &&& !last.held.contains(permit)
                    } else if m.closed {
                        &&& last.queue == m.queue
                        &&& last.unended == m.unended - 1
                        &&& next == NextModel::<F, T>::NoWorker(error@)
                        &&& !last.held.contains(permit)
                    } else {
                        &&& last == m
                        &&& next == NextModel::<F, T>::Relaunch(permit, m.carried[permit], error@)
                    }
                },
            }
        }),
{
    assert(m.carried.contains_key(permit));
    crate::model::lemma_turn(m.options.queue_mode, m.queue, m.carried[permit]);
    lemma_launch_failed(m, permit);
    lemma_launch_ended(m, permit);
    if let Ok(worker) = result {
        lemma_launch_ended(m, permit);
        let good = m.launch_succeeded(permit, worker);
        lemma_round(good);
        let last = good.round().0;
        let k = m.active.len() as int;
        assert(good.carried.contains_key(permit));
        assert(last.active[k] == good.active[k]);
        let p = last.place(permit);
        assert(last.active[p].0 == permit);
        assert(p == k) by {
            if p < k {
                assert(last.active[p].0 != last.active[k].0);
            } else if k < p {
                assert(last.active[k].0 != last.active[p].0);
            }
        }
    }
}

/// The worker that ran a job is taken back once: it is idle, last in line and last used when the
/// job ended, or else it has outlived the limits and its browser is to be closed. Every other job
/// keeps its worker.
pub proof fn law_finished_job_gives_back_its_worker<B, F, T>(
    m: ClusterModel<B, F, T>,
    permit: usize,
    finished_at: Nanos,
    now: Nanos,
)
    requires
        m.wf(),
        m.is_active(permit),
    ensures
        ({
            let after = m.finished(permit, finished_at, now);
            let worker = m.used_worker(permit, finished_at);
            &&& !after.is_active(permit)
            &&& after.active.len() == m.active.len() - 1
            &&& if worker.expired(m.options.worker_limits(), now) {
                &&& after.idle == m.idle
                &&& after.closing == m.closing + 1
                &&& m.replaced_browser(permit, finished_at, now) == Some(
                    m.worker_of(permit).browser,
                )
            } else {
                &&& after.idle == m.idle.push(worker)
                &&& after.closing == m.closing
                &&& m.replaced_browser(permit, finished_at, now) is None
            }
        }),
{
    let i = m.place(permit);
    assert(m.held.contains(m.active[i].0));
    lemma_finished(m, permit, finished_at, now);
}

/// A job that runs keeps its worker whatever else happens, until it is over or the cluster is
/// closed.
pub proof fn law_running_job_is_undisturbed<B, F, T>(
    m: ClusterModel<B, F, T>,
    event: Event<B, F, T>,
    permit: usize,
)
    requires
        m.wf(),
        m.possible(event),
        m.is_active(permit),
        event !is ShutDown,
        event matches Event::Finished(other, _, _) ==> other != permit,
    ensures
        m.after(event).is_active(permit),
        m.after(event).worker_of(permit) == m.worker_of(permit),
{
    law_steps_keep_invariant(m, event);
    let after = m.after(event);
    let k = m.place(permit);
    if m.before_round(event) is Some {
        lemma_before_round(m, event);
        assert(after.active[k] == m.before_round(event)->0.active[k]);
    }
    let j = match event {
        Event::Finished(p, _, _) => if m.is_active(p) && m.place(p) < k {
            k - 1
        } else {
            k
        },
        _ => k,
    };
    assert(after.active[j] == m.active[k]);
    let i = after.place(permit);
    assert(after.active[i].0 == permit);
    assert(i == j) by {
        if i < j {
            assert(after.active[i].0 != after.active[j].0);
        } else if j < i {
            assert(after.active[j].0 != after.active[i].0);
        }
    }
}

/// A job that waits for its browser goes on waiting, with its permit, whatever else happens, until
/// the launch ends.
pub proof fn law_awaited_launch_is_undisturbed<B, F, T>(
    m: ClusterModel<B, F, T>,
    event: Event<B, F, T>,
    permit: usize,
)
    requires
        m.wf(),
        m.possible(event),
        m.awaiting.contains(permit),
        event matches Event::Launched(other, _) ==> other != permit,
    ensures
        m.after(event).awaiting.contains(permit),
        m.after(event).carried[permit] == m.carried[permit],
{
    assert(m.carried.contains_key(permit));
    if m.before_round(event) is Some {
        lemma_before_round(m, event);
    }
}

/// A job that runs keeps its permit, whatever else happens, until it fails or gives the permit
/// back.
pub proof fn law_running_job_keeps_its_permit<B, F, T>(
    m: ClusterModel<B, F, T>,
    event: Event<B, F, T>,
    permit: usize,
)
    requires
        m.wf(),
        m.possible(event),
        m.is_running(permit),
        event matches Event::Failed(other, _) ==> other != permit,
        event matches Event::Concluded(other) ==> other != permit,
    ensures
        m.after(event).held.contains(permit),
        m.after(event).is_running(permit),
        m.after(event).carried[permit] == m.carried[permit],
{
    law_steps_keep_invariant(m, event);
    if m.before_round(event) is Some {
        lemma_before_round(m, event);
        assert(m.before_round(event)->0.carried.contains_key(permit));
    }
    assert(m.held.contains(permit));
    assert(m.after(event).carried.contains_key(permit));
}

/// A job that is to be tried again stays so, whatever else happens, until it is queued again.
pub proof fn law_retry_is_kept<B, F, T>(
    m: ClusterModel<B, F, T>,
    event: Event<B, F, T>,
    retry: RetryModel<F, T>,
)
    requires
        m.wf(),
        m.possible(event),
        m.retrying.contains(retry),
        event matches Event::Requeued(other, _) ==> other != retry,
    ensures
        m.after(event).retrying.contains(retry),
{
    if m.before_round(event) is Some {
        lemma_before_round(m, event);
    }
}

/// A job that has given back its worker keeps its permit, and gets no other worker, whatever else
/// happens, until it gives the permit back too.
pub proof fn law_permit_is_kept_to_the_end<B, F, T>(
    m: ClusterModel<B, F, T>,
    event: Event<B, F, T>,
    permit: usize,
)
    requires
        m.wf(),
        m.possible(event),
        m.possible(Event::Concluded(permit)),
        event matches Event::Concluded(other) ==> other != permit,
    ensures
        m.after(event).possible(Event::Concluded(permit)),
        (event matches Event::Failed(other, _) ==> other != permit) ==> m.after(
            event,
        ).carried.contains_key(permit) == m.carried.contains_key(permit),
{
    if m.before_round(event) is Some {
        lemma_before_round(m, event);
        let ready = m.before_round(event)->0;
        assert(!ready.is_active(permit)) by {
            assert forall|i: int| 0 <= i < ready.active.len() implies (
            #[trigger] ready.active[i]).0 != permit by {
                if i < m.active.len() {
                    assert(m.active[i].0 != permit);
                }
            }
        }
        lemma_round_spares(ready, permit);
    } else if let Event::Finished(p, finished_at, now) = event {
        lemma_finished(m, p, finished_at, now);
    } else {
        assert(m.after(event).is_active(permit) ==> m.is_active(permit));
    }
}

/// A round gives no worker to a job that already holds a permit.
proof fn lemma_round_spares<B, F, T>(m: ClusterModel<B, F, T>, permit: usize)
    requires
        m.wf(),
        m.held.contains(permit),
        !m.awaiting.contains(permit),
        !m.is_active(permit),
    ensures
        m.round().0.held.contains(permit),
        !m.round().0.awaiting.contains(permit),
        !m.round().0.is_active(permit),
{
    lemma_round(m);
    let (last, starts, next) = m.round();
    assert forall|i: int| 0 <= i < last.active.len() implies (#[trigger] last.active[i]).0
        != permit by {
        if i < m.active.len() {
            assert(m.active[i].0 != permit);
        } else {
            let k = i - m.active.len();
            assert(last.active[m.active.len() + k] == (starts[k].permit, m.idle[k]));
            assert(!m.held.contains(starts[k].permit));
        }
    }
}

/// A job is tried at most once more than the retry limit. It survives exactly as many failures in
/// a row as the limit says, with its task and its data, and is given up on the next.
pub proof fn law_retries_are_limited<F, T>(
    task: std::sync::Arc<F>,
    data: T,
    retry_limit: usize,
    failures: nat,
)
    ensures
        JobEntry::fresh(task, data).after_failures(retry_limit, failures) == if failures
            <= retry_limit {
            Some(JobEntry { task, data, retries: failures as usize, arrival: 0 })
        } else {
            None
        },
    decreases failures,
{
    if failures > 0 {
        law_retries_are_limited(task, data, retry_limit, (failures - 1) as nat);
    }
}

/// When a job gives back its permit, whatever came of it, the job that is next in line starts, if
/// the cluster is open and a worker is idle.
pub proof fn law_concluded_job_makes_room<B, F, T>(m: ClusterModel<B, F, T>, permit: usize)
    requires
        m.wf(),
        m.possible(Event::Concluded(permit)),
        !m.closed,
        m.queue.len() > 0,
        m.idle.len() > 0,
    ensures
        m.concluded(permit).1.len() > 0,
        m.concluded(permit).1[0].job == m.queue[0],
{
    let room = m.released(permit);
    assert(room.held.len() == m.held.len() - 1);
    assert(room.step().1 is Start);
}

/// A job that failed and is to be tried again is tried again without anything else happening: once
/// the delay has passed and it is queued, its worker taken back and its permit returned, it starts,
/// unless the cluster is closed, its worker has outlived the limits, the queue has no room for it,
/// or another job is in line before it.
pub proof fn law_retry_is_automatic<B, F, T>(
    m: ClusterModel<B, F, T>,
    permit: usize,
    failed_at: Nanos,
    requeued_at: Nanos,
    finished_at: Nanos,
    now: Nanos,
)
    requires
        m.wf(),
        !m.closed,
        m.is_active(permit),
        m.is_running(permit),
        m.carried[permit].retries < m.options.retry_limit,
        has_passed(m.options.retry_delay, failed_at, requeued_at),
        m.has_room(),
        m.has_number(),
        m.queue.len() == 0 || m.options.queue_mode == QueueMode::LIFO,
        !m.used_worker(permit, finished_at).expired(m.options.worker_limits(), now),
    ensures
        m.retry_after(permit, failed_at) is Some,
        ({
            let retry = m.retry_after(permit, failed_at)->0;
            let queued = m.failed(permit, failed_at).requeued(retry, requeued_at);
            let (last, starts, next) = queued.finished(permit, finished_at, now).concluded(permit);
            starts.len() > 0 && starts[0].job == retry.job.numbered(m.arrivals)
        }),
{
    let retry = m.retry_after(permit, failed_at)->0;
    let failed = m.failed(permit, failed_at);
    lemma_failed(m, permit, failed_at);
    let queued = failed.requeued(retry, requeued_at);
    lemma_returned(failed, retry);
    let k = m.place(permit);
    assert(m.held.contains(m.active[k].0));
    assert(queued.active[k].0 == permit);
    assert(queued.is_active(permit));
    assert(queued.place(permit) == k);
    law_finished_job_gives_back_its_worker(queued, permit, finished_at, now);
    lemma_finished(queued, permit, finished_at, now);
    law_concluded_job_makes_room(queued.finished(permit, finished_at, now), permit);
}

/// A job that comes to an open cluster while the queue has no room, be it new, to be tried again or
/// left without a browser, leaves the cluster as it was: it can come again, and goes on being
/// waited for.
pub proof fn law_full_queue_hands_back<B, F, T>(
    m: ClusterModel<B, F, T>,
    job: JobEntry<F, T>,
    retry: RetryModel<F, T>,
    now: Nanos,
    permit: usize,
    error: BrowserError,
)
    requires
        m.wf(),
        !m.closed,
        !m.has_room(),
    ensures
        m.after(Event::Received(job)) == m,
        m.after(Event::Requeued(retry, now)) == m,
        m.after(Event::Launched(permit, Err(error))) == m,
        m.possible(Event::Received(job)) ==> m.unended > 0 && !m.all_done(),
        m.possible(Event::Requeued(retry, now)) ==> m.unended > 0 && !m.all_done(),
        m.possible(Event::Launched(permit, Err(error))) ==> m.unended > 0 && !m.all_done(),
{
    if m.awaiting.contains(permit) {
        assert(m.carried.contains_key(permit));
        assert(m.carried.len() > 0);
    }
    if m.retrying.contains(retry) {
        assert(m.retrying.len() > 0) by {
            assert(m.retrying.remove(retry).insert(retry) =~= m.retrying);
        }
    }
}

/// When every launch for the idle pool succeeds, the pool has the idle workers that it should
/// have, or as many browsers exist as may; and it gets no more than it should have.
pub proof fn law_fill_reaches_the_minimum<B, F, T>(
    m: ClusterModel<B, F, T>,
    results: Seq<Result<Worker<B>, BrowserError>>,
)
    requires
        m.wf(),
        results.len() == m.missing_idle(),
        forall|i: int| 0 <= i < results.len() ==> (#[trigger] results[i]) is Ok,
    ensures
        ({
            let after = m.filling().filled(results);
            &&& after.idle.len() >= m.options.min_idle_browsers || after.worker_count
                == m.options.max_concurrent_browsers
            &&& after.idle.len() <= m.idle.len() || after.idle.len() <= m.options.min_idle_browsers
            &&& after.filling == m.filling
        }),
{
    crate::model::lemma_leading(results);
}

/// A look through the idle workers removes those that have outlived the limits and no others.
pub proof fn law_sweep_removes_the_outlived<B, F, T>(m: ClusterModel<B, F, T>, now: Nanos)
    ensures
        forall|i: int|
            0 <= i < m.swept(now).idle.len() ==> !(#[trigger] m.swept(now).idle[i]).expired(
                m.options.worker_limits(),
                now,
            ),
        forall|i: int|
            0 <= i < m.outlived_idle(now).len() ==> (#[trigger] m.outlived_idle(now)[i]).expired(
                m.options.worker_limits(),
                now,
            ),
        m.swept(now).idle.len() + m.outlived_idle(now).len() == m.idle.len(),
        m.swept(now).worker_count == m.worker_count,
{
    lemma_partition(m.idle, m.outlived(now), m.within_limits(now));
    assert forall|i: int| 0 <= i < m.swept(now).idle.len() implies !(#[trigger] m.swept(
        now,
    ).idle[i]).expired(m.options.worker_limits(), now) by {
        broadcast use vstd::seq_lib::group_filter_ensures;

        assert((m.within_limits(now))(m.swept(now).idle[i]));
    }
    assert forall|i: int| 0 <= i < m.outlived_idle(now).len() implies (#[trigger] m.outlived_idle(
        now,
    )[i]).expired(m.options.worker_limits(), now) by {
        broadcast use vstd::seq_lib::group_filter_ensures;

        assert((m.outlived(now))(m.outlived_idle(now)[i]));
    }
}

/// A worker that has outlived its limits does not come back within them.
pub proof fn law_outlived_for_good<B>(
    worker: Worker<B>,
    limits: WorkerOptions,
    now: Nanos,
    later: Nanos,
)
    requires
        now <= later,
        worker.expired(limits, now),
    ensures
        worker.expired(limits, later),
{
}

/// A worker without limits is never replaced, and one that was just made or used is not replaced
/// for having been idle.
pub proof fn law_limits_decide<B>(worker: Worker<B>, limits: WorkerOptions, now: Nanos)
    ensures
        limits.idle_timeout is None && limits.max_browser_lifetime is None ==> !worker.expired(
            limits,
            now,
        ),
        worker.last_used == now && limits.max_browser_lifetime is None ==> !worker.expired(
            limits,
            now,
        ),
        worker.last_used == now && worker.created_at == now ==> !worker.expired(limits, now),
{
}

/// A new cluster has nothing in it: no worker, no job, no browser counted, nothing under way, and
/// it is open.
pub proof fn law_new_cluster_has_nothing<B, F, T>(options: ClusterOptions)
    ensures
        ({
            let new = ClusterModel::<B, F, T>::empty(options);
            &&& new.options == options
            &&& new.active.len() == 0 && new.idle.len() == 0 && new.queue.len() == 0
            &&& new.accepted == 0 && new.retrying.len() == 0 && new.unended == 0
            &&& new.arrivals == 0 && new.worker_count == 0
            &&& forall|p: usize| !(#[trigger] new.held.contains(p))
            &&& forall|p: usize| !(#[trigger] new.carried.contains_key(p))
            &&& forall|p: usize| !(#[trigger] new.awaiting.contains(p))
            &&& new.filling == 0 && new.closing == 0
            &&& new.watch is Off
            &&& !new.closed
        }),
{
}

/// A new job is refused exactly when the cluster is closed or the queue is as long as it may be,
/// whatever the workers do; and the answer says which. A job that is accepted is one more that has
/// not ended, and nothing else changes.
pub proof fn law_new_job_is_refused_only_when_closed_or_full<B, F, T>(m: ClusterModel<B, F, T>)
    ensures
        m.closed ==> m.refusal() == Some(ErrorModel::Operation("Cluster is closed"@)),
        !m.closed ==> (m.refusal() is Some <==> (m.options.max_queue_size matches Some(most)
            && m.queue.len() >= most)),
        !m.closed && m.refusal() is Some ==> m.refusal() == Some(ErrorModel::QueueFull),
        m.accepting().accepted == m.accepted + 1,
        m.accepting().unended == m.unended + 1,
        m.accepting() == (ClusterModel {
            accepted: m.accepting().accepted,
            unended: m.accepting().unended,
            ..m
        }),
{
}

/// Accepting a job and withdrawing it leaves the cluster as it was.
pub proof fn law_withdrawn_job_leaves_no_trace<B, F, T>(m: ClusterModel<B, F, T>)
    ensures
        m.accepting().withdrawn() == m,
        m.accepted > 0 && m.unended > 0 ==> m.withdrawn().accepting() == m,
{
}

/// A job enters the queue with its task, its data and its retry count, behind the others in
/// first-in-first-out mode and before them in last-in-first-out mode, under a number that no job had
/// before. The other jobs stay as they are.
pub proof fn law_queued_job_is_unchanged<B, F, T>(m: ClusterModel<B, F, T>, job: JobEntry<F, T>)
    requires
        m.arrivals < u128::MAX,
    ensures
        ({
            let after = m.enqueued(job);
            let place = match m.options.queue_mode {
                QueueMode::FIFO => m.queue.len() as int,
                QueueMode::LIFO => 0int,
            };
            &&& after.queue.len() == m.queue.len() + 1
            &&& after.queue[place].task == job.task
            &&& after.queue[place].data == job.data
            &&& after.queue[place].retries == job.retries
            &&& after.queue[place].arrival == m.arrivals
            &&& after.queue.remove(place) == m.queue
            &&& after.arrivals == m.arrivals + 1
            &&& after == (ClusterModel { queue: after.queue, arrivals: after.arrivals, ..m })
        }),
{
    let after = m.enqueued(job);
    let place = match m.options.queue_mode {
        QueueMode::FIFO => m.queue.len() as int,
        QueueMode::LIFO => 0int,
    };
    assert(after.queue.remove(place) =~= m.queue);
}

/// A job that comes from the task channel to an open cluster with room in its queue enters the
/// queue as it is, and is not on its way any more. Then a round follows. A closed cluster only
/// takes it off the count, and a full one does nothing.
pub proof fn law_received_job_enters_the_queue<B, F, T>(
    m: ClusterModel<B, F, T>,
    job: JobEntry<F, T>,
    ready: ClusterModel<B, F, T>,
)
    requires
        m.accepted > 0,
        m.unended > 0,
        ready.accepted == m.accepted - 1,
        ready.arrivals == m.arrivals + 1,
        ready.queue.len() == m.queue.len() + 1,
        ({
            let place = match m.options.queue_mode {
                QueueMode::FIFO => m.queue.len() as int,
                QueueMode::LIFO => 0int,
            };
            &&& ready.queue[place] == JobEntry {
                task: job.task,
                data: job.data,
                retries: job.retries,
                arrival: m.arrivals,
            }
            &&& ready.queue.remove(place) == m.queue
        }),
        ready == (ClusterModel {
            accepted: ready.accepted,
            arrivals: ready.arrivals,
            queue: ready.queue,
            ..m
        }),
    ensures
        m.closed ==> {
            let after = m.received(job).0;
            &&& after.accepted == m.accepted - 1
            &&& after.unended == m.unended - 1
            &&& after == (ClusterModel { accepted: after.accepted, unended: after.unended, ..m })
            &&& m.received(job).1.len() == 0
        },
        !m.closed && (m.options.max_queue_size matches Some(most) && m.queue.len() >= most) ==> {
            &&& m.received(job).0 == m
            &&& m.received(job).1.len() == 0
        },
        !m.closed && (m.options.max_queue_size matches Some(most) ==> m.queue.len() < most)
            ==> m.received(job) == ready.round(),
{
    lemma_entered(m.options.queue_mode, m.queue, ready.queue);
    assert(m.arrived(job).queue =~= ready.queue);
    assert(m.arrived(job) =~= ready);
}

/// A queue is what is left of it without a job, and the job at its place.
proof fn lemma_entered<F, T>(
    mode: QueueMode,
    before: Seq<JobEntry<F, T>>,
    after: Seq<JobEntry<F, T>>,
)
    requires
        after.len() == before.len() + 1,
        ({
            let place = match mode {
                QueueMode::FIFO => before.len() as int,
                QueueMode::LIFO => 0int,
            };
            after.remove(place) == before
        }),
    ensures
        match mode {
            QueueMode::FIFO => after == before.push(after.last()),
            QueueMode::LIFO => after == seq![after[0]] + before,
        },
{
    match mode {
        QueueMode::FIFO => {
            let place = before.len() as int;
            assert forall|i: int| 0 <= i < before.len() implies after[i] == before[i] by {
                assert(after.remove(place)[i] == before[i]);
            }
            assert(after =~= before.push(after.last()));
        },
        QueueMode::LIFO => {
            assert forall|i: int| 0 <= i < before.len() implies after[i + 1] == before[i] by {
                assert(after.remove(0)[i] == before[i]);
            }
            assert(after =~= seq![after[0]] + before);
        },
    }
}

/// A job that failed comes back to the queue with its task, its data and the retry count that it
/// was given when it failed, once the delay is over and if there is room; and it is not on its way
/// any more. Before that, nothing changes, unless the cluster is closed and has no room: then the
/// job is dropped.
pub proof fn law_requeued_job_is_unchanged<B, F, T>(
    m: ClusterModel<B, F, T>,
    retry: RetryModel<F, T>,
    now: Nanos,
)
    requires
        m.wf(),
        m.retrying.contains(retry),
        m.arrivals < u128::MAX,
    ensures
        ({
            let after = m.requeued(retry, now);
            let early = m.options.retry_delay > 0 && now < retry.failed_at + m.options.retry_delay;
            let full = m.options.max_queue_size matches Some(most) && m.queue.len() >= most;
            let place = match m.options.queue_mode {
                QueueMode::FIFO => m.queue.len() as int,
                QueueMode::LIFO => 0int,
            };
            &&& early || (full && !m.closed) ==> after == m
            &&& !early && !full ==> {
                &&& after.queue.len() == m.queue.len() + 1
                &&& after.queue[place].task == retry.job.task
                &&& after.queue[place].data == retry.job.data
                &&& after.queue[place].retries == retry.job.retries
                &&& after.queue[place].arrival == m.arrivals
                &&& after.queue.remove(place) == m.queue
                &&& after.arrivals == m.arrivals + 1
                &&& after.retrying.insert(retry) == m.retrying
                &&& after == (ClusterModel {
                    queue: after.queue,
                    arrivals: after.arrivals,
                    retrying: after.retrying,
                    ..m
                })
            }
            &&& !early && full && m.closed ==> {
                &&& after.retrying.insert(retry) == m.retrying
                &&& after.unended == m.unended - 1
                &&& after == (ClusterModel {
                    retrying: after.retrying,
                    unended: after.unended,
                    ..m
                })
            }
        }),
{
    law_queued_job_is_unchanged(m, retry.job);
    lemma_returned(m, retry);
    assert(m.retrying.remove(retry).insert(retry) =~= m.retrying);
    assert(m.retrying.len() > 0);
}

/// A round takes as many jobs as there are waiting, as there are idle workers and as there are
/// permits left, whichever is least; none if the cluster is closed. The jobs come from the front of
/// the queue as they are, the workers from the front of the idle pool as they are, each job with
/// its worker, under permits that nobody held. If jobs and permits are left but no worker, a browser
/// is to be launched for the next job, unless as many exist as may. Nothing else changes.
pub proof fn law_round_does_what_can_be_done<B, F, T>(m: ClusterModel<B, F, T>)
    requires
        m.wf(),
    ensures
        ({
            let (last, starts, next) = m.round();
            let n = starts.len();
            &&& m.closed ==> n == 0 && next is Done
            &&& n <= m.queue.len() && n <= m.idle.len() && m.held.len() + n
                <= m.options.concurrency
            &&& !m.closed ==> n == m.queue.len() || n == m.idle.len() || m.held.len() + n
                == m.options.concurrency
            &&& forall|i: int| 0 <= i < n ==> (#[trigger] starts[i]).job == m.queue[i]
            &&& last.active == m.active + Seq::new(n, |i: int| (starts[i].permit, m.idle[i]))
            &&& last.idle == m.idle.skip(n as int)
            &&& match next {
                NextModel::Done => {
                    &&& m.closed || n == m.queue.len() || m.held.len() + n == m.options.concurrency
                    &&& last.queue == m.queue.skip(n as int)
                    &&& last.worker_count == m.worker_count
                    &&& last.awaiting == m.awaiting
                },
                NextModel::NoWorker(error) => {
                    &&& !m.closed && n < m.queue.len() && m.held.len() + n < m.options.concurrency
                    &&& m.worker_count == m.options.max_concurrent_browsers
                    &&& error == ErrorModel::Operation("Max concurrent browsers reached"@)
                    &&& last.queue == m.queue.skip(n as int)
                    &&& last.worker_count == m.worker_count
                    &&& last.awaiting == m.awaiting
                },
                NextModel::Launch(permit, job) => {
                    &&& !m.closed && n < m.queue.len() && m.held.len() + n < m.options.concurrency
                    &&& m.worker_count < m.options.max_concurrent_browsers
                    &&& job == m.queue[n as int]
                    &&& !m.held.contains(permit)
                    &&& !is_started(starts, permit)
                    &&& last.queue == m.queue.skip((n + 1) as int)
                    &&& last.worker_count == m.worker_count + 1
                    &&& last.awaiting == m.awaiting.insert(permit)
                },
                NextModel::Relaunch(_, _, _) => false,
            }
            &&& forall|i: int, j: int|
                0 <= i < j < n ==> (#[trigger] starts[i]).permit != (#[trigger] starts[j]).permit
            &&& forall|i: int| 0 <= i < n ==> !m.held.contains((#[trigger] starts[i]).permit)
            &&& forall|p: usize| #[trigger]
                last.held.contains(p) <==> m.held.contains(p) || is_started(starts, p) || (
                next matches NextModel::Launch(permit, _) && permit == p)
            &&& forall|p: usize| #[trigger]
                last.carried.contains_key(p) <==> m.carried.contains_key(p) || is_started(starts, p)
                    || (next matches NextModel::Launch(permit, _) && permit == p)
            &&& forall|p: usize| #[trigger]
                m.carried.contains_key(p) ==> last.carried[p] == m.carried[p]
            &&& forall|i: int|
                0 <= i < n ==> last.carried[(#[trigger] starts[i]).permit] == m.queue[i]
            &&& next matches NextModel::Launch(permit, job) ==> last.carried[permit] == job
            &&& last == (ClusterModel {
                active: last.active,
                idle: last.idle,
                queue: last.queue,
                held: last.held,
                carried: last.carried,
                worker_count: last.worker_count,
                awaiting: last.awaiting,
                ..m
            })
        }),
{
    lemma_round(m);
    let (last, starts, next) = m.round();
    let n = starts.len() as int;
    if m.closed {
        law_closed_cluster_starts_nothing(m);
    }
    assert(last.active =~= m.active + Seq::new(
        starts.len(),
        |i: int| (starts[i].permit, m.idle[i]),
    )) by {
        assert forall|k: int| 0 <= k < last.active.len() implies #[trigger] last.active[k] == (
        m.active + Seq::new(starts.len(), |i: int| (starts[i].permit, m.idle[i])))[k] by {
            if k >= m.active.len() {
                let i = k - m.active.len();
                assert(last.active[m.active.len() + i] == (starts[i].permit, m.idle[i]));
            }
        }
    }
    assert forall|i: int| 0 <= i < n implies last.held.contains((#[trigger] starts[i]).permit) by {
        assert(last.active[m.active.len() + i] == (starts[i].permit, m.idle[i]));
    }
    assert forall|i: int, j: int| 0 <= i < j < n implies (#[trigger] starts[i]).permit != (
    #[trigger] starts[j]).permit by {
        assert(last.active[m.active.len() + i] == (starts[i].permit, m.idle[i]));
        assert(last.active[m.active.len() + j] == (starts[j].permit, m.idle[j]));
    }
    if let NextModel::Launch(permit, _) = next {
        assert(last.awaiting.contains(permit));
        if is_started(starts, permit) {
            let i = choose|i: int| 0 <= i < starts.len() && (#[trigger] starts[i]).permit == permit;
            assert(last.active[m.active.len() + i] == (starts[i].permit, m.idle[i]));
            assert(last.is_active(permit));
        }
    }
    assert forall|p: usize| #[trigger]
        last.held.contains(p) <==> m.held.contains(p) || is_started(starts, p) || (
        next matches NextModel::Launch(permit, _) && permit == p) by {}
    assert forall|p: usize| #[trigger]
        last.carried.contains_key(p) <==> m.carried.contains_key(p) || is_started(starts, p) || (
        next matches NextModel::Launch(permit, _) && permit == p) by {
        if last.carried.contains_key(p) && !m.carried.contains_key(p) {
            assert(last.held.contains(p));
        }
    }
}

/// The job whose browser was launched runs on exactly that worker, and the round goes on as any
/// round does.
pub proof fn law_launched_worker_takes_up_its_job<B, F, T>(
    m: ClusterModel<B, F, T>,
    permit: usize,
    worker: Worker<B>,
)
    ensures
        ({
            let ready = ClusterModel {
                active: m.active.push((permit, worker)),
                awaiting: m.awaiting.remove(permit),
                ..m
            };
            let (last, starts, next) = m.launched(permit, Ok(worker));
            &&& last == ready.round().0
            &&& next == ready.round().2
            &&& starts.len() == ready.round().1.len() + 1
            &&& starts[0].permit == permit
            &&& starts[0].job == m.carried[permit]
            &&& forall|i: int|
                0 < i < starts.len() ==> #[trigger] starts[i] == ready.round().1[i - 1]
        }),
{
}

/// A launch that failed gives back the permit and the place of the browser. The job goes back into
/// the queue as it is: in first-in-first-out mode behind the jobs that came before it and before
/// those that came after it, in last-in-first-out mode the other way round. Without room it goes on
/// waiting for its browser, with everything as it was; but a closed cluster without room drops it.
pub proof fn law_failed_launch_gives_back_what_it_took<B, F, T>(
    m: ClusterModel<B, F, T>,
    permit: usize,
    error: BrowserError,
)
    requires
        m.wf(),
        m.awaiting.contains(permit),
    ensures
        ({
            let (last, starts, next) = m.launched(permit, Err(error));
            let job = m.carried[permit];
            let full = m.options.max_queue_size matches Some(most) && m.queue.len() >= most;
            &&& starts.len() == 0
            &&& full && !m.closed ==> last == m && next == NextModel::<F, T>::Relaunch(
                permit,
                job,
                error@,
            )
            &&& !full || m.closed ==> {
                &&& next == NextModel::<F, T>::NoWorker(error@)
                &&& last.worker_count == m.worker_count - 1
                &&& last.held == m.held.remove(permit)
                &&& last.carried == m.carried.remove(permit)
                &&& last.awaiting == m.awaiting.remove(permit)
                &&& last == (ClusterModel {
                    worker_count: last.worker_count,
                    held: last.held,
                    carried: last.carried,
                    awaiting: last.awaiting,
                    queue: last.queue,
                    unended: last.unended,
                    ..m
                })
            }
            &&& full && m.closed ==> last.queue == m.queue && last.unended == m.unended - 1
            &&& !full ==> last.unended == m.unended && exists|turn: int|
                {
                    &&& 0 <= turn <= m.queue.len()
                    &&& last.queue == #[trigger] m.queue.insert(turn, job)
                    &&& forall|i: int|
                        0 <= i < turn ==> match m.options.queue_mode {
                            QueueMode::FIFO => (#[trigger] m.queue[i]).arrival < job.arrival,
                            QueueMode::LIFO => m.queue[i].arrival > job.arrival,
                        }
                    &&& forall|i: int|
                        turn <= i < m.queue.len() ==> match m.options.queue_mode {
                            QueueMode::FIFO => job.arrival < (#[trigger] m.queue[i]).arrival,
                            QueueMode::LIFO => job.arrival > m.queue[i].arrival,
                        }
                }
        }),
{
    law_launch_serves_its_job(m, permit, Err(error));
    lemma_launch_ended(m, permit);
    assert(m.carried.contains_key(permit));
    let turn = crate::model::turn_of(m.options.queue_mode, m.queue, m.carried[permit]) as int;
    crate::model::lemma_turn(m.options.queue_mode, m.queue, m.carried[permit]);
    lemma_launch_failed(m, permit);
    assert(m.queue.insert(turn, m.carried[permit]) == m.launch_failed(permit).queue);
}

/// A job that failed is to be tried again exactly if it was tried again less often than the limit
/// says. It is then on its way back, with its task, its data, one retry more and the moment of the
/// failure; and the permit is held for none. Nothing else changes.
pub proof fn law_failure_is_remembered<B, F, T>(
    m: ClusterModel<B, F, T>,
    permit: usize,
    failed_at: Nanos,
)
    ensures
        ({
            let job = m.carried[permit];
            let after = m.failed(permit, failed_at);
            if job.retries < m.options.retry_limit {
                &&& m.retry_after(permit, failed_at) matches Some(retry)
                &&& retry.job.task == job.task
                &&& retry.job.data == job.data
                &&& retry.job.retries == job.retries + 1
                &&& retry.job.arrival == job.arrival
                &&& retry.failed_at == failed_at
                &&& after.retrying == m.retrying.insert(retry)
                &&& after.carried == m.carried.remove(permit)
                &&& after == (ClusterModel {
                    retrying: after.retrying,
                    carried: after.carried,
                    ..m
                })
            } else {
                &&& m.retry_after(permit, failed_at) is None
                &&& after == m
            }
        }),
{
}

/// A worker is too old exactly if its browser was started longer ago than it may live, or if it was
/// last used longer ago than it may go unused.
pub proof fn law_worker_ages_by_the_clock<B>(
    worker: Worker<B>,
    options: ClusterOptions,
    now: Nanos,
)
    ensures
        worker.expired(options.worker_limits(), now) <==> {
            ||| options.max_browser_lifetime matches Some(most) && now > worker.created_at + most
            ||| options.idle_timeout matches Some(most) && now > worker.last_used + most
        },
{
}

/// When a job is over, the worker that ran it comes back: with its browser and the time at which
/// that was started, and last used when the job ended, it is the last of the idle workers. But if
/// its browser was started longer ago than it may live, or it has gone unused for longer than it
/// may since the job ended, it is to be closed instead. The other workers stay as they are.
pub proof fn law_worker_comes_back_as_it_was<B, F, T>(
    m: ClusterModel<B, F, T>,
    k: int,
    finished_at: Nanos,
    now: Nanos,
)
    requires
        m.wf(),
        0 <= k < m.active.len(),
    ensures
        ({
            let (permit, worker) = m.active[k];
            let after = m.finished(permit, finished_at, now);
            let outlived = {
                ||| m.options.max_browser_lifetime matches Some(most) && now > worker.created_at
                    + most
                ||| m.options.idle_timeout matches Some(most) && now > finished_at + most
            };
            &&& after.active == m.active.remove(k)
            &&& outlived ==> {
                &&& m.replaced_browser(permit, finished_at, now) == Some(worker.browser)
                &&& after.idle == m.idle
                &&& after.closing == m.closing + 1
            }
            &&& !outlived ==> {
                &&& m.replaced_browser(permit, finished_at, now) is None
                &&& after.idle.len() == m.idle.len() + 1
                &&& after.idle.drop_last() == m.idle
                &&& after.idle.last().browser == worker.browser
                &&& after.idle.last().created_at == worker.created_at
                &&& after.idle.last().last_used == finished_at
                &&& after.closing == m.closing
            }
            &&& after == (ClusterModel {
                active: after.active,
                idle: after.idle,
                closing: after.closing,
                ..m
            })
        }),
{
    let permit = m.active[k].0;
    assert(m.is_active(permit));
    let p = m.place(permit);
    assert(m.active[p].0 == permit);
    assert(p == k) by {
        if p < k {
            assert(m.active[p].0 != m.active[k].0);
        } else if k < p {
            assert(m.active[k].0 != m.active[p].0);
        }
    }
    let after = m.finished(permit, finished_at, now);
    assert(after.idle == m.idle || after.idle.drop_last() =~= m.idle);
}

/// A job that is over and has no worker, because the cluster was closed, brings back none.
pub proof fn law_no_worker_comes_back_from_nowhere<B, F, T>(
    m: ClusterModel<B, F, T>,
    permit: usize,
    finished_at: Nanos,
    now: Nanos,
)
    requires
        forall|i: int| 0 <= i < m.active.len() ==> (#[trigger] m.active[i]).0 != permit,
    ensures
        m.finished(permit, finished_at, now) == m,
        m.replaced_browser(permit, finished_at, now) is None,
{
}

/// A browser in use is replaced in the end: however often a worker runs a job, once its browser was
/// started longer ago than it may live, it does not come back to the idle workers.
pub proof fn law_browser_does_not_outlive_its_time<B, F, T>(
    m: ClusterModel<B, F, T>,
    k: int,
    finished_at: Nanos,
    now: Nanos,
    lifetime: Nanos,
)
    requires
        m.wf(),
        0 <= k < m.active.len(),
        m.options.max_browser_lifetime == Some(lifetime),
        now > m.active[k].1.created_at + lifetime,
    ensures
        m.finished(m.active[k].0, finished_at, now).idle == m.idle,
        m.replaced_browser(m.active[k].0, finished_at, now) == Some(m.active[k].1.browser),
{
    law_worker_comes_back_as_it_was(m, k, finished_at, now);
}

/// A job that gives back its permit has ended, if the permit was held for it, and then counts no
/// more. The permit is free, and a round follows. Nothing else changes before that.
pub proof fn law_permit_is_given_back<B, F, T>(m: ClusterModel<B, F, T>, permit: usize)
    requires
        m.wf(),
        m.held.contains(permit),
    ensures
        ({
            let ready = ClusterModel {
                held: m.held.remove(permit),
                carried: m.carried.remove(permit),
                unended: if m.carried.contains_key(permit) {
                    (m.unended - 1) as nat
                } else {
                    m.unended
                },
                ..m
            };
            &&& m.concluded(permit) == ready.round()
            &&& m.released(permit) == ready
            &&& ready.held.len() == m.held.len() - 1
            &&& m.carried.contains_key(permit) ==> m.unended > 0
        }),
{
    if m.carried.contains_key(permit) {
        assert(m.carried.dom().len() > 0);
    }
}

/// The idle pool is filled by as many browsers as it lacks, but by no more than may still exist;
/// they are counted at once. Nothing else changes.
pub proof fn law_idle_pool_is_filled_by_what_it_lacks<B, F, T>(m: ClusterModel<B, F, T>)
    requires
        m.worker_count <= m.options.max_concurrent_browsers,
    ensures
        ({
            let n = m.missing_idle();
            let after = m.filling();
            &&& n == 0 || m.idle.len() + n <= m.options.min_idle_browsers
            &&& m.worker_count + n <= m.options.max_concurrent_browsers
            &&& m.idle.len() + n >= m.options.min_idle_browsers || m.worker_count + n
                == m.options.max_concurrent_browsers
            &&& after.worker_count == m.worker_count + n
            &&& after.filling == m.filling + n
            &&& after == (ClusterModel {
                worker_count: after.worker_count,
                filling: after.filling,
                ..m
            })
        }),
{
}

/// The workers that were launched for the idle pool before the first failure, `good` of them, join
/// it behind the others, in order and as they are. A failure takes one browser off the count.
pub proof fn law_launched_workers_join_the_idle<B, F, T>(
    m: ClusterModel<B, F, T>,
    results: Seq<Result<Worker<B>, BrowserError>>,
    good: int,
)
    requires
        0 <= good <= results.len(),
        forall|i: int| 0 <= i < good ==> (#[trigger] results[i]) is Ok,
        good < results.len() ==> results[good] is Err,
        results.len() <= m.filling,
        m.worker_count > 0 || good == results.len(),
    ensures
        ({
            let after = m.filled(results);
            &&& after.idle.len() == m.idle.len() + good
            &&& forall|i: int|
                0 <= i < m.idle.len() ==> #[trigger] after.idle[i] == m.idle[i]
            &&& forall|i: int|
                0 <= i < good ==> results[i] == Ok::<Worker<B>, BrowserError>(
                    #[trigger] after.idle[m.idle.len() + i],
                )
            &&& after.worker_count == if good < results.len() {
                m.worker_count - 1
            } else {
                m.worker_count as int
            }
            &&& after.filling == m.filling - results.len()
            &&& after == (ClusterModel {
                idle: after.idle,
                worker_count: after.worker_count,
                filling: after.filling,
                ..m
            })
        }),
{
    crate::model::lemma_leading(results);
    let n = crate::model::leading(results) as int;
    assert(n == good) by {
        if n < good {
            assert(results[n] is Ok);
        } else if good < n {
            assert(results[good] is Ok);
        }
    }
}

/// A browser that is closed comes off the count, and one place more is free. After a replacement
/// the idle pool is filled too, unless the cluster is closed.
pub proof fn law_closed_browser_is_not_counted<B, F, T>(m: ClusterModel<B, F, T>)
    requires
        m.closing > 0,
        m.worker_count > 0,
    ensures
        ({
            let after = m.browser_closed();
            &&& after.worker_count == m.worker_count - 1
            &&& after.closing == m.closing - 1
            &&& after == (ClusterModel {
                worker_count: after.worker_count,
                closing: after.closing,
                ..m
            })
            &&& m.closed ==> m.replaced() == after
            &&& !m.closed ==> m.replaced() == after.filling()
        }),
{
}

/// Whether one sequence consists of entries of another, in their order.
pub open spec fn is_part_of<A>(part: Seq<A>, whole: Seq<A>) -> bool {
    exists|places: Seq<int>| #[trigger] part_at(part, whole, places)
}

/// Whether the entries of one sequence are those of another at the given places, in their order.
pub open spec fn part_at<A>(part: Seq<A>, whole: Seq<A>, places: Seq<int>) -> bool {
    &&& places.len() == part.len()
    &&& forall|i: int|
        0 <= i < part.len() ==> 0 <= #[trigger] places[i] < whole.len() && part[i]
            == whole[places[i]]
    &&& forall|i: int, j: int|
        0 <= i < j < part.len() ==> #[trigger] places[i] < #[trigger] places[j]
}

proof fn lemma_filter_is_part<A>(s: Seq<A>, yes: spec_fn(A) -> bool)
    ensures
        is_part_of(s.filter(yes), s),
    decreases s.len(),
{
    reveal(Seq::filter);
    if s.len() == 0 {
        assert(part_at(s.filter(yes), s, Seq::empty()));
    } else {
        let rest = s.drop_last();
        lemma_filter_is_part(rest, yes);
        let places = choose|places: Seq<int>| #[trigger] part_at(rest.filter(yes), rest, places);
        if yes(s.last()) {
            assert(part_at(s.filter(yes), s, places.push(s.len() - 1)));
        } else {
            assert(part_at(s.filter(yes), s, places));
        }
    }
}

proof fn lemma_filters_are_all<A>(s: Seq<A>, yes: spec_fn(A) -> bool, no: spec_fn(A) -> bool)
    requires
        forall|a: A| #[trigger] no(a) == !yes(a),
    ensures
        s.filter(yes).to_multiset().add(s.filter(no).to_multiset()) == s.to_multiset(),
    decreases s.len(),
{
    broadcast use vstd::seq_lib::group_to_multiset_ensures;

    reveal(Seq::filter);
    if s.len() > 0 {
        let rest = s.drop_last();
        lemma_filters_are_all(rest, yes, no);
        assert(rest.push(s.last()) =~= s);
        let kept = rest.filter(yes).to_multiset();
        let gone = rest.filter(no).to_multiset();
        assert(kept.insert(s.last()).add(gone) =~= kept.add(gone).insert(s.last()));
        assert(kept.add(gone.insert(s.last())) =~= kept.add(gone).insert(s.last()));
    } else {
        assert(s.filter(yes).to_multiset().add(s.filter(no).to_multiset()) =~= s.to_multiset());
    }
}

/// A pass of the monitor leaves the workers that it keeps as they are and in their order, and so
/// those that it retires; together they are all that were idle. It retires exactly those that are
/// too old, in the sense of [`law_worker_ages_by_the_clock`]. They stay counted until they are
/// closed.
pub proof fn law_pass_leaves_kept_workers_alone<B, F, T>(m: ClusterModel<B, F, T>, now: Nanos)
    ensures
        is_part_of(m.swept(now).idle, m.idle),
        is_part_of(m.outlived_idle(now), m.idle),
        m.swept(now).idle.to_multiset().add(m.outlived_idle(now).to_multiset())
            == m.idle.to_multiset(),
        forall|i: int|
            0 <= i < m.outlived_idle(now).len() ==> (#[trigger] m.outlived_idle(now)[i]).expired(
                m.options.worker_limits(),
                now,
            ),
        forall|i: int|
            0 <= i < m.swept(now).idle.len() ==> !(#[trigger] m.swept(now).idle[i]).expired(
                m.options.worker_limits(),
                now,
            ),
        m.swept(now).closing == m.closing + m.outlived_idle(now).len(),
        m.swept(now) == (ClusterModel {
            idle: m.swept(now).idle,
            closing: m.swept(now).closing,
            ..m
        }),
{
    lemma_filter_is_part(m.idle, m.within_limits(now));
    lemma_filter_is_part(m.idle, m.outlived(now));
    lemma_filters_are_all(m.idle, m.within_limits(now), m.outlived(now));
    law_sweep_removes_the_outlived(m, now);
}

/// The idle timeout takes effect: a worker that has gone unused for longer than it may is among
/// those that the next pass retires, however many passes have left it alone before.
pub proof fn law_unused_worker_is_retired<B, F, T>(
    m: ClusterModel<B, F, T>,
    k: int,
    earlier: Nanos,
    now: Nanos,
    timeout: Nanos,
)
    requires
        0 <= k < m.idle.len(),
        m.options.idle_timeout == Some(timeout),
        earlier <= now,
        now > m.idle[k].last_used + timeout,
    ensures
        m.outlived_idle(now).contains(m.idle[k]),
        m.outlived_idle(earlier).contains(m.idle[k]) || m.swept(earlier).outlived_idle(
            now,
        ).contains(m.idle[k]),
{
    let worker = m.idle[k];
    lemma_filter_has(m.idle, m.outlived(now), k);
    if worker.expired(m.options.worker_limits(), earlier) {
        lemma_filter_has(m.idle, m.outlived(earlier), k);
    } else {
        lemma_filter_has(m.idle, m.within_limits(earlier), k);
        let kept = m.swept(earlier);
        let j = choose|j: int| 0 <= j < kept.idle.len() && kept.idle[j] == worker;
        lemma_filter_has(kept.idle, kept.outlived(now), j);
    }
}

proof fn lemma_filter_has<A>(s: Seq<A>, yes: spec_fn(A) -> bool, k: int)
    requires
        0 <= k < s.len(),
        yes(s[k]),
    ensures
        s.filter(yes).contains(s[k]),
    decreases s.len(),
{
    reveal(Seq::filter);
    let rest = s.drop_last();
    if k < s.len() - 1 {
        lemma_filter_has(rest, yes, k);
        let i = choose|i: int| 0 <= i < rest.filter(yes).len() && rest.filter(yes)[i] == s[k];
        assert(s.filter(yes)[i] == s[k]);
    } else {
        assert(s.filter(yes).last() == s[k]);
    }
}

/// The monitor waits until the interval is over. Then, in an open cluster, it makes a pass; in a
/// closed one it stops. While it waits nothing changes, and when it stops nothing but that.
pub proof fn law_monitor_looks_at_the_time<B, F, T>(
    m: ClusterModel<B, F, T>,
    since: Nanos,
    now: Nanos,
)
    ensures
        ({
            let early = m.options.monitor_interval > 0 && now < since + m.options.monitor_interval;
            let after = m.monitored(since, now);
            &&& m.look(since, now) is Wait <==> early
            &&& m.look(since, now) is Stop <==> !early && m.closed
            &&& early ==> after == m
            &&& !early && m.closed ==> after.watch is Off && after == (ClusterModel {
                watch: after.watch,
                ..m
            })
            &&& !early && !m.closed ==> {
                &&& after.watch is Pass
                &&& after.idle == m.swept(now).idle
                &&& after.closing == m.swept(now).closing
                &&& after == (ClusterModel {
                    watch: after.watch,
                    idle: after.idle,
                    closing: after.closing,
                    ..m
                })
            }
            &&& m.watching(now).watch == WatchModel::Since(now)
            &&& m.watching(now) == (ClusterModel { watch: m.watching(now).watch, ..m })
        }),
{
}

/// Closing hands over every browser: those of the active workers and then those of the idle ones,
/// one for each worker and in their order. No worker is left, the cluster is closed, and nothing
/// else changes.
pub proof fn law_closing_hands_over_every_browser<B, F, T>(m: ClusterModel<B, F, T>)
    ensures
        m.active_browsers().len() == m.active.len(),
        forall|i: int|
            0 <= i < m.active.len() ==> #[trigger] m.active_browsers()[i]
                == m.active[i].1.browser,
        m.shut_down().idle_browsers().len() == m.idle.len(),
        forall|i: int|
            0 <= i < m.idle.len() ==> #[trigger] m.shut_down().idle_browsers()[i]
                == m.idle[i].browser,
        ({
            let after = m.shut_down().drained();
            &&& after.active.len() == 0
            &&& after.idle.len() == 0
            &&& after.closed
            &&& after == (ClusterModel {
                active: after.active,
                idle: after.idle,
                closed: after.closed,
                ..m
            })
            &&& m.shut_down() == (ClusterModel { idle: m.idle, ..after })
        }),
{
}

/// There is nothing to wait for exactly if no job waits and no worker is active, and every job has
/// ended or the cluster was closed.
pub proof fn law_nothing_is_left_to_wait_for<B, F, T>(m: ClusterModel<B, F, T>)
    ensures
        m.all_done() <==> m.queue.len() == 0 && m.active.len() == 0 && (m.closed || m.unended == 0),
{
}

/// Of two jobs that wait, the one that came first runs first in first-in-first-out mode, and the
/// one that came last in last-in-first-out mode. A job is added behind all others in the one and
/// before all others in the other.
pub proof fn law_mode_decides_who_runs_first<J>(
    one: u128,
    other: u128,
    queue: Seq<J>,
    job: J,
)
    ensures
        QueueMode::FIFO.precedes(one, other) <==> one < other,
        QueueMode::LIFO.precedes(one, other) <==> other < one,
        QueueMode::FIFO.added(queue, job).len() == queue.len() + 1,
        QueueMode::FIFO.added(queue, job).last() == job,
        QueueMode::FIFO.added(queue, job).drop_last() == queue,
        QueueMode::LIFO.added(queue, job).len() == queue.len() + 1,
        QueueMode::LIFO.added(queue, job)[0] == job,
        QueueMode::LIFO.added(queue, job).skip(1) == queue,
{
    assert(QueueMode::FIFO.added(queue, job).drop_last() =~= queue);
    assert(QueueMode::LIFO.added(queue, job).skip(1) =~= queue);
}

/// A job that waits or holds a permit after an event did so before, or came with the event.
proof fn lemma_live<B, F, T>(m: ClusterModel<B, F, T>, event: Event<B, F, T>, number: Arrival)
    requires
        m.wf(),
        m.possible(event),
        m.after(event).is_live(number),
    ensures
        m.is_live(number) || (m.came(event).len() == 1 && number == m.arrivals),
{
    let after = m.after(event);
    let line = m.line(event);
    law_queue_is_served_in_order(m, event);
    if exists|i: int| 0 <= i < after.queue.len() && (#[trigger] after.queue[i]).arrival == number {
        let i = choose|i: int|
            0 <= i < after.queue.len() && (#[trigger] after.queue[i]).arrival == number;
        assert(line[m.served(event).len() + i] == after.queue[i]);
        lemma_live_line(m, event, m.served(event).len() + i);
    } else {
        let p = choose|p: usize| #[trigger]
            after.carried.contains_key(p) && after.carried[p].arrival == number;
        if !(m.carried.contains_key(p) && m.carried[p] == after.carried[p]) {
            lemma_newly_carried(m, event, p);
            let i = choose|i: int| 0 <= i < line.len() && line[i] == after.carried[p];
            lemma_live_line(m, event, i);
        }
    }
}

/// A job that an event finds in the queue or adds to it was live, or came with the event.
proof fn lemma_live_line<B, F, T>(m: ClusterModel<B, F, T>, event: Event<B, F, T>, i: int)
    requires
        m.wf(),
        m.possible(event),
        0 <= i < m.line(event).len(),
    ensures
        m.is_live(m.line(event)[i].arrival) || (m.came(event).len() == 1 && m.line(
            event,
        )[i].arrival == m.arrivals),
        m.is_waiting(m.line(event)[i].arrival) || (m.came(event).len() == 1 && m.line(
            event,
        )[i].arrival == m.arrivals),
{
    let job = m.line(event)[i];
    lemma_line(m, event, i);
    if m.queue.contains(job) {
        let k = choose|k: int| 0 <= k < m.queue.len() && m.queue[k] == job;
        assert(m.queue[k].arrival == job.arrival);
    } else if m.came(event) == seq![job] {
        assert(m.came(event)[0] == job);
        assert(m.came(event).len() == 1);
    } else if let Event::Launched(permit, _) = event {
        assert(m.carried.contains_key(permit));
        assert(m.awaiting.contains(permit));
    }
}

/// What the numbers of attempts have to do with each other over a course of events.
spec fn attempts_are_traced<B, F, T>(
    new: ClusterModel<B, F, T>,
    events: Seq<Event<B, F, T>>,
) -> bool {
    let m = new.after_all(events);
    let came = new.came_in_all(events);
    let repeats = new.repeats_in_all(events);
    &&& repeats.len() == came.len()
    &&& forall|k: int|
        0 <= k < came.len() ==> match #[trigger] repeats[k] {
            None => came[k].retries == 0,
            Some(j) => {
                &&& j < k
                &&& came[k].task == came[j as int].task
                &&& came[k].data == came[j as int].data
                &&& came[k].retries == came[j as int].retries + 1
                &&& came[k].retries <= new.options.retry_limit
            },
        }
    &&& forall|k: int, l: int|
        0 <= k < came.len() && 0 <= l < came.len() && k != l && #[trigger] repeats[k] is Some
            ==> repeats[k] != #[trigger] repeats[l]
    // An attempt that was repeated is over.
    &&& forall|k: int|
        0 <= k < came.len() && (#[trigger] repeats[k]) is Some ==> !m.is_live(repeats[k]->0)
    // An attempt that is to be repeated is over, was not repeated yet, and is to be repeated once.
    &&& forall|retry: RetryModel<F, T>| #[trigger]
        m.retrying.contains(retry) ==> {
            let j = retry.job.arrival as int;
            &&& j < came.len()
            &&& retry.job.task == came[j].task
            &&& retry.job.data == came[j].data
            &&& retry.job.retries == came[j].retries + 1
            &&& retry.job.retries <= new.options.retry_limit
            &&& !m.is_live(retry.job.arrival)
            &&& m.retrying.count(retry) == 1
        }
    &&& forall|retry: RetryModel<F, T>, k: int|
        #![trigger m.retrying.contains(retry), repeats[k]]
        m.retrying.contains(retry) && 0 <= k < came.len() ==> repeats[k] != Some(retry.job.arrival)
    &&& forall|one: RetryModel<F, T>, other: RetryModel<F, T>| #[trigger]
        m.retrying.contains(one) && #[trigger] m.retrying.contains(other) && one.job.arrival
            == other.job.arrival ==> one == other
}

/// The jobs that are to be tried again stay the same over an event that neither fails a job nor
/// queues one again.
proof fn lemma_retrying_unchanged<B, F, T>(m: ClusterModel<B, F, T>, event: Event<B, F, T>)
    requires
        m.wf(),
        m.possible(event),
        event !is Failed,
        event !is Requeued,
    ensures
        m.after(event).retrying == m.retrying,
{
    if m.before_round(event) is Some {
        lemma_before_round(m, event);
    }
}

#[verifier::rlimit(60)]
proof fn lemma_attempts<B, F, T>(options: ClusterOptions, events: Seq<Event<B, F, T>>)
    requires
        options.valid(),
        ClusterModel::empty(options).possible_all(events),
    ensures
        attempts_are_traced(ClusterModel::<B, F, T>::empty(options), events),
    decreases events.len(),
{
    let new = ClusterModel::<B, F, T>::empty(options);
    if events.len() > 0 {
        let earlier = events.drop_last();
        let event = events.last();
        let before = new.after_all(earlier);
        let m = new.after_all(events);
        let old_came = new.came_in_all(earlier);
        let came = new.came_in_all(events);
        let old_repeats = new.repeats_in_all(earlier);
        let repeats = new.repeats_in_all(events);
        lemma_attempts(options, earlier);
        law_reachable_states_are_sound(options, earlier);
        law_numbers_tell_the_order_of_coming(options, earlier);
        law_numbers_tell_the_order_of_coming(options, events);
        assert forall|number: Arrival| #[trigger] m.is_live(number) implies before.is_live(number)
            || number >= old_came.len() by {
            lemma_live(before, event, number);
        }
        assert forall|k: int| 0 <= k < old_came.len() implies #[trigger] repeats[k]
            == old_repeats[k] && came[k] == old_came[k] by {}
        match event {
            Event::Failed(permit, failed_at) => {
                law_failure_is_remembered(before, permit, failed_at);
                lemma_fail_is_traced(new, events);
            },
            Event::Requeued(retry, now) => {
                lemma_requeue_is_traced(new, events);
            },
            _ => {
                lemma_retrying_unchanged(before, event);
                assert forall|retry: RetryModel<F, T>, k: int|
                    #![trigger m.retrying.contains(retry), repeats[k]]
                    m.retrying.contains(retry) && 0 <= k < came.len() implies repeats[k] != Some(
                    retry.job.arrival,
                ) by {
                    assert(before.retrying.contains(retry));
                    if k < old_came.len() {
                        assert(repeats[k] == old_repeats[k]);
                    }
                }
            },
        }
    }
}

proof fn lemma_fail_is_traced<B, F, T>(new: ClusterModel<B, F, T>, events: Seq<Event<B, F, T>>)
    requires
        events.len() > 0,
        events.last() is Failed,
        new.after_all(events.drop_last()).wf(),
        new.after_all(events.drop_last()).options == new.options,
        new.after_all(events.drop_last()).possible(events.last()),
        attempts_are_traced(new, events.drop_last()),
        ({
            let m = new.after_all(events.drop_last());
            let came = new.came_in_all(events.drop_last());
            forall|p: usize| #[trigger]
                m.carried.contains_key(p) ==> m.carried[p].arrival < came.len()
                    && came[m.carried[p].arrival as int] == m.carried[p]
        }),
    ensures
        attempts_are_traced(new, events),
{
    let before = new.after_all(events.drop_last());
    let m = new.after_all(events);
    let came = new.came_in_all(events);
    let repeats = new.repeats_in_all(events);
    assert(came =~= new.came_in_all(events.drop_last()));
    assert(repeats =~= new.repeats_in_all(events.drop_last()));
    if let Event::Failed(permit, failed_at) = events.last() {
        law_failure_is_remembered(before, permit, failed_at);
        assert forall|number: Arrival| #[trigger] m.is_live(number) implies before.is_live(number)
            && (before.carried[permit].retries < before.options.retry_limit ==> number
            != before.carried[permit].arrival) by {
            if exists|i: int|
                0 <= i < m.queue.len() && (#[trigger] m.queue[i]).arrival == number {
                let i = choose|i: int|
                    0 <= i < m.queue.len() && (#[trigger] m.queue[i]).arrival == number;
                assert(before.queue[i].arrival == number);
                assert(before.carried.contains_key(permit));
            } else {
                let p = choose|p: usize| #[trigger]
                    m.carried.contains_key(p) && m.carried[p].arrival == number;
                assert(before.carried.contains_key(p));
                assert(before.carried.contains_key(permit));
            }
        }
        if before.carried[permit].retries < before.options.retry_limit {
            let retry = before.retry_after(permit, failed_at)->0;
            let number = retry.job.arrival;
            assert(before.carried.contains_key(permit));
            assert(before.is_live(number));
            assert forall|other: RetryModel<F, T>| #[trigger]
                m.retrying.contains(other) implies other == retry || before.retrying.contains(
                other,
            ) by {}
            assert forall|other: RetryModel<F, T>| #[trigger]
                before.retrying.contains(other) implies other != retry && m.retrying.count(other)
                == before.retrying.count(other) by {
                assert(!before.is_live(other.job.arrival));
            }
            assert(!before.retrying.contains(retry));
            assert(m.retrying.count(retry) == 1);
            assert forall|k: int| 0 <= k < came.len() implies (#[trigger] repeats[k]) != Some(
                number,
            ) by {
                if repeats[k] is Some {
                    assert(!before.is_live(repeats[k]->0));
                }
            }
        }
    }
}

#[verifier::rlimit(60)]
proof fn lemma_requeue_is_traced<B, F, T>(new: ClusterModel<B, F, T>, events: Seq<Event<B, F, T>>)
    requires
        events.len() > 0,
        events.last() is Requeued,
        new.after_all(events.drop_last()).wf(),
        new.after_all(events.drop_last()).options == new.options,
        new.after_all(events.drop_last()).possible(events.last()),
        attempts_are_traced(new, events.drop_last()),
        new.came_in_all(events.drop_last()).len() == new.after_all(events.drop_last()).arrivals,
    ensures
        attempts_are_traced(new, events),
{
    let earlier = events.drop_last();
    let event = events.last();
    let before = new.after_all(earlier);
    let m = new.after_all(events);
    let old_came = new.came_in_all(earlier);
    let came = new.came_in_all(events);
    let old_repeats = new.repeats_in_all(earlier);
    let repeats = new.repeats_in_all(events);
    if let Event::Requeued(retry, now) = event {
        assert forall|number: Arrival| #[trigger] m.is_live(number) implies before.is_live(number)
            || number >= old_came.len() by {
            lemma_live(before, event, number);
        }
        assert forall|other: RetryModel<F, T>| #[trigger]
            m.retrying.contains(other) implies before.retrying.contains(other)
            && m.retrying.count(other) == before.retrying.count(other) && (m.retrying
            != before.retrying ==> other != retry) by {
            assert(before.retrying.count(retry) == 1);
        }
        if before.came(event).len() > 0 {
            assert(came =~= old_came.push(retry.job.numbered(before.arrivals)));
            assert(repeats =~= old_repeats.push(Some(retry.job.arrival)));
            assert(m.retrying == before.retrying.remove(retry));
            assert(m.retrying.count(retry) == 0);
        } else {
            assert(came =~= old_came);
            assert(repeats =~= old_repeats);
        }
        assert forall|k: int| 0 <= k < old_came.len() implies #[trigger] repeats[k]
            == old_repeats[k] && came[k] == old_came[k] by {}
        assert forall|k: int|
            0 <= k < came.len() && (#[trigger] repeats[k]) is Some implies !m.is_live(
            repeats[k]->0,
        ) by {
            if k < old_came.len() {
                assert(old_repeats[k] == repeats[k]);
            }
        }
        assert forall|k: int, l: int|
            0 <= k < came.len() && 0 <= l < came.len() && k != l && #[trigger] repeats[k] is Some
            implies repeats[k] != #[trigger] repeats[l] by {
            if k < old_came.len() && l < old_came.len() {
                assert(old_repeats[k] != old_repeats[l]);
            } else if k < old_came.len() {
                assert(old_repeats[k] != Some(retry.job.arrival));
            } else {
                assert(old_repeats[l] != Some(retry.job.arrival));
            }
        }
        assert forall|other: RetryModel<F, T>, k: int|
            #![trigger m.retrying.contains(other), repeats[k]]
            m.retrying.contains(other) && 0 <= k < came.len() implies repeats[k] != Some(
            other.job.arrival,
        ) by {
            assert(before.retrying.contains(other));
            if k < old_came.len() {
                assert(old_repeats[k] != Some(other.job.arrival));
            }
        }
    }
}

/// Each attempt at a job is a new job or repeats exactly one attempt, which came before it and
/// failed: with the same task and data, and one retry more, of which there are no more than the
/// limit. And no attempt is repeated twice.
pub proof fn law_attempt_repeats_one_that_failed<B, F, T>(
    options: ClusterOptions,
    events: Seq<Event<B, F, T>>,
)
    requires
        options.valid(),
        ClusterModel::empty(options).possible_all(events),
    ensures
        ({
            let new = ClusterModel::<B, F, T>::empty(options);
            let came = new.came_in_all(events);
            let repeats = new.repeats_in_all(events);
            &&& repeats.len() == came.len()
            &&& forall|k: int|
                0 <= k < came.len() ==> match #[trigger] repeats[k] {
                    None => came[k].retries == 0,
                    Some(j) => {
                        &&& j < k
                        &&& came[k].task == came[j as int].task
                        &&& came[k].data == came[j as int].data
                        &&& came[k].retries == came[j as int].retries + 1
                        &&& came[k].retries <= options.retry_limit
                    },
                }
            &&& forall|k: int, l: int|
                0 <= k < came.len() && 0 <= l < came.len() && k != l && #[trigger] repeats[k] is Some
                    ==> repeats[k] != #[trigger] repeats[l]
        }),
{
    lemma_attempts::<B, F, T>(options, events);
}

/// Whether the numbers are those of attempts at one job, each the repetition of the one before.
pub open spec fn are_attempts_at_one_job(
    repeats: Seq<Option<Arrival>>,
    numbers: Seq<Arrival>,
) -> bool {
    &&& forall|i: int| 0 <= i < numbers.len() ==> (#[trigger] numbers[i]) < repeats.len()
    &&& forall|i: int|
        0 < i < numbers.len() ==> repeats[(#[trigger] numbers[i]) as int] == Some(numbers[i - 1])
}

/// A job enters the queue at most once more than the retry limit, over any course of events: first
/// as it was accepted, and then, with the same task and data, with one retry more each time.
pub proof fn law_job_is_queued_at_most_once_more_than_the_limit<B, F, T>(
    options: ClusterOptions,
    events: Seq<Event<B, F, T>>,
    numbers: Seq<Arrival>,
)
    requires
        options.valid(),
        ClusterModel::empty(options).possible_all(events),
        are_attempts_at_one_job(
            ClusterModel::<B, F, T>::empty(options).repeats_in_all(events),
            numbers,
        ),
    ensures
        numbers.len() <= options.retry_limit + 1,
        ({
            let came = ClusterModel::<B, F, T>::empty(options).came_in_all(events);
            forall|i: int|
                0 <= i < numbers.len() ==> {
                    &&& came[(#[trigger] numbers[i]) as int].retries == came[numbers[0] as int].retries
                        + i
                    &&& came[numbers[i] as int].task == came[numbers[0] as int].task
                    &&& came[numbers[i] as int].data == came[numbers[0] as int].data
                }
        }),
    decreases numbers.len(),
{
    lemma_attempts::<B, F, T>(options, events);
    let new = ClusterModel::<B, F, T>::empty(options);
    let came = new.came_in_all(events);
    let repeats = new.repeats_in_all(events);
    if numbers.len() > 1 {
        let rest = numbers.drop_last();
        assert forall|i: int| 0 < i < rest.len() implies repeats[(#[trigger] rest[i]) as int]
            == Some(rest[i - 1]) by {
            assert(rest[i] == numbers[i]);
        }
        law_job_is_queued_at_most_once_more_than_the_limit(options, events, rest);
        let last = numbers.len() - 1;
        assert(repeats[numbers[last] as int] == Some(numbers[last - 1]));
        assert(rest[last - 1] == numbers[last - 1]);
        assert forall|i: int| 0 <= i < numbers.len() implies {
            &&& came[(#[trigger] numbers[i]) as int].retries == came[numbers[0] as int].retries + i
            &&& came[numbers[i] as int].task == came[numbers[0] as int].task
            &&& came[numbers[i] as int].data == came[numbers[0] as int].data
        } by {
            if i < last {
                assert(rest[i] == numbers[i]);
            }
        }
        assert(came[numbers[last] as int].retries <= options.retry_limit);
    }
}

/// What starts with an event was waiting, or came with the event, and waits no more; and nothing
/// starts twice.
proof fn lemma_starts<B, F, T>(m: ClusterModel<B, F, T>, event: Event<B, F, T>)
    requires
        m.wf(),
        m.possible(event),
    ensures
        forall|i: int|
            0 <= i < m.starts(event).len() ==> {
                &&& m.is_waiting((#[trigger] m.starts(event)[i]).arrival) || (m.came(event).len()
                    == 1 && m.starts(event)[i].arrival == m.arrivals)
                &&& !m.after(event).is_waiting(m.starts(event)[i].arrival)
            },
        forall|i: int, j: int|
            0 <= i < j < m.starts(event).len() ==> (#[trigger] m.starts(event)[i]).arrival != (
            #[trigger] m.starts(event)[j]).arrival,
{
    law_steps_keep_invariant(m, event);
    if m.before_round(event) is Some {
        lemma_before_round(m, event);
        let ready = m.before_round(event)->0;
        law_round_does_what_can_be_done(ready);
        let (last, round, next) = ready.round();
        let starts = m.starts(event);
        let shift: int = if event is Launched {
            1
        } else {
            0
        };
        let line = m.line(event);
        law_queue_is_served_in_order(m, event);
        law_round_serves_the_front(ready);
        assert(ready.queue =~= line);
        assert(starts.len() == round.len() + shift);
        assert forall|i: int| shift <= i < starts.len() implies #[trigger] starts[i] == line[i
            - shift] && last.carried.contains_key(round[i - shift].permit)
            && last.carried[round[i - shift].permit] == starts[i] && !m.awaiting.contains(
            round[i - shift].permit,
        ) && !last.awaiting.contains(round[i - shift].permit) by {
            let start = round[i - shift];
            assert(is_started(round, start.permit));
            assert(start.job == ready.queue[i - shift]);
            if event is Concluded {
                assert(ready.awaiting == m.awaiting);
            }
            law_started_jobs_have_workers(ready, i - shift);
            assert(!ready.held.contains(start.permit));
        }
        if let Event::Launched(permit, _) = event {
            assert(starts[0] == m.carried[permit]);
            assert(m.carried.contains_key(permit));
            assert(m.awaiting.contains(permit));
            assert(m.held.contains(permit));
            assert(last.carried.contains_key(permit) && last.carried[permit] == m.carried[permit]);
            assert(!last.awaiting.contains(permit));
        }
        assert forall|i: int| 0 <= i < starts.len() implies m.is_waiting(
            (#[trigger] starts[i]).arrival,
        ) || (m.came(event).len() == 1 && starts[i].arrival == m.arrivals) by {
            if i >= shift {
                lemma_live_line(m, event, i - shift);
            }
        }
        assert forall|i: int| 0 <= i < starts.len() implies !last.is_waiting(
            (#[trigger] starts[i]).arrival,
        ) by {
            let permit = if i >= shift {
                round[i - shift].permit
            } else {
                event->Launched_0
            };
            assert(last.carried.contains_key(permit) && last.carried[permit] == starts[i]);
            assert forall|p: usize| #[trigger]
                last.awaiting.contains(p) implies last.carried[p].arrival != starts[i].arrival by {
                assert(last.carried.contains_key(p));
            }
        }
        assert forall|i: int, j: int| 0 <= i < j < starts.len() implies (
        #[trigger] starts[i]).arrival != (#[trigger] starts[j]).arrival by {
            let p = if i >= shift {
                round[i - shift].permit
            } else {
                event->Launched_0
            };
            let q = round[j - shift].permit;
            assert(last.carried.contains_key(p) && last.carried[p] == starts[i]);
            assert(last.carried.contains_key(q) && last.carried[q] == starts[j]);
            assert(p != q);
        }
    } else {
        assert(m.starts(event).len() == 0);
    }
}

/// A job that waits after an event did so before, or came with the event.
proof fn lemma_waiting<B, F, T>(m: ClusterModel<B, F, T>, event: Event<B, F, T>, number: Arrival)
    requires
        m.wf(),
        m.possible(event),
        m.after(event).is_waiting(number),
    ensures
        m.is_waiting(number) || (m.came(event).len() == 1 && number == m.arrivals),
{
    let after = m.after(event);
    let line = m.line(event);
    law_queue_is_served_in_order(m, event);
    law_steps_keep_invariant(m, event);
    if exists|i: int| 0 <= i < after.queue.len() && (#[trigger] after.queue[i]).arrival == number {
        let i = choose|i: int|
            0 <= i < after.queue.len() && (#[trigger] after.queue[i]).arrival == number;
        assert(line[m.served(event).len() + i] == after.queue[i]);
        lemma_live_line(m, event, m.served(event).len() + i);
    } else {
        let p = choose|p: usize| #[trigger]
            after.awaiting.contains(p) && after.carried[p].arrival == number;
        assert(after.carried.contains_key(p));
        if m.before_round(event) is Some {
            lemma_before_round(m, event);
            law_round_does_what_can_be_done(m.before_round(event)->0);
        }
        if !(m.carried.contains_key(p) && m.carried[p] == after.carried[p]) {
            lemma_newly_carried(m, event, p);
            let i = choose|i: int| 0 <= i < line.len() && line[i] == after.carried[p];
            lemma_live_line(m, event, i);
        } else {
            assert(m.awaiting.contains(p));
        }
    }
}

/// An attempt starts at most once, over any course of events: no two starts are of the same
/// number, and each is of the job that came under it.
pub proof fn law_attempt_starts_at_most_once<B, F, T>(
    options: ClusterOptions,
    events: Seq<Event<B, F, T>>,
)
    requires
        options.valid(),
        ClusterModel::empty(options).possible_all(events),
    ensures
        ({
            let new = ClusterModel::<B, F, T>::empty(options);
            let starts = new.starts_in_all(events);
            let came = new.came_in_all(events);
            &&& forall|i: int, j: int|
                0 <= i < j < starts.len() ==> (#[trigger] starts[i]).arrival != (
                #[trigger] starts[j]).arrival
            &&& forall|i: int|
                0 <= i < starts.len() ==> (#[trigger] starts[i]).arrival < came.len()
                    && !new.after_all(events).is_waiting(starts[i].arrival)
        }),
    decreases events.len(),
{
    let new = ClusterModel::<B, F, T>::empty(options);
    if events.len() > 0 {
        let earlier = events.drop_last();
        let event = events.last();
        let before = new.after_all(earlier);
        let m = new.after_all(events);
        let old_starts = new.starts_in_all(earlier);
        let starts = new.starts_in_all(events);
        let fresh = before.starts(event);
        let old_len = new.came_in_all(earlier).len();
        law_attempt_starts_at_most_once(options, earlier);
        law_reachable_states_are_sound(options, earlier);
        law_numbers_tell_the_order_of_coming(options, earlier);
        law_numbers_tell_the_order_of_coming(options, events);
        lemma_starts(before, event);
        assert(new.came_in_all(events).len() == old_len + before.came(event).len());
        assert forall|i: int| 0 <= i < starts.len() implies #[trigger] starts[i] == if i
            < old_starts.len() {
            old_starts[i]
        } else {
            fresh[i - old_starts.len()]
        } by {}
        assert forall|number: Arrival| #[trigger] before.is_waiting(number) implies number
            < old_len by {
            if exists|i: int|
                0 <= i < before.queue.len() && (#[trigger] before.queue[i]).arrival == number {
            } else {
                let p = choose|p: usize| #[trigger]
                    before.awaiting.contains(p) && before.carried[p].arrival == number;
                assert(before.carried.contains_key(p));
            }
        }
        assert forall|i: int| 0 <= i < starts.len() implies (#[trigger] starts[i]).arrival
            < new.came_in_all(events).len() && !m.is_waiting(starts[i].arrival) by {
            if i < old_starts.len() {
                if m.is_waiting(starts[i].arrival) {
                    lemma_waiting(before, event, starts[i].arrival);
                }
            } else {
                assert(starts[i] == fresh[i - old_starts.len()]);
            }
        }
        assert forall|i: int, j: int| 0 <= i < j < starts.len() implies (
        #[trigger] starts[i]).arrival != (#[trigger] starts[j]).arrival by {
            if j < old_starts.len() {
                assert(old_starts[i].arrival != old_starts[j].arrival);
            } else if i >= old_starts.len() {
                assert(fresh[i - old_starts.len()].arrival != fresh[j - old_starts.len()].arrival);
            } else {
                assert(starts[j] == fresh[j - old_starts.len()]);
                assert(!before.is_waiting(old_starts[i].arrival));
            }
        }
    }
}

/// A job is started at most once more than the retry limit, over any course of events: of the
/// starts, no more than that are of attempts at one job.
pub proof fn law_job_is_started_at_most_once_more_than_the_limit<B, F, T>(
    options: ClusterOptions,
    events: Seq<Event<B, F, T>>,
    numbers: Seq<Arrival>,
    places: Seq<int>,
)
    requires
        options.valid(),
        ClusterModel::empty(options).possible_all(events),
        are_attempts_at_one_job(
            ClusterModel::<B, F, T>::empty(options).repeats_in_all(events),
            numbers,
        ),
        forall|i: int, j: int|
            0 <= i < j < places.len() ==> #[trigger] places[i] < #[trigger] places[j],
        ({
            let starts = ClusterModel::<B, F, T>::empty(options).starts_in_all(events);
            forall|i: int|
                0 <= i < places.len() ==> 0 <= #[trigger] places[i] < starts.len()
                    && numbers.contains(starts[places[i]].arrival)
        }),
    ensures
        places.len() <= options.retry_limit + 1,
{
    let starts = ClusterModel::<B, F, T>::empty(options).starts_in_all(events);
    law_job_is_queued_at_most_once_more_than_the_limit::<B, F, T>(options, events, numbers);
    law_attempt_starts_at_most_once::<B, F, T>(options, events);
    let started = Seq::new(places.len(), |i: int| starts[places[i]].arrival);
    assert(started.no_duplicates()) by {
        assert forall|i: int, j: int|
            0 <= i < started.len() && 0 <= j < started.len() && i != j implies started[i]
            != started[j] by {
            if i < j {
                assert(places[i] < places[j]);
            } else {
                assert(places[j] < places[i]);
            }
        }
    }
    started.unique_seq_to_set();
    numbers.lemma_cardinality_of_set();
    vstd::seq_lib::seq_to_set_is_finite(numbers);
    assert(started.to_set().subset_of(numbers.to_set())) by {
        assert forall|n: Arrival| started.to_set().contains(n) implies numbers.to_set().contains(
            n,
        ) by {
            let i = choose|i: int| 0 <= i < started.len() && started[i] == n;
            assert(numbers.contains(starts[places[i]].arrival));
        }
    }
    vstd::set_lib::lemma_len_subset(started.to_set(), numbers.to_set());
}

} // verus!
