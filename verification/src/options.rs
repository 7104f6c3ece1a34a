//! How a cluster is set up.
use vstd::prelude::*;

use crate::job::Arrival;

verus! {

/// A span of time, or a moment on a [`Clock`](crate::Clock), in nanoseconds.
pub type Nanos = u128;

/// The most permits that a semaphore of the runtime can hold.
pub const MAX_PERMITS: usize = usize::MAX / 8;

/// Which of the waiting jobs comes next.
#[derive(Clone, Copy, Debug, PartialEq, Eq, Structural)]
pub enum QueueMode {
    /// First in, first out.
    FIFO,
    /// Last in, first out.
    LIFO,
}

impl QueueMode {
    /// The queue after a job was added. The front of a queue is the next job to run.
    pub open spec fn added<J>(self, queue: Seq<J>, job: J) -> Seq<J> {
        match self {
            QueueMode::FIFO => queue.push(job),
            QueueMode::LIFO => seq![job] + queue,
        }
    }

    /// Whether a job that came under the first number runs before one that came under the second.
    pub open spec fn precedes(self, one: Arrival, other: Arrival) -> bool {
        match self {
            QueueMode::FIFO => one < other,
            QueueMode::LIFO => one > other,
        }
    }

    /// Whether a job that came under the first number runs before one that came under the second.
    pub fn runs_before(self, one: Arrival, other: Arrival) -> (before: bool)
        ensures
            before == self.precedes(one, other),
            before == match self {
                QueueMode::FIFO => one < other,
                QueueMode::LIFO => other < one,
            },
    {
        match self {
            QueueMode::FIFO => one < other,
            QueueMode::LIFO => one > other,
        }
    }

    /// The queue after jobs were added one by one, `jobs[0]` first.
    pub open spec fn added_all<J>(self, queue: Seq<J>, jobs: Seq<J>) -> Seq<J>
        decreases jobs.len(),
    {
        if jobs.len() == 0 {
            queue
        } else {
            self.added(self.added_all(queue, jobs.drop_last()), jobs.last())
        }
    }
}

/// When a worker is to be given up. A limit that is `None` is not applied.
#[derive(Clone, Copy, Debug)]
pub struct WorkerOptions {
    /// The longest that a worker may go unused.
    pub idle_timeout: Option<Nanos>,
    /// The longest that a browser may live.
    pub max_browser_lifetime: Option<Nanos>,
}

/// The settings of a cluster.
#[derive(Clone, Copy, Debug)]
pub struct ClusterOptions {
    /// The most jobs that run at a time.
    pub concurrency: usize,
    /// The most browsers that exist at a time.
    pub max_concurrent_browsers: usize,
    /// How many idle browsers are kept ready.
    pub min_idle_browsers: usize,
    /// From which queue length on new jobs are refused; `None` refuses none.
    pub max_queue_size: Option<usize>,
    /// The longest that a worker may go unused.
    pub idle_timeout: Option<Nanos>,
    /// The longest that a browser may live.
    pub max_browser_lifetime: Option<Nanos>,
    /// How often a job that failed is tried again.
    pub retry_limit: usize,
    /// How long to wait before a job is tried again.
    pub retry_delay: Nanos,
    /// Which of the waiting jobs comes next.
    pub queue_mode: QueueMode,
    /// How long to wait between two looks at the idle workers.
    pub monitor_interval: Nanos,
}

impl ClusterOptions {
    /// Whether the runtime can make a semaphore of `concurrency` permits and a task channel of
    /// twice that capacity. A channel holds at least one message.
    pub open spec fn valid(self) -> bool {
        0 < self.concurrency && self.concurrency * 2 <= MAX_PERMITS
    }

    /// The limits that the cluster puts on its workers.
    pub open spec fn worker_limits(self) -> WorkerOptions {
        WorkerOptions {
            idle_timeout: self.idle_timeout,
            max_browser_lifetime: self.max_browser_lifetime,
        }
    }

    /// The settings for a machine on which the processors were counted as given.
    pub open spec fn standard(concurrency: usize, max_concurrent_browsers: usize) -> ClusterOptions {
        ClusterOptions {
            concurrency,
            max_concurrent_browsers,
            min_idle_browsers: 0,
            max_queue_size: Some(100),
            idle_timeout: Some(1_800_000_000_000),
            max_browser_lifetime: Some(10_800_000_000_000),
            retry_limit: 3,
            retry_delay: 1_000_000_000,
            queue_mode: QueueMode::FIFO,
            monitor_interval: 30_000_000_000,
        }
    }

    /// Whether a cluster can be made with these settings.
    pub fn is_valid(&self) -> (ok: bool)
        ensures
            ok == self.valid(),
            ok <==> 0 < self.concurrency && self.concurrency * 2 <= usize::MAX / 8,
    {
        0 < self.concurrency && self.concurrency <= MAX_PERMITS / 2
    }

    /// The limits that the cluster puts on its workers.
    pub fn worker_options(&self) -> (limits: WorkerOptions)
        ensures
            limits == self.worker_limits(),
            limits.idle_timeout == self.idle_timeout,
            limits.max_browser_lifetime == self.max_browser_lifetime,
    {
        WorkerOptions {
            idle_timeout: self.idle_timeout,
            max_browser_lifetime: self.max_browser_lifetime,
        }
    }

    /// How many jobs the task channel holds: twice as many as may run at a time.
    pub fn channel_capacity(&self) -> (capacity: usize)
        requires
            self.valid(),
        ensures
            capacity == self.concurrency * 2,
    {
        self.concurrency * 2
    }

    /// The standard settings, given how many jobs and how many browsers the machine can take:
    /// no browser kept idle, at most 100 jobs waiting, idle workers given up after 30 minutes and
    /// browsers after 3 hours, 3 retries a second apart, first in first out, and a look at the
    /// idle workers every 30 seconds.
    pub fn for_processors(concurrency: usize, max_concurrent_browsers: usize) -> (o: ClusterOptions)
        ensures
            o == ClusterOptions::standard(concurrency, max_concurrent_browsers),
            o.concurrency == concurrency,
            o.max_concurrent_browsers == max_concurrent_browsers,
            o.min_idle_browsers == 0,
            o.max_queue_size == Some(100usize),
            o.idle_timeout == Some(1_800_000_000_000u128),
            o.max_browser_lifetime == Some(10_800_000_000_000u128),
            o.retry_limit == 3,
            o.retry_delay == 1_000_000_000,
            o.queue_mode == QueueMode::FIFO,
            o.monitor_interval == 30_000_000_000,
    {
        ClusterOptions {
            concurrency,
            max_concurrent_browsers,
            min_idle_browsers: 0,
            max_queue_size: Some(100),
            idle_timeout: Some(1_800_000_000_000),
            max_browser_lifetime: Some(10_800_000_000_000),
            retry_limit: 3,
            retry_delay: 1_000_000_000,
            queue_mode: QueueMode::FIFO,
            monitor_interval: 30_000_000_000,
        }
    }
}

impl Default for ClusterOptions {
    /// The standard settings, with as many jobs and as many browsers as the machine has
    /// processors. How many that is, the machine decides; it is never none.
    fn default() -> (o: ClusterOptions)
        ensures
            o == ClusterOptions::standard(o.concurrency, o.max_concurrent_browsers),
            o.min_idle_browsers == 0,
            o.max_queue_size == Some(100usize),
            o.idle_timeout == Some(1_800_000_000_000u128),
            o.max_browser_lifetime == Some(10_800_000_000_000u128),
            o.retry_limit == 3,
            o.retry_delay == 1_000_000_000,
            o.queue_mode == QueueMode::FIFO,
            o.monitor_interval == 30_000_000_000,
            o.concurrency >= 1,
            o.max_concurrent_browsers >= 1,
    {
        let concurrency: usize = processors();
        let max_concurrent_browsers: usize = processors();
        ClusterOptions::for_processors(concurrency, max_concurrent_browsers)
    }
}

/// Calls `num_cpus::get`. The count depends on the machine, on the processors that the thread may
/// use and on the limits of its control group; of any outcome only this is claimed: it is at
/// least one.
#[verifier::external_body]
fn processors() -> (n: usize)
    ensures
        n >= 1,
{
    num_cpus::get()
}

} // verus!
