//! What a cluster is asked to do.
use std::sync::Arc;
use vstd::prelude::*;

verus! {

/// The number under which a job enters the queue. Numbers are given out in the order in which jobs
/// come.
pub type Arrival = u128;

/// A task, the data to run it on, how often it has been tried again, and when it came.
pub struct JobEntry<F, T> {
    /// The task.
    pub task: Arc<F>,
    /// What the task works on.
    pub data: T,
    /// How often the job was tried again after a failure.
    pub retries: usize,
    /// The number under which the job last entered the queue, and zero before it first does.
    pub arrival: Arrival,
}

impl<F, T> JobEntry<F, T> {
    /// A new job.
    pub open spec fn fresh(task: Arc<F>, data: T) -> JobEntry<F, T> {
        JobEntry { task, data, retries: 0, arrival: 0 }
    }

    /// The job as it enters the queue under the number.
    pub open spec fn numbered(self, arrival: Arrival) -> JobEntry<F, T> {
        JobEntry { arrival, ..self }
    }

    /// The job to queue after an attempt at this one failed, or `None` where it was tried again
    /// as often as the limit allows.
    pub open spec fn again(self, retry_limit: usize) -> Option<JobEntry<F, T>> {
        if self.retries < retry_limit {
            Some(JobEntry { retries: (self.retries + 1) as usize, ..self })
        } else {
            None
        }
    }

    /// The job that is left after `failures` failed attempts in a row, or `None` where it was
    /// given up by then.
    pub open spec fn after_failures(self, retry_limit: usize, failures: nat) -> Option<
        JobEntry<F, T>,
    >
        decreases failures,
    {
        if failures == 0 {
            Some(self)
        } else {
            match self.after_failures(retry_limit, (failures - 1) as nat) {
                Some(job) => job.again(retry_limit),
                None => None,
            }
        }
    }

    /// A new job.
    pub fn new(task: Arc<F>, data: T) -> (job: JobEntry<F, T>)
        ensures
            job == JobEntry::fresh(task, data),
            job.task == task,
            job.data == data,
            job.retries == 0,
    {
        JobEntry { task, data, retries: 0, arrival: 0 }
    }

    /// The job to queue after an attempt at this one failed, or `None` where it was tried again
    /// as often as the limit allows.
    pub fn retry(self, retry_limit: usize) -> (job: Option<JobEntry<F, T>>)
        ensures
            job == self.again(retry_limit),
            job is Some <==> self.retries < retry_limit,
            job matches Some(again) ==> {
                &&& again.task == self.task
                &&& again.data == self.data
                &&& again.retries == self.retries + 1
                &&& again.arrival == self.arrival
            },
    {
        if self.retries < retry_limit {
            Some(JobEntry { retries: self.retries + 1, ..self })
        } else {
            None
        }
    }
}

} // verus!
