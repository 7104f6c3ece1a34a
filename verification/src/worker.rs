//! A browser together with its age.
use std::sync::Arc;
use vstd::prelude::*;

use crate::clock::Clock;
use crate::options::{Nanos, WorkerOptions};

verus! {

/// A browser that runs one job at a time.
pub struct Worker<B> {
    /// The browser.
    pub browser: Arc<B>,
    /// When the browser was started.
    pub created_at: Nanos,
    /// When the browser was last used.
    pub last_used: Nanos,
}

impl<B> Worker<B> {
    /// Whether the worker has outlived the limits: its browser is older than it may be, or it has
    /// gone unused for longer than it may.
    pub open spec fn expired(self, limits: WorkerOptions, now: Nanos) -> bool {
        ||| (limits.max_browser_lifetime matches Some(most) && crate::clock::elapsed(
            self.created_at,
            now,
        ) > most)
        ||| (limits.idle_timeout matches Some(most) && crate::clock::elapsed(self.last_used, now)
            > most)
    }

    /// A worker for a browser that has just been started. Both its times are a reading of the
    /// clock.
    pub fn new(browser: Arc<B>, clock: &mut Clock) -> (worker: Worker<B>)
        ensures
            worker == (Worker {
                browser,
                created_at: final(clock).last(),
                last_used: final(clock).last(),
            }),
            final(clock).last() >= old(clock).last(),
    {
        let now: Nanos = clock.now();
        Worker::new_at(browser, now)
    }

    /// A worker for a browser that was started at the given moment.
    pub fn new_at(browser: Arc<B>, now: Nanos) -> (worker: Worker<B>)
        ensures
            worker == (Worker { browser, created_at: now, last_used: now }),
    {
        Worker { browser, created_at: now, last_used: now }
    }

    /// Whether the worker is to be replaced, by a reading of the clock.
    pub fn should_replace(&self, options: &WorkerOptions, clock: &mut Clock) -> (replace: bool)
        ensures
            replace == self.expired(*options, final(clock).last()),
            replace <==> {
                ||| options.max_browser_lifetime matches Some(most) && final(clock).last()
                    > self.created_at + most
                ||| options.idle_timeout matches Some(most) && final(clock).last() > self.last_used
                    + most
            },
            final(clock).last() >= old(clock).last(),
    {
        let now: Nanos = clock.now();
        self.should_replace_at(options, now)
    }

    /// Whether the worker is to be replaced at the given moment.
    pub fn should_replace_at(&self, options: &WorkerOptions, now: Nanos) -> (replace: bool)
        ensures
            replace == self.expired(*options, now),
            replace <==> {
                ||| options.max_browser_lifetime matches Some(most) && now > self.created_at + most
                ||| options.idle_timeout matches Some(most) && now > self.last_used + most
            },
    {
        if let Some(max_lifetime) = options.max_browser_lifetime {
            if now.saturating_sub(self.created_at) > max_lifetime {
                return true;
            }
        }
        if let Some(max_idle_time) = options.idle_timeout {
            if now.saturating_sub(self.last_used) > max_idle_time {
                return true;
            }
        }
        false
    }
}

} // verus!
