use browser_cluster::clock::remaining;
use browser_cluster::permits::Permits;
use browser_cluster::{
    BrowserError, Clock, ClusterOptions, JobEntry, QueueMode, Worker, WorkerOptions,
};
use std::sync::Arc;

const SECOND: u128 = 1_000_000_000;

#[test]
fn error_messages() {
    let detail = || "x y".to_string();
    assert_eq!(BrowserError::LaunchError(detail()).message(), "Browser launch failed: x y");
    assert_eq!(BrowserError::OperationError(detail()).message(), "Browser operation failed: x y");
    assert_eq!(BrowserError::ConnectionError(detail()).message(), "Browser connection failed: x y");
    assert_eq!(BrowserError::TimeoutError(detail()).message(), "Timeout error: x y");
    assert_eq!(BrowserError::QueueFullError.message(), "Queue is full");
    assert_eq!(BrowserError::LaunchError(String::new()).message(), "Browser launch failed: ");
}

#[test]
fn standard_options() {
    let o = ClusterOptions::for_processors(4, 6);
    assert_eq!(o.concurrency, 4);
    assert_eq!(o.max_concurrent_browsers, 6);
    assert_eq!(o.min_idle_browsers, 0);
    assert_eq!(o.max_queue_size, Some(100));
    assert_eq!(o.idle_timeout, Some(30 * 60 * SECOND));
    assert_eq!(o.max_browser_lifetime, Some(3 * 60 * 60 * SECOND));
    assert_eq!(o.retry_limit, 3);
    assert_eq!(o.retry_delay, SECOND);
    assert_eq!(o.queue_mode, QueueMode::FIFO);
    assert_eq!(o.monitor_interval, 30 * SECOND);
    assert_eq!(o.channel_capacity(), 8);
}

#[test]
fn default_options_count_processors() {
    let o = ClusterOptions::default();
    assert_eq!(o.concurrency, num_cpus::get());
    assert_eq!(o.max_concurrent_browsers, num_cpus::get());
    assert!(o.concurrency >= 1);
    assert_eq!(o.max_queue_size, Some(100));
    assert!(o.is_valid());
}

#[test]
fn which_options_are_valid() {
    let mut o = ClusterOptions::for_processors(1, 0);
    assert!(o.is_valid());
    o.concurrency = 0;
    assert!(!o.is_valid());
    o.concurrency = usize::MAX / 16;
    assert!(o.is_valid());
    o.concurrency = usize::MAX / 16 + 1;
    assert!(!o.is_valid());
}

#[test]
fn worker_options_are_those_of_the_cluster() {
    let mut o = ClusterOptions::for_processors(1, 1);
    o.idle_timeout = None;
    o.max_browser_lifetime = Some(7);
    assert_eq!(o.worker_options().idle_timeout, None);
    assert_eq!(o.worker_options().max_browser_lifetime, Some(7));
}

/// Lets five milliseconds go by.
fn pass_time() {
    let start = std::time::Instant::now();
    while start.elapsed() < std::time::Duration::from_millis(5) {}
}

fn limits(idle: Option<u128>, lifetime: Option<u128>) -> WorkerOptions {
    WorkerOptions { idle_timeout: idle, max_browser_lifetime: lifetime }
}

#[test]
fn replacement_at_a_moment() {
    let mut w = Worker::new_at(Arc::new("browser"), 100);
    assert_eq!(w.created_at, 100);
    assert_eq!(w.last_used, 100);
    w.last_used = 150;

    // No limit.
    assert!(!w.should_replace_at(&limits(None, None), u128::MAX));
    // The lifetime counts from the start, and its last moment is still within it.
    assert!(!w.should_replace_at(&limits(None, Some(50)), 150));
    assert!(w.should_replace_at(&limits(None, Some(50)), 151));
    // The idle time counts from the last use.
    assert!(!w.should_replace_at(&limits(Some(50), None), 200));
    assert!(w.should_replace_at(&limits(Some(50), None), 201));
    // Either limit suffices.
    assert!(w.should_replace_at(&limits(Some(1000), Some(50)), 151));
    assert!(w.should_replace_at(&limits(Some(50), Some(1000)), 201));
    assert!(!w.should_replace_at(&limits(Some(50), Some(1000)), 200));
    // A reading from before the start is no time at all.
    assert!(!w.should_replace_at(&limits(Some(0), Some(0)), 0));
    // What is outlived once is outlived later too.
    assert!(w.should_replace_at(&limits(Some(50), None), u128::MAX));
}

#[test]
fn replacement_by_the_clock() {
    let mut clock = Clock::new();
    let w = Worker::new(Arc::new(1u8), &mut clock);
    assert_eq!(*w.browser, 1);
    assert_eq!(w.created_at, w.last_used);
    pass_time();
    assert!(!w.should_replace(&limits(None, None), &mut clock));
    assert!(!w.should_replace(&limits(Some(3600 * SECOND), Some(3600 * SECOND)), &mut clock));
    assert!(w.should_replace(&limits(Some(1), None), &mut clock));
    assert!(w.should_replace(&limits(None, Some(1)), &mut clock));
}

#[test]
fn clock_counts_from_its_start() {
    let mut clock = Clock::new();
    let first = clock.now();
    pass_time();
    let second = clock.now();
    assert!(second >= first + 5_000_000);
    assert!(clock.now() >= second);
    assert!(Clock::new().now() < second);
}

#[test]
fn remaining_time() {
    assert_eq!(remaining(10, 100, 100), Some(10));
    assert_eq!(remaining(10, 100, 109), Some(1));
    assert_eq!(remaining(10, 100, 110), None);
    assert_eq!(remaining(10, 100, 50), Some(10));
    assert_eq!(remaining(0, 100, 50), None);
    assert_eq!(remaining(u128::MAX, 0, 1), Some(u128::MAX - 1));
}

#[test]
fn permits_have_the_least_free_number() {
    let mut p = Permits::new(3);
    assert_eq!(p.try_acquire(), Some(0));
    assert_eq!(p.try_acquire(), Some(1));
    assert_eq!(p.try_acquire(), Some(2));
    assert_eq!(p.try_acquire(), None);
    p.release(1);
    assert_eq!(p.try_acquire(), Some(1));
    assert_eq!(p.try_acquire(), None);
    p.release(2);
    p.release(0);
    assert_eq!(p.try_acquire(), Some(0));
    assert_eq!(p.try_acquire(), Some(2));
    assert_eq!(p.try_acquire(), None);
    assert_eq!(Permits::new(0).try_acquire(), None);
}

#[test]
fn a_job_is_retried_up_to_the_limit() {
    let job = JobEntry::new(Arc::new("task"), "data");
    assert_eq!(job.retries, 0);
    let job = job.retry(2).unwrap();
    assert_eq!((*job.task, job.data, job.retries), ("task", "data", 1));
    let job = job.retry(2).unwrap();
    assert_eq!((*job.task, job.data, job.retries), ("task", "data", 2));
    assert!(job.retry(2).is_none());
    assert!(JobEntry::new(Arc::new(0), 0).retry(0).is_none());
}
