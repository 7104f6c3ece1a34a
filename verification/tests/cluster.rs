use browser_cluster::{
    Accepted, BrowserError, Cluster, ClusterOptions, Failure, Look, Next, QueueMode, Received,
    Requeued, Retry, Round, Run, Start, Tried, WaitStep, Worker,
};
use std::sync::Arc;

/// Browsers and tasks are text, and a job works on a number.
type TestCluster = Cluster<&'static str, &'static str, u32>;

fn options(concurrency: usize, browsers: usize, mode: QueueMode) -> ClusterOptions {
    let mut o = ClusterOptions::for_processors(concurrency, browsers);
    o.queue_mode = mode;
    o.idle_timeout = None;
    o.max_browser_lifetime = None;
    o
}

fn cluster(concurrency: usize, browsers: usize) -> TestCluster {
    Cluster::new(options(concurrency, browsers, QueueMode::FIFO))
}

fn accept(c: &mut TestCluster, data: u32) -> Accepted<&'static str, u32> {
    match c.execute(Arc::new("task"), data) {
        Ok(accepted) => accepted,
        Err(_) => panic!("the job is refused"),
    }
}

/// Accepts a job and takes it from the channel.
fn receive(c: &mut TestCluster, data: u32) -> Round<&'static str, u32> {
    let accepted = accept(c, data);
    match c.receive(accepted) {
        Received::Taken(round) => round,
        _ => panic!("the job is not taken"),
    }
}

/// A cluster that gets its workers when that many jobs wait, and the round that follows.
fn with_waiting(
    concurrency: usize,
    mode: QueueMode,
    browsers: &[&'static str],
    jobs: u32,
) -> (TestCluster, Round<&'static str, u32>) {
    let mut o = options(concurrency, browsers.len(), mode);
    o.min_idle_browsers = browsers.len();
    let mut c: TestCluster = Cluster::new(o);
    let fill = c.ensure_min_idle_browsers();
    for i in 1..=jobs {
        let round = receive(&mut c, i);
        assert!(round.starts.is_empty());
        assert!(matches!(round.next, Next::NoWorker(BrowserError::OperationError(_))));
    }
    assert_eq!(c.queue_size(), jobs as usize);
    let results = browsers.iter().map(|b| Ok(worker(b))).collect();
    let (outcome, round) = c.add_idle_browsers(fill, results);
    assert!(outcome.is_ok());
    (c, round)
}

/// Reports a failure that is to be tried again.
fn fail(
    c: &mut TestCluster,
    start: Start<&'static str, u32>,
    failed_at: u128,
) -> (Tried, Retry<&'static str, u32>) {
    match c.after_failure(start.run, start.job, failed_at) {
        (tried, Failure::Retry { retry, .. }) => (tried, retry),
        _ => panic!("the job may be tried again"),
    }
}

fn names(browsers: &[Arc<&'static str>]) -> Vec<&'static str> {
    browsers.iter().map(|b| **b).collect()
}

fn worker(browser: &'static str) -> Worker<&'static str> {
    Worker::new_at(Arc::new(browser), 0)
}

fn started(round: &Round<&'static str, u32>) -> Vec<u32> {
    round.starts.iter().map(|s| s.job.data).collect()
}

/// Reports a launched browser to a round that asked for one.
fn launch(
    c: &mut TestCluster,
    next: Next<&'static str, u32>,
    browser: &'static str,
) -> Round<&'static str, u32> {
    match next {
        Next::Launch(l) => c.launched(l, Ok(worker(browser))),
        _ => panic!("no launch was asked for"),
    }
}

/// Adds workers to the idle pool of a cluster that keeps that many.
fn fill(c: &mut TestCluster, browsers: &[&'static str]) {
    let fill = c.ensure_min_idle_browsers();
    assert_eq!(fill.count(), browsers.len());
    let results = browsers.iter().map(|b| Ok(worker(b))).collect();
    assert!(c.add_idle_browsers(fill, results).0.is_ok());
}

fn with_idle(
    concurrency: usize,
    max: usize,
    mode: QueueMode,
    browsers: &[&'static str],
) -> TestCluster {
    let mut o = options(concurrency, max, mode);
    o.min_idle_browsers = browsers.len();
    let mut c = Cluster::new(o);
    fill(&mut c, browsers);
    c
}

fn only_start(round: Round<&'static str, u32>) -> Start<&'static str, u32> {
    let mut round = round;
    assert_eq!(round.starts.len(), 1);
    round.starts.remove(0)
}

fn conclude(c: &mut TestCluster, tried: Tried) -> Round<&'static str, u32> {
    let (spent, retired) = c.finish_run(tried, 10, 10);
    assert!(retired.is_none());
    c.conclude_run(spent)
}

fn end(c: &mut TestCluster, run: Run) -> Round<&'static str, u32> {
    conclude(c, run.done())
}

#[test]
fn a_new_cluster_is_empty() {
    let c = cluster(2, 2);
    assert_eq!(c.queue_size(), 0);
    assert_eq!(c.idle_size(), 0);
    assert_eq!(c.active_size(), 0);
    assert_eq!(c.worker_count(), 0);
    assert!(matches!(c.wait_for_all(false), WaitStep::Done));
}

#[test]
fn a_job_from_start_to_end() {
    let mut c = cluster(4, 4);
    let accepted = accept(&mut c, 7);
    assert!(c.sent(Ok(())).is_ok());
    assert_eq!(c.unfinished_size(), 1);
    assert_eq!(c.queue_size(), 0);

    let round = match c.receive(accepted) {
        Received::Taken(round) => round,
        _ => panic!("the job is not taken"),
    };
    assert!(round.starts.is_empty());
    assert_eq!(c.queue_size(), 0);
    assert_eq!(c.worker_count(), 1);
    assert_eq!(c.active_size(), 0);

    let round = launch(&mut c, round.next, "a");
    assert!(matches!(round.next, Next::Done));
    let start = only_start(round);
    assert_eq!((*start.job.task, start.job.data, start.job.retries), ("task", 7, 0));
    assert_eq!(**c.browser(&start.run).unwrap(), "a");
    assert_eq!(c.active_size(), 1);
    assert!(matches!(c.wait_for_all(false), WaitStep::Sleep(100_000_000)));

    let round = end(&mut c, start.run);
    assert!(round.starts.is_empty());
    assert!(matches!(round.next, Next::Done));
    assert_eq!(c.idle_size(), 1);
    assert_eq!(c.active_size(), 0);
    assert_eq!(c.worker_count(), 1);
    assert!(matches!(c.wait_for_all(true), WaitStep::Done));
}

#[test]
fn a_launch_shows_its_job() {
    let mut c = cluster(1, 1);
    match receive(&mut c, 3).next {
        Next::Launch(l) => assert_eq!(l.job().data, 3),
        _ => panic!("no launch was asked for"),
    }
}

#[test]
fn idle_workers_are_used_in_order() {
    let (c, round) = with_waiting(2, QueueMode::FIFO, &["a", "b"], 2);
    assert_eq!(started(&round), vec![1, 2]);
    let browsers: Vec<&str> =
        round.starts.iter().map(|s| **c.browser(&s.run).unwrap()).collect();
    assert_eq!(browsers, vec!["a", "b"]);
    assert_eq!(c.worker_count(), 2);
}

#[test]
fn fifo_starts_the_oldest_first() {
    let (c, round) = with_waiting(2, QueueMode::FIFO, &["a", "b", "c"], 4);
    assert_eq!(started(&round), vec![1, 2]);
    assert!(matches!(round.next, Next::Done));
    assert_eq!(c.queue_size(), 2);
}

#[test]
fn lifo_starts_the_newest_first() {
    let (c, round) = with_waiting(2, QueueMode::LIFO, &["a", "b", "c"], 4);
    assert_eq!(started(&round), vec![4, 3]);
    assert_eq!(c.queue_size(), 2);
}

#[test]
fn a_job_that_finds_no_permit_keeps_its_place() {
    let mut c = with_idle(1, 9, QueueMode::FIFO, &["a", "b"]);
    let first = only_start(receive(&mut c, 1));
    for i in 2..=4 {
        let round = receive(&mut c, i);
        assert!(round.starts.is_empty());
        assert!(matches!(round.next, Next::Done));
    }
    assert_eq!(c.queue_size(), 3);
    let second = only_start(end(&mut c, first.run));
    assert_eq!(second.job.data, 2);
    let third = only_start(end(&mut c, second.run));
    assert_eq!(third.job.data, 3);
}

#[test]
fn no_more_jobs_run_than_permits() {
    let (mut c, round) = with_waiting(3, QueueMode::FIFO, &["a", "b", "c", "d", "e"], 10);
    assert_eq!(started(&round), vec![1, 2, 3]);
    assert_eq!(c.active_size(), 3);
    assert_eq!(c.idle_size(), 2);
    assert!(c.process_queue().starts.is_empty());
}

#[test]
fn no_more_browsers_than_allowed() {
    let mut c = cluster(4, 1);
    let round = receive(&mut c, 1);
    let next = receive(&mut c, 2).next;
    match next {
        Next::NoWorker(BrowserError::OperationError(s)) => {
            assert_eq!(s, "Max concurrent browsers reached");
        }
        _ => panic!("one browser is the most"),
    }
    assert_eq!(c.worker_count(), 1);
    assert_eq!(c.queue_size(), 1);
    // The browser that was being launched serves the first job; the second still has none.
    let round = launch(&mut c, round.next, "a");
    assert_eq!(started(&round), vec![1]);
    assert!(matches!(round.next, Next::NoWorker(BrowserError::OperationError(_))));
    // It is served by the worker that becomes idle.
    let start = only_start(round);
    let second = only_start(end(&mut c, start.run));
    assert_eq!(second.job.data, 2);
    assert_eq!(c.worker_count(), 1);
}

#[test]
fn no_browser_at_all() {
    let mut c = cluster(1, 0);
    assert!(matches!(
        receive(&mut c, 1).next,
        Next::NoWorker(BrowserError::OperationError(_))
    ));
    assert_eq!(c.queue_size(), 1);
    assert_eq!(c.worker_count(), 0);
}

#[test]
fn a_failed_launch_is_undone() {
    let mut c = cluster(1, 1);
    let launch_error = || BrowserError::LaunchError("no display".to_string());
    let mut round = receive(&mut c, 1);
    assert!(receive(&mut c, 2).starts.is_empty());
    for _ in 0..3 {
        assert_eq!(c.worker_count(), 1);
        assert_eq!(c.queue_size(), 1);
        let after = match round.next {
            Next::Launch(l) => {
                assert_eq!(l.job().data, 1);
                c.launched(l, Err(launch_error()))
            }
            _ => panic!("no launch was asked for"),
        };
        assert!(after.starts.is_empty());
        match after.next {
            Next::NoWorker(BrowserError::LaunchError(s)) => assert_eq!(s, "no display"),
            _ => panic!("the error of the launch is handed on"),
        }
        assert_eq!(c.worker_count(), 0);
        assert_eq!(c.queue_size(), 2);
        assert_eq!(c.active_size(), 0);
        assert_eq!(c.unfinished_size(), 2);
        round = c.process_queue();
    }
    assert_eq!(started(&launch(&mut c, round.next, "a")), vec![1]);
}

/// Lets the launch of the first round, and then that of the second, fail.
fn fail_launches(
    c: &mut TestCluster,
    first: Round<&'static str, u32>,
    second: Round<&'static str, u32>,
) {
    for round in [first, second] {
        match round.next {
            Next::Launch(l) => {
                c.launched(l, Err(BrowserError::LaunchError("no display".to_string())))
            }
            _ => panic!("no launch was asked for"),
        };
    }
}

/// The jobs that start, one after the other, on the one browser that can be launched.
fn drain(c: &mut TestCluster) -> Vec<u32> {
    let mut served = Vec::new();
    let round = c.process_queue();
    let mut round = launch(c, round.next, "z");
    while let Next::Launch(l) = round.next {
        let after = c.launched(l, Ok(worker("y")));
        round.starts.extend(after.starts);
        round.next = after.next;
    }
    let mut running = round.starts;
    while !running.is_empty() {
        let start = running.remove(0);
        served.push(start.job.data);
        let next = end(c, start.run);
        running.extend(next.starts);
    }
    served
}

#[test]
fn failed_launches_keep_the_order_of_arrival() {
    for swapped in [false, true] {
        let mut c = cluster(3, 3);
        let first = receive(&mut c, 1);
        let second = receive(&mut c, 2);
        let third = receive(&mut c, 3);
        assert_eq!(c.queue_size(), 0);
        if swapped {
            fail_launches(&mut c, second, first);
        } else {
            fail_launches(&mut c, first, second);
        }
        assert_eq!(c.queue_size(), 2);
        // The third is launched, and the first of the others is next.
        let round = launch(&mut c, third.next, "a");
        assert_eq!(started(&round), vec![3]);
        match round.next {
            Next::Launch(l) => assert_eq!(l.job().data, 1),
            _ => panic!("no launch was asked for"),
        }
    }
    for swapped in [false, true] {
        let mut c = cluster(2, 2);
        let first = receive(&mut c, 1);
        let second = receive(&mut c, 2);
        assert!(receive(&mut c, 3).starts.is_empty());
        assert_eq!(c.queue_size(), 1);
        if swapped {
            fail_launches(&mut c, second, first);
        } else {
            fail_launches(&mut c, first, second);
        }
        assert_eq!(c.queue_size(), 3);
        assert_eq!(drain(&mut c), vec![1, 2, 3]);
    }
}

#[test]
fn failed_launches_leave_newer_jobs_first_in_lifo_mode() {
    for swapped in [false, true] {
        let mut c: TestCluster = Cluster::new(options(2, 2, QueueMode::LIFO));
        let first = receive(&mut c, 1);
        let second = receive(&mut c, 2);
        assert!(receive(&mut c, 3).starts.is_empty());
        if swapped {
            fail_launches(&mut c, second, first);
        } else {
            fail_launches(&mut c, first, second);
        }
        assert_eq!(drain(&mut c), vec![3, 2, 1]);
    }
}

#[test]
fn jobs_are_numbered_as_they_come() {
    let (c, round) = with_waiting(2, QueueMode::LIFO, &["a", "b"], 4);
    let numbers: Vec<u128> = round.starts.iter().map(|s| s.job.arrival).collect();
    assert_eq!(started(&round), vec![4, 3]);
    assert_eq!(numbers, vec![3, 2]);
    assert_eq!(c.arrivals(), 4);

    // A job that is tried again comes under a new number.
    let mut c = with_idle(1, 1, QueueMode::FIFO, &["a"]);
    let start = only_start(receive(&mut c, 1));
    assert_eq!(start.job.arrival, 0);
    assert!(receive(&mut c, 2).starts.is_empty());
    let (tried, retry) = fail(&mut c, start, 0);
    assert!(matches!(c.requeue(retry, 1_000_000_000), Requeued::Queued));
    let second = only_start(conclude(&mut c, tried));
    assert_eq!((second.job.data, second.job.arrival), (2, 1));
    let again = only_start(end(&mut c, second.run));
    assert_eq!((again.job.data, again.job.arrival), (1, 2));
    assert_eq!(c.arrivals(), 3);
}

#[test]
fn a_place_that_is_freed_is_used() {
    // With at most one browser, a job comes while the retired one is being closed.
    let mut o = options(1, 1, QueueMode::FIFO);
    o.min_idle_browsers = 1;
    o.idle_timeout = Some(5);
    o.monitor_interval = 10;
    let mut c: TestCluster = Cluster::new(o);
    fill(&mut c, &["a"]);
    let watch = c.start_monitor(0);
    let (pass, mut retired) = match c.monitor(watch, 10) {
        Look::Sweep(pass, retired) => (pass, retired),
        _ => panic!("the interval has passed"),
    };
    assert_eq!(retired.len(), 1);
    assert!(matches!(receive(&mut c, 1).next, Next::NoWorker(_)));
    assert_eq!(c.queue_size(), 1);
    let round = c.worker_closed(retired.remove(0));
    assert_eq!(c.queue_size(), 0);
    let none = c.ensure_min_idle_browsers();
    assert_eq!(none.count(), 0);
    let (outcome, after) = c.add_idle_browsers(none, Vec::new());
    assert!(outcome.is_ok() && after.starts.is_empty());
    c.end_pass(pass, 11);
    assert_eq!(started(&launch(&mut c, round.next, "b")), vec![1]);
}

#[test]
fn a_closed_cluster_drops_what_finds_no_room() {
    let mut o = options(2, 1, QueueMode::FIFO);
    o.max_queue_size = Some(1);
    o.retry_delay = 10;
    let mut c: TestCluster = Cluster::new(o);
    let round = receive(&mut c, 1);
    let first = only_start(launch(&mut c, round.next, "a"));
    assert!(receive(&mut c, 2).starts.is_empty());
    let (tried, retry) = fail(&mut c, first, 0);
    c.close();
    let retry = match c.requeue(retry, 9) {
        Requeued::Early(back, 1) => back,
        _ => panic!("it is too early"),
    };
    assert_eq!(c.unfinished_size(), 2);
    assert!(matches!(c.requeue(retry, 10), Requeued::Dropped));
    assert_eq!(c.unfinished_size(), 1);
    assert_eq!(c.queue_size(), 1);
    conclude(&mut c, tried);

    let mut c: TestCluster = Cluster::new(o);
    let round = receive(&mut c, 1);
    assert!(receive(&mut c, 2).starts.is_empty());
    c.close();
    let after = match round.next {
        Next::Launch(l) => c.launched(l, Err(BrowserError::LaunchError("no display".to_string()))),
        _ => panic!("no launch was asked for"),
    };
    assert!(matches!(after.next, Next::NoWorker(BrowserError::LaunchError(_))));
    assert_eq!(c.unfinished_size(), 1);
    assert_eq!(c.queue_size(), 1);
    assert_eq!(c.worker_count(), 0);
}

#[test]
fn each_job_gives_back_its_own_worker() {
    let (mut c, mut round) = with_waiting(3, QueueMode::FIFO, &["a", "b", "c"], 3);
    let third = round.starts.remove(2);
    let second = round.starts.remove(1);
    let first = round.starts.remove(0);
    assert_eq!(c.active_size(), 3);
    end(&mut c, first.run);
    assert_eq!(**c.browser(&third.run).unwrap(), "c");
    assert_eq!(**c.browser(&second.run).unwrap(), "b");
    end(&mut c, third.run);
    assert_eq!(**c.browser(&second.run).unwrap(), "b");
    end(&mut c, second.run);
    assert_eq!(c.active_size(), 0);
    assert_eq!(c.idle_size(), 3);
    assert!(matches!(c.wait_for_all(true), WaitStep::Done));
    // They are idle in the order in which they came back.
    assert!(c.close().is_empty());
    assert_eq!(names(&c.drain_idle()), vec!["a", "c", "b"]);
}

#[test]
fn a_full_queue_refuses() {
    let mut o = options(1, 0, QueueMode::FIFO);
    o.max_queue_size = Some(2);
    let mut c: TestCluster = Cluster::new(o);
    receive(&mut c, 1);
    receive(&mut c, 2);
    assert!(matches!(c.execute(Arc::new("task"), 3), Err(BrowserError::QueueFullError)));
    assert_eq!(c.queue_size(), 2);
    assert_eq!(c.unfinished_size(), 2);

    o.max_queue_size = Some(0);
    let mut c: TestCluster = Cluster::new(o);
    assert!(matches!(c.execute(Arc::new("task"), 1), Err(BrowserError::QueueFullError)));

    o.max_queue_size = None;
    let mut c: TestCluster = Cluster::new(o);
    for i in 0..200 {
        receive(&mut c, i);
    }
    assert_eq!(c.queue_size(), 200);
    assert!(c.execute(Arc::new("task"), 200).is_ok());
}

#[test]
fn a_job_that_finds_the_queue_full_is_handed_back() {
    let mut o = options(1, 1, QueueMode::FIFO);
    o.max_queue_size = Some(1);
    o.min_idle_browsers = 1;
    let mut c: TestCluster = Cluster::new(o);
    fill(&mut c, &["a"]);
    let first = only_start(receive(&mut c, 1));
    // Both are accepted while the queue is empty, and only one fits into it.
    let second = accept(&mut c, 2);
    let third = accept(&mut c, 3);
    assert!(matches!(c.receive(second), Received::Taken(_)));
    let third = match c.receive(third) {
        Received::Full(back) => back,
        _ => panic!("there is no room"),
    };
    assert_eq!(c.queue_size(), 1);
    assert_eq!(c.unfinished_size(), 3);
    // Once there is room it is taken.
    let second = only_start(end(&mut c, first.run));
    assert_eq!(second.job.data, 2);
    assert!(matches!(c.receive(third), Received::Taken(_)));
    assert_eq!(c.queue_size(), 1);
    let third = only_start(end(&mut c, second.run));
    assert_eq!(third.job.data, 3);
}

#[test]
fn a_launch_that_fails_while_the_queue_is_full_is_repeated() {
    let mut o = options(1, 1, QueueMode::FIFO);
    o.max_queue_size = Some(1);
    let mut c: TestCluster = Cluster::new(o);
    let mut next = receive(&mut c, 1).next;
    assert!(receive(&mut c, 2).starts.is_empty());
    assert_eq!(c.queue_size(), 1);
    for _ in 0..3 {
        let round = match next {
            Next::Launch(l) | Next::Relaunch(l, _) => {
                c.launched(l, Err(BrowserError::LaunchError("no display".to_string())))
            }
            _ => panic!("no launch was asked for"),
        };
        assert!(round.starts.is_empty());
        next = round.next;
        match &next {
            Next::Relaunch(l, BrowserError::LaunchError(s)) => {
                assert_eq!(l.job().data, 1);
                assert_eq!(s, "no display");
            }
            _ => panic!("there is no room for the job"),
        }
        assert_eq!(c.queue_size(), 1);
        assert_eq!(c.worker_count(), 1);
        assert!(matches!(c.wait_for_all(true), WaitStep::Sleep(_)));
    }
    let round = match next {
        Next::Relaunch(l, _) => c.launched(l, Ok(worker("a"))),
        _ => panic!("no launch was asked for"),
    };
    let first = only_start(round);
    assert_eq!(first.job.data, 1);
    assert_eq!(started(&end(&mut c, first.run)), vec![2]);
}

#[test]
fn a_retry_that_finds_the_queue_full_is_handed_back() {
    let mut o = options(1, 1, QueueMode::FIFO);
    o.max_queue_size = Some(1);
    o.min_idle_browsers = 1;
    o.retry_delay = 0;
    let mut c: TestCluster = Cluster::new(o);
    fill(&mut c, &["a"]);
    let first = only_start(receive(&mut c, 1));
    receive(&mut c, 2);
    let (tried, retry) = fail(&mut c, first, 5);
    let retry = match c.requeue(retry, 5) {
        Requeued::Full(back) => back,
        _ => panic!("there is no room"),
    };
    assert_eq!(c.queue_size(), 1);
    assert_eq!(c.unfinished_size(), 2);
    let second = only_start(conclude(&mut c, tried));
    assert_eq!(second.job.data, 2);
    end(&mut c, second.run);
    // The job is neither queued nor running, and is still waited for.
    assert_eq!(c.queue_size(), 0);
    assert_eq!(c.active_size(), 0);
    assert!(matches!(c.wait_for_all(true), WaitStep::Sleep(100_000_000)));
    assert!(matches!(c.requeue(retry, 5), Requeued::Queued));
    let again = only_start(c.process_queue());
    assert_eq!((again.job.data, again.job.retries), (1, 1));
    end(&mut c, again.run);
    assert!(matches!(c.wait_for_all(true), WaitStep::Done));
}

#[test]
fn a_job_that_the_channel_refuses_comes_to_nothing() {
    let mut c = cluster(1, 1);
    let back = accept(&mut c, 1);
    assert_eq!(c.unfinished_size(), 1);
    match c.sent(Err(back)) {
        Err(BrowserError::OperationError(s)) => assert_eq!(s, "Failed to send task"),
        _ => panic!("a job that was not taken is an error"),
    }
    assert_eq!(c.unfinished_size(), 0);
    assert!(matches!(c.wait_for_all(false), WaitStep::Done));
}

#[test]
fn a_failed_job_is_tried_again() {
    let mut o = options(1, 1, QueueMode::FIFO);
    o.retry_limit = 2;
    o.retry_delay = 500_000_000;
    let mut c: TestCluster = Cluster::new(o);
    let round = receive(&mut c, 9);
    let mut start = only_start(launch(&mut c, round.next, "a"));
    let mut now: u128 = 7;
    for attempt in 1..=2 {
        let (tried, retry) = match c.after_failure(start.run, start.job, now) {
            (tried, Failure::Retry { retry, delay }) => {
                assert_eq!(delay, 500_000_000);
                (tried, retry)
            }
            _ => panic!("the job may be tried again"),
        };
        now += 500_000_000;
        assert!(matches!(c.requeue(retry, now), Requeued::Queued));
        start = only_start(conclude(&mut c, tried));
        assert_eq!((*start.job.task, start.job.data, start.job.retries), ("task", 9, attempt));
        assert_eq!(c.unfinished_size(), 1);
    }
    let tried = match c.after_failure(start.run, start.job, now) {
        (tried, Failure::GiveUp { retry_limit }) => {
            assert_eq!(retry_limit, 2);
            tried
        }
        _ => panic!("the job was tried again often enough"),
    };
    assert_eq!(c.unfinished_size(), 1);
    conclude(&mut c, tried);
    assert_eq!(c.unfinished_size(), 0);
    assert!(matches!(c.wait_for_all(true), WaitStep::Done));
}

#[test]
fn a_retry_waits_for_the_delay() {
    let mut c = with_idle(1, 1, QueueMode::FIFO, &["a"]);
    // The standard delay is one second.
    let start = only_start(receive(&mut c, 1));
    let (tried, retry) = fail(&mut c, start, 1_000_000_000);
    let retry = match c.requeue(retry, 1_000_000_001) {
        Requeued::Early(back, rest) => {
            assert_eq!(rest, 999_999_999);
            back
        }
        _ => panic!("it is too early"),
    };
    // A clock that runs back does not shorten the wait.
    let retry = match c.requeue(retry, 5) {
        Requeued::Early(back, rest) => {
            assert_eq!(rest, 1_000_000_000);
            back
        }
        _ => panic!("it is too early"),
    };
    let retry = match c.requeue(retry, 1_999_999_999) {
        Requeued::Early(back, rest) => {
            assert_eq!(rest, 1);
            back
        }
        _ => panic!("it is too early"),
    };
    assert_eq!(c.queue_size(), 0);
    assert!(conclude(&mut c, tried).starts.is_empty());
    assert!(matches!(c.wait_for_all(true), WaitStep::Sleep(100_000_000)));
    assert!(matches!(c.requeue(retry, 2_000_000_000), Requeued::Queued));
    assert_eq!(c.queue_size(), 1);
    let again = only_start(c.process_queue());
    assert_eq!((again.job.data, again.job.retries), (1, 1));
}

#[test]
fn a_retry_enters_the_queue_like_any_job() {
    for (mode, expected) in [(QueueMode::FIFO, 2), (QueueMode::LIFO, 1)] {
        let mut c = with_idle(1, 1, mode, &["a"]);
        let start = only_start(receive(&mut c, 1));
        assert!(receive(&mut c, 2).starts.is_empty());
        let (tried, retry) = fail(&mut c, start, 0);
        assert!(matches!(c.requeue(retry, 1_000_000_000), Requeued::Queued));
        let next = only_start(conclude(&mut c, tried));
        assert_eq!(next.job.data, expected);
    }
}

#[test]
fn a_job_given_up_makes_room() {
    let mut o = options(1, 1, QueueMode::FIFO);
    o.retry_limit = 0;
    o.min_idle_browsers = 1;
    let mut c: TestCluster = Cluster::new(o);
    fill(&mut c, &["a"]);
    let start = only_start(receive(&mut c, 1));
    assert!(receive(&mut c, 2).starts.is_empty());
    let (tried, failure) = c.after_failure(start.run, start.job, 0);
    assert!(matches!(failure, Failure::GiveUp { retry_limit: 0 }));
    assert_eq!(started(&conclude(&mut c, tried)), vec![2]);
    assert_eq!(c.unfinished_size(), 1);
}

#[test]
fn a_wait_lasts_until_every_job_has_ended() {
    let mut c = cluster(1, 1);
    let sleeps = |c: &TestCluster| {
        assert!(matches!(c.wait_for_all(false), WaitStep::Sleep(100_000_000)));
        assert!(matches!(c.wait_for_all(true), WaitStep::Sleep(100_000_000)));
    };
    // The job is on its way to the queue.
    let accepted = accept(&mut c, 1);
    assert_eq!(c.queue_size() + c.active_size(), 0);
    sleeps(&c);
    // It waits for its browser.
    let round = match c.receive(accepted) {
        Received::Taken(round) => round,
        _ => panic!("the job is not taken"),
    };
    assert_eq!(c.queue_size() + c.active_size(), 0);
    sleeps(&c);
    // It runs.
    let start = only_start(launch(&mut c, round.next, "a"));
    sleeps(&c);
    // It failed, and is to be tried again.
    let (tried, retry) = fail(&mut c, start, 0);
    conclude(&mut c, tried);
    assert_eq!(c.queue_size() + c.active_size(), 0);
    sleeps(&c);
    // It waits in the queue.
    assert!(matches!(c.requeue(retry, 1_000_000_000), Requeued::Queued));
    sleeps(&c);
    // It runs again, and has given back its worker.
    let start = only_start(c.process_queue());
    let (spent, _) = c.finish_run(start.run.done(), 10, 10);
    assert_eq!(c.queue_size() + c.active_size(), 0);
    sleeps(&c);
    // It has ended.
    c.conclude_run(spent);
    assert!(matches!(c.wait_for_all(false), WaitStep::Done));
    assert!(matches!(c.wait_for_all(true), WaitStep::Done));
}

#[test]
fn a_closed_cluster_is_not_waited_for() {
    let mut c = with_idle(2, 2, QueueMode::FIFO, &["a"]);
    let on_its_way = accept(&mut c, 2);
    receive(&mut c, 1);
    assert!(matches!(c.wait_for_all(false), WaitStep::Sleep(_)));
    c.close();
    assert!(matches!(c.wait_for_all(false), WaitStep::Done));
    assert!(matches!(c.receive(on_its_way), Received::Closed));
    assert_eq!(c.unfinished_size(), 1);
}

#[test]
fn an_outlived_worker_is_replaced() {
    let mut o = options(1, 2, QueueMode::FIFO);
    o.max_browser_lifetime = Some(100);
    o.min_idle_browsers = 1;
    let mut c: TestCluster = Cluster::new(o);
    fill(&mut c, &["a"]);
    let start = only_start(receive(&mut c, 1));
    let (spent, retired) = c.finish_run(start.run.done(), 101, 101);
    let retired = retired.unwrap();
    assert_eq!(**retired.browser(), "a");
    // It is counted until it is closed.
    assert_eq!(c.worker_count(), 1);
    assert_eq!(c.active_size(), 0);
    assert_eq!(c.idle_size(), 0);
    let fill = c.worker_replaced(retired);
    assert_eq!(fill.count(), 1);
    assert_eq!(c.worker_count(), 1);
    assert!(c.add_idle_browsers(fill, vec![Ok(worker("b"))]).0.is_ok());
    assert_eq!(c.idle_size(), 1);
    assert!(c.conclude_run(spent).starts.is_empty());
}

#[test]
fn a_worker_just_used_is_not_idle() {
    let mut o = options(1, 1, QueueMode::FIFO);
    o.idle_timeout = Some(5);
    o.min_idle_browsers = 1;
    let mut c: TestCluster = Cluster::new(o);
    fill(&mut c, &["a"]);
    let start = only_start(receive(&mut c, 1));
    let (_, retired) = c.finish_run(start.run.done(), 1000, 1005);
    assert!(retired.is_none());
    assert_eq!(c.idle_size(), 1);

    let mut c: TestCluster = Cluster::new(o);
    fill(&mut c, &["a"]);
    let start = only_start(receive(&mut c, 1));
    let (_, retired) = c.finish_run(start.run.done(), 1000, 1006);
    assert!(retired.is_some());
}

#[test]
fn a_replacement_after_closing_launches_nothing() {
    let mut o = options(1, 2, QueueMode::FIFO);
    o.max_browser_lifetime = Some(100);
    o.min_idle_browsers = 1;
    let mut c: TestCluster = Cluster::new(o);
    fill(&mut c, &["a"]);
    let start = only_start(receive(&mut c, 1));
    let (_, retired) = c.finish_run(start.run.done(), 101, 101);
    c.close();
    assert_eq!(c.worker_replaced(retired.unwrap()).count(), 0);
    assert_eq!(c.worker_count(), 0);
}

#[test]
fn the_idle_pool_is_filled_up_to_the_limits() {
    let mut o = options(1, 5, QueueMode::FIFO);
    o.min_idle_browsers = 3;
    let mut c: TestCluster = Cluster::new(o);
    let first = c.ensure_min_idle_browsers();
    assert_eq!(first.count(), 3);
    assert_eq!(c.worker_count(), 3);
    // Those under way do not count as idle: more are asked for, as far as there is room.
    let second = c.ensure_min_idle_browsers();
    assert_eq!(second.count(), 2);
    assert_eq!(c.worker_count(), 5);
    assert_eq!(c.ensure_min_idle_browsers().count(), 0);
    assert!(c
        .add_idle_browsers(first, vec![Ok(worker("a")), Ok(worker("b")), Ok(worker("c"))])
        .0
        .is_ok());
    assert_eq!(c.idle_size(), 3);
    assert!(c.add_idle_browsers(second, vec![Ok(worker("d")), Ok(worker("e"))]).0.is_ok());
    assert_eq!(c.idle_size(), 5);
    assert_eq!(c.worker_count(), 5);

    o.min_idle_browsers = usize::MAX;
    let mut c: TestCluster = Cluster::new(o);
    assert_eq!(c.ensure_min_idle_browsers().count(), 5);
}

#[test]
fn a_failed_fill_keeps_what_came_before() {
    let mut o = options(1, 9, QueueMode::FIFO);
    o.min_idle_browsers = 4;
    let mut c: TestCluster = Cluster::new(o);
    let fill = c.ensure_min_idle_browsers();
    let results = vec![
        Ok(worker("a")),
        Err(BrowserError::TimeoutError("first".to_string())),
        Ok(worker("c")),
        Err(BrowserError::ConnectionError("second".to_string())),
    ];
    match c.add_idle_browsers(fill, results).0 {
        Err(BrowserError::TimeoutError(s)) => assert_eq!(s, "first"),
        _ => panic!("the first error is returned"),
    }
    assert_eq!(c.idle_size(), 1);
    // One browser is taken off the count; those after it stay on it.
    assert_eq!(c.worker_count(), 3);
}

#[test]
fn the_monitor_retires_the_outlived() {
    let mut o = options(1, 5, QueueMode::FIFO);
    o.min_idle_browsers = 5;
    o.idle_timeout = Some(10);
    let mut c: TestCluster = Cluster::new(o);
    let f = c.ensure_min_idle_browsers();
    let at = |name: &'static str, now: u128| Ok(Worker::new_at(Arc::new(name), now));
    let results = vec![
        at("a", 0),
        at("b", 30_000_000_060),
        at("c", 5),
        at("d", 30_000_000_061),
        at("e", 30_000_000_059),
    ];
    assert!(c.add_idle_browsers(f, results).0.is_ok());
    // The standard interval is thirty seconds.
    let watch = c.start_monitor(70);
    let watch = match c.monitor(watch, 100) {
        Look::Wait(back, rest) => {
            assert_eq!(rest, 29_999_999_970);
            back
        }
        _ => panic!("it is too early"),
    };
    assert_eq!(c.idle_size(), 5);
    let (pass, retired) = match c.monitor(watch, 30_000_000_070) {
        Look::Sweep(pass, retired) => (pass, retired),
        _ => panic!("the interval has passed"),
    };
    let gone: Vec<&str> = retired.iter().map(|r| **r.browser()).collect();
    assert_eq!(gone, vec!["a", "c", "e"]);
    assert_eq!(c.idle_size(), 2);
    assert_eq!(c.worker_count(), 5);
    for r in retired {
        c.worker_closed(r);
    }
    assert_eq!(c.worker_count(), 2);
    assert_eq!(c.ensure_min_idle_browsers().count(), 3);
    // The next pass is an interval after the end of this one.
    let watch = c.end_pass(pass, 40_000_000_000);
    let watch = match c.monitor(watch, 69_999_999_999) {
        Look::Wait(back, rest) => {
            assert_eq!(rest, 1);
            back
        }
        _ => panic!("it is too early"),
    };
    c.close();
    assert_eq!(names(&c.drain_idle()), vec!["b", "d"]);
    assert!(matches!(c.monitor(watch, 70_000_000_000), Look::Stop));
}

#[test]
fn a_monitor_can_be_started_again() {
    let mut o = options(1, 1, QueueMode::FIFO);
    o.monitor_interval = 10;
    let mut c: TestCluster = Cluster::new(o);
    c.start_monitor(0);
    let watch = c.start_monitor(5);
    let watch = match c.monitor(watch, 14) {
        Look::Wait(back, 1) => back,
        _ => panic!("it is too early"),
    };
    assert!(matches!(c.monitor(watch, 15), Look::Sweep(_, _)));
}

#[test]
fn the_monitor_goes_on_when_launches_fail() {
    let mut o = options(1, 5, QueueMode::FIFO);
    o.min_idle_browsers = 1;
    o.monitor_interval = 10;
    let mut c: TestCluster = Cluster::new(o);
    let mut now: u128 = 0;
    let mut watch = c.start_monitor(now);
    for _ in 0..3 {
        now += 10;
        let pass = match c.monitor(watch, now) {
            Look::Sweep(pass, retired) => {
                assert!(retired.is_empty());
                pass
            }
            _ => panic!("the interval has passed"),
        };
        let fill = c.ensure_min_idle_browsers();
        assert_eq!(fill.count(), 1);
        let results = vec![Err(BrowserError::LaunchError("no display".to_string()))];
        assert!(c.add_idle_browsers(fill, results).0.is_err());
        watch = c.end_pass(pass, now);
    }
    assert_eq!(c.worker_count(), 0);
}

#[test]
fn a_closed_cluster_does_nothing_more() {
    let mut c = with_idle(1, 3, QueueMode::FIFO, &["a", "b"]);
    let start = only_start(receive(&mut c, 1));
    assert!(receive(&mut c, 2).starts.is_empty());
    let on_its_way = accept(&mut c, 3);
    assert!(!c.is_closed());
    assert_eq!(names(&c.close()), vec!["a"]);
    assert!(c.is_closed());
    assert_eq!(c.idle_size(), 1);
    assert_eq!(names(&c.drain_idle()), vec!["b"]);
    assert_eq!(c.active_size(), 0);
    assert_eq!(c.idle_size(), 0);
    assert_eq!(c.queue_size(), 1);
    assert_eq!(c.worker_count(), 2);

    match c.execute(Arc::new("task"), 3) {
        Err(BrowserError::OperationError(s)) => assert_eq!(s, "Cluster is closed"),
        _ => panic!("a closed cluster refuses"),
    }
    assert!(matches!(c.receive(on_its_way), Received::Closed));
    assert_eq!(c.queue_size(), 1);
    assert!(c.browser(&start.run).is_none());
    // The job that still runs has no worker to give back, and starts no other.
    let round = end(&mut c, start.run);
    assert!(round.starts.is_empty());
    assert!(matches!(round.next, Next::Done));
    assert_eq!(c.idle_size(), 0);

    // A wait ends with an error, but only after a sleep.
    assert!(matches!(c.wait_for_all(false), WaitStep::Sleep(_)));
    match c.wait_for_all(true) {
        WaitStep::Failed(BrowserError::OperationError(s)) => assert_eq!(s, "Cluster is closed"),
        _ => panic!("the cluster is closed"),
    }
}

#[test]
fn a_launch_that_outlasts_the_cluster_still_serves_its_job() {
    let mut c = cluster(1, 1);
    let round = receive(&mut c, 1);
    assert!(receive(&mut c, 2).starts.is_empty());
    assert!(c.close().is_empty());
    assert!(c.drain_idle().is_empty());
    let round = launch(&mut c, round.next, "a");
    assert_eq!(started(&round), vec![1]);
    assert!(matches!(round.next, Next::Done));
}

#[test]
fn a_permit_is_kept_until_it_is_given_back() {
    let mut c = with_idle(1, 3, QueueMode::FIFO, &["a", "b"]);
    let start = only_start(receive(&mut c, 1));
    let (spent, retired) = c.finish_run(start.run.done(), 10, 10);
    assert!(retired.is_none());
    assert_eq!(c.idle_size(), 2);
    // A worker is idle, but no permit is free.
    assert!(receive(&mut c, 2).starts.is_empty());
    assert_eq!(started(&c.conclude_run(spent)), vec![2]);
}

#[test]
fn a_launch_is_awaited_whatever_else_happens() {
    let mut c = cluster(3, 3);
    let first = receive(&mut c, 1);
    let second = receive(&mut c, 2);
    assert_eq!(c.worker_count(), 2);
    let round = launch(&mut c, second.next, "b");
    let start = only_start(round);
    assert_eq!(start.job.data, 2);
    end(&mut c, start.run);
    let round = launch(&mut c, first.next, "a");
    let start = only_start(round);
    assert_eq!(start.job.data, 1);
    assert_eq!(**c.browser(&start.run).unwrap(), "a");
}

#[test]
fn jobs_are_served_in_the_order_in_which_they_came() {
    let mut c = with_idle(2, 2, QueueMode::FIFO, &["a", "b"]);
    let mut running = Vec::new();
    let mut served = Vec::new();
    let mut take = |round: Round<&'static str, u32>, running: &mut Vec<Run>| {
        for start in round.starts {
            served.push(start.job.data);
            running.push(start.run);
        }
    };
    for i in 0..20 {
        let round = receive(&mut c, i);
        take(round, &mut running);
        if i % 3 == 0 {
            let run = running.remove(running.len() - 1);
            let round = end(&mut c, run);
            take(round, &mut running);
        }
    }
    while !running.is_empty() {
        let run = running.remove(0);
        let round = end(&mut c, run);
        take(round, &mut running);
    }
    assert_eq!(served, (0..20).collect::<Vec<u32>>());
    assert_eq!(c.queue_size(), 0);
    assert_eq!(c.worker_count(), c.idle_size() + c.active_size());
}
