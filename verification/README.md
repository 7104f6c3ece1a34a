# browser_cluster

Runs jobs on a pool of browsers. The library under `src/` holds the rules of the pool, verified
with Verus: which job runs next, on which browser, how many may run, when a failed job is tried
again, when a browser is given up and when another one is launched. It performs no I/O. The crate
under `app/` runs it on tokio.

- `options`: the settings of a cluster.
- `clock`, `worker`: time, and browsers that age by it.
- `permits`: numbered permits, which limit how many jobs run.
- `job`, `error`: jobs and errors.
- `model`: the state of a cluster as a mathematical object, and each step as a function on it.
- `cluster`: the cluster. The contract of each method is the step of the model.
- `laws`: what holds of a cluster across steps, among it: limits on jobs, on the queue and on
  browsers are kept, no job is lost, the jobs that wait are taken in the order in which they came
  to the queue (or in the reverse, by the mode) even if launches have failed, no job waits for what
  is there, a wait lasts until every job has ended, a job keeps its worker until it is over, a
  failed launch leaves no trace, retries are limited and wait for their delay, the monitor keeps
  its interval, and a closed cluster stays closed.

A caller performs what a step asks for and reports the result in the next step:

    let accepted = cluster.execute(task, data);       // or why it is refused
    let received = cluster.receive(accepted);         // start round.starts; then, by round.next:
    let round = cluster.launched(launch, result);     // the browser for a job was launched, or not
    let (tried, failure) = cluster.after_failure(run, job, failed_at); // or run.done()
    let requeued = cluster.requeue(retry, now);       // too early, no room, or queued again
    let (spent, retired) = cluster.finish_run(tried, finished_at, now);
    let round = cluster.conclude_run(spent);
