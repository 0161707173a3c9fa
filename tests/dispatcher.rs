use server_rs::dispatch::{Dispatcher, Phase, Step};

/// Runs every worker that can make progress until all have stopped,
/// appending each job to `log` when it starts and finishing it at once.
fn drive_until_stopped(d: &mut Dispatcher<usize>, log: &mut Vec<usize>) {
    let n = d.worker_count();
    loop {
        let mut all_stopped = true;
        for w in 0..n {
            if d.phase_of(w) == Phase::Waiting {
                match d.next(w) {
                    Step::Run(job) => {
                        log.push(job);
                        d.finished(w);
                    }
                    Step::Wait => {}
                    Step::Stop => {}
                }
            }
            if d.phase_of(w) != Phase::Stopped {
                all_stopped = false;
            }
        }
        if all_stopped {
            break;
        }
    }
}

#[test]
fn pool_of_two_runs_five_jobs_exactly_once() {
    let mut d: Dispatcher<usize> = Dispatcher::new(2);
    for i in 0..5 {
        assert!(d.submit(i).is_ok());
    }
    assert!(d.close());
    let mut log = Vec::new();
    drive_until_stopped(&mut d, &mut log);
    let mut sorted = log.clone();
    sorted.sort();
    assert_eq!(sorted, vec![0, 1, 2, 3, 4]);
    assert_eq!(d.waiting_jobs(), 0);
}

#[test]
fn single_worker_starts_second_job_after_first_completes() {
    let mut d: Dispatcher<&str> = Dispatcher::new(1);
    assert!(d.submit("slow").is_ok());
    assert!(d.submit("second").is_ok());
    match d.next(0) {
        Step::Run(job) => assert_eq!(job, "slow"),
        _ => panic!("expected the first job"),
    }
    assert_eq!(d.phase_of(0), Phase::Running);
    assert_eq!(d.waiting_jobs(), 1);
    d.finished(0);
    assert_eq!(d.phase_of(0), Phase::Waiting);
    match d.next(0) {
        Step::Run(job) => assert_eq!(job, "second"),
        _ => panic!("expected the second job"),
    }
}

#[test]
fn jobs_are_handed_out_in_submission_order() {
    let mut d: Dispatcher<u32> = Dispatcher::new(3);
    for i in [10, 20, 30] {
        assert!(d.submit(i).is_ok());
    }
    let mut got = Vec::new();
    for w in 0..3 {
        match d.next(w) {
            Step::Run(job) => got.push(job),
            _ => panic!("a job was waiting"),
        }
    }
    assert_eq!(got, vec![10, 20, 30]);
}

#[test]
fn busy_workers_never_exceed_pool_size() {
    let mut d: Dispatcher<usize> = Dispatcher::new(2);
    for i in 0..5 {
        assert!(d.submit(i).is_ok());
    }
    assert!(matches!(d.next(0), Step::Run(0)));
    assert!(matches!(d.next(1), Step::Run(1)));
    let running = (0..d.worker_count())
        .filter(|&w| d.phase_of(w) == Phase::Running)
        .count();
    assert_eq!(running, 2);
    assert_eq!(d.waiting_jobs(), 3);
}

#[test]
fn idle_pool_stops_every_worker() {
    let mut d: Dispatcher<usize> = Dispatcher::new(3);
    assert!(d.close());
    for w in 0..3 {
        assert!(matches!(d.next(w), Step::Stop));
        assert_eq!(d.phase_of(w), Phase::Stopped);
    }
}

#[test]
fn closing_drains_queued_jobs_before_stopping() {
    let mut d: Dispatcher<usize> = Dispatcher::new(1);
    assert!(d.submit(7).is_ok());
    assert!(d.submit(8).is_ok());
    assert!(d.close());
    assert!(matches!(d.next(0), Step::Run(7)));
    d.finished(0);
    assert!(matches!(d.next(0), Step::Run(8)));
    d.finished(0);
    assert!(matches!(d.next(0), Step::Stop));
}

#[test]
fn empty_open_queue_tells_worker_to_wait() {
    let mut d: Dispatcher<usize> = Dispatcher::new(2);
    assert!(matches!(d.next(1), Step::Wait));
    assert_eq!(d.phase_of(1), Phase::Waiting);
    assert!(d.submit(5).is_ok());
    assert!(matches!(d.next(1), Step::Run(5)));
}

#[test]
fn submission_after_close_is_refused() {
    let mut d: Dispatcher<usize> = Dispatcher::new(1);
    assert!(d.is_accepting());
    assert!(d.close());
    assert!(!d.is_accepting());
    match d.submit(42) {
        Err(refused) => assert_eq!(refused.job, 42),
        Ok(()) => panic!("a closed dispatcher accepted a job"),
    }
    assert_eq!(d.waiting_jobs(), 0);
}

#[test]
fn second_close_reports_already_closed() {
    let mut d: Dispatcher<usize> = Dispatcher::new(1);
    assert!(d.close());
    assert!(!d.close());
}

#[test]
fn new_dispatcher_has_all_workers_waiting() {
    let d: Dispatcher<usize> = Dispatcher::new(4);
    assert_eq!(d.worker_count(), 4);
    for w in 0..4 {
        assert_eq!(d.phase_of(w), Phase::Waiting);
    }
    assert_eq!(d.waiting_jobs(), 0);
}
