use server_rs::queue::{JobQueue, Take};

#[test]
fn queue_is_first_in_first_out() {
    let mut q: JobQueue<u8> = JobQueue::new();
    assert!(q.enqueue(1).is_ok());
    assert!(q.enqueue(2).is_ok());
    assert_eq!(q.len(), 2);
    assert!(matches!(q.take(), Take::Job(1)));
    assert!(matches!(q.take(), Take::Job(2)));
    assert!(matches!(q.take(), Take::Empty));
}

#[test]
fn closed_queue_hands_out_remaining_jobs_then_closure() {
    let mut q: JobQueue<u8> = JobQueue::new();
    assert!(q.enqueue(3).is_ok());
    assert!(q.close());
    assert!(!q.open());
    assert!(matches!(q.take(), Take::Job(3)));
    assert!(matches!(q.take(), Take::Closed));
    assert!(matches!(q.take(), Take::Closed));
}

#[test]
fn closed_queue_refuses_and_returns_the_job() {
    let mut q: JobQueue<String> = JobQueue::new();
    assert!(q.close());
    assert!(!q.close());
    match q.enqueue(String::from("late")) {
        Err(refused) => assert_eq!(refused.job, "late"),
        Ok(()) => panic!("a closed queue accepted a job"),
    }
    assert_eq!(q.len(), 0);
}
