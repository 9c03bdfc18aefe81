use topic_broker::broker::Partition;
use topic_broker::dispatch::{worker_step, Assignment, DispatchError, Dispatcher, WorkerStep};

#[test]
fn no_workers_is_refused() {
    assert!(matches!(Dispatcher::new(0, true), Err(DispatchError::NoWorkers)));
}

#[test]
fn round_robin_order() {
    let mut d = Dispatcher::new(3, false).ok().unwrap();
    let workers: Vec<usize> = (0..7).map(|_| d.assign().worker).collect();
    assert_eq!(workers, vec![0, 1, 2, 0, 1, 2, 0]);
}

#[test]
fn chained_requests_wait_for_previous() {
    let mut d = Dispatcher::new(2, true).ok().unwrap();
    assert_eq!(d.assign(), Assignment { worker: 0, waits_for_previous: false });
    assert_eq!(d.assign(), Assignment { worker: 1, waits_for_previous: true });
    assert_eq!(d.assign(), Assignment { worker: 0, waits_for_previous: true });
    let mut u = Dispatcher::new(1, false).ok().unwrap();
    assert_eq!(u.assign(), Assignment { worker: 0, waits_for_previous: false });
    assert_eq!(u.assign(), Assignment { worker: 0, waits_for_previous: false });
}

#[test]
fn only_writes_wait() {
    let p = Partition { id: 1, file_name: b"t_partition_1.log".to_vec() };
    match worker_step::<String>(Ok(Some((b"v".to_vec(), p))), true) {
        WorkerStep::QueueWrite { value, partition, wait_for_previous } => {
            assert_eq!(value, b"v".to_vec());
            assert_eq!(partition.id, 1);
            assert!(wait_for_previous);
        }
        _ => panic!("expected a write"),
    }
    assert!(matches!(worker_step::<String>(Ok(None), true), WorkerStep::Respond { ack: true, error: None }));
    match worker_step::<String>(Err("bad".to_string()), false) {
        WorkerStep::Respond { ack, error } => {
            assert!(!ack);
            assert_eq!(error, Some("bad".to_string()));
        }
        _ => panic!("expected a response"),
    }
}
