use countrydb::pool::WorkerPool;

#[test]
fn dispatch_picks_least_loaded_first() {
    let mut p = WorkerPool::new(3);
    assert_eq!(p.size(), 3);
    assert_eq!(p.dispatch(), 0);
    assert_eq!(p.dispatch(), 1);
    assert_eq!(p.dispatch(), 2);
    assert_eq!(p.dispatch(), 0);
    p.complete(1);
    assert_eq!(p.dispatch(), 1);
    p.complete(2);
    p.complete(2);
    assert_eq!(p.dispatch(), 2);
}

#[test]
fn complete_out_of_range_or_idle_changes_nothing() {
    let mut p = WorkerPool::new(2);
    p.complete(5);
    p.complete(0);
    assert_eq!(p.dispatch(), 0);
    assert_eq!(p.dispatch(), 1);
    assert!(!p.is_saturated());
}

#[test]
fn single_worker_takes_everything() {
    let mut p = WorkerPool::new(1);
    for _ in 0..10 {
        assert_eq!(p.dispatch(), 0);
    }
}

#[test]
fn dispatch_spreads_queries_evenly() {
    let mut p = WorkerPool::new(3);
    for _ in 0..10 {
        p.dispatch();
    }
    assert_eq!((p.load(0), p.load(1), p.load(2)), (4, 3, 3));
    p.complete(0);
    p.complete(0);
    assert_eq!(p.dispatch(), 0);
    assert_eq!(p.load(0), 3);
}
