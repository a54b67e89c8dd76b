use inko_rt::pool::{worker_count_for, Pool, MAX_WORKERS};

#[test]
fn worker_counts_are_clamped() {
    assert_eq!(worker_count_for(0), 1);
    assert_eq!(worker_count_for(1), 1);
    assert_eq!(worker_count_for(8), 8);
    assert_eq!(worker_count_for(MAX_WORKERS), MAX_WORKERS);
    assert_eq!(worker_count_for(MAX_WORKERS + 1), MAX_WORKERS);
    assert_eq!(worker_count_for(usize::MAX), MAX_WORKERS);
    assert_eq!(Pool::new(0).workers(), 1);
    assert_eq!(Pool::new(3).workers(), 3);
}

#[test]
fn one_worker_per_processor_of_this_machine() {
    let pool = Pool::with_available_workers();
    assert!(pool.workers() >= 1);
    assert!(pool.workers() <= MAX_WORKERS);
    assert!(pool.is_idle());
}

#[test]
fn the_injector_is_first_in_first_out() {
    let mut pool = Pool::new(2);
    assert!(pool.is_idle());
    assert_eq!(pool.next(0), None);
    pool.schedule(10);
    pool.schedule(11);
    pool.schedule(12);
    assert!(!pool.is_idle());
    assert_eq!(pool.next(1), Some(10));
    assert_eq!(pool.next(0), Some(11));
    assert_eq!(pool.next(1), Some(12));
    assert_eq!(pool.next(1), None);
    assert!(pool.is_idle());
}

#[test]
fn a_worker_takes_the_newest_of_its_own_first() {
    let mut pool = Pool::new(2);
    pool.schedule(1);
    pool.requeue(0, 20);
    pool.requeue(0, 21);
    pool.requeue(1, 30);
    assert_eq!(pool.next(0), Some(21));
    assert_eq!(pool.next(0), Some(20));
    assert_eq!(pool.next(0), Some(1));
    assert_eq!(pool.next(0), Some(30));
    assert_eq!(pool.next(0), None);
}

#[test]
fn stealing_takes_the_oldest_of_the_first_busy_deque() {
    let mut pool = Pool::new(3);
    pool.requeue(2, 40);
    pool.requeue(2, 41);
    pool.requeue(1, 50);
    pool.requeue(1, 51);
    assert_eq!(pool.next(0), Some(50));
    assert_eq!(pool.next(0), Some(51));
    assert_eq!(pool.next(0), Some(40));
    assert_eq!(pool.next(2), Some(41));
    assert_eq!(pool.next(1), None);
}

#[test]
fn a_worker_the_pool_does_not_have_uses_the_injector() {
    let mut pool = Pool::new(1);
    pool.requeue(5, 7);
    pool.requeue(0, 8);
    assert_eq!(pool.next(9), Some(7));
    assert_eq!(pool.next(9), Some(8));
    assert_eq!(pool.next(9), None);
}

#[test]
fn many_processes_on_few_workers_all_run_once() {
    let workers = 4;
    let processes: u64 = 1000;
    let mut pool = Pool::new(workers);
    for pid in 0..processes {
        if pid % 3 == 0 {
            pool.requeue((pid % 4) as usize, pid);
        } else {
            pool.schedule(pid);
        }
    }
    let mut seen = vec![0u32; processes as usize];
    let mut polls = 0;
    while !pool.is_idle() {
        let worker = (polls * 7 + 3) % 5;
        let pid = pool.next(worker).unwrap();
        seen[pid as usize] += 1;
        polls += 1;
    }
    assert_eq!(polls as u64, processes);
    assert!(seen.iter().all(|count| *count == 1));
    for worker in 0..workers {
        assert_eq!(pool.next(worker), None);
    }
}

#[test]
fn clearing_empties_every_queue() {
    let mut pool = Pool::new(2);
    pool.schedule(1);
    pool.requeue(0, 2);
    pool.requeue(1, 3);
    pool.clear();
    assert!(pool.is_idle());
    assert_eq!(pool.workers(), 2);
    assert_eq!(pool.next(0), None);
}
