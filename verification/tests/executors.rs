//! Executors.

use lmflow::config::StatsLevel;
use lmflow::executor::{
    affinity_mask, qos_class, rt_priority, DelegatingExecutor, Executor, ExecutorStats, PoolTask,
    TakeStep, ThreadPool, DEFAULT_EXECUTOR_NAME,
};

#[test]
fn executor_zero_threads_becomes_one() {
    let p = ThreadPool::new("t", 0, vec![], 0);
    assert_eq!(
        p.num_threads(),
        1,
        "a pool configured with zero threads is surely not intended"
    );
}

#[test]
fn executor_submit_before_start_is_queued() {
    let mut p = ThreadPool::new("t", 2, vec![], 0);
    assert!(p.submit(1, 0));
    assert_eq!(p.pending(), 1, "tasks should be queued before start");
}

#[test]
fn executor_submit_after_shutdown_is_rejected() {
    let mut p = ThreadPool::new("t", 1, vec![], 0);
    p.shutdown();
    assert!(
        !p.submit(1, 0),
        "after shutdown, submit must explicitly reject so the caller can release the token"
    );
}

#[test]
fn executor_shutdown_is_idempotent_and_joins() {
    let mut p = ThreadPool::new("t", 3, vec![], 0);
    p.shutdown();
    p.shutdown();
}

#[test]
fn thread_pool_zero_threads_becomes_one() {
    let pool = ThreadPool::new("test", 0, vec![], 0);
    assert_eq!(pool.num_threads(), 1);
}

#[test]
fn thread_pool_submit_before_start_is_queued() {
    let mut pool = ThreadPool::new("test", 2, vec![], 0);
    assert!(pool.submit(1, 0));
    assert_eq!(pool.pending(), 1);
}

#[test]
fn thread_pool_submit_after_shutdown_is_rejected() {
    let mut pool = ThreadPool::new("test", 1, vec![], 0);
    pool.shutdown();
    assert!(!pool.submit(1, 0));
}

#[test]
fn thread_pool_shutdown_is_idempotent_and_joins() {
    let mut pool = ThreadPool::new("test", 3, vec![], 0);
    pool.shutdown();
    pool.shutdown();
    assert_eq!(pool.take(0), TakeStep::Stop);
}

#[test]
fn delegating_queues_fifo_and_never_rejects() {
    let mut d = DelegatingExecutor::new(DEFAULT_EXECUTOR_NAME);
    assert!(d.submit(7, 0));
    assert!(d.submit(8, 0));
    assert_eq!(d.pending(), 2);
    assert_eq!(d.take(0), Some(7));
    assert_eq!(d.take(0), Some(8));
    assert_eq!(d.take(0), None);
}

#[test]
fn delegating_submit_survives_shutdown() {
    let mut e = Executor::Delegating(DelegatingExecutor::new("host"));
    e.shutdown();
    assert!(e.submit(1, 0));
}

#[test]
fn delegating_clear_drops_pending() {
    let mut d = DelegatingExecutor::new("host");
    d.submit(1, 0);
    d.submit(2, 0);
    d.clear();
    assert_eq!(d.pending(), 0, "reset 不能把上一轮的残留带进下一轮");
}

#[test]
fn queues_fifo_and_never_rejects() {
    let mut executor = DelegatingExecutor::new("host");
    assert!(executor.submit(7, 0));
    assert!(executor.submit(8, 0));
    assert_eq!(executor.pending(), 2);
    assert_eq!(executor.take(0), Some(7));
    assert_eq!(executor.take(0), Some(8));
    assert_eq!(executor.take(0), None);
}

#[test]
fn clear_drops_pending() {
    let mut executor = DelegatingExecutor::new("host");
    executor.submit(1, 0);
    executor.submit(2, 0);
    executor.clear();
    assert_eq!(executor.pending(), 0);
}

#[test]
fn executor_kinds_report_their_shape() {
    let mut pool = Executor::Pool(ThreadPool::new("cpu", 4, vec![2, 3], 10));
    let mut host = Executor::Delegating(DelegatingExecutor::new(DEFAULT_EXECUTOR_NAME));

    assert!(!pool.is_delegating());
    assert_eq!(pool.name(), "cpu");
    assert_eq!(pool.num_threads(), 4);
    assert_eq!(pool.affinity(), &[2, 3]);
    assert_eq!(pool.priority(), 10);
    assert_eq!(pool.take_delegated(0), None, "池的任务由它自己的 worker 取");

    assert!(host.is_delegating());
    assert_eq!(host.name(), DEFAULT_EXECUTOR_NAME);
    assert_eq!(host.num_threads(), 0);
    assert!(host.affinity().is_empty());
    assert_eq!(host.priority(), 0);
    host.submit(5, 0);
    assert_eq!(host.take_delegated(0), Some(5));
}

#[test]
fn delegating_counts_waiting_and_running() {
    let mut d = DelegatingExecutor::new("host");
    d.submit(1, 10);
    d.submit(2, 15);
    let s = d.stats(30);
    assert_eq!((s.queued, s.running, s.peak_queued), (2, 0, 2));
    assert_eq!(s.queued_for_us, 20);
    assert_eq!(d.take(40), Some(1));
    assert_eq!(d.take(50), Some(2));
    d.complete(7);
    let s = d.stats(60);
    assert_eq!((s.queued, s.running, s.completed), (0, 1, 1));
    assert_eq!(s.total_wait_us, 30 + 35);
    assert_eq!(s.total_execution_us, 7);
    assert_eq!(s.queued_for_us, 0);
    assert!(d.has_pending_work());
    d.complete(1);
    assert!(!d.has_pending_work());
    d.reset_stats();
    assert_eq!(d.stats(60).completed, 0);
}

#[test]
fn queued_nodes_are_listed_in_order() {
    let mut d = DelegatingExecutor::new("host");
    d.submit(3, 0);
    d.submit(1, 0);
    assert_eq!(d.queued_nodes(), vec![3, 1]);
    let mut p = ThreadPool::new("t", 1, vec![], 0);
    p.submit(3, 0);
    p.submit_source_wake(9, 1, 0, 0);
    p.submit(4, 0);
    assert_eq!(p.queued_nodes(), vec![3, 4]);
}

#[test]
fn delayed_tasks_wake_in_the_order_of_their_times() {
    let mut p = ThreadPool::new("t", 1, vec![], 0);
    assert!(p.submit_source_wake(1, 0, 30, 0));
    assert!(p.submit_source_wake(2, 0, 10, 0));
    assert!(p.submit_source_wake(3, 0, 10, 0));
    assert_eq!(p.pending(), 0, "a task for later is not in line yet");
    assert!(p.has_pending_work());
    assert_eq!(p.take(4), TakeStep::Wait(Some(6)));
    let woken: Vec<PoolTask> = (0..2)
        .map(|_| match p.take(10) {
            TakeStep::Got(t) => t.task,
            other => panic!("{other:?}"),
        })
        .collect();
    assert_eq!(woken, vec![PoolTask::WakeSource(2, 0), PoolTask::WakeSource(3, 0)]);
    assert_eq!(p.take(10), TakeStep::Wait(Some(20)));
    p.clear_delayed();
    assert_eq!(p.take(10), TakeStep::Wait(None));
}

#[test]
fn pools_do_what_is_in_line_before_they_end() {
    let mut p = ThreadPool::new("t", 1, vec![], 0);
    p.submit(1, 0);
    p.shutdown();
    assert!(!p.submit(2, 0));
    assert!(!p.submit_source_wake(2, 0, 5, 0));
    assert!(matches!(p.take(3), TakeStep::Got(t) if t.task == PoolTask::Run(1)));
    assert_eq!(p.take(3), TakeStep::Stop);
}

#[test]
fn delays_beyond_the_end_of_time_are_halved() {
    let mut p = ThreadPool::new("t", 1, vec![], 0);
    let now = u64::MAX - 10;
    assert!(p.submit_source_wake(1, 0, 33, now));
    assert_eq!(p.take(now), TakeStep::Wait(Some(8)));
}

#[test]
fn workers_take_turns_on_the_cores() {
    let p = ThreadPool::new("cpu", 3, vec![4, 6], 0);
    assert_eq!(p.thread_name(2), "cpu-2");
    assert_eq!((p.cpu_of(0), p.cpu_of(1), p.cpu_of(2)), (Some(4), Some(6), Some(4)));
    assert_eq!(ThreadPool::new("cpu", 3, vec![], 0).cpu_of(0), None);
}

#[test]
fn threads_are_created_once() {
    let mut e = Executor::Pool(ThreadPool::new("cpu", 1, vec![], 0));
    assert!(e.start());
    assert!(!e.start());
    let mut host = Executor::Delegating(DelegatingExecutor::new("host"));
    assert!(!host.start());
    assert!(!host.submit_source_wake(1, 0, 0, 0));
}

#[test]
fn a_new_run_starts_clean() {
    let mut host = Executor::Delegating(DelegatingExecutor::new("host"));
    host.submit(1, 0);
    host.reset_run_state();
    assert_eq!(host.pending(), 0);
    assert_eq!(host.stats(0).peak_queued, 0);
}

#[test]
fn masks_hold_one_core() {
    let mask = affinity_mask(70).unwrap();
    assert_eq!(mask.len(), 16);
    assert_eq!(mask[1], 1u64 << 6);
    assert_eq!(mask.iter().filter(|w| **w != 0).count(), 1);
    assert!(affinity_mask(1024).is_none());
}

#[test]
fn priorities_fit_the_platform() {
    assert_eq!((rt_priority(0), rt_priority(50), rt_priority(200)), (1, 50, 99));
    assert_eq!((qos_class(89), qos_class(90)), (0x19, 0x21));
}

#[test]
fn low_levels_count_without_times() {
    let mut s = ExecutorStats::new(StatsLevel::Basic);
    s.enqueued(5);
    s.started(Some(3));
    s.completed(Some(4));
    let shown = s.snapshot(9);
    assert_eq!((shown.queued, shown.running, shown.peak_queued, shown.completed), (0, 0, 0, 0));
    assert!(!s.full());
    let mut s = ExecutorStats::new(StatsLevel::Full);
    s.enqueued(5);
    s.enqueued(6);
    s.dropped(9);
    assert_eq!(s.queued(), 0);
    assert_eq!(s.snapshot(9).queued_for_us, 0);
}

#[test]
fn delegating_statistics_follow_what_happened() {
    let mut d = DelegatingExecutor::new("host");
    assert_eq!(d.take(0), None);
    for node in 0..3 {
        d.submit(node, 1);
    }
    assert_eq!(d.take(2), Some(0));
    d.submit(3, 3);
    assert_eq!(d.take(4), Some(1));
    d.complete(1);
    assert_eq!(d.take(5), Some(2));
    let s = d.stats(6);
    assert_eq!((s.queued, s.running, s.completed, s.peak_queued), (1, 2, 1, 3));
    assert_eq!((d.pending(), d.queued_nodes()), (1, vec![3]));
}
