use cooptask::executor::{block_on, Executor};
use cooptask::futures::{Delayed, ReadyNow, YieldNow};

#[test]
fn block_on_returns_spawned_value() {
    let mut ex: Executor<ReadyNow<u64>> = Executor::new();
    let h = ex.spawn(ReadyNow::new(42));
    let v = ex.block_on(&h, 100);
    assert_eq!(v, Some(42));
}

#[test]
fn spawn_does_not_poll_synchronously() {
    let mut ex: Executor<ReadyNow<u64>> = Executor::new();
    let h = ex.spawn(ReadyNow::new(7));
    assert!(!ex.is_done(h.id()));
    assert_eq!(ex.queue_len(), 1);
}

#[test]
fn fifo_first_spawned_polled_first() {
    let mut ex: Executor<ReadyNow<u64>> = Executor::new();
    let ha = ex.spawn(ReadyNow::new(1));
    let hb = ex.spawn(ReadyNow::new(2));
    assert!(ex.step());
    assert!(ex.is_done(ha.id()));
    assert!(!ex.is_done(hb.id()));
    assert!(ex.step());
    assert!(ex.is_done(hb.id()));
}

#[test]
fn repeated_wakes_enqueue_once() {
    let mut ex: Executor<Delayed<u64>> = Executor::new();
    let h = ex.spawn(Delayed::new(9));
    let w = h.waker();
    let steps = ex.run(100);
    assert_eq!(steps, 1);
    assert_eq!(ex.queue_len(), 0);
    ex.wake(&w);
    ex.wake(&w);
    ex.wake(&w);
    assert_eq!(ex.queue_len(), 1);
    let v = ex.block_on(&h, 100);
    assert_eq!(v, Some(9));
}

#[test]
fn waking_completed_task_is_noop() {
    let mut ex: Executor<ReadyNow<u64>> = Executor::new();
    let h = ex.spawn(ReadyNow::new(3));
    let w = h.waker();
    ex.run(100);
    assert!(ex.is_done(h.id()));
    ex.wake(&w);
    ex.wake(&w);
    assert_eq!(ex.queue_len(), 0);
}

#[test]
fn waking_unknown_task_is_noop() {
    let mut ex1: Executor<ReadyNow<u64>> = Executor::new();
    let mut ex2: Executor<ReadyNow<u64>> = Executor::new();
    let h = ex1.spawn(ReadyNow::new(1));
    // A waker for a task the second executor never spawned.
    ex2.wake(&h.waker());
    assert_eq!(ex2.queue_len(), 0);
    assert_eq!(ex2.task_count(), 0);
}

#[test]
fn try_join_single_consumer() {
    let mut ex: Executor<ReadyNow<u64>> = Executor::new();
    let h = ex.spawn(ReadyNow::new(5));
    assert_eq!(ex.try_join(&h), None);
    ex.run(100);
    assert_eq!(ex.try_join(&h), Some(5));
    assert_eq!(ex.try_join(&h), None);
}

#[test]
fn dropped_handle_task_still_completes() {
    let mut ex: Executor<Delayed<u64>> = Executor::new();
    let h = ex.spawn(Delayed::new(11));
    let id = h.id();
    let w = h.waker();
    drop(h);
    ex.run(100);
    assert!(!ex.is_done(id));
    ex.wake(&w);
    ex.run(100);
    assert!(ex.is_done(id));
}

#[test]
fn error_value_resolves_and_others_continue() {
    let mut ex: Executor<ReadyNow<Result<String, String>>> = Executor::new();
    let bad = ex.spawn(ReadyNow::new(Err(String::from("file not found"))));
    let good = ex.spawn(ReadyNow::new(Ok(String::from("contents"))));
    let r = ex.block_on(&bad, 100);
    assert_eq!(r, Some(Err(String::from("file not found"))));
    let r = ex.block_on(&good, 100);
    assert_eq!(r, Some(Ok(String::from("contents"))));
}

#[test]
fn three_line_fixture_read() {
    // A fixture arriving fully asynchronously: pending once, woken by a
    // timer stub, then ready with the whole string.
    let mut ex: Executor<Delayed<String>> = Executor::new();
    let h = ex.spawn(Delayed::new(String::from("a\nb\nc\n")));
    let timer_stub = h.waker();
    ex.run(100);
    assert!(!ex.is_done(h.id()));
    ex.wake(&timer_stub);
    let v = ex.block_on(&h, 100);
    assert_eq!(v, Some(String::from("a\nb\nc\n")));
}

#[test]
fn block_on_detects_stalled_task() {
    // A lost wakeup: the task suspends and nobody ever wakes it.
    let mut ex: Executor<Delayed<u64>> = Executor::new();
    let h = ex.spawn(Delayed::new(1));
    assert_eq!(ex.block_on(&h, 100), None);
    assert!(!ex.is_done(h.id()));
}

#[test]
fn block_on_budget_exhaustion() {
    let mut ex: Executor<YieldNow> = Executor::new();
    let h = ex.spawn(YieldNow::new());
    assert_eq!(ex.block_on(&h, 0), None);
    assert_eq!(ex.block_on(&h, 1), None);
    assert_eq!(ex.block_on(&h, 100), Some(()));
}

#[test]
fn block_on_already_completed_task_ignores_budget() {
    let mut ex: Executor<ReadyNow<u64>> = Executor::new();
    let h = ex.spawn(ReadyNow::new(6));
    ex.run(100);
    assert_eq!(ex.block_on(&h, 0), Some(6));
}

#[test]
fn yield_requeues_at_back() {
    let mut ex: Executor<YieldNow> = Executor::new();
    let h = ex.spawn(YieldNow::new());
    assert!(ex.step());
    // The yield re-enqueued the task instead of suspending it.
    assert_eq!(ex.queue_len(), 1);
    assert!(!ex.is_done(h.id()));
    assert!(ex.step());
    assert!(ex.is_done(h.id()));
}

#[test]
fn run_goes_idle() {
    let mut ex: Executor<ReadyNow<u64>> = Executor::new();
    ex.spawn(ReadyNow::new(1));
    ex.spawn(ReadyNow::new(2));
    let steps = ex.run(100);
    assert_eq!(steps, 2);
    assert_eq!(ex.queue_len(), 0);
    let steps = ex.run(100);
    assert_eq!(steps, 0);
}

#[test]
fn step_on_empty_queue_does_nothing() {
    let mut ex: Executor<ReadyNow<u64>> = Executor::new();
    assert!(!ex.step());
    assert_eq!(ex.task_count(), 0);
}

#[test]
fn free_block_on_polls_to_ready() {
    let mut f = ReadyNow::new(String::from("v"));
    assert_eq!(block_on(&mut f, 10), Some(String::from("v")));
    let mut y = YieldNow::new();
    assert_eq!(block_on(&mut y, 10), Some(()));
}

#[test]
fn free_block_on_budget_runs_out() {
    let mut y = YieldNow::new();
    assert_eq!(block_on(&mut y, 0), None);
    assert_eq!(block_on(&mut y, 1), None);
    assert_eq!(block_on(&mut y, 1), Some(()));
}
