use cooptask::executor::{block_on, Executor};
use cooptask::future::{Context, Future, Poll};
use cooptask::futures::{Chain, Delayed, ReadyNow, YieldNow};

fn test_context() -> Context {
    // Wakers are minted by executors; borrow one from a throwaway task.
    let mut ex: Executor<ReadyNow<u8>> = Executor::new();
    let h = ex.spawn(ReadyNow::new(0));
    Context::new(h.waker())
}

#[test]
fn ready_now_is_ready_on_first_poll() {
    let mut cx = test_context();
    let mut f = ReadyNow::new(10);
    match f.poll(&mut cx) {
        Poll::Ready(v) => assert_eq!(v, 10),
        Poll::Pending => panic!("expected Ready"),
    }
}

#[test]
fn delayed_pends_once_then_ready() {
    let mut cx = test_context();
    let mut f = Delayed::new(String::from("x"));
    assert!(matches!(f.poll(&mut cx), Poll::Pending));
    match f.poll(&mut cx) {
        Poll::Ready(v) => assert_eq!(v, "x"),
        Poll::Pending => panic!("expected Ready"),
    }
}

#[test]
fn yield_now_requests_wake() {
    let mut cx = test_context();
    let mut f = YieldNow::new();
    assert!(!cx.was_wake_requested());
    assert!(matches!(f.poll(&mut cx), Poll::Pending));
    assert!(cx.was_wake_requested());
    assert!(matches!(f.poll(&mut cx), Poll::Ready(())));
}

#[test]
fn waker_clone_is_bound_to_same_task() {
    let mut ex: Executor<ReadyNow<u8>> = Executor::new();
    let h = ex.spawn(ReadyNow::new(0));
    let w = h.waker();
    let w2 = w.clone();
    assert_eq!(w.task_index(), h.id());
    assert_eq!(w2.task_index(), h.id());
}

#[test]
fn chain_runs_first_then_second() {
    let mut f = Chain::new(ReadyNow::new(1u64), ReadyNow::new(2u64));
    assert_eq!(block_on(&mut f, 10), Some((1, 2)));
}

#[test]
fn chain_propagates_pending() {
    let mut f = Chain::new(YieldNow::new(), YieldNow::new());
    // Each half suspends once before completing.
    assert_eq!(block_on(&mut f, 1), None);
    assert_eq!(block_on(&mut f, 10), Some(((), ())));
}

#[test]
fn chain_in_executor() {
    let mut ex: Executor<Chain<YieldNow, ReadyNow<u64>>> = Executor::new();
    let h = ex.spawn(Chain::new(YieldNow::new(), ReadyNow::new(8)));
    let v = ex.block_on(&h, 100);
    assert_eq!(v, Some(((), 8)));
}
