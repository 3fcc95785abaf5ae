//! The polling protocol: poll outcomes, wakers, per-poll contexts, and the
//! `Future` trait that every deferred computation implements.

use vstd::prelude::*;

verus! {

/// The outcome of one poll attempt: the computation either finished and
/// hands over its value, or it cannot make progress yet.
pub enum Poll<T> {
    Ready(T),
    Pending,
}

/// A notification handle bound to one task of one executor.  A suspended
/// future's dependency holds a clone of the waker and, when progress becomes
/// possible, hands it back to the executor (`Executor::wake`) to re-enqueue
/// the task.  Waking is idempotent: a task sits in the ready-queue at most
/// once, and waking a completed task does nothing.
#[derive(Clone, Copy)]
pub struct Waker {
    task: usize,
}

impl Waker {
    /// The index of the task this waker is bound to.
    pub closed spec fn task_id(&self) -> usize {
        self.task
    }

    /// Binds a fresh waker to the task with the given index.
    pub(crate) fn bound_to(task: usize) -> (w: Waker)
        ensures
            w.task_id() == task,
    {
        Waker { task }
    }

    /// The task index, for handing the wake signal back to the executor.
    pub fn task_index(&self) -> (i: usize)
        ensures
            i == self.task_id(),
    {
        self.task
    }
}

/// A short-lived token passed into every poll call.  It wraps the waker of
/// the task being polled and records whether the future asked to be polled
/// again right away (a yield).
pub struct Context {
    waker: Waker,
    wake_requested: bool,
}

impl Context {
    /// The task the wrapped waker is bound to.
    pub closed spec fn task_id(&self) -> usize {
        self.waker.task_id()
    }

    /// Whether the future asked, during this poll, to be re-enqueued at once.
    pub closed spec fn wake_was_requested(&self) -> bool {
        self.wake_requested
    }

    /// A fresh context around the given waker, with no wake requested yet.
    pub fn new(waker: Waker) -> (cx: Context)
        ensures
            cx.task_id() == waker.task_id(),
            !cx.wake_was_requested(),
    {
        Context { waker, wake_requested: false }
    }

    /// A clone of the wrapped waker, for a dependency to store and invoke
    /// later.
    pub fn waker(&self) -> (w: Waker)
        ensures
            w.task_id() == self.task_id(),
    {
        self.waker
    }

    /// Whether a wake was requested during this poll, for the executor to
    /// read after the poll returns.
    pub fn was_wake_requested(&self) -> (b: bool)
        ensures
            b == self.wake_was_requested(),
    {
        self.wake_requested
    }

    /// Invokes the wrapped waker from inside the poll call itself: the task
    /// asks to be polled again without waiting for an external event.
    /// Requesting this more than once during one poll coalesces into one.
    pub fn wake(&mut self)
        ensures
            final(self).task_id() == old(self).task_id(),
            final(self).wake_was_requested(),
    {
        self.wake_requested = true;
    }
}

/// A deferred computation, driven exclusively through `poll`.
///
/// Each implementation describes itself with three spec functions: `inv`,
/// the well-formedness of its internal state; `done`, whether it has already
/// returned `Ready`; and `value`, the value it produces on completion.
pub trait Future: Sized {
    type Output;

    /// Well-formedness of the future's internal state, established at
    /// construction and preserved by every poll.
    spec fn inv(&self) -> bool;

    /// True once the future has returned `Ready`.  A completed future must
    /// never be polled again: `poll` requires `!done()`.
    spec fn done(&self) -> bool;

    /// The value this future produces when it completes.  Polling never
    /// changes it: a future whose eventual value depends on how it runs
    /// fixes it up front as a ghost prophecy.
    spec fn value(&self) -> Self::Output;

    /// How one poll call may transform this future: relates the state
    /// before the call to the state after it, the outcome returned, and
    /// whether the poll requested an immediate wake.  Each implementation
    /// defines it to mirror its own poll, and `poll` ensures the actual
    /// call inhabits it, so an executor's contract can say that a future
    /// advanced only through real polls.
    spec fn stepped(pre: Self, post: Self, r: Poll<Self::Output>, wake_requested: bool) -> bool;

    /// Advances the computation one step.  Returns `Ready` exactly once,
    /// handing over the produced value; `Pending` means no progress is
    /// possible yet, and the future must have arranged — through the
    /// context's waker — that the task is woken when progress becomes
    /// possible, on pain of stalling forever.
    fn poll(&mut self, cx: &mut Context) -> (r: Poll<Self::Output>)
        requires
            old(self).inv(),
            !old(self).done(),
        ensures
            final(self).inv(),
            final(self).value() == old(self).value(),
            Self::stepped(*old(self), *final(self), r, final(cx).wake_was_requested()),
            final(cx).task_id() == old(cx).task_id(),
            old(cx).wake_was_requested() ==> final(cx).wake_was_requested(),
            (match r {
                Poll::Ready(v) => final(self).done() && v == final(self).value(),
                Poll::Pending => !final(self).done(),
            }),
    ;
}

/// A run of `n` polls of one future, every one of them returning `Pending`:
/// the future advanced from `pre` to `post` through real poll transitions
/// without ever completing.
pub open spec fn pending_chain<F: Future>(pre: F, post: F, n: nat) -> bool
    decreases n,
{
    if n == 0 {
        post == pre
    } else {
        exists|mid: F, wr: bool|
            pending_chain(pre, mid, (n - 1) as nat) && #[trigger] F::stepped(
                mid,
                post,
                Poll::Pending,
                wr,
            )
    }
}

/// A run of `n` polls of one future: the first `n - 1` return `Pending` and
/// the last returns `Ready`, completing the future.
pub open spec fn ready_chain<F: Future>(pre: F, post: F, n: nat) -> bool {
    n >= 1 && exists|mid: F, wr: bool, v: F::Output|
        pending_chain(pre, mid, (n - 1) as nat) && #[trigger] F::stepped(
            mid,
            post,
            Poll::Ready(v),
            wr,
        )
}

/// One more pending poll extends a pending chain.
pub proof fn lemma_pending_chain_extend<F: Future>(pre: F, mid: F, post: F, n: nat, wr: bool)
    requires
        pending_chain(pre, mid, n),
        F::stepped(mid, post, Poll::Pending, wr),
    ensures
        pending_chain(pre, post, n + 1),
{
}

/// A ready poll after a pending chain makes a ready chain.
pub proof fn lemma_ready_chain_end<F: Future>(
    pre: F,
    mid: F,
    post: F,
    n: nat,
    v: F::Output,
    wr: bool,
)
    requires
        pending_chain(pre, mid, n),
        F::stepped(mid, post, Poll::Ready(v), wr),
    ensures
        ready_chain(pre, post, n + 1),
{
}

/// A non-empty pending chain exhibits at least one pending poll transition —
/// the tool for showing that a future whose every poll completes cannot sit
/// in such a chain.
pub proof fn lemma_pending_chain_step_exists<F: Future>(pre: F, post: F, n: nat)
    requires
        pending_chain(pre, post, n),
        n >= 1,
    ensures
        exists|a: F, b: F, wr: bool| #[trigger] F::stepped(a, b, Poll::Pending, wr),
{
    let (mid, wr) = choose|mid: F, wr: bool|
        pending_chain(pre, mid, (n - 1) as nat) && #[trigger] F::stepped(
            mid,
            post,
            Poll::Pending,
            wr,
        );
    assert(F::stepped(mid, post, Poll::Pending, wr));
}

/// A ready chain longer than one poll exhibits a pending poll transition.
pub proof fn lemma_ready_chain_pending_step_exists<F: Future>(pre: F, post: F, n: nat)
    requires
        ready_chain(pre, post, n),
        n >= 2,
    ensures
        exists|a: F, b: F, wr: bool| #[trigger] F::stepped(a, b, Poll::Pending, wr),
{
    let (mid, wr, v) = choose|mid: F, wr: bool, v: F::Output|
        pending_chain(pre, mid, (n - 1) as nat) && #[trigger] F::stepped(
            mid,
            post,
            Poll::Ready(v),
            wr,
        );
    lemma_pending_chain_step_exists(pre, mid, (n - 1) as nat);
}

} // verus!
