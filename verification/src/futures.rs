//! Ready-made futures: an immediately ready value, a value that arrives only
//! after an external wake, a cooperative yield, and sequential composition.

use vstd::prelude::*;

use crate::future::{pending_chain, Context, Future, Poll};

verus! {

/// A future that is ready on its first poll with a fixed value.
pub struct ReadyNow<T> {
    value: Option<T>,
    produced: Ghost<T>,
}

impl<T> ReadyNow<T> {
    /// A future that will complete immediately with `value`.
    pub fn new(value: T) -> (f: ReadyNow<T>)
        ensures
            f.inv(),
            !f.done(),
            f.value() == value,
    {
        let ghost produced = value;
        ReadyNow { value: Some(value), produced: Ghost(produced) }
    }
}

impl<T> Future for ReadyNow<T> {
    type Output = T;

    closed spec fn inv(&self) -> bool {
        self.value matches Some(v) ==> v == self.produced@
    }

    closed spec fn done(&self) -> bool {
        self.value is None
    }

    closed spec fn value(&self) -> T {
        self.produced@
    }

    open spec fn stepped(pre: Self, post: Self, r: Poll<T>, wake_requested: bool) -> bool {
        &&& (r matches Poll::Ready(v) && v == pre.value())
        &&& post.done()
        &&& post.value() == pre.value()
    }

    fn poll(&mut self, cx: &mut Context) -> (r: Poll<T>)
        ensures
            r matches Poll::Ready(v) && v == old(self).value(),
    {
        match self.value.take() {
            Some(v) => Poll::Ready(v),
            None => vstd::pervasive::unreached(),
        }
    }
}

/// An immediately-ready future never pends: the only chain of pending polls
/// over it is the empty one.  With the executor's chain contracts this rules
/// out a run that leaves such a task uncompleted for want of polling.
pub proof fn lemma_ready_now_never_pends<T>(pre: ReadyNow<T>, post: ReadyNow<T>, n: nat)
    requires
        pending_chain(pre, post, n),
    ensures
        n == 0,
        post == pre,
{
    if n >= 1 {
        crate::future::lemma_pending_chain_step_exists(pre, post, n);
        let (a, b, wr) = choose|a: ReadyNow<T>, b: ReadyNow<T>, wr: bool|
            #[trigger] ReadyNow::<T>::stepped(a, b, Poll::Pending, wr);
        assert(false);
    }
}

/// A future whose value arrives only after an external event: its first poll
/// returns `Pending` (the external dependency is then holding the task's
/// waker), and once the task has been woken, the next poll hands the value
/// over.
pub struct Delayed<T> {
    value: Option<T>,
    registered: bool,
    produced: Ghost<T>,
}

impl<T> Delayed<T> {
    /// Whether the future has already suspended once: its next poll hands
    /// the value over.
    pub closed spec fn suspended_once(&self) -> bool {
        self.registered
    }

    /// A future that will complete with `value` after one suspension.
    pub fn new(value: T) -> (f: Delayed<T>)
        ensures
            f.inv(),
            !f.done(),
            !f.suspended_once(),
            f.value() == value,
    {
        let ghost produced = value;
        Delayed { value: Some(value), registered: false, produced: Ghost(produced) }
    }
}

impl<T> Future for Delayed<T> {
    type Output = T;

    closed spec fn inv(&self) -> bool {
        &&& (self.value matches Some(v) ==> v == self.produced@)
        &&& (!self.registered ==> self.value is Some)
    }

    closed spec fn done(&self) -> bool {
        self.value is None
    }

    closed spec fn value(&self) -> T {
        self.produced@
    }

    open spec fn stepped(pre: Self, post: Self, r: Poll<T>, wake_requested: bool) -> bool {
        &&& post.value() == pre.value()
        &&& (!pre.suspended_once() ==> r is Pending && post.suspended_once() && !post.done())
        &&& (pre.suspended_once() ==> (r matches Poll::Ready(v) && v == pre.value()) && post.done())
    }

    fn poll(&mut self, cx: &mut Context) -> (r: Poll<T>)
        ensures
            !old(self).suspended_once() ==> r is Pending && final(self).suspended_once(),
            old(self).suspended_once() ==> (r matches Poll::Ready(v) && v == old(self).value()),
    {
        if !self.registered {
            self.registered = true;
            Poll::Pending
        } else {
            match self.value.take() {
                Some(v) => Poll::Ready(v),
                None => vstd::pervasive::unreached(),
            }
        }
    }
}

/// A delayed future pends exactly once, at its first poll: a chain of
/// pending polls over it has length at most one, and a chain of length one
/// starts fresh and ends suspended.
pub proof fn lemma_delayed_pends_at_most_once<T>(pre: Delayed<T>, post: Delayed<T>, n: nat)
    requires
        pending_chain(pre, post, n),
    ensures
        n <= 1,
        n == 1 ==> !pre.suspended_once() && post.suspended_once(),
        n == 0 ==> post == pre,
    decreases n,
{
    if n >= 1 {
        let (mid, wr) = choose|mid: Delayed<T>, wr: bool|
            pending_chain(pre, mid, (n - 1) as nat) && #[trigger] Delayed::<T>::stepped(
                mid,
                post,
                Poll::Pending,
                wr,
            );
        lemma_delayed_pends_at_most_once(pre, mid, (n - 1) as nat);
        assert(!mid.suspended_once());
        assert((n - 1) as nat == 0);
    }
}

/// A future that yields once: its first poll requests an immediate wake
/// through the context and returns `Pending`, so the task goes to the back
/// of the ready-queue; the next poll completes.
pub struct YieldNow {
    yielded: bool,
    finished: bool,
}

impl YieldNow {
    /// Whether the future has already yielded: its next poll completes.
    pub closed spec fn has_yielded(&self) -> bool {
        self.yielded
    }

    /// A future that will suspend once and then complete.
    pub fn new() -> (f: YieldNow)
        ensures
            f.inv(),
            !f.done(),
            !f.has_yielded(),
    {
        YieldNow { yielded: false, finished: false }
    }
}

impl Future for YieldNow {
    type Output = ();

    closed spec fn inv(&self) -> bool {
        self.finished ==> self.yielded
    }

    closed spec fn done(&self) -> bool {
        self.finished
    }

    closed spec fn value(&self) -> () {
        ()
    }

    open spec fn stepped(pre: Self, post: Self, r: Poll<()>, wake_requested: bool) -> bool {
        &&& (!pre.has_yielded() ==> r is Pending && post.has_yielded() && !post.done()
            && wake_requested)
        &&& (pre.has_yielded() ==> r is Ready && post.done())
    }

    fn poll(&mut self, cx: &mut Context) -> (r: Poll<()>)
        ensures
            !old(self).has_yielded() ==> r is Pending && final(self).has_yielded()
                && final(cx).wake_was_requested(),
            old(self).has_yielded() ==> r is Ready,
    {
        if !self.yielded {
            self.yielded = true;
            cx.wake();
            Poll::Pending
        } else {
            self.finished = true;
            Poll::Ready(())
        }
    }
}

/// Sequential composition: drives the first future to completion, then the
/// second, and completes with both values.
pub struct Chain<A: Future, B: Future> {
    first: A,
    first_out: Option<A::Output>,
    second: B,
    finished: bool,
}

impl<A: Future, B: Future> Chain<A, B> {
    /// Whether the first future has completed and its value is cached,
    /// waiting for the second future to complete.
    pub closed spec fn first_settled(&self) -> bool {
        self.first_out is Some
    }

    /// The first future, as it currently stands.
    pub closed spec fn first_fut(&self) -> A {
        self.first
    }

    /// The second future, as it currently stands.
    pub closed spec fn second_fut(&self) -> B {
        self.second
    }

    /// Chains two fresh futures: `first` runs to completion before `second`
    /// is polled at all.
    pub fn new(first: A, second: B) -> (f: Chain<A, B>)
        requires
            first.inv(),
            !first.done(),
            second.inv(),
            !second.done(),
        ensures
            f.inv(),
            !f.done(),
            !f.first_settled(),
            f.value() == (first.value(), second.value()),
    {
        Chain { first, first_out: None, second, finished: false }
    }
}

impl<A: Future, B: Future> Future for Chain<A, B> {
    type Output = (A::Output, B::Output);

    closed spec fn inv(&self) -> bool {
        &&& self.first.inv()
        &&& self.second.inv()
        &&& (self.first_out matches Some(v) ==> self.first.done() && v == self.first.value())
        &&& (!self.first.done() ==> self.first_out is None)
        &&& (!self.finished && self.first.done() ==> self.first_out is Some)
        &&& (!self.finished ==> !self.second.done())
        &&& (self.finished ==> self.first.done() && self.second.done())
    }

    closed spec fn done(&self) -> bool {
        self.finished
    }

    closed spec fn value(&self) -> (A::Output, B::Output) {
        (self.first.value(), self.second.value())
    }

    open spec fn stepped(pre: Self, post: Self, r: Poll<(A::Output, B::Output)>, wake_requested: bool) -> bool {
        &&& post.value() == pre.value()
        &&& (r is Ready <==> post.done())
        &&& (pre.first_settled() ==> post.first_settled() || post.done())
        &&& (post.first_settled() ==> r is Pending)
        // the first future still running: it was polled once and pended
        &&& (!pre.first_settled() && !post.first_settled() && !post.done() ==> post.second_fut()
            == pre.second_fut() && (exists|w: bool|
            #[trigger] A::stepped(pre.first_fut(), post.first_fut(), Poll::Pending, w)))
        // the first future completed during this poll
        &&& (!pre.first_settled() && (post.first_settled() || post.done()) ==> exists|
            va: A::Output,
            w: bool,
        |
            #[trigger] A::stepped(pre.first_fut(), post.first_fut(), Poll::Ready(va), w))
        // the first future was already settled: it is left alone
        &&& (pre.first_settled() ==> post.first_fut() == pre.first_fut())
        // whenever the first future is out of the way, the second was polled
        &&& (post.first_settled() && !post.done() ==> exists|w: bool|
            #[trigger] B::stepped(pre.second_fut(), post.second_fut(), Poll::Pending, w))
        &&& (post.done() ==> exists|vb: B::Output, w: bool|
            #[trigger] B::stepped(pre.second_fut(), post.second_fut(), Poll::Ready(vb), w))
    }

    fn poll(&mut self, cx: &mut Context) -> (r: Poll<(A::Output, B::Output)>)
        ensures
            old(self).first_settled() ==> final(self).first_settled() || final(self).done(),
            final(self).first_settled() ==> r is Pending,
    {
        let ghost first0 = self.first;
        let ghost second0 = self.second;
        if self.first_out.is_none() {
            match self.first.poll(cx) {
                Poll::Pending => {
                    proof {
                        assert(A::stepped(
                            first0,
                            self.first,
                            Poll::Pending,
                            cx.wake_was_requested(),
                        ));
                        let pre = *old(self);
                        let post = *self;
                        assert(pre.first_fut() == first0);
                        assert(post.first_fut() == self.first);
                        assert(exists|w: bool|
                            #[trigger] A::stepped(
                                pre.first_fut(),
                                post.first_fut(),
                                Poll::Pending,
                                w,
                            ));
                        assert(Self::stepped(pre, post, Poll::Pending, cx.wake_was_requested()));
                    }
                    return Poll::Pending;
                },
                Poll::Ready(v) => {
                    proof {
                        assert(A::stepped(
                            first0,
                            self.first,
                            Poll::Ready(v),
                            cx.wake_was_requested(),
                        ));
                    }
                    self.first_out = Some(v);
                },
            }
        }
        match self.second.poll(cx) {
            Poll::Pending => {
                proof {
                    assert(B::stepped(
                        second0,
                        self.second,
                        Poll::Pending,
                        cx.wake_was_requested(),
                    ));
                    let pre = *old(self);
                    let post = *self;
                    assert(pre.first_fut() == first0);
                    assert(pre.second_fut() == second0);
                    assert(post.first_fut() == self.first);
                    assert(post.second_fut() == self.second);
                    assert(exists|wb: bool|
                        #[trigger] B::stepped(
                            pre.second_fut(),
                            post.second_fut(),
                            Poll::Pending,
                            wb,
                        ));
                    if !pre.first_settled() {
                        assert(exists|va: A::Output, wa: bool|
                            #[trigger] A::stepped(
                                pre.first_fut(),
                                post.first_fut(),
                                Poll::Ready(va),
                                wa,
                            ));
                    }
                    assert(Self::stepped(pre, post, Poll::Pending, cx.wake_was_requested()));
                }
                Poll::Pending
            },
            Poll::Ready(w) => {
                proof {
                    assert(B::stepped(
                        second0,
                        self.second,
                        Poll::Ready(w),
                        cx.wake_was_requested(),
                    ));
                }
                self.finished = true;
                match self.first_out.take() {
                    Some(v) => {
                        proof {
                            let pre = *old(self);
                            let post = *self;
                            assert(pre.first_fut() == first0);
                            assert(pre.second_fut() == second0);
                            assert(post.first_fut() == self.first);
                            assert(post.second_fut() == self.second);
                            assert(exists|vb: B::Output, wb: bool|
                                #[trigger] B::stepped(
                                    pre.second_fut(),
                                    post.second_fut(),
                                    Poll::Ready(vb),
                                    wb,
                                ));
                            if !pre.first_settled() {
                                assert(exists|va: A::Output, wa: bool|
                                    #[trigger] A::stepped(
                                        pre.first_fut(),
                                        post.first_fut(),
                                        Poll::Ready(va),
                                        wa,
                                    ));
                            }
                            assert(Self::stepped(pre, post, Poll::Ready((v, w)),
                                cx.wake_was_requested()));
                        }
                        Poll::Ready((v, w))
                    },
                    None => vstd::pervasive::unreached(),
                }
            },
        }
    }
}

} // verus!
