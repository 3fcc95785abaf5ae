//! The executor: a FIFO ready-queue of tasks, each wrapping one future, with
//! spawn, wake, stepping, and blocking join.

use vstd::prelude::*;

use crate::future::{
    lemma_pending_chain_extend, lemma_pending_chain_step_exists, lemma_ready_chain_end,
    pending_chain, ready_chain, Context, Future, Poll, Waker,
};

verus! {

/// Where a task stands in its lifecycle.
#[derive(Clone, Copy, PartialEq, Eq, Structural)]
pub enum Status {
    /// Parked: not in the ready-queue; waiting for its waker to be invoked.
    Suspended,
    /// In the ready-queue, waiting to be polled.
    Queued,
    /// Its future returned `Ready`; the value sits in the completion slot
    /// until the join handle collects it.
    Done,
}

/// One scheduled unit: a future plus its status, its completion slot, and a
/// ghost count of how many times it has been polled.
struct Task<F: Future> {
    fut: F,
    status: Status,
    slot: Option<F::Output>,
    polls: Ghost<nat>,
}

/// Observes one spawned task's eventual result.  It does not own the task's
/// execution — the executor does — so dropping the handle abandons the
/// result but never stops the task.
pub struct JoinHandle {
    task: usize,
}

impl JoinHandle {
    /// The index of the observed task.
    pub closed spec fn task_id(&self) -> usize {
        self.task
    }

    /// The task index as a value.
    pub fn id(&self) -> (i: usize)
        ensures
            i == self.task_id(),
    {
        self.task
    }

    /// A waker bound to the observed task, for an external dependency to
    /// invoke when the task can make progress.
    pub fn waker(&self) -> (w: Waker)
        ensures
            w.task_id() == self.task_id(),
    {
        Waker::bound_to(self.task)
    }
}

/// How one wake signal changes the ready-queue: a live (existing, not yet
/// completed) task is appended once; a task already queued, already
/// completed, or unknown leaves the queue unchanged.
pub open spec fn enqueue_once(q: Seq<usize>, id: usize, live: bool) -> Seq<usize> {
    if live && !q.contains(id) {
        q.push(id)
    } else {
        q
    }
}

/// Membership in a queue extended at the back: exactly the old members plus
/// the appended index.
proof fn lemma_push_contains(q: Seq<usize>, x: usize, y: usize)
    ensures
        q.push(x).contains(y) <==> (q.contains(y) || y == x),
{
    assert(q.push(x)[q.len() as int] == x);
    if q.contains(y) {
        let k = choose|k: int| 0 <= k < q.len() && q[k] == y;
        assert(q.push(x)[k] == y);
    }
    if q.push(x).contains(y) && y != x {
        let k = choose|k: int| 0 <= k < q.push(x).len() && q.push(x)[k] == y;
        assert(k < q.len());
        assert(q[k] == y);
    }
}

/// Membership in a queue with the front removed: every remaining member was
/// a member, and every member other than the front remains one.
proof fn lemma_drop_first_contains(q: Seq<usize>, y: usize)
    requires
        q.len() > 0,
    ensures
        q.drop_first().contains(y) ==> q.contains(y),
        q.contains(y) && y != q[0] ==> q.drop_first().contains(y),
{
    if q.drop_first().contains(y) {
        let k = choose|k: int| 0 <= k < q.drop_first().len() && q.drop_first()[k] == y;
        assert(q[k + 1] == y);
    }
    if q.contains(y) && y != q[0] {
        let k = choose|k: int| 0 <= k < q.len() && q[k] == y;
        assert(k != 0);
        assert(q.drop_first()[k - 1] == y);
    }
}

/// With distinct entries, removing the front removes it from the queue for
/// good: the remainder does not contain it.
proof fn lemma_drop_first_excludes_front(q: Seq<usize>)
    requires
        q.len() > 0,
        forall|k1: int, k2: int| 0 <= k1 < k2 < q.len() ==> q[k1] != q[k2],
    ensures
        !q.drop_first().contains(q[0]),
{
    if q.drop_first().contains(q[0]) {
        let k = choose|k: int| 0 <= k < q.drop_first().len() && q.drop_first()[k] == q[0];
        assert(q[k + 1] == q[0]);
    }
}

/// A single-threaded cooperative executor: owns its tasks and a FIFO
/// ready-queue of the tasks that are ready to be polled.
pub struct Executor<F: Future> {
    tasks: Vec<Task<F>>,
    queue: Vec<usize>,
}

impl<F: Future> Executor<F> {
    /// How many tasks have ever been spawned (completed ones included).
    pub closed spec fn n_tasks(&self) -> nat {
        self.tasks@.len()
    }

    /// The ready-queue as a sequence of task indices, front first.
    pub closed spec fn queue_ids(&self) -> Seq<usize> {
        self.queue@
    }

    /// The status of the task with index `i`.
    pub closed spec fn task_status(&self, i: int) -> Status {
        self.tasks@[i].status
    }

    /// The future owned by the task with index `i`.
    pub closed spec fn task_fut(&self, i: int) -> F {
        self.tasks@[i].fut
    }

    /// The completion slot of the task with index `i`.
    pub closed spec fn task_slot(&self, i: int) -> Option<F::Output> {
        self.tasks@[i].slot
    }

    /// How many times the task with index `i` has been polled.
    pub closed spec fn task_polls(&self, i: int) -> nat {
        self.tasks@[i].polls@
    }

    /// The polls spent over a prefix of the tasks.
    spec fn sum_polls(tasks: Seq<Task<F>>) -> nat
        decreases tasks.len(),
    {
        if tasks.len() == 0 {
            0
        } else {
            Self::sum_polls(tasks.drop_last()) + tasks.last().polls@
        }
    }

    /// How many polls the executor has performed over all its tasks.
    pub closed spec fn total_polls(&self) -> nat {
        Self::sum_polls(self.tasks@)
    }

    /// The polls spent on the tasks with index below `k`.
    pub open spec fn polls_up_to(&self, k: int) -> nat
        decreases k,
    {
        if k <= 0 {
            0
        } else {
            self.polls_up_to(k - 1) + self.task_polls(k - 1)
        }
    }

    /// The prefix sums agree with the hidden total.
    proof fn lemma_sum_polls_prefix(&self, k: int)
        requires
            0 <= k <= self.n_tasks(),
        ensures
            Self::sum_polls(self.tasks@.subrange(0, k)) == self.polls_up_to(k),
        decreases k,
    {
        if k > 0 {
            self.lemma_sum_polls_prefix(k - 1);
            assert(self.tasks@.subrange(0, k).drop_last() =~= self.tasks@.subrange(0, k - 1));
            assert(self.tasks@.subrange(0, k).last() == self.tasks@[k - 1]);
        }
    }

    /// The executor's total poll count is the sum of the per-task counts, so
    /// a caller can distribute a spent budget over the tasks.
    pub proof fn lemma_total_polls_decomposes(&self)
        ensures
            self.total_polls() == self.polls_up_to(self.n_tasks() as int),
    {
        self.lemma_sum_polls_prefix(self.n_tasks() as int);
        assert(self.tasks@.subrange(0, self.tasks@.len() as int) =~= self.tasks@);
    }

    /// The value the task's future produces on completion.
    pub open spec fn task_value(&self, i: int) -> F::Output {
        self.task_fut(i).value()
    }

    /// Whether the task with index `i` has completed.
    pub open spec fn task_done(&self, i: int) -> bool {
        self.task_status(i) == Status::Done
    }

    /// Whether the task's result, once the task completes, is still there to
    /// be collected: it has not already been taken out of the slot.  This
    /// holds of every task that `try_join` has not yet consumed, and running
    /// the executor preserves it.
    pub open spec fn result_collectible(&self, i: int) -> bool {
        self.task_done(i) ==> self.task_slot(i) is Some
    }

    /// Task `i` stands unchanged between the two executor states.
    pub open spec fn same_task(pre: Self, post: Self, i: int) -> bool {
        &&& post.task_fut(i) == pre.task_fut(i)
        &&& post.task_status(i) == pre.task_status(i)
        &&& post.task_slot(i) == pre.task_slot(i)
        &&& post.task_polls(i) == pre.task_polls(i)
    }

    /// Appending a task adds its polls to the total.
    proof fn lemma_sum_polls_push(tasks: Seq<Task<F>>, t: Task<F>)
        ensures
            Self::sum_polls(tasks.push(t)) == Self::sum_polls(tasks) + t.polls@,
    {
        assert(tasks.push(t).drop_last() =~= tasks);
        assert(tasks.push(t).last() == t);
    }

    /// Replacing one task changes the total by the difference in its polls.
    proof fn lemma_sum_polls_update(tasks: Seq<Task<F>>, i: int, t: Task<F>)
        requires
            0 <= i < tasks.len(),
        ensures
            Self::sum_polls(tasks.update(i, t)) + tasks[i].polls@ == Self::sum_polls(tasks)
                + t.polls@,
        decreases tasks.len(),
    {
        if i == tasks.len() - 1 {
            assert(tasks.update(i, t).drop_last() =~= tasks.drop_last());
            assert(tasks.update(i, t).last() == t);
        } else {
            assert(tasks.update(i, t).drop_last() =~= tasks.drop_last().update(i, t));
            assert(tasks.update(i, t).last() == tasks.last());
            Self::lemma_sum_polls_update(tasks.drop_last(), i, t);
        }
    }

    /// Well-formedness: every queue entry names an existing, not-yet-completed
    /// task; a task is in the queue at most once, and exactly when its status
    /// says so; a completed task's status, its future's own completion, and
    /// its slot agree.
    pub closed spec fn wf(&self) -> bool {
        &&& forall|k: int|
            0 <= k < self.queue@.len() ==> (#[trigger] self.queue@[k]) < self.tasks@.len()
        &&& forall|k1: int, k2: int|
            0 <= k1 < k2 < self.queue@.len() ==> self.queue@[k1] != self.queue@[k2]
        &&& forall|i: int|
            0 <= i < self.tasks@.len() ==> (#[trigger] self.tasks@[i].fut).inv()
        &&& forall|i: int|
            0 <= i < self.tasks@.len() ==> ((#[trigger] self.tasks@[i].status) == Status::Queued
                <==> self.queue@.contains(i as usize))
        &&& forall|i: int|
            0 <= i < self.tasks@.len() ==> ((#[trigger] self.tasks@[i].status) == Status::Done
                <==> self.tasks@[i].fut.done())
        &&& forall|i: int|
            0 <= i < self.tasks@.len() ==> ((#[trigger] self.tasks@[i].slot) matches Some(v)
                ==> self.tasks@[i].status == Status::Done && v == self.tasks@[i].fut.value())
    }

    /// A fresh executor with no tasks and an empty ready-queue.
    pub fn new() -> (ex: Executor<F>)
        ensures
            ex.wf(),
            ex.n_tasks() == 0,
            ex.queue_ids() == Seq::<usize>::empty(),
            ex.total_polls() == 0,
    {
        Executor { tasks: Vec::new(), queue: Vec::new() }
    }

    /// Wraps the future in a new task, enqueues it at the back of the
    /// ready-queue, and returns the handle observing its completion slot.
    /// The future is not polled here: scheduling is deferred to the run loop.
    pub fn spawn(&mut self, fut: F) -> (h: JoinHandle)
        requires
            old(self).wf(),
            fut.inv(),
            !fut.done(),
        ensures
            final(self).wf(),
            h.task_id() == old(self).n_tasks(),
            final(self).n_tasks() == old(self).n_tasks() + 1,
            final(self).queue_ids() == old(self).queue_ids().push(h.task_id()),
            final(self).task_status(h.task_id() as int) == Status::Queued,
            final(self).task_fut(h.task_id() as int) == fut,
            final(self).task_slot(h.task_id() as int) == Option::<F::Output>::None,
            final(self).task_polls(h.task_id() as int) == 0,
            final(self).total_polls() == old(self).total_polls(),
            forall|i: int|
                0 <= i < old(self).n_tasks() ==> Self::same_task(*old(self), *final(self), i),
    {
        let id = self.tasks.len();
        self.tasks.push(Task { fut, status: Status::Queued, slot: None, polls: Ghost(0) });
        self.queue.push(id);
        proof {
            Self::lemma_sum_polls_push(
                old(self).tasks@,
                Task { fut, status: Status::Queued, slot: None, polls: Ghost(0) },
            );
            assert(self.queue@ == old(self).queue@.push(id));
            assert forall|i: int| 0 <= i < self.tasks@.len() implies ((#[trigger] self
                .tasks@[i].status) == Status::Queued <==> self.queue@.contains(i as usize)) by {
                lemma_push_contains(old(self).queue@, id, i as usize);
                if i < id {
                    assert(self.tasks@[i] == old(self).tasks@[i]);
                }
            }
        }
        JoinHandle { task: id }
    }

    /// Delivers one wake signal: re-enqueues the bound task at the back of
    /// the ready-queue if it exists, has not completed, and is not already
    /// queued; otherwise does nothing.  Waking is therefore idempotent, and
    /// waking a completed task is a no-op.
    pub fn wake(&mut self, w: &Waker)
        requires
            old(self).wf(),
        ensures
            final(self).wf(),
            final(self).n_tasks() == old(self).n_tasks(),
            final(self).queue_ids() == enqueue_once(
                old(self).queue_ids(),
                w.task_id(),
                w.task_id() < old(self).n_tasks() && !old(self).task_done(w.task_id() as int),
            ),
            forall|i: int|
                0 <= i < old(self).n_tasks() ==> final(self).task_fut(i) == old(self).task_fut(i)
                    && final(self).task_slot(i) == old(self).task_slot(i)
                    && final(self).task_polls(i) == old(self).task_polls(i),
            forall|i: int|
                0 <= i < old(self).n_tasks()
                    ==> final(self).task_done(i) == old(self).task_done(i),
            forall|i: int|
                0 <= i < old(self).n_tasks() && old(self).result_collectible(i)
                    ==> final(self).result_collectible(i),
            final(self).total_polls() == old(self).total_polls(),
            forall|i: int|
                0 <= i < old(self).n_tasks() && i != w.task_id() ==> Self::same_task(
                    *old(self),
                    *final(self),
                    i,
                ),
    {
        let id = w.task_index();
        if id >= self.tasks.len() {
            return ;
        }
        let already = match self.tasks[id].status {
            Status::Suspended => false,
            Status::Queued => true,
            Status::Done => true,
        };
        if already {
            proof {
                if self.tasks@[id as int].status == Status::Queued {
                    assert(self.queue@.contains(id));
                }
            }
            return ;
        }
        self.tasks[id].status = Status::Queued;
        self.queue.push(id);
        proof {
            assert(self.tasks@ =~= old(self).tasks@.update(id as int, self.tasks@[id as int]));
            Self::lemma_sum_polls_update(old(self).tasks@, id as int, self.tasks@[id as int]);
            assert(!old(self).queue@.contains(id));
            assert(self.queue@ == old(self).queue@.push(id));
            assert forall|i: int| 0 <= i < self.tasks@.len() implies ((#[trigger] self
                .tasks@[i].status) == Status::Queued <==> self.queue@.contains(i as usize)) by {
                lemma_push_contains(old(self).queue@, id, i as usize);
                if i != id {
                    assert(self.tasks@[i] == old(self).tasks@[i]);
                }
            }
        }
    }

    /// Dequeues the task at the front of the ready-queue and polls it once.
    /// `Ready` moves the task to `Done` and fills its completion slot;
    /// `Pending` suspends it, unless the poll itself requested a wake, in
    /// which case the task is re-enqueued at the back (a yield).  Every
    /// task's eventual value is unchanged, and a result that was there to
    /// collect still is.  Returns whether a task was polled; with an empty
    /// queue nothing happens.
    pub fn step(&mut self) -> (progressed: bool)
        requires
            old(self).wf(),
        ensures
            final(self).wf(),
            final(self).n_tasks() == old(self).n_tasks(),
            progressed <==> old(self).queue_ids().len() > 0,
            !progressed ==> *final(self) == *old(self),
            progressed ==> final(self).task_polls(old(self).queue_ids()[0] as int) == old(
                self,
            ).task_polls(old(self).queue_ids()[0] as int) + 1,
            progressed ==> final(self).total_polls() == old(self).total_polls() + 1,
            forall|i: int|
                0 <= i < old(self).n_tasks()
                    ==> final(self).task_value(i) == old(self).task_value(i),
            forall|i: int|
                0 <= i < old(self).n_tasks() && old(self).result_collectible(i)
                    ==> final(self).result_collectible(i),
            forall|i: int|
                0 <= i < old(self).n_tasks()
                    ==> final(self).task_polls(i) >= old(self).task_polls(i),
            forall|i: int|
                0 <= i < old(self).n_tasks() && old(self).task_status(i) == Status::Queued
                    && final(self).task_polls(i) == old(self).task_polls(i)
                    ==> final(self).task_status(i) == Status::Queued,
            progressed && final(self).task_done(old(self).queue_ids()[0] as int) ==> ready_chain(
                old(self).task_fut(old(self).queue_ids()[0] as int),
                final(self).task_fut(old(self).queue_ids()[0] as int),
                1,
            ),
            progressed && !final(self).task_done(old(self).queue_ids()[0] as int)
                ==> pending_chain(
                old(self).task_fut(old(self).queue_ids()[0] as int),
                final(self).task_fut(old(self).queue_ids()[0] as int),
                1,
            ),
            progressed ==> forall|i: int|
                0 <= i < old(self).n_tasks() && i != old(self).queue_ids()[0] ==> Self::same_task(
                    *old(self),
                    *final(self),
                    i,
                ),
            progressed ==> !old(self).task_done(old(self).queue_ids()[0] as int),
            progressed && final(self).task_done(old(self).queue_ids()[0] as int) ==> {
                &&& final(self).queue_ids() == old(self).queue_ids().drop_first()
                &&& final(self).task_slot(old(self).queue_ids()[0] as int) matches Some(v)
                    && v == final(self).task_value(old(self).queue_ids()[0] as int)
            },
            progressed && !final(self).task_done(old(self).queue_ids()[0] as int) ==> {
                &&& (final(self).queue_ids() == old(self).queue_ids().drop_first()
                    || final(self).queue_ids() == old(self).queue_ids().drop_first().push(
                    old(self).queue_ids()[0],
                ))
                &&& final(self).task_slot(old(self).queue_ids()[0] as int) is None
            },
    {
        if self.queue.len() == 0 {
            return false;
        }
        // Materializes that the task indices fit in usize.
        let n_existing = self.tasks.len();
        proof {
            assert(n_existing == self.tasks@.len());
        }
        let id = self.queue.remove(0);
        proof {
            assert(old(self).queue@.contains(id)) by {
                assert(old(self).queue@[0] == id);
            }
            assert(self.queue@ == old(self).queue@.drop_first());
            assert(old(self).tasks@[id as int].status == Status::Queued);
            assert(!old(self).tasks@[id as int].fut.done());
            lemma_drop_first_excludes_front(old(self).queue@);
            assert forall|j: usize|
                self.queue@.contains(j) implies old(self).queue@.contains(j) && j != id by {
                lemma_drop_first_contains(old(self).queue@, j);
            }
            assert forall|j: usize|
                old(self).queue@.contains(j) && j != id implies self.queue@.contains(j) by {
                lemma_drop_first_contains(old(self).queue@, j);
            }
        }
        let mut cx = Context::new(Waker::bound_to(id));
        let task = &mut self.tasks[id];
        let r = task.fut.poll(&mut cx);
        let ghost outcome = r;
        task.polls = Ghost(task.polls@ + 1);
        match r {
            Poll::Ready(v) => {
                task.status = Status::Done;
                task.slot = Some(v);
            },
            Poll::Pending => {
                task.status = Status::Suspended;
            },
        }
        let requeue = match self.tasks[id].status {
            Status::Suspended => cx.was_wake_requested(),
            Status::Queued => false,
            Status::Done => false,
        };
        if requeue {
            self.tasks[id].status = Status::Queued;
            self.queue.push(id);
        }
        proof {
            assert(self.tasks@ =~= old(self).tasks@.update(id as int, self.tasks@[id as int]));
            Self::lemma_sum_polls_update(old(self).tasks@, id as int, self.tasks@[id as int]);
            let fut0 = old(self).tasks@[id as int].fut;
            let fut1 = self.tasks@[id as int].fut;
            assert(F::stepped(fut0, fut1, outcome, cx.wake_was_requested()));
            match outcome {
                Poll::Ready(v) => {
                    lemma_ready_chain_end(fut0, fut0, fut1, 0, v, cx.wake_was_requested());
                },
                Poll::Pending => {
                    lemma_pending_chain_extend(fut0, fut0, fut1, 0, cx.wake_was_requested());
                },
            }
            let q0 = old(self).queue@;
            let qd = q0.drop_first();
            if requeue {
                assert(self.queue@ == qd.push(id));
            } else {
                assert(self.queue@ == qd);
            }
            assert forall|i: int| 0 <= i < self.tasks@.len() implies ((#[trigger] self
                .tasks@[i].status) == Status::Queued <==> self.queue@.contains(i as usize)) by {
                lemma_drop_first_contains(q0, i as usize);
                lemma_drop_first_excludes_front(q0);
                if requeue {
                    lemma_push_contains(qd, id, i as usize);
                }
                if i != id {
                    assert(self.tasks@[i] == old(self).tasks@[i]);
                }
            }
        }
        true
    }

    /// The number of tasks in the ready-queue.
    pub fn queue_len(&self) -> (n: usize)
        ensures
            n == self.queue_ids().len(),
    {
        self.queue.len()
    }

    /// How many tasks have been spawned so far.
    pub fn task_count(&self) -> (n: usize)
        ensures
            n == self.n_tasks(),
    {
        self.tasks.len()
    }

    /// Whether the task with the given index exists and has completed.
    pub fn is_done(&self, id: usize) -> (b: bool)
        requires
            self.wf(),
        ensures
            b == (id < self.n_tasks() && self.task_done(id as int)),
    {
        if id < self.tasks.len() {
            matches!(self.tasks[id].status, Status::Done)
        } else {
            false
        }
    }

    /// Steps the executor until the ready-queue is empty or `budget` polls
    /// have been spent, and returns how many were spent.  A return value
    /// below the budget means the executor went idle: every task is either
    /// completed or suspended awaiting an external wake.  Completed tasks
    /// are never touched again.
    pub fn run(&mut self, budget: usize) -> (steps: usize)
        requires
            old(self).wf(),
        ensures
            final(self).wf(),
            final(self).n_tasks() == old(self).n_tasks(),
            steps <= budget,
            steps < budget ==> final(self).queue_ids().len() == 0,
            final(self).total_polls() == old(self).total_polls() + steps,
            forall|i: int|
                0 <= i < old(self).n_tasks()
                    ==> final(self).task_value(i) == old(self).task_value(i),
            forall|i: int|
                0 <= i < old(self).n_tasks() && old(self).result_collectible(i)
                    ==> final(self).result_collectible(i),
            forall|i: int|
                0 <= i < old(self).n_tasks()
                    ==> final(self).task_polls(i) >= old(self).task_polls(i),
            forall|i: int|
                0 <= i < old(self).n_tasks() && old(self).task_status(i) == Status::Queued
                    && final(self).task_polls(i) == old(self).task_polls(i)
                    ==> final(self).task_status(i) == Status::Queued,
            forall|i: int|
                0 <= i < old(self).n_tasks() && !final(self).task_done(i) ==> pending_chain(
                    old(self).task_fut(i),
                    final(self).task_fut(i),
                    (final(self).task_polls(i) - old(self).task_polls(i)) as nat,
                ),
            forall|i: int|
                0 <= i < old(self).n_tasks() && !old(self).task_done(i) && final(self).task_done(i)
                    ==> ready_chain(
                    old(self).task_fut(i),
                    final(self).task_fut(i),
                    (final(self).task_polls(i) - old(self).task_polls(i)) as nat,
                ),
            forall|i: int|
                0 <= i < old(self).n_tasks() && old(self).task_done(i) ==> Self::same_task(
                    *old(self),
                    *final(self),
                    i,
                ),
    {
        let mut steps: usize = 0;
        while steps < budget && self.queue.len() > 0
            invariant
                self.wf(),
                self.n_tasks() == old(self).n_tasks(),
                steps <= budget,
                self.total_polls() == old(self).total_polls() + steps,
                forall|i: int|
                    0 <= i < old(self).n_tasks()
                        ==> self.task_value(i) == old(self).task_value(i),
                forall|i: int|
                    0 <= i < old(self).n_tasks() && old(self).result_collectible(i)
                        ==> self.result_collectible(i),
                forall|i: int|
                    0 <= i < old(self).n_tasks()
                        ==> self.task_polls(i) >= old(self).task_polls(i),
                forall|i: int|
                    0 <= i < old(self).n_tasks() && old(self).task_status(i) == Status::Queued
                        && self.task_polls(i) == old(self).task_polls(i)
                        ==> self.task_status(i) == Status::Queued,
                forall|i: int|
                    0 <= i < old(self).n_tasks() && !self.task_done(i) ==> pending_chain(
                        old(self).task_fut(i),
                        self.task_fut(i),
                        (self.task_polls(i) - old(self).task_polls(i)) as nat,
                    ),
                forall|i: int|
                    0 <= i < old(self).n_tasks() && !old(self).task_done(i) && self.task_done(i)
                        ==> ready_chain(
                        old(self).task_fut(i),
                        self.task_fut(i),
                        (self.task_polls(i) - old(self).task_polls(i)) as nat,
                    ),
                forall|i: int|
                    0 <= i < old(self).n_tasks() && old(self).task_done(i) ==> Self::same_task(
                        *old(self),
                        *self,
                        i,
                    ),
            decreases budget - steps,
        {
            let ghost prev = *self;
            self.step();
            steps += 1;
            proof {
                self.lemma_run_loop_glue(*old(self), prev);
            }
        }
        steps
    }

    /// One executor step preserves the running relations between the loop's
    /// starting state and its current state: values and collectibility carry
    /// over, poll counts only grow, unpolled queued tasks stay queued, every
    /// task's future advances by a chain of real polls, and completed tasks
    /// are never touched.
    proof fn lemma_run_loop_glue(&self, orig: Self, prev: Self)
        requires
            prev.n_tasks() == orig.n_tasks(),
            self.n_tasks() == orig.n_tasks(),
            prev.wf(),
            forall|i: int|
                0 <= i < orig.n_tasks() ==> prev.task_value(i) == orig.task_value(i),
            forall|i: int|
                0 <= i < orig.n_tasks() && orig.result_collectible(i)
                    ==> prev.result_collectible(i),
            forall|i: int| 0 <= i < orig.n_tasks() ==> prev.task_polls(i) >= orig.task_polls(i),
            forall|i: int|
                0 <= i < orig.n_tasks() && orig.task_status(i) == Status::Queued
                    && prev.task_polls(i) == orig.task_polls(i)
                    ==> prev.task_status(i) == Status::Queued,
            forall|i: int|
                0 <= i < orig.n_tasks() && !prev.task_done(i) ==> pending_chain(
                    orig.task_fut(i),
                    prev.task_fut(i),
                    (prev.task_polls(i) - orig.task_polls(i)) as nat,
                ),
            forall|i: int|
                0 <= i < orig.n_tasks() && !orig.task_done(i) && prev.task_done(i) ==> ready_chain(
                    orig.task_fut(i),
                    prev.task_fut(i),
                    (prev.task_polls(i) - orig.task_polls(i)) as nat,
                ),
            forall|i: int|
                0 <= i < orig.n_tasks() && orig.task_done(i) ==> Self::same_task(orig, prev, i),
            // the relation `step` establishes between `prev` and `self`
            prev.queue_ids().len() == 0 ==> *self == prev,
            prev.queue_ids().len() > 0 ==> !prev.task_done(prev.queue_ids()[0] as int),
            prev.queue_ids().len() > 0 ==> forall|i: int|
                0 <= i < prev.n_tasks() && i != prev.queue_ids()[0] ==> Self::same_task(
                    prev,
                    *self,
                    i,
                ),
            forall|i: int| 0 <= i < prev.n_tasks() ==> self.task_polls(i) >= prev.task_polls(i),
            forall|i: int|
                0 <= i < prev.n_tasks() && prev.task_status(i) == Status::Queued
                    && self.task_polls(i) == prev.task_polls(i)
                    ==> self.task_status(i) == Status::Queued,
            forall|i: int|
                0 <= i < prev.n_tasks() ==> self.task_value(i) == prev.task_value(i),
            forall|i: int|
                0 <= i < prev.n_tasks() && prev.result_collectible(i)
                    ==> self.result_collectible(i),
            prev.queue_ids().len() > 0 ==> self.task_polls(prev.queue_ids()[0] as int)
                == prev.task_polls(prev.queue_ids()[0] as int) + 1,
            prev.queue_ids().len() > 0 && self.task_done(prev.queue_ids()[0] as int)
                ==> ready_chain(
                prev.task_fut(prev.queue_ids()[0] as int),
                self.task_fut(prev.queue_ids()[0] as int),
                1,
            ),
            prev.queue_ids().len() > 0 && !self.task_done(prev.queue_ids()[0] as int)
                ==> pending_chain(
                prev.task_fut(prev.queue_ids()[0] as int),
                self.task_fut(prev.queue_ids()[0] as int),
                1,
            ),
        ensures
            forall|i: int|
                0 <= i < orig.n_tasks() ==> self.task_value(i) == orig.task_value(i),
            forall|i: int|
                0 <= i < orig.n_tasks() && orig.result_collectible(i)
                    ==> self.result_collectible(i),
            forall|i: int| 0 <= i < orig.n_tasks() ==> self.task_polls(i) >= orig.task_polls(i),
            forall|i: int|
                0 <= i < orig.n_tasks() && orig.task_status(i) == Status::Queued
                    && self.task_polls(i) == orig.task_polls(i)
                    ==> self.task_status(i) == Status::Queued,
            forall|i: int|
                0 <= i < orig.n_tasks() && !self.task_done(i) ==> pending_chain(
                    orig.task_fut(i),
                    self.task_fut(i),
                    (self.task_polls(i) - orig.task_polls(i)) as nat,
                ),
            forall|i: int|
                0 <= i < orig.n_tasks() && !orig.task_done(i) && self.task_done(i) ==> ready_chain(
                    orig.task_fut(i),
                    self.task_fut(i),
                    (self.task_polls(i) - orig.task_polls(i)) as nat,
                ),
            forall|i: int|
                0 <= i < orig.n_tasks() && orig.task_done(i) ==> Self::same_task(orig, *self, i),
    {
        if prev.queue_ids().len() == 0 {
            return ;
        }
        let front = prev.queue_ids()[0] as int;
        assert forall|i: int| 0 <= i < orig.n_tasks() implies self.task_polls(i)
            >= orig.task_polls(i) && self.task_value(i) == orig.task_value(i) by {
            assert(prev.task_polls(i) >= orig.task_polls(i));
            assert(self.task_polls(i) >= prev.task_polls(i));
            assert(prev.task_value(i) == orig.task_value(i));
            assert(self.task_value(i) == prev.task_value(i));
        }
        assert forall|i: int|
            0 <= i < orig.n_tasks() && orig.result_collectible(i) implies self.result_collectible(
            i,
        ) by {
            assert(prev.result_collectible(i));
            assert(self.result_collectible(i));
        }
        assert forall|i: int|
            0 <= i < orig.n_tasks() && orig.task_status(i) == Status::Queued && self.task_polls(i)
                == orig.task_polls(i) implies self.task_status(i) == Status::Queued by {
            assert(prev.task_polls(i) >= orig.task_polls(i));
            assert(self.task_polls(i) >= prev.task_polls(i));
            assert(prev.task_polls(i) == orig.task_polls(i));
            assert(prev.task_status(i) == Status::Queued);
            assert(self.task_status(i) == Status::Queued);
        }
        assert forall|i: int|
            0 <= i < orig.n_tasks() && orig.task_done(i) implies Self::same_task(
            orig,
            *self,
            i,
        ) by {
            assert(Self::same_task(orig, prev, i));
            assert(!prev.task_done(front));
            assert(prev.task_done(i));
            assert(i != front);
            assert(Self::same_task(prev, *self, i));
        }
        assert forall|i: int|
            0 <= i < orig.n_tasks() && !self.task_done(i) implies pending_chain(
            orig.task_fut(i),
            self.task_fut(i),
            (self.task_polls(i) - orig.task_polls(i)) as nat,
        ) by {
            assert(prev.task_polls(i) >= orig.task_polls(i));
            assert(self.task_polls(i) >= prev.task_polls(i));
            if i != front {
                assert(Self::same_task(prev, *self, i));
                assert(!prev.task_done(i));
            } else {
                assert(!prev.task_done(front));
                let k = (prev.task_polls(i) - orig.task_polls(i)) as nat;
                assert(pending_chain(orig.task_fut(i), prev.task_fut(i), k));
                assert(pending_chain(prev.task_fut(front), self.task_fut(front), 1));
                let (mid, wr) = choose|mid: F, wr: bool|
                    pending_chain(prev.task_fut(front), mid, 0nat) && #[trigger] F::stepped(
                        mid,
                        self.task_fut(front),
                        Poll::Pending,
                        wr,
                    );
                assert(mid == prev.task_fut(front));
                lemma_pending_chain_extend(
                    orig.task_fut(i),
                    prev.task_fut(i),
                    self.task_fut(i),
                    k,
                    wr,
                );
            }
        }
        assert forall|i: int|
            0 <= i < orig.n_tasks() && !orig.task_done(i) && self.task_done(i) implies ready_chain(
            orig.task_fut(i),
            self.task_fut(i),
            (self.task_polls(i) - orig.task_polls(i)) as nat,
        ) by {
            assert(prev.task_polls(i) >= orig.task_polls(i));
            assert(self.task_polls(i) >= prev.task_polls(i));
            if i != front {
                assert(Self::same_task(prev, *self, i));
            } else {
                assert(!prev.task_done(front));
                let k = (prev.task_polls(i) - orig.task_polls(i)) as nat;
                assert(pending_chain(orig.task_fut(i), prev.task_fut(i), k));
                assert(ready_chain(prev.task_fut(front), self.task_fut(front), 1));
                let (mid, wr, v) = choose|mid: F, wr: bool, v: F::Output|
                    pending_chain(prev.task_fut(front), mid, 0nat) && #[trigger] F::stepped(
                        mid,
                        self.task_fut(front),
                        Poll::Ready(v),
                        wr,
                    );
                assert(mid == prev.task_fut(front));
                lemma_ready_chain_end(
                    orig.task_fut(i),
                    prev.task_fut(i),
                    self.task_fut(i),
                    k,
                    v,
                    wr,
                );
            }
        }
    }

    /// Collects the result of a completed task: takes the value out of the
    /// completion slot if the task is done and the value has not been
    /// collected yet; returns `None` and changes nothing otherwise.  The
    /// handle observes a single-consumer slot: the value can be collected
    /// once.
    pub fn try_join(&mut self, h: &JoinHandle) -> (r: Option<F::Output>)
        requires
            old(self).wf(),
            h.task_id() < old(self).n_tasks(),
        ensures
            final(self).wf(),
            final(self).n_tasks() == old(self).n_tasks(),
            final(self).queue_ids() == old(self).queue_ids(),
            (r is Some <==> old(self).task_done(h.task_id() as int) && old(self).task_slot(
                h.task_id() as int,
            ) is Some),
            (r matches Some(v) ==> v == old(self).task_value(h.task_id() as int)
                && final(self).task_slot(h.task_id() as int) is None),
            r is None ==> Self::same_task(*old(self), *final(self), h.task_id() as int),
            final(self).task_status(h.task_id() as int) == old(self).task_status(
                h.task_id() as int,
            ),
            final(self).task_fut(h.task_id() as int) == old(self).task_fut(h.task_id() as int),
            final(self).task_polls(h.task_id() as int) == old(self).task_polls(
                h.task_id() as int,
            ),
            forall|i: int|
                0 <= i < old(self).n_tasks() && i != h.task_id() ==> Self::same_task(
                    *old(self),
                    *final(self),
                    i,
                ),
    {
        let id = h.id();
        let done = matches!(self.tasks[id].status, Status::Done);
        if !done {
            return None;
        }
        let taken = self.tasks[id].slot.take();
        taken
    }

    /// Steps the executor until the observed task completes, then collects
    /// its value: exactly the value the task's future was spawned to
    /// produce.  Other tasks may be polled along the way, but their eventual
    /// values, their completed results, and their collectibility are left
    /// intact.  Returns `None` only if the task could not be driven to
    /// completion: the executor went idle with the task still suspended (a
    /// lost wakeup, since no external wake can arrive while this call
    /// blocks), or the poll budget ran out first.
    pub fn block_on(&mut self, h: &JoinHandle, budget: usize) -> (r: Option<F::Output>)
        requires
            old(self).wf(),
            h.task_id() < old(self).n_tasks(),
            old(self).task_done(h.task_id() as int) ==> old(self).task_slot(
                h.task_id() as int,
            ) is Some,
        ensures
            final(self).wf(),
            final(self).n_tasks() == old(self).n_tasks(),
            (r is Some <==> final(self).task_done(h.task_id() as int)),
            old(self).task_done(h.task_id() as int) ==> final(self).task_done(
                h.task_id() as int,
            ),
            (r matches Some(v) ==> v == old(self).task_value(h.task_id() as int)
                && v == final(self).task_value(h.task_id() as int)
                && final(self).task_slot(h.task_id() as int) is None),
            r is None ==> final(self).total_polls() == old(self).total_polls() + budget
                || final(self).queue_ids().len() == 0,
            forall|i: int|
                0 <= i < old(self).n_tasks()
                    ==> final(self).task_value(i) == old(self).task_value(i),
            forall|i: int|
                0 <= i < old(self).n_tasks()
                    ==> final(self).task_polls(i) >= old(self).task_polls(i),
            forall|i: int|
                0 <= i < old(self).n_tasks() && old(self).task_status(i) == Status::Queued
                    && final(self).task_polls(i) == old(self).task_polls(i)
                    ==> final(self).task_status(i) == Status::Queued,
            forall|i: int|
                0 <= i < old(self).n_tasks() && !final(self).task_done(i) ==> pending_chain(
                    old(self).task_fut(i),
                    final(self).task_fut(i),
                    (final(self).task_polls(i) - old(self).task_polls(i)) as nat,
                ),
            forall|i: int|
                0 <= i < old(self).n_tasks() && !old(self).task_done(i) && final(self).task_done(i)
                    ==> ready_chain(
                    old(self).task_fut(i),
                    final(self).task_fut(i),
                    (final(self).task_polls(i) - old(self).task_polls(i)) as nat,
                ),
            forall|i: int|
                0 <= i < old(self).n_tasks() && i != h.task_id() && old(self).task_done(i)
                    ==> Self::same_task(*old(self), *final(self), i),
            forall|i: int|
                0 <= i < old(self).n_tasks() && i != h.task_id() && old(self).result_collectible(i)
                    ==> final(self).result_collectible(i),
    {
        let id = h.id();
        let mut steps: usize = 0;
        let mut done = matches!(self.tasks[id].status, Status::Done);
        while !done && steps < budget && self.queue.len() > 0
            invariant
                self.wf(),
                self.n_tasks() == old(self).n_tasks(),
                id == h.task_id(),
                id < self.n_tasks(),
                steps <= budget,
                self.total_polls() == old(self).total_polls() + steps,
                done == self.task_done(id as int),
                self.task_done(id as int) ==> self.task_slot(id as int) is Some,
                forall|i: int|
                    0 <= i < old(self).n_tasks()
                        ==> self.task_value(i) == old(self).task_value(i),
                forall|i: int|
                    0 <= i < old(self).n_tasks() && old(self).result_collectible(i)
                        ==> self.result_collectible(i),
                forall|i: int|
                    0 <= i < old(self).n_tasks()
                        ==> self.task_polls(i) >= old(self).task_polls(i),
                forall|i: int|
                    0 <= i < old(self).n_tasks() && old(self).task_status(i) == Status::Queued
                        && self.task_polls(i) == old(self).task_polls(i)
                        ==> self.task_status(i) == Status::Queued,
                forall|i: int|
                    0 <= i < old(self).n_tasks() && !self.task_done(i) ==> pending_chain(
                        old(self).task_fut(i),
                        self.task_fut(i),
                        (self.task_polls(i) - old(self).task_polls(i)) as nat,
                    ),
                forall|i: int|
                    0 <= i < old(self).n_tasks() && !old(self).task_done(i) && self.task_done(i)
                        ==> ready_chain(
                        old(self).task_fut(i),
                        self.task_fut(i),
                        (self.task_polls(i) - old(self).task_polls(i)) as nat,
                    ),
                forall|i: int|
                    0 <= i < old(self).n_tasks() && old(self).task_done(i) ==> Self::same_task(
                        *old(self),
                        *self,
                        i,
                    ),
            decreases budget - steps,
        {
            let ghost prev = *self;
            self.step();
            steps += 1;
            proof {
                self.lemma_run_loop_glue(*old(self), prev);
                if id != prev.queue_ids()[0] {
                    assert(Self::same_task(prev, *self, id as int));
                }
            }
            done = matches!(self.tasks[id].status, Status::Done);
        }
        if done {
            let ghost exit = *self;
            let r = self.try_join(h);
            proof {
                assert(self.task_fut(id as int) == exit.task_fut(id as int));
                assert(self.task_polls(id as int) == exit.task_polls(id as int));
                assert(self.task_status(id as int) == exit.task_status(id as int));
                assert forall|i: int|
                    0 <= i < old(self).n_tasks() implies self.task_value(i) == old(
                    self,
                ).task_value(i) by {
                    assert(exit.task_value(i) == old(self).task_value(i));
                    if i != id {
                        assert(Self::same_task(exit, *self, i));
                    }
                }
                assert forall|i: int|
                    0 <= i < old(self).n_tasks() implies self.task_polls(i) >= old(
                    self,
                ).task_polls(i) by {
                    assert(exit.task_polls(i) >= old(self).task_polls(i));
                    if i != id {
                        assert(Self::same_task(exit, *self, i));
                    }
                }
                assert forall|i: int|
                    0 <= i < old(self).n_tasks() && old(self).task_status(i) == Status::Queued
                        && self.task_polls(i) == old(self).task_polls(i) implies self.task_status(
                    i,
                ) == Status::Queued by {
                    if i != id {
                        assert(Self::same_task(exit, *self, i));
                    }
                    assert(exit.task_status(i) == Status::Queued);
                }
                assert forall|i: int|
                    0 <= i < old(self).n_tasks() && !self.task_done(i) implies pending_chain(
                    old(self).task_fut(i),
                    self.task_fut(i),
                    (self.task_polls(i) - old(self).task_polls(i)) as nat,
                ) by {
                    if i != id {
                        assert(Self::same_task(exit, *self, i));
                    }
                    assert(!exit.task_done(i));
                    assert(pending_chain(
                        old(self).task_fut(i),
                        exit.task_fut(i),
                        (exit.task_polls(i) - old(self).task_polls(i)) as nat,
                    ));
                }
                assert forall|i: int|
                    0 <= i < old(self).n_tasks() && !old(self).task_done(i) && self.task_done(
                    i,
                ) implies ready_chain(
                    old(self).task_fut(i),
                    self.task_fut(i),
                    (self.task_polls(i) - old(self).task_polls(i)) as nat,
                ) by {
                    if i != id {
                        assert(Self::same_task(exit, *self, i));
                    }
                    assert(exit.task_done(i));
                    assert(ready_chain(
                        old(self).task_fut(i),
                        exit.task_fut(i),
                        (exit.task_polls(i) - old(self).task_polls(i)) as nat,
                    ));
                }
                assert forall|i: int|
                    0 <= i < old(self).n_tasks() && i != id && old(self).task_done(
                    i,
                ) implies Self::same_task(*old(self), *self, i) by {
                    assert(Self::same_task(*old(self), exit, i));
                    assert(Self::same_task(exit, *self, i));
                }
                assert forall|i: int|
                    0 <= i < old(self).n_tasks() && i != id && old(self).result_collectible(
                    i,
                ) implies self.result_collectible(i) by {
                    assert(exit.result_collectible(i));
                    assert(Self::same_task(exit, *self, i));
                }
            }
            r
        } else {
            None
        }
    }
}

/// Polls one future in place until it is ready, without spawning a task: the
/// degenerate single-task run loop.  The context's waker means "retry now",
/// so every `Pending` is followed by another poll, up to `budget` polls in
/// all.  Returns `None` only if the budget ran out first.
pub fn block_on<F: Future>(f: &mut F, budget: usize) -> (r: Option<F::Output>)
    requires
        old(f).inv(),
        !old(f).done(),
    ensures
        final(f).inv(),
        final(f).value() == old(f).value(),
        (r matches Some(v) ==> final(f).done() && v == old(f).value() && (exists|k: nat|
            1 <= k <= budget && ready_chain(*old(f), *final(f), k))),
        r is None ==> !final(f).done() && pending_chain(*old(f), *final(f), budget as nat),
{
    let mut cx = Context::new(Waker::bound_to(0));
    let mut polls: usize = 0;
    while polls < budget
        invariant
            f.inv(),
            !f.done(),
            polls <= budget,
            f.value() == old(f).value(),
            pending_chain(*old(f), *f, polls as nat),
        decreases budget - polls,
    {
        let ghost prev = *f;
        match f.poll(&mut cx) {
            Poll::Ready(v) => {
                proof {
                    lemma_ready_chain_end(
                        *old(f),
                        prev,
                        *f,
                        polls as nat,
                        v,
                        cx.wake_was_requested(),
                    );
                    assert(ready_chain(*old(f), *f, (polls + 1) as nat));
                }
                return Some(v);
            },
            Poll::Pending => {
                proof {
                    lemma_pending_chain_extend(
                        *old(f),
                        prev,
                        *f,
                        polls as nat,
                        cx.wake_was_requested(),
                    );
                }
            },
        }
        polls += 1;
    }
    None
}

/// The ready-queue after `n` wake signals for one task, delivered in a row.
pub open spec fn enqueue_times(q: Seq<usize>, id: usize, live: bool, n: nat) -> Seq<usize>
    decreases n,
{
    if n == 0 {
        q
    } else {
        enqueue_once(enqueue_times(q, id, live, (n - 1) as nat), id, live)
    }
}

/// Waking is idempotent: delivering a wake signal for one task any number of
/// times in a row leaves the ready-queue exactly as one delivery does.
pub proof fn lemma_wake_idempotent(q: Seq<usize>, id: usize, live: bool, n: nat)
    requires
        n >= 1,
    ensures
        enqueue_times(q, id, live, n) == enqueue_once(q, id, live),
    decreases n,
{
    if n == 1 {
        assert(enqueue_times(q, id, live, 0) == q);
    } else {
        lemma_wake_idempotent(q, id, live, (n - 1) as nat);
        assert(enqueue_times(q, id, live, n) == enqueue_once(enqueue_once(q, id, live), id, live));
        if live && !q.contains(id) {
            assert(q.push(id)[q.len() as int] == id);
            assert(q.push(id).contains(id));
        }
    }
}

/// Waking a live task that is not currently queued, once or many times in a
/// row, puts exactly one entry for it into the ready-queue: at the back, and
/// nowhere else.
pub proof fn lemma_wake_single_entry(q: Seq<usize>, id: usize, n: nat)
    requires
        !q.contains(id),
        n >= 1,
    ensures
        enqueue_times(q, id, true, n) == q.push(id),
        forall|k: int|
            0 <= k < enqueue_times(q, id, true, n).len() ==> (enqueue_times(q, id, true, n)[k]
                == id <==> k == q.len()),
{
    lemma_wake_idempotent(q, id, true, n);
    assert forall|k: int| 0 <= k < q.push(id).len() implies (q.push(id)[k] == id <==> k
        == q.len()) by {
        if k < q.len() && q.push(id)[k] == id {
            assert(q[k] == id);
            assert(q.contains(id));
        }
    }
}

/// A well-formed executor holds each task in its ready-queue at most once:
/// all queue entries are distinct.
pub proof fn lemma_queue_entries_unique<F: Future>(ex: &Executor<F>)
    requires
        ex.wf(),
    ensures
        forall|k1: int, k2: int|
            0 <= k1 < k2 < ex.queue_ids().len() ==> ex.queue_ids()[k1] != ex.queue_ids()[k2],
{
}

/// In a well-formed executor, every index in the ready-queue belongs to a
/// task whose status says it is queued.
pub proof fn lemma_in_queue_is_queued<F: Future>(ex: &Executor<F>, i: int)
    requires
        ex.wf(),
        0 <= i < ex.n_tasks(),
        ex.queue_ids().contains(i as usize),
    ensures
        ex.task_status(i) == Status::Queued,
{
}

/// In a well-formed executor, a task whose status says it is queued really
/// stands in the ready-queue — in particular the queue is not empty.
pub proof fn lemma_queued_is_in_queue<F: Future>(ex: &Executor<F>, i: int)
    requires
        ex.wf(),
        0 <= i < ex.n_tasks(),
        ex.task_status(i) == Status::Queued,
    ensures
        ex.queue_ids().contains(i as usize),
        ex.queue_ids().len() > 0,
{
}

/// A well-formed executor never holds a completed task in its ready-queue,
/// so the run loop never polls a future that has already returned `Ready`.
pub proof fn lemma_queue_never_holds_completed<F: Future>(ex: &Executor<F>)
    requires
        ex.wf(),
    ensures
        forall|k: int|
            0 <= k < ex.queue_ids().len() ==> (#[trigger] ex.queue_ids()[k]) < ex.n_tasks()
                && !ex.task_done(ex.queue_ids()[k] as int),
{
    assert forall|k: int| 0 <= k < ex.queue_ids().len() implies (#[trigger] ex.queue_ids()[k])
        < ex.n_tasks() && !ex.task_done(ex.queue_ids()[k] as int) by {
        assert(ex.queue_ids().contains(ex.queue_ids()[k]));
    }
}

/// In a well-formed executor a task counts as completed exactly when its
/// future has returned `Ready`, and a filled completion slot holds exactly
/// the value that future produced: what a join hands out is the future's own
/// result, nothing else.
pub proof fn lemma_completion_slot_faithful<F: Future>(ex: &Executor<F>, i: int)
    requires
        ex.wf(),
        0 <= i < ex.n_tasks(),
    ensures
        ex.task_done(i) <==> ex.task_fut(i).done(),
        ex.task_slot(i) matches Some(v) ==> ex.task_done(i) && v == ex.task_value(i),
{
}

/// Abandonment of a join handle cannot cancel its task: no executor
/// transition (`spawn`, `wake`, `step`, `run`) takes a handle, and a handle
/// carries nothing beyond its task's index — two handles observing the same
/// task are indistinguishable, so dropping one destroys no state the
/// executor reads.  Whether the task then completes depends only on its
/// future's polls, as `step`'s contract states; that the task is eventually
/// polled to `Ready` is contingent on the future and not derivable here.
pub proof fn lemma_handle_carries_only_its_index(h1: &JoinHandle, h2: &JoinHandle)
    requires
        h1.task_id() == h2.task_id(),
    ensures
        h1 == h2,
{
}

/// Abandonment: the run loop completes a task with no join handle in play.
/// If a task's future completes on every poll (it admits no pending
/// transition at all), then the step that polls it must leave it Completed —
/// and, by well-formedness, with its produced value in the completion slot.
/// No handle occurs in this statement: dropping a handle removes nothing the
/// loop uses.  The two chain hypotheses are exactly what `step` ensures of
/// the task at the front of the queue.
pub proof fn lemma_polled_task_completes_unobserved<F: Future>(
    front_pre: F,
    front_post: F,
    completed: bool,
)
    requires
        completed ==> ready_chain(front_pre, front_post, 1),
        !completed ==> pending_chain(front_pre, front_post, 1),
        forall|a: F, b: F, w: bool| !(#[trigger] F::stepped(a, b, Poll::Pending, w)),
    ensures
        completed,
{
    if !completed {
        lemma_pending_chain_step_exists(front_pre, front_post, 1);
    }
}

/// FIFO fairness: spawning two tasks enqueues them in spawn order — the
/// first stands closer to the front — and on an otherwise idle executor the
/// first task spawned is the very front of the queue, so it is polled first
/// (`step` always polls the queue's front).
pub proof fn lemma_fifo_order(q: Seq<usize>, a: usize, b: usize)
    ensures
        q.push(a).push(b)[q.len() as int] == a,
        q.push(a).push(b)[q.len() as int + 1] == b,
        q.len() == 0 ==> q.push(a).push(b) == seq![a, b] && q.push(a).push(b)[0] == a,
{
    if q.len() == 0 {
        assert(q.push(a).push(b) =~= seq![a, b]);
    }
}

} // verus!
