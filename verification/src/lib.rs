//! A minimal single-threaded cooperative task executor.
//!
//! Deferred computations are values implementing [`future::Future`]: state
//! machines advanced one step at a time through `poll`.  An
//! [`executor::Executor`] owns a set of tasks, each wrapping one future, and
//! drives them by polling the task at the front of its FIFO ready-queue.  A
//! task whose poll returns `Pending` is parked until its [`future::Waker`] is
//! invoked, which re-enqueues it; a task whose poll returns `Ready` stores the
//! value in its completion slot, where the task's [`executor::JoinHandle`]
//! can collect it.
//!
//! The run loops take an explicit budget of polls, so every loop in the
//! library provably terminates: a task that never completes surfaces as an
//! exhausted budget (`None`), not a hang.  Computation errors travel as
//! ordinary values in a future's output type; the poll protocol itself does
//! not panic, since its misuse — polling a future that already returned
//! `Ready` — is ruled out by `requires` at verification time.
//!
//! Every poll the executor performs is visible in the contracts: the trait's
//! `stepped` relation ties each transition of a task's future to a real poll
//! call, and the run loops account for their polls as chains of such
//! transitions, so that completion results are derivable from the contracts
//! rather than merely consistent with them.

pub mod executor;
pub mod future;
pub mod futures;
