//! The queue of a worker pool.
//!
//! Tasks wait in the queue for a free worker. The queue is unbounded, so a
//! submission never waits, and tasks leave it in the order in which they
//! were submitted. The workers themselves are threads, and belong to the
//! program that runs the pool.

use std::collections::VecDeque;
use vstd::prelude::*;

verus! {

/// The tasks that wait for a worker, oldest first.
pub struct TaskQueue<T> {
    waiting: VecDeque<T>,
}

impl<T> View for TaskQueue<T> {
    type V = Seq<T>;

    /// The waiting tasks, oldest first.
    closed spec fn view(&self) -> Seq<T> {
        self.waiting@
    }
}

/// What still waits once `n` tasks were taken from the waiting tasks `q`,
/// or as many as there were.
pub open spec fn after_taking<T>(q: Seq<T>, n: nat) -> Seq<T> {
    if n <= q.len() {
        q.skip(n as int)
    } else {
        Seq::empty()
    }
}

/// First in, first out: a task that is submitted waits behind every task
/// that waited before it, and is the next to leave once they have left.
pub proof fn lemma_first_in_first_out<T>(q: Seq<T>, task: T, n: nat)
    requires
        n <= q.len(),
    ensures
        after_taking(q.push(task), n) == after_taking(q, n).push(task),
        after_taking(q.push(task), q.len()) == seq![task],
{
    assert(q.push(task).skip(n as int) =~= q.skip(n as int).push(task));
    assert(q.push(task).skip(q.len() as int) =~= seq![task]);
}

impl<T> TaskQueue<T> {
    /// Creates a queue in which nothing waits.
    pub fn new() -> (queue: Self)
        ensures
            queue@ == Seq::<T>::empty(),
    {
        TaskQueue { waiting: VecDeque::new() }
    }

    /// Puts `task` behind the tasks that wait.
    pub fn submit(&mut self, task: T)
        ensures
            final(self)@ == old(self)@.push(task),
    {
        self.waiting.push_back(task);
    }

    /// Takes the task that has waited longest, if any waits.
    pub fn take(&mut self) -> (task: Option<T>)
        ensures
            match task {
                Some(t) => old(self)@.len() > 0 && t == old(self)@[0],
                None => old(self)@.len() == 0,
            },
            final(self)@ == after_taking(old(self)@, 1),
    {
        let task = self.waiting.pop_front();
        assert(self@ =~= after_taking(old(self)@, 1));
        task
    }

    /// The number of tasks that wait.
    pub fn len(&self) -> (n: usize)
        ensures
            n == self@.len(),
    {
        self.waiting.len()
    }

    /// Whether no task waits.
    pub fn is_empty(&self) -> (empty: bool)
        ensures
            empty == (self@.len() == 0),
    {
        self.waiting.len() == 0
    }
}

} // verus!
