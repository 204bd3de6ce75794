//! The two mutexes that the kernel offers to user tasks, as the decisions
//! they take: who gets the lock, who must wait, and who is woken.

use vstd::prelude::*;
use std::collections::VecDeque;

verus! {

/// A lock for tasks, which are named by number.
pub trait Mutex {
    /// Whether a task holds the lock.
    spec fn locked(&self) -> bool;

    /// Whether a task holds the lock.
    fn is_locked(&self) -> (r: bool)
        ensures
            r == self.locked(),
    ;

    /// Task `task` asks for the lock. Returns whether it got it. A task
    /// that did not must give up the CPU; the lock says how in its own
    /// contract.
    fn lock(&mut self, task: usize) -> (acquired: bool)
        ensures
            acquired == !old(self).locked(),
            final(self).locked(),
    ;

    /// The holder gives the lock up. Returns the task that holds it next
    /// and must be woken, if there is one.
    fn unlock(&mut self) -> (next: Option<usize>)
        requires
            old(self).locked(),
        ensures
            final(self).locked() == next is Some,
    ;
}

/// A mutex on which a task that does not get the lock yields and asks
/// again.
pub struct MutexSpin {
    locked: bool,
}

impl MutexSpin {
    /// An open lock.
    pub fn new() -> (r: MutexSpin)
        ensures
            !r.locked(),
    {
        MutexSpin { locked: false }
    }
}

impl Mutex for MutexSpin {
    closed spec fn locked(&self) -> bool {
        self.locked
    }

    fn is_locked(&self) -> (r: bool) {
        self.locked
    }

    /// Takes the lock if it is open. Else the task must yield and ask
    /// again.
    fn lock(&mut self, task: usize) -> (acquired: bool) {
        if self.locked {
            false
        } else {
            self.locked = true;
            true
        }
    }

    /// Opens the lock. Nobody is woken: the tasks that want the lock ask
    /// again by themselves.
    fn unlock(&mut self) -> (next: Option<usize>)
        ensures
            next is None,
    {
        self.locked = false;
        None
    }
}

/// The state of a blocking mutex: whether it is held, and the tasks that
/// wait for it, longest first.
pub struct MutexBlockingInner {
    locked: bool,
    wait_queue: VecDeque<usize>,
}

/// A mutex on which a task that does not get the lock sleeps until the
/// lock is handed to it.
pub struct MutexBlocking {
    inner: MutexBlockingInner,
}

impl MutexBlocking {
    /// The tasks that wait for the lock, longest first.
    pub closed spec fn waiting(self) -> Seq<usize> {
        self.inner.wait_queue@
    }

    /// An open lock with nobody waiting.
    pub fn new() -> (r: MutexBlocking)
        ensures
            !r.locked(),
            r.waiting() == Seq::<usize>::empty(),
    {
        MutexBlocking { inner: MutexBlockingInner { locked: false, wait_queue: VecDeque::new() } }
    }
}

impl Mutex for MutexBlocking {
    closed spec fn locked(&self) -> bool {
        self.inner.locked
    }

    fn is_locked(&self) -> (r: bool) {
        self.inner.locked
    }

    /// Takes the lock if it is open. Else `task` joins the queue behind
    /// the others and must sleep.
    fn lock(&mut self, task: usize) -> (acquired: bool)
        ensures
            final(self).waiting() == (if old(self).locked() {
                old(self).waiting().push(task)
            } else {
                old(self).waiting()
            }),
    {
        if self.inner.locked {
            self.inner.wait_queue.push_back(task);
            false
        } else {
            self.inner.locked = true;
            true
        }
    }

    /// Hands the lock to the task that waited longest, which must be woken;
    /// opens the lock where nobody waits.
    fn unlock(&mut self) -> (next: Option<usize>)
        ensures
            old(self).waiting().len() == 0 ==> next is None && final(self).waiting() == old(self).waiting(),
            old(self).waiting().len() > 0 ==> next == Some(old(self).waiting()[0]) && final(self).waiting() == old(self).waiting().drop_first(),
    {
        match self.inner.wait_queue.pop_front() {
            Some(task) => {
                assert(self.inner.wait_queue@ =~= old(self).inner.wait_queue@.drop_first());
                Some(task)
            },
            None => {
                self.inner.locked = false;
                None
            },
        }
    }
}

} // verus!
