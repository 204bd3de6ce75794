//! The queue of ready tasks and the table from process numbers to tasks.

use vstd::prelude::*;
use std::collections::{BTreeMap, VecDeque};

verus! {

broadcast use {vstd::std_specs::btree::group_btree_axioms, vstd::laws_cmp::group_laws_cmp};

/// A first-in, first-out scheduler: the tasks that are ready to run,
/// longest waiting first. A task is named by a number.
pub struct TaskManager {
    ready_queue: VecDeque<usize>,
}

impl View for TaskManager {
    type V = Seq<usize>;

    closed spec fn view(&self) -> Seq<usize> {
        self.ready_queue@
    }
}

impl TaskManager {
    pub fn new() -> (r: TaskManager)
        ensures
            r@ == Seq::<usize>::empty(),
    {
        TaskManager { ready_queue: VecDeque::new() }
    }

    /// Task `task` becomes ready and waits behind the others.
    pub fn add(&mut self, task: usize)
        ensures
            final(self)@ == old(self)@.push(task),
    {
        self.ready_queue.push_back(task);
    }

    /// Takes the task that waited longest, if there is one.
    pub fn fetch(&mut self) -> (r: Option<usize>)
        ensures
            old(self)@.len() == 0 ==> r is None && final(self)@ == old(self)@,
            old(self)@.len() > 0 ==> r == Some(old(self)@[0]) && final(self)@ == old(
                self,
            )@.drop_first(),
    {
        let r = self.ready_queue.pop_front();
        proof {
            if old(self)@.len() > 0 {
                assert(self@ =~= old(self)@.drop_first());
            }
        }
        r
    }
}

/// Makes task `task` of process `pid` ready, and known under `pid`.
pub fn add_task(
    manager: &mut TaskManager,
    pid2tcb: &mut BTreeMap<usize, usize>,
    pid: usize,
    task: usize,
)
    ensures
        final(pid2tcb)@ == old(pid2tcb)@.insert(pid, task),
        final(manager)@ == old(manager)@.push(task),
{
    pid2tcb.insert(pid, task);
    manager.add(task);
}

/// Takes the task that waited longest, if there is one.
pub fn fetch_task(manager: &mut TaskManager) -> (r: Option<usize>)
    ensures
        old(manager)@.len() == 0 ==> r is None && final(manager)@ == old(manager)@,
        old(manager)@.len() > 0 ==> r == Some(old(manager)@[0]) && final(manager)@ == old(
            manager,
        )@.drop_first(),
{
    manager.fetch()
}

/// The task of process `pid`, if the process is known.
pub fn pid2task(pid2tcb: &BTreeMap<usize, usize>, pid: usize) -> (r: Option<usize>)
    ensures
        r == (if pid2tcb@.contains_key(pid) {
            Some(pid2tcb@[pid])
        } else {
            None
        }),
{
    match pid2tcb.get(&pid) {
        Some(task) => Some(*task),
        None => None,
    }
}

/// Forgets process `pid`, which must be known.
pub fn remove_from_pid2task(pid2tcb: &mut BTreeMap<usize, usize>, pid: usize)
    requires
        old(pid2tcb)@.contains_key(pid),
    ensures
        final(pid2tcb)@ == old(pid2tcb)@.remove(pid),
{
    pid2tcb.remove(&pid);
}

} // verus!
