//! What a CPU runs.

use vstd::prelude::*;
use crate::task::manager::{TaskManager, add_task, fetch_task};
use crate::task::TaskStatus;
use crate::config::CPU_NUM;
use crate::mm::vmm::Kernel;
use std::collections::BTreeMap;

verus! {

/// One CPU: the task that it runs, if it runs one.
pub struct Processor {
    current: Option<usize>,
}

impl View for Processor {
    type V = Option<usize>;

    closed spec fn view(&self) -> Option<usize> {
        self.current
    }
}

impl Processor {
    /// A CPU that runs nothing.
    pub fn new() -> (r: Processor)
        ensures
            r@ is None,
    {
        Processor { current: None }
    }

    /// Takes the running task off the CPU.
    pub fn take_current(&mut self) -> (r: Option<usize>)
        ensures
            r == old(self)@,
            final(self)@ is None,
    {
        self.current.take()
    }

    /// The running task.
    pub fn current(&self) -> (r: Option<usize>)
        ensures
            r == self@,
    {
        self.current
    }
}

/// The first half of one turn of an idle CPU: fetches the task that
/// waited longest and puts it on the CPU. Returns the task that the
/// caller must switch to, if there is one.
pub fn run_tasks(processor: &mut Processor, manager: &mut TaskManager) -> (r: Option<usize>)
    ensures
        old(manager)@.len() == 0 ==> r is None && final(manager)@ == old(manager)@ && final(processor)@ == old(processor)@,
        old(manager)@.len() > 0 ==> r == Some(old(manager)@[0]) && final(manager)@ == old(
            manager,
        )@.drop_first() && final(processor)@ == r,
{
    match fetch_task(manager) {
        Some(task) => {
            processor.current = Some(task);
            Some(task)
        },
        None => None,
    }
}

/// The second half of the turn, after the task gave the CPU back with
/// status `status`: the CPU is free again, and a task that is still ready
/// joins the queue of process `pid`'s tasks.
pub fn requeue(
    processor: &mut Processor,
    manager: &mut TaskManager,
    pid2tcb: &mut BTreeMap<usize, usize>,
    pid: usize,
    status: TaskStatus,
)
    ensures
        final(processor)@ is None,
        old(processor)@ is Some && status == TaskStatus::Ready ==> final(manager)@ == old(
            manager,
        )@.push(old(processor)@->0) && final(pid2tcb)@ == old(pid2tcb)@.insert(
            pid,
            old(processor)@->0,
        ),
        !(old(processor)@ is Some && status == TaskStatus::Ready) ==> final(manager)@ == old(
            manager,
        )@ && final(pid2tcb)@ == old(pid2tcb)@,
{
    match processor.take_current() {
        Some(task) => {
            if status == TaskStatus::Ready {
                add_task(manager, pid2tcb, pid, task);
            }
        },
        None => {},
    }
}

/// Takes the running task off CPU `cpu`.
pub fn take_current_task(processors: &mut Vec<Processor>, cpu: usize) -> (r: Option<usize>)
    requires
        cpu < old(processors)@.len(),
    ensures
        r == old(processors)@[cpu as int]@,
        final(processors)@.len() == old(processors)@.len(),
        final(processors)@[cpu as int]@ is None,
        forall|c: int|
            0 <= c < old(processors)@.len() && c != cpu ==> final(processors)@[c] == old(
                processors,
            )@[c],
{
    processors[cpu].take_current()
}

/// The task that runs on CPU `cpu`.
pub fn current_task(processors: &Vec<Processor>, cpu: usize) -> (r: Option<usize>)
    requires
        cpu < processors@.len(),
    ensures
        r == processors@[cpu as int]@,
{
    processors[cpu].current()
}

/// One idle processor for each CPU.
pub fn processors() -> (r: Vec<Processor>)
    ensures
        r@.len() == CPU_NUM,
        forall|c: int| 0 <= c < CPU_NUM ==> (#[trigger] r@[c])@ is None,
{
    let mut r: Vec<Processor> = Vec::new();
    let mut c: usize = 0;
    while c < CPU_NUM
        invariant
            c <= CPU_NUM,
            r@.len() == c,
            forall|j: int| 0 <= j < c ==> (#[trigger] r@[j])@ is None,
        decreases CPU_NUM - c,
    {
        r.push(Processor::new());
        c = c + 1;
    }
    r
}

/// The token of the address space of the running process.
pub fn current_user_token(kernel: &Kernel) -> (r: u64)
    ensures
        r == kernel.current.spec_token(),
{
    kernel.current.token()
}

} // verus!
