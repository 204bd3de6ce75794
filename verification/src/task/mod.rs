//! Tasks, as far as scheduling goes: which task runs next.

use vstd::prelude::*;
use crate::config::CPU_NUM;

pub mod manager;
pub mod processor;

verus! {

/// What a task is doing.
#[derive(Copy, Clone, PartialEq, Eq, Structural, Debug)]
pub enum TaskStatus {
    Ready,
    Running,
    Exited,
}

/// What a CPU does after it gave up its task.
#[derive(Copy, Clone, PartialEq, Eq, Structural, Debug)]
pub enum Dispatch {
    /// Switches from task `from` to task `to`.
    Switch { from: usize, to: usize },
    /// Has nothing to run, while other CPUs still work.
    Idle,
    /// Has nothing to run, and neither has any other CPU.
    AllDone,
}

/// The table of the tasks of a kernel that runs a fixed set of programs:
/// the status of each, the task of each CPU, and the number of CPUs that
/// found nothing to run.
pub struct TaskManager {
    tasks: Vec<TaskStatus>,
    current_task: Vec<usize>,
    cpu_free: usize,
}

/// The task that stands `k` places after task `current` in a round of `n`.
pub open spec fn round_place(current: int, k: int, n: int) -> int {
    if current + k >= n {
        current + k - n
    } else {
        current + k
    }
}

/// Whether task `id` is the first ready task after task `current`, in a
/// round through all tasks that ends with `current` itself.
pub open spec fn next_ready(statuses: Seq<TaskStatus>, current: int, id: int) -> bool {
    let n = statuses.len() as int;
    exists|k: int|
        1 <= k <= n && id == round_place(current, k, n) && statuses[id] == TaskStatus::Ready
            && forall|j: int|
            1 <= j < k ==> statuses[#[trigger] round_place(current, j, n)] != TaskStatus::Ready
}

impl TaskManager {
    /// The status of each task.
    pub closed spec fn statuses(self) -> Seq<TaskStatus> {
        self.tasks@
    }

    /// The task of each CPU: the one it runs, or ran last.
    pub closed spec fn current(self) -> Seq<usize> {
        self.current_task@
    }

    /// Number of CPUs that found nothing to run.
    pub closed spec fn idle_cpus(self) -> nat {
        self.cpu_free as nat
    }

    /// There is a task, and the task of each CPU is one of the tasks.
    pub closed spec fn wf(self) -> bool {
        &&& self.tasks@.len() > 0
        &&& self.current_task@.len() == CPU_NUM
        &&& self.cpu_free <= CPU_NUM
        &&& forall|c: int|
            0 <= c < self.current_task@.len() ==> (#[trigger] self.current_task@[c])
                < self.tasks@.len()
    }

    /// Whether task `id` is the one that CPU `cpu` runs next.
    pub open spec fn is_next(self, cpu: int, id: int) -> bool {
        next_ready(self.statuses(), self.current()[cpu] as int, id)
    }

    /// `num_app` ready tasks, and each CPU starts its round behind the last
    /// of them.
    pub fn new(num_app: usize) -> (r: TaskManager)
        requires
            num_app > 0,
        ensures
            r.wf(),
            r.statuses() == Seq::new(num_app as nat, |i: int| TaskStatus::Ready),
            r.current() == Seq::new(CPU_NUM as nat, |i: int| (num_app - 1) as usize),
            r.idle_cpus() == 0,
    {
        let mut tasks: Vec<TaskStatus> = Vec::new();
        let mut i: usize = 0;
        while i < num_app
            invariant
                i <= num_app,
                tasks@.len() == i,
                forall|j: int| 0 <= j < i ==> tasks@[j] == TaskStatus::Ready,
            decreases num_app - i,
        {
            tasks.push(TaskStatus::Ready);
            i = i + 1;
        }
        let mut current_task: Vec<usize> = Vec::new();
        let mut c: usize = 0;
        while c < CPU_NUM
            invariant
                c <= CPU_NUM,
                num_app > 0,
                current_task@.len() == c,
                forall|j: int| 0 <= j < c ==> current_task@[j] == num_app - 1,
            decreases CPU_NUM - c,
        {
            current_task.push(num_app - 1);
            c = c + 1;
        }
        let r = TaskManager { tasks, current_task, cpu_free: 0 };
        assert(r.statuses() =~= Seq::new(num_app as nat, |i: int| TaskStatus::Ready));
        assert(r.current() =~= Seq::new(CPU_NUM as nat, |i: int| (num_app - 1) as usize));
        r
    }

    /// The task that CPU `cpu` runs next, if one is ready.
    pub fn find_next_task(&self, cpu: usize) -> (r: Option<usize>)
        requires
            self.wf(),
            cpu < CPU_NUM,
        ensures
            r is Some ==> (r->0) < self.statuses().len() && self.is_next(cpu as int, (r->0) as int),
            r is None ==> forall|id: int|
                0 <= id < self.statuses().len() ==> #[trigger] self.statuses()[id]
                    != TaskStatus::Ready,
    {
        let n: usize = self.tasks.len();
        let current: usize = self.current_task[cpu];
        let mut k: usize = 0;
        while k < n
            invariant
                k <= n,
                n == self.tasks@.len(),
                n > 0,
                current < n,
                cpu < self.current_task@.len(),
                current == self.current_task@[cpu as int],
                forall|j: int|
                    1 <= j <= k ==> self.tasks@[#[trigger] round_place(current as int, j, n as int)]
                        != TaskStatus::Ready,
            decreases n - k,
        {
            k = k + 1;
            let id: usize = if k >= n - current {
                k - (n - current)
            } else {
                current + k
            };
            assert(id == round_place(current as int, k as int, n as int));
            if self.tasks[id] == TaskStatus::Ready {
                proof {
                    let n0 = self.statuses().len() as int;
                    let c0 = self.current()[cpu as int] as int;
                    assert(1 <= k <= n0 && id == round_place(c0, k as int, n0) && self.statuses()[id as int]
                        == TaskStatus::Ready && forall|j: int|
                        1 <= j < k ==> self.statuses()[#[trigger] round_place(c0, j, n0)]
                            != TaskStatus::Ready);
                }
                return Some(id);
            }
        }
        proof {
            assert forall|t: int| 0 <= t < n implies #[trigger] self.statuses()[t]
                != TaskStatus::Ready by {
                let j = if t > current {
                    t - current
                } else {
                    t + n - current
                };
                assert(round_place(current as int, j, n as int) == t);
            }
        }
        None
    }

    /// CPU `cpu` starts its first task: see `find_next_task`. Where none
    /// is ready the CPU is counted as idle.
    pub fn run_first_task(&mut self, cpu: usize) -> (r: Option<usize>)
        requires
            old(self).wf(),
            cpu < CPU_NUM,
            old(self).idle_cpus() < CPU_NUM,
        ensures
            final(self).wf(),
            final(self).current().len() == old(self).current().len(),
            forall|c: int|
                0 <= c < CPU_NUM && c != cpu ==> final(self).current()[c] == old(self).current()[c],
            r is Some ==> {
                &&& old(self).is_next(cpu as int, (r->0) as int)
                &&& (r->0) < old(self).statuses().len()
                &&& final(self).statuses() == old(self).statuses().update(
                    (r->0) as int,
                    TaskStatus::Running,
                )
                &&& final(self).current()[cpu as int] == r->0
                &&& final(self).idle_cpus() == old(self).idle_cpus()
            },
            r is None ==> {
                &&& forall|id: int|
                    0 <= id < old(self).statuses().len() ==> #[trigger] old(self).statuses()[id]
                        != TaskStatus::Ready
                &&& final(self).statuses() == old(self).statuses()
                &&& final(self).current() == old(self).current()
                &&& final(self).idle_cpus() == old(self).idle_cpus() + 1
            },
    {
        match self.find_next_task(cpu) {
            Some(next) => {
                self.current_task[cpu] = next;
                self.tasks[next] = TaskStatus::Running;
                Some(next)
            },
            None => {
                self.cpu_free = self.cpu_free + 1;
                None
            },
        }
    }

    /// CPU `cpu` gives up its task, which takes status `status`, and picks
    /// the next: see `find_next_task`. The task given up may be picked
    /// again, where it is still ready and no other is.
    pub fn run_next_task(&mut self, cpu: usize, status: TaskStatus) -> (r: Dispatch)
        requires
            old(self).wf(),
            cpu < CPU_NUM,
            old(self).idle_cpus() < CPU_NUM,
        ensures
            final(self).wf(),
            final(self).current().len() == old(self).current().len(),
            final(self).statuses().len() == old(self).statuses().len(),
            forall|c: int|
                0 <= c < CPU_NUM && c != cpu ==> final(self).current()[c] == old(self).current()[c],
            match r {
                Dispatch::Switch { from, to } => {
                    let given_up = old(self).statuses().update(from as int, status);
                    &&& from == old(self).current()[cpu as int]
                    &&& to < old(self).statuses().len()
                    &&& given_up[to as int] == TaskStatus::Ready
                    &&& next_ready(given_up, from as int, to as int)
                    &&& final(self).statuses() == given_up.update(to as int, TaskStatus::Running)
                    &&& final(self).current()[cpu as int] == to
                    &&& final(self).idle_cpus() == old(self).idle_cpus()
                },
                _ => {
                    &&& final(self).statuses() == old(self).statuses().update(
                        old(self).current()[cpu as int] as int,
                        status,
                    )
                    &&& forall|id: int|
                        0 <= id < final(self).statuses().len() ==> #[trigger] final(self).statuses()[id] != TaskStatus::Ready
                    &&& final(self).current()[cpu as int] == old(self).current()[cpu as int]
                    &&& final(self).idle_cpus() == old(self).idle_cpus() + 1
                    &&& (r == Dispatch::AllDone) == (final(self).idle_cpus() == CPU_NUM)
                },
            },
    {
        let current: usize = self.current_task[cpu];
        self.tasks[current] = status;
        let ghost mid = *self;
        match self.find_next_task(cpu) {
            Some(next) => {
                self.tasks[next] = TaskStatus::Running;
                self.current_task[cpu] = next;
                assert(mid.is_next(cpu as int, next as int));
                Dispatch::Switch { from: current, to: next }
            },
            None => {
                self.cpu_free = self.cpu_free + 1;
                if self.cpu_free == CPU_NUM {
                    Dispatch::AllDone
                } else {
                    Dispatch::Idle
                }
            },
        }
    }

    /// The status of task `id`.
    pub fn status(&self, id: usize) -> (r: TaskStatus)
        requires
            id < self.statuses().len(),
        ensures
            r == self.statuses()[id as int],
    {
        self.tasks[id]
    }
}

} // verus!

verus! {

/// CPU `cpu` starts its first task.
pub fn run_first_task(manager: &mut TaskManager, cpu: usize) -> (r: Option<usize>)
    requires
        old(manager).wf(),
        cpu < CPU_NUM,
        old(manager).idle_cpus() < CPU_NUM,
    ensures
        final(manager).wf(),
        r is Some ==> old(manager).is_next(cpu as int, (r->0) as int) && final(manager).statuses() == old(manager).statuses().update((r->0) as int, TaskStatus::Running)
            && final(manager).current() == old(manager).current().update(cpu as int, r->0)
            && final(manager).idle_cpus() == old(manager).idle_cpus(),
        r is None ==> final(manager).statuses() == old(manager).statuses() && final(manager).current() == old(manager).current() && final(manager).idle_cpus() == old(
            manager,
        ).idle_cpus() + 1,
{
    let r = manager.run_first_task(cpu);
    proof {
        if r is Some {
            assert(manager.current() =~= old(manager).current().update(cpu as int, r->0));
        }
    }
    r
}

/// The task of CPU `cpu` stays ready, and the CPU turns to the next.
pub fn suspend_current_and_run_next(manager: &mut TaskManager, cpu: usize) -> (r: Dispatch)
    requires
        old(manager).wf(),
        cpu < CPU_NUM,
        old(manager).idle_cpus() < CPU_NUM,
    ensures
        final(manager).wf(),
        r matches Dispatch::Switch { from, to } && from == old(manager).current()[cpu as int]
            && to < old(manager).statuses().len() && next_ready(
            old(manager).statuses().update(from as int, TaskStatus::Ready),
            from as int,
            to as int,
        ) && final(manager).statuses() == old(manager).statuses().update(
            from as int,
            TaskStatus::Ready,
        ).update(to as int, TaskStatus::Running) && final(manager).current() == old(
            manager,
        ).current().update(cpu as int, to) && final(manager).idle_cpus() == old(
            manager,
        ).idle_cpus(),
{
    let ghost given_up = manager.statuses().update(
        manager.current()[cpu as int] as int,
        TaskStatus::Ready,
    );
    let r = manager.run_next_task(cpu, TaskStatus::Ready);
    proof {
        match r {
            Dispatch::Switch { from, to } => {
                assert(manager.current() =~= old(manager).current().update(cpu as int, to));
            },
            _ => {
                assert(manager.statuses()[old(manager).current()[cpu as int] as int]
                    == TaskStatus::Ready);
            },
        }
    }
    r
}

/// The task of CPU `cpu` has ended, and the CPU turns to the next.
pub fn exit_current_and_run_next(manager: &mut TaskManager, cpu: usize) -> (r: Dispatch)
    requires
        old(manager).wf(),
        cpu < CPU_NUM,
        old(manager).idle_cpus() < CPU_NUM,
    ensures
        final(manager).wf(),
        final(manager).statuses().len() == old(manager).statuses().len(),
        match r {
            Dispatch::Switch { from, to } => {
                &&& from == old(manager).current()[cpu as int]
                &&& to < old(manager).statuses().len()
                &&& to != from
                &&& next_ready(
                    old(manager).statuses().update(from as int, TaskStatus::Exited),
                    from as int,
                    to as int,
                )
                &&& final(manager).statuses() == old(manager).statuses().update(
                    from as int,
                    TaskStatus::Exited,
                ).update(to as int, TaskStatus::Running)
                &&& final(manager).current() == old(manager).current().update(cpu as int, to)
                &&& final(manager).idle_cpus() == old(manager).idle_cpus()
            },
            _ => {
                &&& final(manager).statuses() == old(manager).statuses().update(
                    old(manager).current()[cpu as int] as int,
                    TaskStatus::Exited,
                )
                &&& final(manager).current() == old(manager).current()
                &&& final(manager).idle_cpus() == old(manager).idle_cpus() + 1
                &&& (r == Dispatch::AllDone) == (final(manager).idle_cpus() == CPU_NUM)
            },
        },
{
    let r = manager.run_next_task(cpu, TaskStatus::Exited);
    proof {
        match r {
            Dispatch::Switch { from, to } => {
                assert(manager.current() =~= old(manager).current().update(cpu as int, to));
            },
            _ => {
                assert(manager.current() =~= old(manager).current());
            },
        }
    }
    r
}

} // verus!
