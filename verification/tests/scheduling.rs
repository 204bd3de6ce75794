use std::collections::BTreeMap;

use demand_paging::config::CPU_NUM;
use demand_paging::task::manager::{
    add_task, fetch_task, pid2task, remove_from_pid2task, TaskManager as ReadyQueue,
};
use demand_paging::mm::address::PhysPageNum;
use demand_paging::mm::frame_manager::PRA;
use demand_paging::mm::vmm::Kernel;
use demand_paging::task::processor::{
    current_task, current_user_token, processors, requeue, run_tasks, take_current_task, Processor,
};
use demand_paging::task::{
    exit_current_and_run_next, run_first_task, suspend_current_and_run_next, Dispatch, TaskManager,
    TaskStatus,
};

#[test]
fn ready_queue_is_first_in_first_out() {
    let mut queue = ReadyQueue::new();
    assert_eq!(queue.fetch(), None);
    queue.add(7);
    queue.add(3);
    queue.add(9);
    assert_eq!(queue.fetch(), Some(7));
    queue.add(1);
    assert_eq!(queue.fetch(), Some(3));
    assert_eq!(queue.fetch(), Some(9));
    assert_eq!(queue.fetch(), Some(1));
    assert_eq!(queue.fetch(), None);
}

#[test]
fn tasks_are_known_by_their_process() {
    let mut queue = ReadyQueue::new();
    let mut table: BTreeMap<usize, usize> = BTreeMap::new();
    add_task(&mut queue, &mut table, 40, 0);
    add_task(&mut queue, &mut table, 41, 1);
    assert_eq!(pid2task(&table, 40), Some(0));
    assert_eq!(pid2task(&table, 41), Some(1));
    assert_eq!(pid2task(&table, 42), None);
    remove_from_pid2task(&mut table, 40);
    assert_eq!(pid2task(&table, 40), None);
    assert_eq!(pid2task(&table, 41), Some(1));
    assert_eq!(fetch_task(&mut queue), Some(0));
    assert_eq!(fetch_task(&mut queue), Some(1));
    assert_eq!(fetch_task(&mut queue), None);
}

#[test]
fn a_processor_holds_one_task() {
    let mut cpu = Processor::new();
    assert_eq!(cpu.current(), None);
    assert_eq!(cpu.take_current(), None);
    let mut queue = ReadyQueue::new();
    assert_eq!(run_tasks(&mut cpu, &mut queue), None);
    queue.add(5);
    queue.add(6);
    assert_eq!(run_tasks(&mut cpu, &mut queue), Some(5));
    assert_eq!(cpu.current(), Some(5));
    assert_eq!(cpu.take_current(), Some(5));
    assert_eq!(cpu.current(), None);
}

#[test]
fn a_ready_task_goes_back_to_the_end_of_the_queue() {
    let mut cpu = Processor::new();
    let mut queue = ReadyQueue::new();
    let mut table: BTreeMap<usize, usize> = BTreeMap::new();
    queue.add(5);
    queue.add(6);
    assert_eq!(run_tasks(&mut cpu, &mut queue), Some(5));
    requeue(&mut cpu, &mut queue, &mut table, 50, TaskStatus::Ready);
    assert_eq!(cpu.current(), None);
    assert_eq!(pid2task(&table, 50), Some(5));
    assert_eq!(run_tasks(&mut cpu, &mut queue), Some(6));
    requeue(&mut cpu, &mut queue, &mut table, 60, TaskStatus::Exited);
    assert_eq!(pid2task(&table, 60), None);
    assert_eq!(run_tasks(&mut cpu, &mut queue), Some(5));
    assert_eq!(run_tasks(&mut cpu, &mut queue), None);
    assert_eq!(cpu.current(), Some(5));
}

#[test]
fn each_cpu_has_a_processor() {
    let mut all = processors();
    assert_eq!(all.len(), CPU_NUM);
    for cpu in 0..CPU_NUM {
        assert_eq!(current_task(&all, cpu), None);
    }
    let mut queue = ReadyQueue::new();
    queue.add(2);
    assert_eq!(run_tasks(&mut all[1], &mut queue), Some(2));
    assert_eq!(current_task(&all, 1), Some(2));
    assert_eq!(current_task(&all, 0), None);
    assert_eq!(take_current_task(&mut all, 1), Some(2));
    assert_eq!(current_task(&all, 1), None);
}

#[test]
fn round_robin_starts_with_the_first_task() {
    let mut tasks = TaskManager::new(3);
    for id in 0..3 {
        assert_eq!(tasks.status(id), TaskStatus::Ready);
    }
    assert_eq!(tasks.find_next_task(0), Some(0));
    assert_eq!(run_first_task(&mut tasks, 0), Some(0));
    assert_eq!(tasks.status(0), TaskStatus::Running);
    assert_eq!(tasks.find_next_task(1), Some(1));
    assert_eq!(run_first_task(&mut tasks, 1), Some(1));
    assert_eq!(run_first_task(&mut tasks, 2), Some(2));
    // Nothing is left for the last CPU.
    assert_eq!(tasks.find_next_task(3), None);
    assert_eq!(run_first_task(&mut tasks, 3), None);
}

#[test]
fn round_robin_takes_the_next_ready_task() {
    let mut tasks = TaskManager::new(4);
    assert_eq!(run_first_task(&mut tasks, 0), Some(0));
    assert_eq!(
        suspend_current_and_run_next(&mut tasks, 0),
        Dispatch::Switch { from: 0, to: 1 }
    );
    assert_eq!(tasks.status(0), TaskStatus::Ready);
    assert_eq!(tasks.status(1), TaskStatus::Running);
    assert_eq!(
        exit_current_and_run_next(&mut tasks, 0),
        Dispatch::Switch { from: 1, to: 2 }
    );
    assert_eq!(tasks.status(1), TaskStatus::Exited);
    assert_eq!(
        suspend_current_and_run_next(&mut tasks, 0),
        Dispatch::Switch { from: 2, to: 3 }
    );
    // The round wraps and passes the task that has ended.
    assert_eq!(
        suspend_current_and_run_next(&mut tasks, 0),
        Dispatch::Switch { from: 3, to: 0 }
    );
    assert_eq!(
        suspend_current_and_run_next(&mut tasks, 0),
        Dispatch::Switch { from: 0, to: 2 }
    );
}

#[test]
fn a_task_alone_is_picked_again() {
    let mut tasks = TaskManager::new(1);
    assert_eq!(run_first_task(&mut tasks, 0), Some(0));
    assert_eq!(
        suspend_current_and_run_next(&mut tasks, 0),
        Dispatch::Switch { from: 0, to: 0 }
    );
    assert_eq!(tasks.status(0), TaskStatus::Running);
}

#[test]
fn the_last_idle_cpu_reports_that_all_is_done() {
    let mut tasks = TaskManager::new(1);
    assert_eq!(run_first_task(&mut tasks, 0), Some(0));
    assert_eq!(run_first_task(&mut tasks, 1), None);
    assert_eq!(run_first_task(&mut tasks, 2), None);
    assert_eq!(run_first_task(&mut tasks, 3), None);
    assert_eq!(exit_current_and_run_next(&mut tasks, 0), Dispatch::AllDone);
    assert_eq!(tasks.status(0), TaskStatus::Exited);
}

#[test]
fn an_idle_cpu_waits_while_others_work() {
    let mut tasks = TaskManager::new(2);
    assert_eq!(run_first_task(&mut tasks, 0), Some(0));
    assert_eq!(run_first_task(&mut tasks, 1), Some(1));
    assert_eq!(exit_current_and_run_next(&mut tasks, 0), Dispatch::Idle);
    assert_eq!(tasks.run_next_task(1, TaskStatus::Exited), Dispatch::Idle);
}

#[test]
fn the_running_process_is_known_by_its_token() {
    let mut k = Kernel::new(PhysPageNum(0x80400), PhysPageNum(0x80440), PRA::Clock);
    let parent = current_user_token(&k);
    // Sv39 in the mode field, the root table below.
    assert_eq!(parent, (8u64 << 60) | 0x80400);
    assert_eq!(parent, k.current.token());
    let child = k.fork(demand_paging::mm::address::PhysAddr(0x8020_1000)).unwrap();
    assert_eq!(current_user_token(&k), parent);
    k.switch_to(child);
    assert_ne!(current_user_token(&k), parent);
}
