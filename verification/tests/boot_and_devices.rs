use demand_paging::arch::get_cpu_id;
use demand_paging::arch::stdout::{stdout_puts, Stdout};
use demand_paging::boot::{
    can_do_global_init, mark_bootstrap_finish, mark_global_init_finished, wait_all_cpu_started,
    wait_global_init_finished, BootState,
};
use demand_paging::config::CPU_NUM;
use demand_paging::sync::mutex::{Mutex, MutexBlocking, MutexSpin};
use demand_paging::timer::{get_time_ms, set_next_trigger};

#[test]
fn cpu_id_is_the_hart_id() {
    assert_eq!(get_cpu_id(0), 0);
    assert_eq!(get_cpu_id(3), 3);
}

#[test]
fn console_rubs_out_on_delete() {
    let mut out = Stdout::new();
    stdout_puts(&mut out, "ab\u{7f}c\n");
    assert_eq!(out.take(), vec![b'a', b'b', 8, b' ', 8, b'c', b'\n']);
    out.write_str("x");
    out.write_str("");
    stdout_puts(&mut out, "\u{7f}");
    assert_eq!(out.take(), vec![b'x', 8, b' ', 8]);
    assert_eq!(out.take(), Vec::<u8>::new());
}

#[test]
fn timer_arithmetic() {
    assert_eq!(get_time_ms(0), 0);
    assert_eq!(get_time_ms(12_499), 0);
    assert_eq!(get_time_ms(12_500), 1);
    assert_eq!(get_time_ms(12_500_000), 1000);
    assert_eq!(set_next_trigger(0), 1_250_000);
    assert_eq!(set_next_trigger(7), 1_250_007);
}

#[test]
fn only_the_first_cpu_does_the_global_initialization() {
    let mut s = BootState::new();
    assert!(!wait_global_init_finished(&s));
    assert!(can_do_global_init(&mut s));
    assert!(!can_do_global_init(&mut s));
    assert!(!can_do_global_init(&mut s));
    assert!(!wait_global_init_finished(&s));
    mark_global_init_finished(&mut s);
    assert!(wait_global_init_finished(&s));
    for booted in 0..CPU_NUM {
        assert!(!wait_all_cpu_started(&s), "{} of {} booted", booted, CPU_NUM);
        mark_bootstrap_finish(&mut s);
    }
    assert!(wait_all_cpu_started(&s));
}

#[test]
fn spin_mutex_tells_a_second_task_to_ask_again() {
    let mut m = MutexSpin::new();
    assert!(!m.is_locked());
    assert!(m.lock(1));
    assert!(m.is_locked());
    assert!(!m.lock(2));
    assert!(!m.lock(2));
    assert_eq!(m.unlock(), None);
    assert!(m.lock(2));
}

#[test]
fn blocking_mutex_hands_the_lock_to_the_longest_waiter() {
    let mut m = MutexBlocking::new();
    assert!(m.lock(1));
    assert!(!m.lock(2));
    assert!(!m.lock(3));
    // Task 2 is woken and holds the lock; task 3 still waits.
    assert_eq!(m.unlock(), Some(2));
    assert!(!m.lock(4));
    assert_eq!(m.unlock(), Some(3));
    assert_eq!(m.unlock(), Some(4));
    assert_eq!(m.unlock(), None);
    assert!(!m.is_locked());
    assert!(m.lock(5));
}
