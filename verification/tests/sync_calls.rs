use os_kernel::config::DEADLOCK;
use os_kernel::kernel::Kernel;
use os_kernel::syscall::process::{sys_exit, sys_yield};
use os_kernel::syscall::sync::{
    sys_condvar_create, sys_condvar_signal, sys_condvar_wait, sys_enable_deadlock_detect,
    retry_pending, sys_mutex_create, sys_mutex_lock, sys_mutex_unlock, sys_semaphore_create,
    sys_semaphore_down, sys_semaphore_up, sys_sleep,
};
use os_kernel::task::context::TaskContext;
use os_kernel::task::processor::{current_task, run_tasks};
use os_kernel::task::task::{Pending, TaskStatus};
use os_kernel::timer::check_timer;

/// A kernel with `n` ready tasks, of which task 0 runs.
fn kernel_with_tasks(n: usize) -> Kernel {
    let mut k = Kernel::new(1, 0x100, 0x200, 0x10000);
    for i in 0..n {
        let t = k.spawn(TaskContext::goto(0x8000_0000 + i, 0x9000_0000 + i));
        assert_eq!(t, i);
        k.add_task(t);
    }
    assert!(turn(&mut k, 10));
    assert_eq!(current_task(&k), Some(0));
    k
}

/// One turn of the idle flow: the first ready task is dispatched and, if it
/// is in the middle of a call that waits, tries again. Tells whether a task
/// runs afterwards. With an empty ready queue nothing happens.
fn turn(k: &mut Kernel, now_us: usize) -> bool {
    let head = k.task_manager.ready_queue.front().copied();
    match run_tasks(k, now_us) {
        None => {
            assert_eq!(head, None);
            false
        }
        Some(cx) => {
            let t = head.unwrap();
            assert_eq!(current_task(k), Some(t));
            assert_eq!(k.process.tasks[t].task_status, TaskStatus::Running);
            assert_eq!(cx, k.process.tasks[t].task_cx);
            retry_pending(k)
        }
    }
}

/// The running task yields and the next ready task is dispatched.
fn switch_to_next(k: &mut Kernel, now_us: usize) -> usize {
    assert_eq!(sys_yield(k), 0);
    assert!(turn(k, now_us));
    current_task(k).unwrap()
}

#[test]
fn deadlock_code_is_the_fixed_sentinel() {
    assert_eq!(DEADLOCK, -0xdead);
    assert_eq!(DEADLOCK, -57005);
}

#[test]
fn mutex_create_hands_out_ids_in_order() {
    let mut k = kernel_with_tasks(1);
    assert_eq!(sys_mutex_create(&mut k, true), 0);
    assert_eq!(sys_mutex_create(&mut k, false), 1);
    assert_eq!(sys_mutex_create(&mut k, true), 2);
    assert_eq!(k.process.mutex_list.len(), 3);
    assert_eq!(k.process.mutex_alloc, vec![None, None, None]);
    assert!(k.process.mutex_list[0].as_ref().unwrap().blocking);
    assert!(!k.process.mutex_list[1].as_ref().unwrap().blocking);
    assert!(!k.process.mutex_list[0].as_ref().unwrap().locked);
}

#[test]
fn mutex_create_reuses_the_first_free_slot() {
    let mut k = kernel_with_tasks(1);
    assert_eq!(sys_mutex_create(&mut k, true), 0);
    assert_eq!(sys_mutex_create(&mut k, true), 1);
    assert_eq!(sys_mutex_create(&mut k, true), 2);
    k.process.mutex_list[1] = None;
    k.process.mutex_list[2] = None;
    assert_eq!(sys_mutex_create(&mut k, false), 1);
    assert_eq!(k.process.mutex_list.len(), 3);
    assert_eq!(sys_mutex_create(&mut k, false), 2);
    assert_eq!(sys_mutex_create(&mut k, false), 3);
    assert_eq!(k.process.mutex_list.len(), 4);
}

#[test]
fn semaphore_and_condvar_create_reuse_free_slots() {
    let mut k = kernel_with_tasks(1);
    assert_eq!(sys_semaphore_create(&mut k, 2), 0);
    assert_eq!(sys_semaphore_create(&mut k, 5), 1);
    k.process.semaphore_list[0] = None;
    k.process.sem_avail[0] = 0;
    k.process.sem_total[0] = 0;
    assert_eq!(sys_semaphore_create(&mut k, 7), 0);
    assert_eq!(k.process.sem_avail, vec![7, 5]);
    assert_eq!(k.process.sem_total, vec![7, 5]);
    assert_eq!(k.process.semaphore_list[0].as_ref().unwrap().count, 7);
    assert_eq!(k.process.semaphore_list.len(), 2);

    assert_eq!(sys_condvar_create(&mut k), 0);
    assert_eq!(sys_condvar_create(&mut k), 1);
    k.process.condvar_list[0] = None;
    assert_eq!(sys_condvar_create(&mut k), 0);
    assert_eq!(sys_condvar_create(&mut k), 2);
    assert_eq!(k.process.condvar_list.len(), 3);
}

#[test]
fn lock_of_a_free_mutex_records_the_holder() {
    let mut k = kernel_with_tasks(2);
    let m = sys_mutex_create(&mut k, true) as usize;
    assert_eq!(sys_mutex_lock(&mut k, m), 0);
    assert_eq!(current_task(&k), Some(0));
    assert_eq!(k.process.mutex_alloc[m], Some(0));
    assert_eq!(k.process.mutex_request[0], None);
    assert!(k.process.mutex_list[m].as_ref().unwrap().locked);
    assert_eq!(sys_mutex_unlock(&mut k, m), 0);
    assert_eq!(k.process.mutex_alloc[m], None);
    assert!(!k.process.mutex_list[m].as_ref().unwrap().locked);
}

#[test]
fn blocking_mutex_queues_waiters_and_wakes_them_in_order() {
    let mut k = kernel_with_tasks(3);
    let m = sys_mutex_create(&mut k, true) as usize;
    assert_eq!(sys_mutex_lock(&mut k, m), 0);
    assert_eq!(switch_to_next(&mut k, 20), 1);
    // task 1 finds the mutex held and blocks
    assert_eq!(sys_mutex_lock(&mut k, m), 0);
    assert_eq!(current_task(&k), None);
    assert_eq!(k.process.tasks[1].task_status, TaskStatus::Blocked);
    assert_eq!(k.process.tasks[1].pending, Pending::Mutex(m));
    assert_eq!(k.process.tasks[1].pending_mutex_request(), Some(m));
    assert_eq!(k.process.mutex_request[1], Some(m));
    assert_eq!(k.process.mutex_alloc[m], Some(0));
    // task 2 runs next and blocks as well
    assert!(turn(&mut k, 30));
    assert_eq!(current_task(&k), Some(2));
    assert_eq!(sys_mutex_lock(&mut k, m), 0);
    assert_eq!(current_task(&k), None);
    let queue: Vec<usize> =
        k.process.mutex_list[m].as_ref().unwrap().wait_queue.iter().copied().collect();
    assert_eq!(queue, vec![1, 2]);
    // task 0 runs again and unlocks: task 1, the first waiter, is woken
    assert!(turn(&mut k, 40));
    assert_eq!(current_task(&k), Some(0));
    assert_eq!(sys_mutex_unlock(&mut k, m), 0);
    assert_eq!(k.process.tasks[1].task_status, TaskStatus::Ready);
    assert_eq!(k.process.tasks[2].task_status, TaskStatus::Blocked);
    assert_eq!(k.process.mutex_alloc[m], None);
    // once dispatched, task 1 holds the mutex
    assert_eq!(switch_to_next(&mut k, 50), 1);
    assert_eq!(k.process.mutex_alloc[m], Some(1));
    assert_eq!(k.process.tasks[1].pending, Pending::Nothing);
    assert_eq!(k.process.mutex_request[1], None);
}

#[test]
fn spin_mutex_keeps_the_waiter_ready_and_polling() {
    let mut k = kernel_with_tasks(2);
    let m = sys_mutex_create(&mut k, false) as usize;
    assert_eq!(sys_mutex_lock(&mut k, m), 0);
    assert_eq!(switch_to_next(&mut k, 20), 1);
    assert_eq!(sys_mutex_lock(&mut k, m), 0);
    // the poller is not blocked: it is ready, behind task 0
    assert_eq!(current_task(&k), None);
    assert_eq!(k.process.tasks[1].task_status, TaskStatus::Ready);
    assert_eq!(k.process.tasks[1].pending, Pending::Mutex(m));
    assert!(k.process.mutex_list[m].as_ref().unwrap().wait_queue.is_empty());
    let ready: Vec<usize> = k.task_manager.ready_queue.iter().copied().collect();
    assert_eq!(ready, vec![0, 1]);
    // task 0 runs, keeps the mutex and yields; the poller polls in vain
    assert!(turn(&mut k, 30));
    assert_eq!(current_task(&k), Some(0));
    assert_eq!(sys_yield(&mut k), 0);
    assert!(!turn(&mut k, 40));
    assert_eq!(k.process.tasks[1].task_status, TaskStatus::Ready);
    // task 0 unlocks; at its next turn the poller wins
    assert!(turn(&mut k, 50));
    assert_eq!(current_task(&k), Some(0));
    assert_eq!(sys_mutex_unlock(&mut k, m), 0);
    assert_eq!(switch_to_next(&mut k, 60), 1);
    assert_eq!(k.process.mutex_alloc[m], Some(1));
}

#[test]
fn mutex_deadlock_is_refused_with_detection_enabled() {
    let mut k = kernel_with_tasks(2);
    let m1 = sys_mutex_create(&mut k, true) as usize;
    let m2 = sys_mutex_create(&mut k, true) as usize;
    assert_eq!(sys_enable_deadlock_detect(&mut k, 1), 0);
    // A locks M1, B locks M2
    assert_eq!(sys_mutex_lock(&mut k, m1), 0);
    assert_eq!(switch_to_next(&mut k, 20), 1);
    assert_eq!(sys_mutex_lock(&mut k, m2), 0);
    assert_eq!(switch_to_next(&mut k, 30), 0);
    // A asks for M2: no cycle yet, A blocks
    assert_eq!(sys_mutex_lock(&mut k, m2), 0);
    assert_eq!(current_task(&k), None);
    assert_eq!(k.process.tasks[0].task_status, TaskStatus::Blocked);
    // B asks for M1: the chain B -> A -> B closes, the lock is refused
    assert!(turn(&mut k, 40));
    assert_eq!(current_task(&k), Some(1));
    let alloc_before = k.process.mutex_alloc.clone();
    assert_eq!(sys_mutex_lock(&mut k, m1), DEADLOCK);
    // B neither blocks nor gets the mutex; the allocation is untouched
    assert_eq!(current_task(&k), Some(1));
    assert_eq!(k.process.tasks[1].task_status, TaskStatus::Running);
    assert_eq!(k.process.mutex_alloc, alloc_before);
    assert_eq!(k.process.mutex_alloc[m1], Some(0));
    assert_eq!(k.process.mutex_request[1], Some(m1));
    assert!(k.process.mutex_list[m1].as_ref().unwrap().wait_queue.is_empty());
}

#[test]
fn mutex_deadlock_blocks_with_detection_disabled() {
    let mut k = kernel_with_tasks(2);
    let m1 = sys_mutex_create(&mut k, true) as usize;
    let m2 = sys_mutex_create(&mut k, true) as usize;
    assert_eq!(sys_mutex_lock(&mut k, m1), 0);
    assert_eq!(switch_to_next(&mut k, 20), 1);
    assert_eq!(sys_mutex_lock(&mut k, m2), 0);
    assert_eq!(switch_to_next(&mut k, 30), 0);
    assert_eq!(sys_mutex_lock(&mut k, m2), 0);
    assert!(turn(&mut k, 40));
    assert_eq!(sys_mutex_lock(&mut k, m1), 0);
    assert_eq!(current_task(&k), None);
    assert_eq!(k.process.tasks[0].task_status, TaskStatus::Blocked);
    assert_eq!(k.process.tasks[1].task_status, TaskStatus::Blocked);
    for round in 0..100 {
        assert!(!turn(&mut k, 50 + round));
    }
}

#[test]
fn relocking_a_held_mutex_is_a_deadlock() {
    let mut k = kernel_with_tasks(1);
    let m = sys_mutex_create(&mut k, true) as usize;
    assert_eq!(sys_enable_deadlock_detect(&mut k, 1), 0);
    assert_eq!(sys_mutex_lock(&mut k, m), 0);
    assert_eq!(sys_mutex_lock(&mut k, m), DEADLOCK);
    assert_eq!(current_task(&k), Some(0));
}

#[test]
fn enable_deadlock_detect_accepts_zero_and_one_only() {
    let mut k = kernel_with_tasks(1);
    assert!(!k.process.deadlock_detection_enabled);
    assert_eq!(sys_enable_deadlock_detect(&mut k, 1), 0);
    assert!(k.process.deadlock_detection_enabled);
    assert_eq!(sys_enable_deadlock_detect(&mut k, 2), -1);
    assert!(k.process.deadlock_detection_enabled);
    assert_eq!(sys_enable_deadlock_detect(&mut k, usize::MAX), -1);
    assert_eq!(sys_enable_deadlock_detect(&mut k, 0), 0);
    assert!(!k.process.deadlock_detection_enabled);
}

#[test]
fn semaphore_counts_are_conserved() {
    let mut k = kernel_with_tasks(2);
    let s = sys_semaphore_create(&mut k, 2) as usize;
    assert_eq!(k.process.sem_avail[s], 2);
    assert_eq!(k.process.sem_total[s], 2);
    assert_eq!(sys_semaphore_down(&mut k, s), 0);
    assert_eq!(k.process.sem_avail[s], 1);
    assert_eq!(k.process.sem_alloc[0][s], 1);
    assert_eq!(k.process.semaphore_list[s].as_ref().unwrap().count, 1);
    assert_eq!(switch_to_next(&mut k, 20), 1);
    assert_eq!(sys_semaphore_down(&mut k, s), 0);
    assert_eq!(k.process.sem_avail[s], 0);
    assert_eq!(k.process.sem_alloc[1][s], 1);
    let held: usize = k.process.sem_alloc.iter().map(|row| row[s]).sum();
    assert_eq!(k.process.sem_avail[s] + held, 2);
    assert_eq!(sys_semaphore_up(&mut k, s), 0);
    assert_eq!(k.process.sem_avail[s], 1);
    assert_eq!(k.process.sem_alloc[1][s], 0);
    assert_eq!(k.process.sem_total[s], 2);
    assert_eq!(switch_to_next(&mut k, 30), 0);
    assert_eq!(sys_semaphore_up(&mut k, s), 0);
    assert_eq!(k.process.sem_avail[s], 2);
    assert_eq!(k.process.sem_alloc[0][s], 0);
    assert_eq!(k.process.sem_total[s], 2);
}

#[test]
fn up_by_a_task_that_holds_nothing_adds_an_instance() {
    let mut k = kernel_with_tasks(1);
    let s = sys_semaphore_create(&mut k, 0) as usize;
    assert_eq!(sys_semaphore_up(&mut k, s), 0);
    assert_eq!(k.process.sem_avail[s], 1);
    assert_eq!(k.process.sem_total[s], 1);
    assert_eq!(k.process.sem_alloc[0][s], 0);
}

#[test]
fn down_on_an_empty_semaphore_blocks_until_up() {
    let mut k = kernel_with_tasks(2);
    let s = sys_semaphore_create(&mut k, 0) as usize;
    assert_eq!(sys_semaphore_down(&mut k, s), 0);
    assert_eq!(current_task(&k), None);
    assert_eq!(k.process.tasks[0].task_status, TaskStatus::Blocked);
    assert_eq!(k.process.tasks[0].pending_semaphore_request(), Some(s));
    assert_eq!(k.process.sem_request[0], Some(s));
    assert!(turn(&mut k, 20));
    assert_eq!(current_task(&k), Some(1));
    assert_eq!(sys_semaphore_up(&mut k, s), 0);
    assert_eq!(k.process.tasks[0].task_status, TaskStatus::Ready);
    assert_eq!(k.process.sem_avail[s], 1);
    assert_eq!(switch_to_next(&mut k, 30), 0);
    assert_eq!(k.process.sem_avail[s], 0);
    assert_eq!(k.process.sem_alloc[0][s], 1);
    assert_eq!(k.process.sem_request[0], None);
    assert_eq!(k.process.tasks[0].pending, Pending::Nothing);
}

#[test]
fn woken_waiter_blocks_again_when_the_instance_is_gone() {
    let mut k = kernel_with_tasks(3);
    let s = sys_semaphore_create(&mut k, 0) as usize;
    assert_eq!(sys_semaphore_down(&mut k, s), 0); // task 0 blocks
    assert!(turn(&mut k, 20));
    assert_eq!(current_task(&k), Some(1));
    assert_eq!(sys_semaphore_up(&mut k, s), 0); // wakes task 0, behind task 2
    assert_eq!(switch_to_next(&mut k, 30), 2);
    assert_eq!(sys_semaphore_down(&mut k, s), 0); // task 2 takes the instance
    assert_eq!(current_task(&k), Some(2));
    assert_eq!(sys_yield(&mut k), 0);
    // task 0 is dispatched, finds nothing and blocks again
    assert!(!turn(&mut k, 40));
    assert_eq!(k.process.tasks[0].task_status, TaskStatus::Blocked);
    let queue: Vec<usize> =
        k.process.semaphore_list[s].as_ref().unwrap().wait_queue.iter().copied().collect();
    assert_eq!(queue, vec![0]);
}

/// Two tasks that each hold one semaphore and ask for the other's.
fn crossed_semaphores(detect: bool) -> (Kernel, usize, usize) {
    let mut k = kernel_with_tasks(2);
    let s1 = sys_semaphore_create(&mut k, 1) as usize;
    let s2 = sys_semaphore_create(&mut k, 1) as usize;
    assert_eq!(sys_enable_deadlock_detect(&mut k, if detect { 1 } else { 0 }), 0);
    assert_eq!(sys_semaphore_down(&mut k, s1), 0);
    assert_eq!(switch_to_next(&mut k, 20), 1);
    assert_eq!(sys_semaphore_down(&mut k, s2), 0);
    assert_eq!(switch_to_next(&mut k, 30), 0);
    // A asks for S2: B can still finish, so A waits
    assert_eq!(sys_semaphore_down(&mut k, s2), 0);
    assert_eq!(current_task(&k), None);
    assert!(turn(&mut k, 40));
    assert_eq!(current_task(&k), Some(1));
    (k, s1, s2)
}

#[test]
fn semaphore_deadlock_is_refused_with_detection_enabled() {
    let (mut k, s1, _s2) = crossed_semaphores(true);
    let avail = k.process.sem_avail.clone();
    let alloc = k.process.sem_alloc.clone();
    let request = k.process.sem_request.clone();
    assert_eq!(sys_semaphore_down(&mut k, s1), DEADLOCK);
    // nothing has changed
    assert_eq!(current_task(&k), Some(1));
    assert_eq!(k.process.tasks[1].task_status, TaskStatus::Running);
    assert_eq!(k.process.sem_avail, avail);
    assert_eq!(k.process.sem_alloc, alloc);
    assert_eq!(k.process.sem_request, request);
    assert!(k.process.semaphore_list[s1].as_ref().unwrap().wait_queue.is_empty());
}

#[test]
fn semaphore_deadlock_blocks_with_detection_disabled() {
    let (mut k, s1, _s2) = crossed_semaphores(false);
    assert_eq!(sys_semaphore_down(&mut k, s1), 0);
    assert_eq!(current_task(&k), None);
    assert_eq!(k.process.tasks[0].task_status, TaskStatus::Blocked);
    assert_eq!(k.process.tasks[1].task_status, TaskStatus::Blocked);
    for round in 0..100 {
        assert!(!turn(&mut k, 50 + round));
    }
}

#[test]
fn down_is_granted_when_detection_finds_the_state_safe() {
    let mut k = kernel_with_tasks(2);
    let s = sys_semaphore_create(&mut k, 1) as usize;
    assert_eq!(sys_enable_deadlock_detect(&mut k, 1), 0);
    assert_eq!(sys_semaphore_down(&mut k, s), 0);
    assert_eq!(current_task(&k), Some(0));
    assert_eq!(switch_to_next(&mut k, 20), 1);
    // task 1 holds nothing: it may wait for task 0 to finish
    assert_eq!(sys_semaphore_down(&mut k, s), 0);
    assert_eq!(k.process.tasks[1].task_status, TaskStatus::Blocked);
}

#[test]
fn condvar_wait_releases_the_mutex_and_retakes_it_before_returning() {
    let mut k = kernel_with_tasks(2);
    let m = sys_mutex_create(&mut k, true) as usize;
    let c = sys_condvar_create(&mut k) as usize;
    assert_eq!(sys_mutex_lock(&mut k, m), 0);
    assert_eq!(sys_condvar_wait(&mut k, c, m), 0);
    // the waiter is off the processor and the mutex is free
    assert_eq!(current_task(&k), None);
    assert_eq!(k.process.tasks[0].task_status, TaskStatus::Blocked);
    assert_eq!(k.process.tasks[0].pending, Pending::Condvar(c, m));
    assert_eq!(k.process.mutex_alloc[m], None);
    // task 1 takes the mutex, signals, and still holds the mutex
    assert!(turn(&mut k, 20));
    assert_eq!(current_task(&k), Some(1));
    assert_eq!(sys_mutex_lock(&mut k, m), 0);
    assert_eq!(sys_condvar_signal(&mut k, c), 0);
    assert_eq!(k.process.tasks[0].task_status, TaskStatus::Ready);
    assert_eq!(k.process.tasks[0].pending, Pending::Mutex(m));
    assert_eq!(k.process.mutex_request[0], Some(m));
    assert_eq!(sys_yield(&mut k), 0);
    // the waiter is dispatched but the mutex is held: it waits for the mutex
    assert!(!turn(&mut k, 30));
    assert_eq!(k.process.tasks[0].task_status, TaskStatus::Blocked);
    assert_eq!(k.process.tasks[0].pending, Pending::Mutex(m));
    // task 1 unlocks; the waiter returns from its wait holding the mutex
    assert!(turn(&mut k, 40));
    assert_eq!(current_task(&k), Some(1));
    assert_eq!(sys_mutex_unlock(&mut k, m), 0);
    assert_eq!(switch_to_next(&mut k, 50), 0);
    assert_eq!(k.process.mutex_alloc[m], Some(0));
    assert!(k.process.mutex_list[m].as_ref().unwrap().locked);
    assert_eq!(k.process.tasks[0].pending, Pending::Nothing);
}

#[test]
fn condvar_signal_without_waiters_changes_nothing() {
    let mut k = kernel_with_tasks(1);
    let c = sys_condvar_create(&mut k) as usize;
    assert_eq!(sys_condvar_signal(&mut k, c), 0);
    assert_eq!(current_task(&k), Some(0));
    assert!(k.task_manager.ready_queue.is_empty());
}

#[test]
fn condvar_signal_wakes_waiters_in_arrival_order() {
    let mut k = kernel_with_tasks(3);
    let m = sys_mutex_create(&mut k, true) as usize;
    let c = sys_condvar_create(&mut k) as usize;
    assert_eq!(sys_mutex_lock(&mut k, m), 0);
    assert_eq!(sys_condvar_wait(&mut k, c, m), 0);
    assert!(turn(&mut k, 20));
    assert_eq!(current_task(&k), Some(1));
    assert_eq!(sys_mutex_lock(&mut k, m), 0);
    assert_eq!(sys_condvar_wait(&mut k, c, m), 0);
    assert!(turn(&mut k, 30));
    assert_eq!(current_task(&k), Some(2));
    assert_eq!(sys_condvar_signal(&mut k, c), 0);
    assert_eq!(k.process.tasks[0].task_status, TaskStatus::Ready);
    assert_eq!(k.process.tasks[1].task_status, TaskStatus::Blocked);
    assert_eq!(sys_condvar_signal(&mut k, c), 0);
    assert_eq!(k.process.tasks[1].task_status, TaskStatus::Ready);
    let ready: Vec<usize> = k.task_manager.ready_queue.iter().copied().collect();
    assert_eq!(ready, vec![0, 1]);
}

#[test]
fn sleep_blocks_until_the_timer_expires() {
    let mut k = kernel_with_tasks(2);
    assert_eq!(sys_sleep(&mut k, 30, 100), 0);
    assert_eq!(current_task(&k), None);
    assert_eq!(k.process.tasks[0].task_status, TaskStatus::Blocked);
    assert_eq!(k.process.tasks[0].pending, Pending::Sleep(130));
    assert_eq!(k.timers.len(), 1);
    assert_eq!(k.timers[0].expire_ms, 130);
    assert_eq!(k.timers[0].tid, 0);
    check_timer(&mut k, 129);
    assert_eq!(k.process.tasks[0].task_status, TaskStatus::Blocked);
    assert_eq!(k.timers.len(), 1);
    check_timer(&mut k, 130);
    assert_eq!(k.process.tasks[0].task_status, TaskStatus::Ready);
    assert_eq!(k.process.tasks[0].pending, Pending::Nothing);
    assert!(k.timers.is_empty());
    let ready: Vec<usize> = k.task_manager.ready_queue.iter().copied().collect();
    assert_eq!(ready, vec![1, 0]);
}

#[test]
fn check_timer_wakes_every_expired_sleeper_in_order() {
    let mut k = kernel_with_tasks(3);
    assert_eq!(sys_sleep(&mut k, 50, 0), 0); // task 0 until 50
    assert!(turn(&mut k, 20));
    assert_eq!(sys_sleep(&mut k, 10, 0), 0); // task 1 until 10
    assert!(turn(&mut k, 30));
    assert_eq!(sys_sleep(&mut k, 40, 0), 0); // task 2 until 40
    check_timer(&mut k, 45);
    let ready: Vec<usize> = k.task_manager.ready_queue.iter().copied().collect();
    assert_eq!(ready, vec![1, 2]);
    assert_eq!(k.timers.len(), 1);
    assert_eq!(k.timers[0].tid, 0);
    assert_eq!(k.process.tasks[0].task_status, TaskStatus::Blocked);
}

#[test]
fn exit_is_final() {
    let mut k = kernel_with_tasks(2);
    sys_exit(&mut k, 7);
    assert_eq!(current_task(&k), None);
    assert_eq!(k.process.tasks[0].task_status, TaskStatus::Exited);
    assert_eq!(k.process.tasks[0].exit_code, Some(7));
    assert!(turn(&mut k, 20));
    assert_eq!(current_task(&k), Some(1));
    assert_eq!(sys_yield(&mut k), 0);
    assert!(turn(&mut k, 30));
    assert_eq!(current_task(&k), Some(1));
    assert_eq!(k.process.tasks[0].task_status, TaskStatus::Exited);
}

#[test]
fn dispatch_round_runs_the_first_ready_task_even_if_it_still_waits() {
    let mut k = kernel_with_tasks(2);
    let m = sys_mutex_create(&mut k, false) as usize;
    assert_eq!(sys_mutex_lock(&mut k, m), 0);
    assert_eq!(switch_to_next(&mut k, 20), 1);
    assert_eq!(sys_mutex_lock(&mut k, m), 0); // task 1 polls the held spin mutex
    assert!(turn(&mut k, 30));
    assert_eq!(current_task(&k), Some(0));
    assert_eq!(sys_yield(&mut k), 0);
    // task 1 stands first in the queue and still wants the mutex
    let ready: Vec<usize> = k.task_manager.ready_queue.iter().copied().collect();
    assert_eq!(ready, vec![1, 0]);
    assert_eq!(k.process.tasks[1].pending, Pending::Mutex(m));
    let start = k.process.tasks[1].start_time;
    let others = (k.process.tasks[0].task_status, k.process.tasks[0].start_time);
    // the round dispatches it all the same
    let cx = run_tasks(&mut k, 40);
    assert_eq!(cx, Some(k.process.tasks[1].task_cx));
    assert_eq!(current_task(&k), Some(1));
    assert_eq!(k.process.tasks[1].task_status, TaskStatus::Running);
    assert_eq!(k.process.tasks[1].pending, Pending::Mutex(m));
    assert_eq!(k.process.tasks[1].start_time, start);
    assert_eq!((k.process.tasks[0].task_status, k.process.tasks[0].start_time), others);
    let ready: Vec<usize> = k.task_manager.ready_queue.iter().copied().collect();
    assert_eq!(ready, vec![0]);
    assert!(!k.calling());
    // as the running task it polls again, in vain, and goes behind task 0
    assert!(!retry_pending(&mut k));
    assert_eq!(current_task(&k), None);
    assert_eq!(k.process.tasks[1].task_status, TaskStatus::Ready);
    let ready: Vec<usize> = k.task_manager.ready_queue.iter().copied().collect();
    assert_eq!(ready, vec![0, 1]);
    assert_eq!(k.process.mutex_alloc[m], Some(0));
}

#[test]
fn woken_mutex_waiter_blocks_again_from_running_when_the_mutex_was_retaken() {
    let mut k = kernel_with_tasks(3);
    let m = sys_mutex_create(&mut k, true) as usize;
    assert_eq!(sys_mutex_lock(&mut k, m), 0);
    assert_eq!(switch_to_next(&mut k, 20), 1);
    assert_eq!(sys_mutex_lock(&mut k, m), 0); // task 1 blocks
    assert!(turn(&mut k, 30));
    assert_eq!(current_task(&k), Some(2));
    assert_eq!(sys_yield(&mut k), 0);
    assert!(turn(&mut k, 40));
    assert_eq!(current_task(&k), Some(0));
    assert_eq!(sys_mutex_unlock(&mut k, m), 0); // wakes task 1, behind task 2
    assert_eq!(switch_to_next(&mut k, 50), 2);
    assert_eq!(sys_mutex_lock(&mut k, m), 0); // task 2 takes the free mutex
    assert_eq!(current_task(&k), Some(2));
    assert_eq!(sys_yield(&mut k), 0);
    // task 1 is dispatched with its request pending
    assert!(run_tasks(&mut k, 60).is_some());
    assert_eq!(current_task(&k), Some(1));
    assert_eq!(k.process.tasks[1].task_status, TaskStatus::Running);
    // and blocks again, from running, in the queue of the mutex
    assert!(!retry_pending(&mut k));
    assert_eq!(k.process.tasks[1].task_status, TaskStatus::Blocked);
    assert_eq!(current_task(&k), None);
    let queue: Vec<usize> =
        k.process.mutex_list[m].as_ref().unwrap().wait_queue.iter().copied().collect();
    assert_eq!(queue, vec![1]);
    assert_eq!(k.process.mutex_alloc[m], Some(2));
}

#[test]
fn retry_with_nothing_pending_changes_nothing() {
    let mut k = kernel_with_tasks(2);
    let m = sys_mutex_create(&mut k, true) as usize;
    assert!(k.calling());
    assert!(retry_pending(&mut k));
    assert_eq!(current_task(&k), Some(0));
    assert_eq!(k.process.tasks[0].task_status, TaskStatus::Running);
    assert_eq!(k.process.mutex_alloc[m], None);
    let ready: Vec<usize> = k.task_manager.ready_queue.iter().copied().collect();
    assert_eq!(ready, vec![1]);
}

#[test]
fn retry_takes_a_free_mutex_and_a_free_instance() {
    let mut k = kernel_with_tasks(2);
    let m = sys_mutex_create(&mut k, true) as usize;
    let s = sys_semaphore_create(&mut k, 0) as usize;
    assert_eq!(sys_mutex_lock(&mut k, m), 0);
    assert_eq!(switch_to_next(&mut k, 20), 1);
    assert_eq!(sys_mutex_lock(&mut k, m), 0); // task 1 blocks on the mutex
    assert!(turn(&mut k, 30));
    assert_eq!(sys_mutex_unlock(&mut k, m), 0);
    assert_eq!(sys_semaphore_down(&mut k, s), 0); // task 0 blocks on the semaphore
    assert!(run_tasks(&mut k, 40).is_some());
    assert_eq!(current_task(&k), Some(1));
    assert!(!k.calling());
    assert!(retry_pending(&mut k));
    assert!(k.calling());
    assert_eq!(k.process.mutex_alloc[m], Some(1));
    assert_eq!(sys_semaphore_up(&mut k, s), 0); // wakes task 0
    assert_eq!(sys_yield(&mut k), 0);
    assert!(run_tasks(&mut k, 50).is_some());
    assert_eq!(current_task(&k), Some(0));
    assert_eq!(k.process.tasks[0].pending, Pending::Semaphore(s));
    assert!(retry_pending(&mut k));
    assert_eq!(k.process.tasks[0].pending, Pending::Nothing);
    assert_eq!(k.process.sem_alloc[0][s], 1);
    assert_eq!(k.process.sem_avail[s], 0);
}
