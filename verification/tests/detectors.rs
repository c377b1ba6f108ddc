use os_kernel::deadlock::{mutex_wait_cycle, semaphore_wait_deadlock};

#[test]
fn chain_that_ends_is_no_cycle() {
    // task 0 asks for mutex 0, which task 1 holds; task 1 asks for nothing
    let alloc = vec![Some(1), None];
    let request = vec![Some(0), None];
    assert!(!mutex_wait_cycle(&alloc, &request, 0));
    // task 0 asks for a free mutex
    let alloc = vec![None];
    let request = vec![Some(0)];
    assert!(!mutex_wait_cycle(&alloc, &request, 0));
    // task 0 asks for nothing
    assert!(!mutex_wait_cycle(&vec![Some(0)], &vec![None], 0));
}

#[test]
fn chain_back_to_the_requester_is_a_cycle() {
    // 0 -> m1 held by 1 -> m0 held by 0
    let alloc = vec![Some(0), Some(1)];
    let request = vec![Some(1), Some(0)];
    assert!(mutex_wait_cycle(&alloc, &request, 0));
    assert!(mutex_wait_cycle(&alloc, &request, 1));
    // a task that asks for what it holds
    assert!(mutex_wait_cycle(&vec![Some(0)], &vec![Some(0)], 0));
}

#[test]
fn chain_into_a_cycle_of_others_is_a_cycle() {
    // 0 -> m0 held by 1 -> m1 held by 2 -> m2 held by 1
    let alloc = vec![Some(1), Some(2), Some(1)];
    let request = vec![Some(0), Some(1), Some(2)];
    assert!(mutex_wait_cycle(&alloc, &request, 0));
}

#[test]
fn long_chain_is_walked_to_its_end() {
    let n = 50;
    let alloc: Vec<Option<usize>> = (0..n).map(|m| Some(m + 1)).collect();
    let mut request: Vec<Option<usize>> = (0..n).map(Some).collect();
    request.push(None);
    assert!(!mutex_wait_cycle(&alloc, &request, 0));
    request[n] = Some(17);
    assert!(mutex_wait_cycle(&alloc, &request, 0));
    assert!(mutex_wait_cycle(&alloc, &request, 30));
}

#[test]
fn entries_outside_the_tables_end_the_chain() {
    assert!(!mutex_wait_cycle(&vec![Some(9)], &vec![Some(0)], 0));
    assert!(!mutex_wait_cycle(&vec![Some(0)], &vec![Some(5)], 0));
}

#[test]
fn tasks_that_can_finish_in_turn_are_safe() {
    // task 0 holds s0 and waits for s1; task 1 holds s1 and waits for nothing
    let avail = vec![0, 0];
    let alloc = vec![vec![1, 0], vec![0, 1]];
    let request = vec![Some(1), None];
    assert!(!semaphore_wait_deadlock(&avail, &alloc, &request));
    // the order in the table does not matter
    let alloc = vec![vec![0, 1], vec![1, 0]];
    let request = vec![None, Some(1)];
    assert!(!semaphore_wait_deadlock(&avail, &alloc, &request));
    // a task that waits for what only it holds is stuck
    let request = vec![None, Some(0)];
    assert!(semaphore_wait_deadlock(&avail, &alloc, &request));
}

#[test]
fn tasks_that_wait_for_each_other_are_stuck() {
    let avail = vec![0, 0];
    let alloc = vec![vec![1, 0], vec![0, 1]];
    let request = vec![Some(1), Some(0)];
    assert!(semaphore_wait_deadlock(&avail, &alloc, &request));
    // one available instance resolves it
    assert!(!semaphore_wait_deadlock(&vec![0, 1], &alloc, &request));
    assert!(!semaphore_wait_deadlock(&vec![1, 0], &alloc, &request));
}

#[test]
fn tasks_that_hold_nothing_are_never_stuck() {
    let avail = vec![0];
    let alloc = vec![vec![0], vec![0]];
    let request = vec![Some(0), Some(0)];
    assert!(!semaphore_wait_deadlock(&avail, &alloc, &request));
    assert!(!semaphore_wait_deadlock(&vec![], &vec![], &vec![]));
    assert!(!semaphore_wait_deadlock(&vec![], &vec![vec![], vec![]], &vec![None, None]));
}

#[test]
fn release_of_a_finished_task_unblocks_a_chain() {
    // task 2 can finish and frees s0 for task 1, which frees s1 for task 0
    let avail = vec![0, 0, 0];
    let alloc = vec![vec![0, 0, 1], vec![0, 1, 0], vec![1, 0, 0]];
    let request = vec![Some(1), Some(0), None];
    assert!(!semaphore_wait_deadlock(&avail, &alloc, &request));
    // if task 2 waits for what task 0 holds, all three are stuck
    let request = vec![Some(1), Some(0), Some(2)];
    assert!(semaphore_wait_deadlock(&avail, &alloc, &request));
}

#[test]
fn stuck_pair_beside_a_free_task_is_found() {
    let avail = vec![0, 0, 5];
    let alloc = vec![vec![1, 0, 0], vec![0, 1, 0], vec![0, 0, 2]];
    let request = vec![Some(1), Some(0), Some(2)];
    assert!(semaphore_wait_deadlock(&avail, &alloc, &request));
}

#[test]
fn counts_add_up_without_overflow() {
    let big = usize::MAX / 2;
    let avail = vec![1];
    let alloc = vec![vec![big], vec![big]];
    let request = vec![None, None];
    assert!(!semaphore_wait_deadlock(&avail, &alloc, &request));
}
