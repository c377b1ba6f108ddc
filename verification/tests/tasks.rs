use os_kernel::block_dev::BlockDevice;
use os_kernel::config::{MAX_SYSCALL_NUM, TASK_INFO_SIZE};
use os_kernel::kernel::Kernel;
use os_kernel::mm::memory_set::Segment;
use os_kernel::syscall::process::{sys_mmap, sys_task_info, sys_yield};
use os_kernel::task::context::TaskContext;
use os_kernel::task::manager::TaskManager;
use os_kernel::task::processor::{
    add_syscall_times, current_task, current_task_start_time, current_task_status,
    current_task_syscall_times, run_tasks, schedule, take_current_task, Processor,
};
use os_kernel::task::task::{Pending, TaskControlBlock, TaskStatus};

fn kernel_with_tasks(n: usize) -> Kernel {
    let mut k = Kernel::new(1, 0x100, 0x200, 0x10000);
    for i in 0..n {
        let t = k.spawn(TaskContext::goto(0x1000 + i, 0x2000 + i));
        k.add_task(t);
    }
    k
}

#[test]
fn new_task_is_uninitialized_until_added() {
    let mut k = Kernel::new(1, 0x100, 0x200, 0x10000);
    let cx = TaskContext::goto(7, 9);
    let t = k.spawn(cx);
    assert_eq!(t, 0);
    let tcb = &k.process.tasks[0];
    assert_eq!(tcb.tid, 0);
    assert_eq!(tcb.task_status, TaskStatus::UnInit);
    assert_eq!(tcb.task_cx, cx);
    assert_eq!(tcb.start_time, None);
    assert_eq!(tcb.pending, Pending::Nothing);
    assert_eq!(tcb.exit_code, None);
    assert!(tcb.syscall_times.iter().all(|&c| c == 0));
    assert!(run_tasks(&mut k, 5).is_none());
    k.add_task(t);
    assert_eq!(k.process.tasks[0].task_status, TaskStatus::Ready);
    assert_eq!(run_tasks(&mut k, 5), Some(cx));
    assert_eq!(k.process.tasks[0].task_status, TaskStatus::Running);
}

#[test]
fn task_control_block_starts_clean() {
    let cx = TaskContext::zero_init();
    assert_eq!(cx.ra, 0);
    assert_eq!(cx.sp, 0);
    assert_eq!(cx.s, [0; 12]);
    let tcb = TaskControlBlock::new(3, cx);
    assert_eq!(tcb.tid, 3);
    assert_eq!(tcb.task_status, TaskStatus::UnInit);
    assert_eq!(tcb.pending_mutex_request(), None);
    assert_eq!(tcb.pending_semaphore_request(), None);
    assert_eq!(tcb.syscall_times.len(), MAX_SYSCALL_NUM);
}

#[test]
fn idle_dispatch_reports_no_task() {
    let mut k = kernel_with_tasks(0);
    for now in 0..10 {
        assert_eq!(run_tasks(&mut k, now), None);
        assert_eq!(current_task(&k), None);
    }
}

#[test]
fn ready_queue_is_first_in_first_out() {
    let mut k = kernel_with_tasks(3);
    let mut order = Vec::new();
    for round in 0..7 {
        let cx = run_tasks(&mut k, round).unwrap();
        let t = current_task(&k).unwrap();
        assert_eq!(cx, TaskContext::goto(0x1000 + t, 0x2000 + t));
        order.push(t);
        assert_eq!(sys_yield(&mut k), 0);
        assert_eq!(k.process.tasks[t].task_status, TaskStatus::Ready);
    }
    assert_eq!(order, vec![0, 1, 2, 0, 1, 2, 0]);
}

#[test]
fn task_manager_fetches_in_order_of_arrival() {
    let mut tm = TaskManager::new();
    assert_eq!(tm.fetch(), None);
    tm.add(4);
    tm.add(2);
    tm.add(9);
    assert_eq!(tm.len(), 3);
    assert_eq!(tm.fetch(), Some(4));
    assert_eq!(tm.fetch(), Some(2));
    tm.add(4);
    assert_eq!(tm.fetch(), Some(9));
    assert_eq!(tm.fetch(), Some(4));
    assert_eq!(tm.fetch(), None);
}

#[test]
fn start_time_is_stamped_at_first_dispatch_only() {
    let mut k = kernel_with_tasks(2);
    assert!(run_tasks(&mut k, 5).is_some());
    assert_eq!(k.process.tasks[0].start_time, Some(5));
    assert_eq!(k.process.tasks[1].start_time, None);
    assert_eq!(current_task_start_time(&k), 5);
    assert_eq!(sys_yield(&mut k), 0);
    assert!(run_tasks(&mut k, 9).is_some());
    assert_eq!(k.process.tasks[1].start_time, Some(9));
    assert_eq!(sys_yield(&mut k), 0);
    assert!(run_tasks(&mut k, 20).is_some());
    assert_eq!(current_task(&k), Some(0));
    assert_eq!(k.process.tasks[0].start_time, Some(5));
    assert_eq!(current_task_start_time(&k), 5);
}

#[test]
fn start_time_zero_is_a_start_time() {
    let mut k = kernel_with_tasks(1);
    assert!(run_tasks(&mut k, 0).is_some());
    assert_eq!(k.process.tasks[0].start_time, Some(0));
    assert_eq!(sys_yield(&mut k), 0);
    assert!(run_tasks(&mut k, 77).is_some());
    assert_eq!(k.process.tasks[0].start_time, Some(0));
}

#[test]
fn task_info_reports_status_counts_and_elapsed_time() {
    let mut k = kernel_with_tasks(1);
    assert!(run_tasks(&mut k, 1_500).is_some());
    assert_eq!(sys_mmap(&mut k, 0x4000, 0x2000, 3), 0);
    add_syscall_times(&mut k, 64);
    add_syscall_times(&mut k, 64);
    add_syscall_times(&mut k, 169);
    add_syscall_times(&mut k, MAX_SYSCALL_NUM - 1);
    assert_eq!(current_task_status(&k), TaskStatus::Running);
    let times = current_task_syscall_times(&k);
    assert_eq!(times[64], 2);
    assert_eq!(times[169], 1);
    assert_eq!(times[MAX_SYSCALL_NUM - 1], 1);
    assert_eq!(times.iter().map(|&c| c as usize).sum::<usize>(), 4);

    let (code, info, segs) = sys_task_info(&k, 0x4000, 1_500);
    assert_eq!(code, 0);
    assert_eq!(info.status, TaskStatus::Running);
    assert_eq!(info.syscall_times, times);
    assert_eq!(info.time, 0);
    assert_eq!(segs, vec![Segment { pa: 0x100 * 0x1000, len: TASK_INFO_SIZE }]);

    let mut last = 0;
    for now in [1_500, 2_499, 2_500, 2_501, 1_001_500, 5_000_000] {
        let (code, info, _) = sys_task_info(&k, 0x4000, now);
        assert_eq!(code, 0);
        assert_eq!(info.time, (now - 1_500) / 1_000);
        assert!(info.time >= last);
        last = info.time;
    }
    assert_eq!(last, 4_998);

    // a buffer that runs off the mapped pages is refused
    let (code, _, segs) = sys_task_info(&k, 0x5900, 2_000);
    assert_eq!(code, -1);
    assert!(segs.is_empty());
    // a buffer over two pages is two ranges
    let (code, _, segs) = sys_task_info(&k, 0x4ff0, 2_000);
    assert_eq!(code, 0);
    assert_eq!(
        segs,
        vec![
            Segment { pa: 0x100 * 0x1000 + 0xff0, len: 16 },
            Segment { pa: 0x101 * 0x1000, len: TASK_INFO_SIZE - 16 },
        ]
    );
}

#[test]
fn status_query_reports_what_is_recorded_for_the_task_on_the_processor() {
    let mut k = kernel_with_tasks(3);
    assert!(run_tasks(&mut k, 1).is_some());
    assert_eq!(current_task_status(&k), TaskStatus::Running);
    // the query reads the record of whichever task the processor names
    k.processor.current = Some(1);
    assert_eq!(current_task_status(&k), TaskStatus::Ready);
    k.process.tasks[2].task_status = TaskStatus::Exited;
    k.processor.current = Some(2);
    assert_eq!(current_task_status(&k), TaskStatus::Exited);
    k.process.tasks[2].task_status = TaskStatus::Blocked;
    assert_eq!(current_task_status(&k), TaskStatus::Blocked);
}

#[test]
fn schedule_stores_the_context_of_the_task_that_stopped() {
    let mut k = kernel_with_tasks(2);
    assert!(run_tasks(&mut k, 1).is_some());
    assert_eq!(sys_yield(&mut k), 0);
    let saved = TaskContext::goto(0xaaaa, 0xbbbb);
    let idle = schedule(&mut k, 0, saved);
    assert_eq!(idle, TaskContext::zero_init());
    assert_eq!(k.process.tasks[0].task_cx, saved);
    assert!(run_tasks(&mut k, 2).is_some());
    assert_eq!(current_task(&k), Some(1));
    assert_eq!(sys_yield(&mut k), 0);
    // task 0 resumes where it stopped
    assert_eq!(run_tasks(&mut k, 3), Some(saved));
}

#[test]
fn processor_gives_up_its_task_once() {
    let mut p = Processor::new();
    assert_eq!(p.current(), None);
    assert_eq!(p.take_current(), None);
    p.current = Some(3);
    assert_eq!(p.current(), Some(3));
    assert_eq!(p.take_current(), Some(3));
    assert_eq!(p.current(), None);
    assert_eq!(p.take_current(), None);

    let mut k = kernel_with_tasks(1);
    assert!(run_tasks(&mut k, 1).is_some());
    assert_eq!(take_current_task(&mut k), Some(0));
    assert_eq!(current_task(&k), None);
    assert_eq!(take_current_task(&mut k), None);
}

#[test]
fn processor_reads_and_counts_for_the_running_task() {
    let mut k = kernel_with_tasks(1);
    assert!(run_tasks(&mut k, 8).is_some());
    let Kernel { process, processor, .. } = &mut k;
    assert_eq!(processor.get_current_tasks_start_time(process), 8);
    assert_eq!(processor.get_current_task_status(process), TaskStatus::Running);
    processor.add_current_syscall_times(process, 3);
    assert_eq!(processor.get_syscall_times(process)[3], 1);
    assert_eq!(processor.mmap_current_task(process, 0x1000, 0x1000, 1), 0);
    assert_eq!(processor.mmap_current_task(process, 0x1000, 0x1000, 1), -1);
    assert_eq!(processor.munmap_current_task(process, 0x1000, 0x1000), 0);
    assert_eq!(processor.munmap_current_task(process, 0x1000, 0x1000), -1);
}

struct RamDisk {
    blocks: std::sync::Mutex<Vec<[u8; 4]>>,
}

impl BlockDevice for RamDisk {
    fn read_block(&self, block_id: usize, buf: &mut [u8]) {
        buf.copy_from_slice(&self.blocks.lock().unwrap()[block_id]);
    }

    fn write_block(&self, block_id: usize, buf: &[u8]) {
        self.blocks.lock().unwrap()[block_id].copy_from_slice(buf);
    }
}

#[test]
fn block_device_can_be_implemented() {
    let disk = RamDisk { blocks: std::sync::Mutex::new(vec![[0; 4]; 2]) };
    let device: &dyn BlockDevice = &disk;
    device.write_block(1, &[1, 2, 3, 4]);
    let mut buf = [0u8; 4];
    device.read_block(1, &mut buf);
    assert_eq!(buf, [1, 2, 3, 4]);
    device.read_block(0, &mut buf);
    assert_eq!(buf, [0; 4]);
}
