use os_kernel::config::PAGE_SIZE;
use os_kernel::kernel::Kernel;
use os_kernel::mm::frame_allocator::FrameAllocator;
use os_kernel::mm::memory_set::{MemorySet, Segment};
use os_kernel::syscall::process::{sys_get_time, sys_mmap, sys_munmap, sys_sbrk, TimeVal};
use os_kernel::task::context::TaskContext;
use os_kernel::task::processor::{
    current_tranlated_physical_address, current_user_token, mmap_current_task,
    munmap_current_task, run_tasks,
};

/// A kernel whose one task runs, with the frames 0x100..0x100 + frames.
fn running_kernel(frames: usize) -> Kernel {
    let mut k = Kernel::new(42, 0x100, 0x100 + frames, 0x10_0000);
    let t = k.spawn(TaskContext::zero_init());
    k.add_task(t);
    assert!(run_tasks(&mut k, 1).is_some());
    k
}

#[test]
fn mmap_munmap_round_trip() {
    let mut k = running_kernel(16);
    assert_eq!(sys_mmap(&mut k, 0x1000, 0x2000, 0b011), 0);
    assert_eq!(k.process.memory_set.areas.len(), 1);
    assert_eq!(k.process.memory_set.areas[0].start_vpn, 1);
    assert_eq!(k.process.memory_set.areas[0].perm, 0b011);
    assert_eq!(k.process.memory_set.areas[0].frames, vec![0x100, 0x101]);
    assert_eq!(sys_munmap(&mut k, 0x1000, 0x2000), 0);
    assert!(k.process.memory_set.areas.is_empty());
    assert_eq!(sys_mmap(&mut k, 0x1000, 0x2000, 0b011), 0);
    // the frames that were given back are used again, the last one first
    assert_eq!(k.process.memory_set.areas[0].frames, vec![0x101, 0x100]);
    assert_eq!(k.process.memory_set.frame_allocator.current, 0x102);
}

#[test]
fn mmap_rejects_misaligned_start() {
    let mut k = running_kernel(16);
    assert_eq!(sys_mmap(&mut k, 0x1001, 0x1000, 1), -1);
    assert!(k.process.memory_set.areas.is_empty());
    assert_eq!(k.process.memory_set.frame_allocator.current, 0x100);
}

#[test]
fn mmap_rejects_zero_permission() {
    let mut k = running_kernel(16);
    assert_eq!(sys_mmap(&mut k, 0x1000, 0x1000, 0), -1);
    assert!(k.process.memory_set.areas.is_empty());
}

#[test]
fn mmap_rejects_bits_above_the_low_three() {
    let mut k = running_kernel(16);
    assert_eq!(sys_mmap(&mut k, 0x1000, 0x1000, 8), -1);
    assert_eq!(sys_mmap(&mut k, 0x1000, 0x1000, 0b1011), -1);
    assert_eq!(sys_mmap(&mut k, 0x1000, 0x1000, usize::MAX), -1);
    assert!(k.process.memory_set.areas.is_empty());
    for perm in 1..=7 {
        assert_eq!(sys_mmap(&mut k, perm * 0x1000, 0x1000, perm), 0);
    }
}

#[test]
fn mmap_rejects_overlap_and_leaves_the_first_region() {
    let mut k = running_kernel(16);
    assert_eq!(sys_mmap(&mut k, 0x2000, 0x2000, 1), 0);
    assert_eq!(sys_mmap(&mut k, 0x3000, 0x1000, 3), -1);
    assert_eq!(sys_mmap(&mut k, 0x1000, 0x1001, 3), -1);
    assert_eq!(sys_mmap(&mut k, 0x1000, 0x1000, 3), 0);
    assert_eq!(sys_mmap(&mut k, 0x4000, 0x1, 3), 0);
    assert_eq!(k.process.memory_set.areas.len(), 3);
    assert_eq!(k.process.memory_set.areas[0].perm, 1);
    assert_eq!(k.process.memory_set.areas[0].frames.len(), 2);
}

#[test]
fn mmap_fails_when_frames_run_out() {
    let mut k = running_kernel(2);
    assert_eq!(sys_mmap(&mut k, 0x1000, 0x3000, 1), -1);
    assert!(k.process.memory_set.areas.is_empty());
    assert_eq!(k.process.memory_set.frame_allocator.current, 0x100);
    assert_eq!(sys_mmap(&mut k, 0x1000, 0x2000, 1), 0);
    assert_eq!(sys_mmap(&mut k, 0x8000, 0x1000, 1), -1);
}

#[test]
fn mmap_rejects_a_range_beyond_the_address_space() {
    let mut k = running_kernel(2);
    let start = usize::MAX - (PAGE_SIZE - 1);
    assert_eq!(sys_mmap(&mut k, start, PAGE_SIZE, 1), -1);
    assert_eq!(sys_munmap(&mut k, start, PAGE_SIZE), -1);
}

#[test]
fn mmap_of_no_bytes_maps_nothing() {
    let mut k = running_kernel(2);
    assert_eq!(sys_mmap(&mut k, 0x1000, 0, 1), 0);
    assert!(k.process.memory_set.areas.is_empty());
    assert_eq!(sys_munmap(&mut k, 0x1000, 0), 0);
}

#[test]
fn munmap_rejects_misaligned_start_and_unmapped_ranges() {
    let mut k = running_kernel(16);
    assert_eq!(sys_mmap(&mut k, 0x1000, 0x2000, 3), 0);
    assert_eq!(sys_munmap(&mut k, 0x1001, 0x1000), -1);
    assert_eq!(sys_munmap(&mut k, 0x1000, 0x3000), -1);
    assert_eq!(sys_munmap(&mut k, 0x5000, 0x1000), -1);
    assert_eq!(k.process.memory_set.areas[0].frames.len(), 2);
    assert_eq!(sys_munmap(&mut k, 0x1000, 0x2000), 0);
    assert_eq!(sys_munmap(&mut k, 0x1000, 0x2000), -1);
}

#[test]
fn munmap_of_a_part_shrinks_or_splits_the_region() {
    let mut k = running_kernel(16);
    assert_eq!(sys_mmap(&mut k, 0x1000, 0x5000, 3), 0);
    // the page in the middle goes: two regions remain
    assert_eq!(sys_munmap(&mut k, 0x3000, 0x1000), 0);
    assert_eq!(k.process.memory_set.translate(0x1000), Some(0x100 * PAGE_SIZE));
    assert_eq!(k.process.memory_set.translate(0x2abc), Some(0x101 * PAGE_SIZE + 0xabc));
    assert_eq!(k.process.memory_set.translate(0x3000), None);
    assert_eq!(k.process.memory_set.translate(0x4000), Some(0x103 * PAGE_SIZE));
    assert_eq!(k.process.memory_set.translate(0x5fff), Some(0x104 * PAGE_SIZE + 0xfff));
    assert_eq!(k.process.memory_set.areas.len(), 2);
    // the first and the last page go
    assert_eq!(sys_munmap(&mut k, 0x1000, 0x1000), 0);
    assert_eq!(sys_munmap(&mut k, 0x5000, 0x1000), 0);
    assert_eq!(k.process.memory_set.translate(0x1000), None);
    assert_eq!(k.process.memory_set.translate(0x2000), Some(0x101 * PAGE_SIZE));
    assert_eq!(k.process.memory_set.translate(0x4000), Some(0x103 * PAGE_SIZE));
    assert_eq!(k.process.memory_set.translate(0x5000), None);
    assert_eq!(k.process.memory_set.frame_allocator.recycled, vec![0x102, 0x100, 0x104]);
    // a range over both remaining regions is unmapped only if it is fully mapped
    assert_eq!(sys_munmap(&mut k, 0x2000, 0x3000), -1);
    assert_eq!(sys_mmap(&mut k, 0x3000, 0x1000, 1), 0);
    assert_eq!(sys_munmap(&mut k, 0x2000, 0x3000), 0);
    assert!(k.process.memory_set.areas.is_empty());
}

#[test]
fn translation_of_the_running_task() {
    let mut k = running_kernel(16);
    assert_eq!(current_user_token(&k), 42);
    assert_eq!(mmap_current_task(&mut k, 0x7000, 0x1000, 5), 0);
    assert_eq!(current_tranlated_physical_address(&k, 0x7123), 0x100 * PAGE_SIZE + 0x123);
    assert_eq!(munmap_current_task(&mut k, 0x7000, 0x1000), 0);
    assert_eq!(k.process.memory_set.translate(0x7123), None);
    assert_eq!(munmap_current_task(&mut k, 0x7000, 0x1000), -1);
}

#[test]
fn time_record_that_straddles_two_pages() {
    let mut k = running_kernel(16);
    assert_eq!(sys_mmap(&mut k, 0x1000, 0x1000, 3), 0);
    assert_eq!(sys_mmap(&mut k, 0x8000, 0x1000, 3), 0);
    assert_eq!(sys_mmap(&mut k, 0x2000, 0x1000, 3), 0);
    // pages 1 and 2 are adjacent in virtual memory, their frames are not
    let (code, value, segs) = sys_get_time(&k, 0x1ff8, 0, 3_000_123);
    assert_eq!(code, 0);
    assert_eq!(value, TimeVal { sec: 3, usec: 123 });
    assert_eq!(
        segs,
        vec![
            Segment { pa: 0x100 * PAGE_SIZE + 0xff8, len: 8 },
            Segment { pa: 0x102 * PAGE_SIZE, len: 8 },
        ]
    );
    // a record within one page is one range
    let (code, _, segs) = sys_get_time(&k, 0x1010, 0, 0);
    assert_eq!(code, 0);
    assert_eq!(segs, vec![Segment { pa: 0x100 * PAGE_SIZE + 0x10, len: 16 }]);
    // a record that runs off the mapped pages is refused
    let (code, value, segs) = sys_get_time(&k, 0x2ff8, 0, 999_999);
    assert_eq!(code, -1);
    assert_eq!(value, TimeVal { sec: 0, usec: 999_999 });
    assert!(segs.is_empty());
    let (code, _, _) = sys_get_time(&k, usize::MAX - 3, 0, 0);
    assert_eq!(code, -1);
}

#[test]
fn byte_buffer_over_several_pages() {
    let mut ms = MemorySet::new(1, 10, 20, 0);
    assert_eq!(ms.mmap(0x3000, 0x3000, 3), 0);
    let segs = ms.translated_byte_buffer(0x3ffe, 0x1004).unwrap();
    assert_eq!(
        segs,
        vec![
            Segment { pa: 10 * PAGE_SIZE + 0xffe, len: 2 },
            Segment { pa: 11 * PAGE_SIZE, len: 0x1000 },
            Segment { pa: 12 * PAGE_SIZE, len: 2 },
        ]
    );
    assert_eq!(ms.translated_byte_buffer(0x3000, 0).unwrap(), vec![]);
    assert!(ms.translated_byte_buffer(0x5fff, 2).is_none());
    assert!(ms.translated_byte_buffer(0x2fff, 2).is_none());
}

#[test]
fn sbrk_moves_the_break_and_returns_the_old_one() {
    let mut k = running_kernel(4);
    let bottom = 0x10_0000;
    assert_eq!(sys_sbrk(&mut k, 0), bottom as isize);
    assert_eq!(sys_sbrk(&mut k, 1), bottom as isize);
    assert_eq!(k.process.memory_set.program_brk, bottom + 1);
    assert_eq!(k.process.memory_set.translate(bottom), Some(0x100 * PAGE_SIZE));
    assert_eq!(k.process.memory_set.areas[0].perm, 3);
    // within the same page no frame is needed
    assert_eq!(sys_sbrk(&mut k, 0xfff), (bottom + 1) as isize);
    assert_eq!(k.process.memory_set.frame_allocator.current, 0x101);
    assert_eq!(sys_sbrk(&mut k, 0x2000), (bottom + 0x1000) as isize);
    assert_eq!(k.process.memory_set.frame_allocator.current, 0x103);
    // one frame is left: two more pages cannot be had
    assert_eq!(sys_sbrk(&mut k, 0x2000), -1);
    assert_eq!(k.process.memory_set.program_brk, bottom + 0x3000);
    // shrinking gives the pages back
    assert_eq!(sys_sbrk(&mut k, -0x2000), (bottom + 0x3000) as isize);
    assert_eq!(k.process.memory_set.program_brk, bottom + 0x1000);
    assert_eq!(k.process.memory_set.translate(bottom + 0x1000), None);
    assert_eq!(k.process.memory_set.translate(bottom + 0xfff), Some(0x100 * PAGE_SIZE + 0xfff));
    // the break cannot go below the bottom of the heap
    assert_eq!(sys_sbrk(&mut k, -0x1001), -1);
    assert_eq!(sys_sbrk(&mut k, -0x1000), (bottom + 0x1000) as isize);
    assert_eq!(k.process.memory_set.program_brk, bottom);
    assert!(k.process.memory_set.areas.is_empty());
}

#[test]
fn sbrk_fails_when_the_heap_would_run_into_a_mapping() {
    let mut k = running_kernel(8);
    let bottom = 0x10_0000;
    assert_eq!(sys_mmap(&mut k, bottom + 0x1000, 0x1000, 1), 0);
    assert_eq!(sys_sbrk(&mut k, 0x1000), bottom as isize);
    assert_eq!(sys_sbrk(&mut k, 1), -1);
    assert_eq!(k.process.memory_set.program_brk, bottom + 0x1000);
}

#[test]
fn frame_allocator_reuses_freed_frames_first() {
    let mut fa = FrameAllocator::new(5, 8);
    assert!(fa.has_available(3));
    assert!(!fa.has_available(4));
    assert_eq!(fa.frame_alloc(), Some(5));
    assert_eq!(fa.frame_alloc(), Some(6));
    fa.frame_dealloc(5);
    assert!(fa.has_available(2));
    assert_eq!(fa.frame_alloc(), Some(5));
    assert_eq!(fa.frame_alloc(), Some(7));
    assert_eq!(fa.frame_alloc(), None);
    assert!(fa.has_available(0));
    assert!(!fa.has_available(1));
    fa.frame_dealloc(6);
    fa.frame_dealloc(7);
    assert_eq!(fa.frame_alloc(), Some(7));
    assert_eq!(fa.frame_alloc(), Some(6));
    assert_eq!(fa.frame_alloc(), None);
}
