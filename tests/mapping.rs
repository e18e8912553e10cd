use kernel_vm::address::{PhysPageNum, VirtPageNum};
use kernel_vm::frame::PhysMemory;
use kernel_vm::mapping::{sys_mmap, sys_munmap};
use kernel_vm::page_table::PageTable;
use kernel_vm::pte::{FLAG_R, FLAG_U, FLAG_V, FLAG_W, FLAG_X};

const PAGE: usize = 4096;

fn space(frames: usize) -> (PhysMemory, PageTable) {
    let mut mem = PhysMemory::new(frames);
    let pt = PageTable::new(&mut mem);
    (mem, pt)
}

#[test]
fn mmap_then_munmap_scenario() {
    let (mut mem, mut pt) = space(64);
    assert_eq!(sys_mmap(&mut pt, &mut mem, 0x10000, 8192, 0b011), 0);
    let a = pt.translate(&mem, VirtPageNum(0x10)).unwrap();
    let b = pt.translate(&mem, VirtPageNum(0x11)).unwrap();
    assert_eq!(a.flags().bits(), FLAG_V | FLAG_R | FLAG_W | FLAG_U);
    assert_eq!(b.flags().bits(), FLAG_V | FLAG_R | FLAG_W | FLAG_U);
    assert_ne!(a.ppn(), b.ppn());
    assert_ne!(a.ppn(), PhysPageNum(0));
    assert!(pt.translate(&mem, VirtPageNum(0x12)).is_none());
    assert_eq!(sys_munmap(&mut pt, &mut mem, 0x10000, 8192), 0);
    assert!(pt.translate(&mem, VirtPageNum(0x10)).is_none());
    assert!(pt.translate(&mem, VirtPageNum(0x11)).is_none());
}

#[test]
fn mmap_overlap_is_rejected_whole() {
    let (mut mem, mut pt) = space(64);
    let a = 0x40000;
    assert_eq!(sys_mmap(&mut pt, &mut mem, a, 2 * PAGE, 0b001), 0);
    let second = pt.translate(&mem, VirtPageNum(a / PAGE + 1)).unwrap();
    let free = mem.free_frames();
    assert_eq!(sys_mmap(&mut pt, &mut mem, a + PAGE, 2 * PAGE, 0b011), -1);
    assert_eq!(pt.translate(&mem, VirtPageNum(a / PAGE + 1)), Some(second));
    assert!(pt.translate(&mem, VirtPageNum(a / PAGE + 2)).is_none());
    assert_eq!(mem.free_frames(), free);
}

#[test]
fn mmap_munmap_mmap_again_succeeds() {
    let (mut mem, mut pt) = space(64);
    assert_eq!(sys_mmap(&mut pt, &mut mem, 0x20000, 3 * PAGE, 0b100), 0);
    assert_eq!(sys_munmap(&mut pt, &mut mem, 0x20000, 3 * PAGE), 0);
    assert_eq!(sys_mmap(&mut pt, &mut mem, 0x20000, 3 * PAGE, 0b100), 0);
    let e = pt.translate(&mem, VirtPageNum(0x22)).unwrap();
    assert_eq!(e.flags().bits(), FLAG_V | FLAG_X | FLAG_U);
}

#[test]
fn misaligned_start_is_rejected() {
    let (mut mem, mut pt) = space(64);
    assert_eq!(sys_mmap(&mut pt, &mut mem, 0x10001, PAGE, 0b001), -1);
    assert_eq!(sys_mmap(&mut pt, &mut mem, 0x10800, 0, 0b001), -1);
    assert_eq!(sys_munmap(&mut pt, &mut mem, 0x10001, PAGE), -1);
    assert_eq!(sys_mmap(&mut pt, &mut mem, 0x10000, PAGE, 0b001), 0);
    assert_eq!(sys_munmap(&mut pt, &mut mem, 0x10fff, PAGE), -1);
    assert!(pt.translate(&mem, VirtPageNum(0x10)).is_some());
}

#[test]
fn mmap_rejects_bad_port() {
    let (mut mem, mut pt) = space(64);
    assert_eq!(sys_mmap(&mut pt, &mut mem, 0x10000, PAGE, 0), -1);
    assert_eq!(sys_mmap(&mut pt, &mut mem, 0x10000, PAGE, 0b1001), -1);
    assert_eq!(sys_mmap(&mut pt, &mut mem, 0x10000, PAGE, 8), -1);
    assert!(pt.translate(&mem, VirtPageNum(0x10)).is_none());
    assert_eq!(sys_mmap(&mut pt, &mut mem, 0x10000, PAGE, 7), 0);
    let e = pt.translate(&mem, VirtPageNum(0x10)).unwrap();
    assert_eq!(e.flags().bits(), FLAG_V | FLAG_R | FLAG_W | FLAG_X | FLAG_U);
}

#[test]
fn zero_length_is_a_no_op() {
    let (mut mem, mut pt) = space(8);
    let free = mem.free_frames();
    assert_eq!(sys_mmap(&mut pt, &mut mem, 0x10000, 0, 0b001), 0);
    assert_eq!(sys_munmap(&mut pt, &mut mem, 0x10000, 0), 0);
    assert_eq!(mem.free_frames(), free);
    assert!(pt.translate(&mem, VirtPageNum(0x10)).is_none());
}

#[test]
fn length_rounds_up_to_whole_pages() {
    let (mut mem, mut pt) = space(64);
    assert_eq!(sys_mmap(&mut pt, &mut mem, 0x10000, PAGE + 1, 0b001), 0);
    assert!(pt.translate(&mem, VirtPageNum(0x10)).is_some());
    assert!(pt.translate(&mem, VirtPageNum(0x11)).is_some());
    assert!(pt.translate(&mem, VirtPageNum(0x12)).is_none());
    assert_eq!(sys_munmap(&mut pt, &mut mem, 0x10000, 1), 0);
    assert!(pt.translate(&mem, VirtPageNum(0x10)).is_none());
    assert!(pt.translate(&mem, VirtPageNum(0x11)).is_some());
}

#[test]
fn munmap_of_unmapped_page_is_rejected() {
    let (mut mem, mut pt) = space(64);
    assert_eq!(sys_mmap(&mut pt, &mut mem, 0x10000, PAGE, 0b001), 0);
    assert_eq!(sys_munmap(&mut pt, &mut mem, 0x10000, 2 * PAGE), -1);
    assert!(pt.translate(&mem, VirtPageNum(0x10)).is_some());
    assert_eq!(sys_munmap(&mut pt, &mut mem, 0x30000, PAGE), -1);
}

#[test]
fn span_beyond_address_space_is_rejected() {
    let (mut mem, mut pt) = space(64);
    let top = 1usize << 39;
    assert_eq!(sys_mmap(&mut pt, &mut mem, top - PAGE, 2 * PAGE, 0b001), -1);
    assert_eq!(sys_mmap(&mut pt, &mut mem, top, PAGE, 0b001), -1);
    assert_eq!(sys_munmap(&mut pt, &mut mem, top, PAGE), -1);
    assert_eq!(sys_mmap(&mut pt, &mut mem, top - PAGE, PAGE, 0b001), 0);
    assert!(pt.translate(&mem, VirtPageNum((top - PAGE) / PAGE)).is_some());
}

#[test]
fn mmap_takes_exactly_the_frames_it_needs() {
    // fresh table, 5 free frames: two data frames, one middle and one leaf table
    let (mut mem, mut pt) = space(6);
    assert_eq!(mem.free_frames(), 5);
    assert_eq!(sys_mmap(&mut pt, &mut mem, 0x10000, 2 * PAGE, 0b011), 0);
    assert_eq!(mem.free_frames(), 1);
    assert!(pt.translate(&mem, VirtPageNum(0x10)).is_some());
    assert!(pt.translate(&mem, VirtPageNum(0x11)).is_some());
    // the tables exist now: one more page in the same leaf block takes one frame
    assert_eq!(sys_mmap(&mut pt, &mut mem, 0x12000, PAGE, 0b001), 0);
    assert_eq!(mem.free_frames(), 0);
}

#[test]
fn mmap_refused_when_frames_run_short() {
    // 3 free frames, 4 needed
    let (mut mem, mut pt) = space(4);
    assert_eq!(sys_mmap(&mut pt, &mut mem, 0x10000, 2 * PAGE, 0b001), -1);
    assert_eq!(mem.free_frames(), 3);
    assert!(pt.translate(&mem, VirtPageNum(0x10)).is_none());
    assert_eq!(sys_mmap(&mut pt, &mut mem, 0x10000, PAGE, 0b001), 0);
    assert_eq!(mem.free_frames(), 0);
}

#[test]
fn mmap_across_leaf_blocks_counts_each_new_table() {
    // pages 0x1ff and 0x200 lie in two leaf blocks under one middle table
    // two data frames, one middle table and two leaf tables
    let (mut mem, mut pt) = space(5);
    assert_eq!(sys_mmap(&mut pt, &mut mem, 0x1ff000, 2 * PAGE, 0b001), -1);
    let (mut mem, mut pt) = space(6);
    assert_eq!(sys_mmap(&mut pt, &mut mem, 0x1ff000, 2 * PAGE, 0b001), 0);
    assert_eq!(mem.free_frames(), 0);
}

#[test]
fn remap_after_munmap_needs_one_frame_per_page() {
    let (mut mem, mut pt) = space(8);
    assert_eq!(sys_mmap(&mut pt, &mut mem, 0x10000, 2 * PAGE, 0b010), 0);
    assert_eq!(mem.free_frames(), 3);
    assert_eq!(sys_munmap(&mut pt, &mut mem, 0x10000, 2 * PAGE), 0);
    assert_eq!(sys_mmap(&mut pt, &mut mem, 0x10000, 2 * PAGE, 0b010), 0);
    assert_eq!(mem.free_frames(), 1);
}
