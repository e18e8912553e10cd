use kernel_vm::address::{PhysPageNum, VirtPageNum};
use kernel_vm::frame::PhysMemory;
use kernel_vm::page_table::{translated_byte_buffer, ByteWindow, PageTable};
use kernel_vm::pte::{PTEFlags, PageTableEntry, FLAG_R, FLAG_U, FLAG_V, FLAG_W, FLAG_X};

#[test]
fn entry_packs_ppn_and_flags() {
    let e = PageTableEntry::new(PhysPageNum(0x8_0123), PTEFlags { bits: 0b1011 });
    assert_eq!(e.bits, (0x8_0123u64 << 10) | 0b1011);
    assert_eq!(e.ppn(), PhysPageNum(0x8_0123));
    assert_eq!(e.flags().bits(), 0b1011);
    assert!(e.is_valid());
    assert!(e.readable());
    assert!(!e.writable());
    assert!(e.executable());
}

#[test]
fn entry_largest_ppn_survives() {
    let max = (1u64 << 44) - 1;
    let e = PageTableEntry::new(PhysPageNum(max), PTEFlags { bits: 0xff });
    assert_eq!(e.ppn(), PhysPageNum(max));
    assert_eq!(e.flags().bits(), 0xff);
}

#[test]
fn empty_entry_is_invalid() {
    let e = PageTableEntry::empty();
    assert_eq!(e.bits, 0);
    assert!(!e.is_valid());
    assert!(!e.readable());
    assert_eq!(e.ppn(), PhysPageNum(0));
}

#[test]
fn flag_set_operations() {
    let rw = PTEFlags { bits: FLAG_R }.union(PTEFlags { bits: FLAG_W });
    assert_eq!(rw.bits(), 0b110);
    assert!(rw.contains(PTEFlags { bits: FLAG_W }));
    assert!(!rw.contains(PTEFlags { bits: FLAG_X }));
    assert_eq!(rw.intersection(PTEFlags { bits: FLAG_R | FLAG_X }).bits(), FLAG_R);
    assert_eq!(PTEFlags::empty().bits(), 0);
    assert_eq!(PTEFlags::from_bits(0xa5), Some(PTEFlags { bits: 0xa5 }));
}

#[test]
fn vpn_indexes_most_significant_first() {
    let v = VirtPageNum((3 << 18) | (5 << 9) | 7);
    assert_eq!(v.indexes(), [3, 5, 7]);
    assert_eq!(VirtPageNum(0x10).indexes(), [0, 0, 0x10]);
}

#[test]
fn map_then_translate_gives_ppn_and_valid_flags() {
    let mut mem = PhysMemory::new(16);
    let mut pt = PageTable::new(&mut mem);
    let flags = PTEFlags { bits: FLAG_R | FLAG_W | FLAG_U };
    pt.map(&mut mem, VirtPageNum(0x12345), PhysPageNum(0x777), flags);
    let e = pt.translate(&mem, VirtPageNum(0x12345)).unwrap();
    assert_eq!(e.ppn(), PhysPageNum(0x777));
    assert_eq!(e.flags().bits(), FLAG_R | FLAG_W | FLAG_U | FLAG_V);
    // the root and two fresh table frames were taken
    assert_eq!(mem.free_frames(), 13);
    assert!(pt.translate(&mem, VirtPageNum(0x12346)).is_none());
    assert!(pt.translate(&mem, VirtPageNum(0x12345 ^ (1 << 18))).is_none());
}

#[test]
fn map_in_same_leaf_table_takes_no_new_frame() {
    let mut mem = PhysMemory::new(16);
    let mut pt = PageTable::new(&mut mem);
    let flags = PTEFlags { bits: FLAG_R };
    pt.map(&mut mem, VirtPageNum(0x200), PhysPageNum(9), flags);
    let free = mem.free_frames();
    pt.map(&mut mem, VirtPageNum(0x201), PhysPageNum(10), flags);
    assert_eq!(mem.free_frames(), free);
    assert_eq!(pt.translate(&mem, VirtPageNum(0x200)).unwrap().ppn(), PhysPageNum(9));
    assert_eq!(pt.translate(&mem, VirtPageNum(0x201)).unwrap().ppn(), PhysPageNum(10));
}

#[test]
fn unmap_makes_translation_absent() {
    let mut mem = PhysMemory::new(16);
    let mut pt = PageTable::new(&mut mem);
    pt.map(&mut mem, VirtPageNum(5), PhysPageNum(3), PTEFlags { bits: FLAG_X });
    pt.map(&mut mem, VirtPageNum(6), PhysPageNum(4), PTEFlags { bits: FLAG_X });
    pt.unmap(&mut mem, VirtPageNum(5));
    assert!(pt.translate(&mem, VirtPageNum(5)).is_none());
    assert_eq!(pt.translate(&mem, VirtPageNum(6)).unwrap().ppn(), PhysPageNum(4));
}

#[test]
fn fresh_table_translates_nothing() {
    let mut mem = PhysMemory::new(4);
    let pt = PageTable::new(&mut mem);
    assert!(pt.translate(&mem, VirtPageNum(0)).is_none());
    assert!(pt.translate(&mem, VirtPageNum(0x7ff_ffff)).is_none());
}

#[test]
fn token_round_trip() {
    let mut mem = PhysMemory::new(8);
    let _first = PageTable::new(&mut mem);
    let mut pt = PageTable::new(&mut mem);
    assert_eq!(pt.token(), (8u64 << 60) | 1);
    pt.map(&mut mem, VirtPageNum(0x40), PhysPageNum(0x55), PTEFlags { bits: FLAG_R });
    let view = PageTable::from_token(pt.token());
    assert_eq!(view.token(), pt.token());
    assert_eq!(view.translate(&mem, VirtPageNum(0x40)).unwrap().ppn(), PhysPageNum(0x55));
}

#[test]
fn page_table_mmap_takes_fresh_frame() {
    let mut mem = PhysMemory::new(8);
    let mut pt = PageTable::new(&mut mem);
    assert_eq!(pt.mmap(&mut mem, VirtPageNum(0x30), PTEFlags { bits: FLAG_R | FLAG_U }), Some(()));
    let e = pt.translate(&mem, VirtPageNum(0x30)).unwrap();
    assert_eq!(e.ppn(), PhysPageNum(1));
    assert_eq!(e.flags().bits(), FLAG_R | FLAG_U | FLAG_V);
}

#[test]
fn page_table_mmap_with_tables_present_needs_one_frame() {
    let mut mem = PhysMemory::new(5);
    let mut pt = PageTable::new(&mut mem);
    assert_eq!(pt.mmap(&mut mem, VirtPageNum(0x30), PTEFlags { bits: FLAG_R }), Some(()));
    assert_eq!(mem.free_frames(), 1);
    assert_eq!(pt.mmap(&mut mem, VirtPageNum(0x31), PTEFlags { bits: FLAG_R }), Some(()));
    assert_eq!(mem.free_frames(), 0);
    assert_eq!(pt.translate(&mem, VirtPageNum(0x31)).unwrap().ppn(), PhysPageNum(4));
}

#[test]
fn internal_entries_are_valid_without_permissions() {
    let mut mem = PhysMemory::new(8);
    let mut pt = PageTable::new(&mut mem);
    let v = VirtPageNum((2 << 18) | (3 << 9) | 4);
    pt.map(&mut mem, v, PhysPageNum(0x99), PTEFlags { bits: FLAG_R });
    let root = mem.get(PhysPageNum(0), 2).unwrap();
    assert_eq!(root.flags().bits(), FLAG_V);
    assert_eq!(root.ppn(), PhysPageNum(1));
    let middle = mem.get(root.ppn(), 3).unwrap();
    assert_eq!(middle.flags().bits(), FLAG_V);
    assert_eq!(middle.ppn(), PhysPageNum(2));
    // the walk exists now: a second page of the same leaf block takes no frame
    let free = mem.free_frames();
    pt.map(&mut mem, VirtPageNum(v.0 + 1), PhysPageNum(0x9a), PTEFlags { bits: FLAG_R });
    assert_eq!(mem.free_frames(), free);
}

#[test]
fn page_table_mmap_refuses_without_frames() {
    let mut mem = PhysMemory::new(3);
    let mut pt = PageTable::new(&mut mem);
    assert_eq!(pt.mmap(&mut mem, VirtPageNum(0x30), PTEFlags { bits: FLAG_R }), None);
    assert_eq!(mem.free_frames(), 2);
    assert!(pt.translate(&mem, VirtPageNum(0x30)).is_none());
}

#[test]
fn buffer_split_at_page_boundary() {
    let mut mem = PhysMemory::new(16);
    let mut pt = PageTable::new(&mut mem);
    pt.map(&mut mem, VirtPageNum(0x10), PhysPageNum(0x100), PTEFlags { bits: FLAG_R });
    pt.map(&mut mem, VirtPageNum(0x11), PhysPageNum(0x200), PTEFlags { bits: FLAG_R });
    let ws = translated_byte_buffer(&mem, pt.token(), 0x10ff0, 0x20);
    assert_eq!(
        ws,
        vec![
            ByteWindow { ppn: PhysPageNum(0x100), start: 0xff0, end: 0x1000 },
            ByteWindow { ppn: PhysPageNum(0x200), start: 0, end: 0x10 },
        ]
    );
}

#[test]
fn buffer_window_counts_and_total() {
    let mut mem = PhysMemory::new(16);
    let mut pt = PageTable::new(&mut mem);
    for v in 0x10..0x14 {
        pt.map(&mut mem, VirtPageNum(v), PhysPageNum(0x100 + v as u64), PTEFlags { bits: FLAG_R });
    }
    // aligned, two full pages: k windows
    let ws = translated_byte_buffer(&mem, pt.token(), 0x10000, 8192);
    assert_eq!(ws.len(), 2);
    assert_eq!(ws.iter().map(|w| w.end - w.start).sum::<usize>(), 8192);
    // unaligned, same length: k + 1 windows
    let ws = translated_byte_buffer(&mem, pt.token(), 0x10008, 8192);
    assert_eq!(ws.len(), 3);
    assert_eq!(ws.iter().map(|w| w.end - w.start).sum::<usize>(), 8192);
    assert_eq!(ws[0], ByteWindow { ppn: PhysPageNum(0x110), start: 8, end: 4096 });
    assert_eq!(ws[2], ByteWindow { ppn: PhysPageNum(0x112), start: 0, end: 8 });
    // inside one page
    let ws = translated_byte_buffer(&mem, pt.token(), 0x13010, 16);
    assert_eq!(ws, vec![ByteWindow { ppn: PhysPageNum(0x113), start: 0x10, end: 0x20 }]);
    // empty buffer
    assert!(translated_byte_buffer(&mem, pt.token(), 0x13010, 0).is_empty());
}
