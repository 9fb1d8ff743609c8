use os_core::mm::address::{PhysPageNum, VirtPageNum};
use os_core::mm::error::{MMError, PageError};
use os_core::mm::flags::{MapPermission, PTEFlags, MAP_R, MAP_U, MAP_W, MAP_X, PTE_R, PTE_U, PTE_V, PTE_W, PTE_X};
use os_core::mm::frame_allocator::FrameAllocator;
use os_core::mm::page_table::{PageTable, PageTableEntry};

#[test]
fn an_entry_holds_the_page_number_above_the_flags() {
    let e = PageTableEntry::new(PhysPageNum(0x12345), PTEFlags { bits: PTE_V | PTE_R | PTE_W });
    assert_eq!(e.bits, (0x12345 << 10) | 0x7);
    assert_eq!(e.ppn(), PhysPageNum(0x12345));
    assert_eq!(e.flags(), PTEFlags { bits: 0x7 });
    assert!(e.is_valid());
    assert!(e.readable());
    assert!(e.writable());
    assert!(!e.executable());
    let top = PageTableEntry::new(PhysPageNum((1 << 44) - 1), PTEFlags { bits: 0xff });
    assert_eq!(top.ppn(), PhysPageNum((1 << 44) - 1));
    assert_eq!(top.flags().bits, 0xff);
    assert_eq!(top.bits, (1u64 << 54) - 1 - 0x300);
    let empty = PageTableEntry::empty();
    assert_eq!(empty.bits, 0);
    assert!(!empty.is_valid());
}

#[test]
fn permissions_sit_on_the_bits_of_the_entry_flags() {
    assert_eq!((MAP_R, MAP_W, MAP_X, MAP_U), (PTE_R, PTE_W, PTE_X, PTE_U));
    assert_eq!((MAP_R, MAP_W, MAP_X, MAP_U), (2, 4, 8, 16));
    let p = MapPermission::from_bits(MAP_R | MAP_U).unwrap();
    assert_eq!(p.bits(), 0x12);
    assert_eq!(p.as_pte_flags().bits, 0x12);
    assert!(p.contains(MapPermission::from_bits(MAP_R).unwrap()));
    assert!(!p.contains(MapPermission::from_bits(MAP_W).unwrap()));
    assert_eq!(p.union(MapPermission::from_bits(MAP_W).unwrap()).bits(), 0x16);
    assert!(MapPermission::from_bits(1).is_none());
    assert!(MapPermission::from_bits(0x20).is_none());
    assert!(MapPermission::from_bits(0).is_some());
    assert_eq!(PTEFlags::from_bits(0xff), Some(PTEFlags { bits: 0xff }));
    assert!(PTEFlags { bits: 0x7 }.contains(PTEFlags { bits: 0x3 }));
    assert_eq!(PTEFlags { bits: 0x1 }.union(PTEFlags { bits: 0x8 }).bits, 0x9);
}

#[test]
fn a_new_table_has_one_frame_and_no_directory() {
    let mut a = FrameAllocator::new(PhysPageNum(0x80), PhysPageNum(0x90));
    let pt = PageTable::new(&mut a).unwrap();
    assert_eq!(pt.token(), (8u64 << 60) | 0x80);
    assert_eq!(a.remaining(), 15);
    assert_eq!(
        pt.translate(VirtPageNum(0)),
        Err(MMError::PageError(PageError::InvalidDirPage))
    );
    let mut none = FrameAllocator::new(PhysPageNum(1), PhysPageNum(1));
    assert!(matches!(PageTable::new(&mut none), Err(MMError::NotEnoughMemory)));
}

#[test]
fn map_installs_the_entry_and_the_directories_on_the_way() {
    let mut a = FrameAllocator::new(PhysPageNum(0x80), PhysPageNum(0x90));
    let mut pt = PageTable::new(&mut a).unwrap();
    let vpn = VirtPageNum((1 << 18) | (2 << 9) | 3);
    assert_eq!(pt.map(&mut a, vpn, PhysPageNum(0x1234), PTEFlags { bits: PTE_R | PTE_U }), Ok(()));
    assert_eq!(a.remaining(), 13);
    let e = pt.translate(vpn).unwrap();
    assert!(e.is_valid());
    assert_eq!(e.ppn(), PhysPageNum(0x1234));
    assert_eq!(e.flags().bits, PTE_V | PTE_R | PTE_U);
    // a neighbour in the same leaf table needs no frame
    let next = VirtPageNum(vpn.0 + 1);
    assert_eq!(pt.translate(next), Ok(PageTableEntry::empty()));
    assert_eq!(pt.map(&mut a, next, PhysPageNum(0x1235), PTEFlags { bits: PTE_W }), Ok(()));
    assert_eq!(a.remaining(), 13);
    // a page under the same root slot needs one frame
    let cousin = VirtPageNum((1 << 18) | (7 << 9));
    assert_eq!(pt.translate(cousin), Err(MMError::PageError(PageError::InvalidDirPage)));
    assert_eq!(pt.map(&mut a, cousin, PhysPageNum(1), PTEFlags { bits: 0 }), Ok(()));
    assert_eq!(a.remaining(), 12);
    assert_eq!(pt.translate(vpn).unwrap().ppn(), PhysPageNum(0x1234));
}

#[test]
fn map_refuses_a_page_that_is_mapped() {
    let mut a = FrameAllocator::new(PhysPageNum(0x80), PhysPageNum(0x90));
    let mut pt = PageTable::new(&mut a).unwrap();
    let vpn = VirtPageNum(5);
    pt.map(&mut a, vpn, PhysPageNum(9), PTEFlags { bits: PTE_R }).unwrap();
    let left = a.remaining();
    assert_eq!(
        pt.map(&mut a, vpn, PhysPageNum(10), PTEFlags { bits: PTE_W }),
        Err(MMError::PageError(PageError::PageAlreadyMapped))
    );
    assert_eq!(a.remaining(), left);
    assert_eq!(pt.translate(vpn).unwrap().ppn(), PhysPageNum(9));
}

#[test]
fn map_changes_nothing_when_frames_are_lacking() {
    let mut a = FrameAllocator::new(PhysPageNum(0x80), PhysPageNum(0x82));
    let mut pt = PageTable::new(&mut a).unwrap();
    // two directories are needed, one frame is left
    assert_eq!(
        pt.map(&mut a, VirtPageNum(5), PhysPageNum(9), PTEFlags { bits: PTE_R }),
        Err(MMError::NotEnoughMemory)
    );
    assert_eq!(a.remaining(), 1);
    assert_eq!(pt.translate(VirtPageNum(5)), Err(MMError::PageError(PageError::InvalidDirPage)));
}

#[test]
fn unmap_clears_the_entry_and_keeps_the_directories() {
    let mut a = FrameAllocator::new(PhysPageNum(0x80), PhysPageNum(0x90));
    let mut pt = PageTable::new(&mut a).unwrap();
    assert_eq!(pt.unmap(VirtPageNum(5)), Err(MMError::PageError(PageError::InvalidDirPage)));
    pt.map(&mut a, VirtPageNum(5), PhysPageNum(9), PTEFlags { bits: PTE_R }).unwrap();
    assert_eq!(pt.unmap(VirtPageNum(6)), Err(MMError::PageError(PageError::PageInvalid)));
    let left = a.remaining();
    assert_eq!(pt.unmap(VirtPageNum(5)), Ok(()));
    assert_eq!(a.remaining(), left);
    assert_eq!(pt.translate(VirtPageNum(5)), Ok(PageTableEntry::empty()));
    assert_eq!(pt.unmap(VirtPageNum(5)), Err(MMError::PageError(PageError::PageInvalid)));
    assert_eq!(pt.map(&mut a, VirtPageNum(5), PhysPageNum(11), PTEFlags { bits: 0 }), Ok(()));
    assert_eq!(a.remaining(), left);
}

#[test]
fn release_gives_every_frame_of_the_table_back() {
    let mut a = FrameAllocator::new(PhysPageNum(0x80), PhysPageNum(0x90));
    let mut pt = PageTable::new(&mut a).unwrap();
    pt.map(&mut a, VirtPageNum(5), PhysPageNum(9), PTEFlags { bits: PTE_R }).unwrap();
    pt.map(&mut a, VirtPageNum(1 << 20), PhysPageNum(9), PTEFlags { bits: PTE_R }).unwrap();
    assert_eq!(a.remaining(), 11);
    pt.release(&mut a);
    assert_eq!(a.remaining(), 16);
}

#[test]
fn a_view_from_a_token_owns_nothing() {
    let mut a = FrameAllocator::new(PhysPageNum(0x80), PhysPageNum(0x90));
    let pt = PageTable::new(&mut a).unwrap();
    let view = PageTable::from_token(pt.token());
    assert_eq!(view.token(), pt.token());
    assert_eq!(view.translate(VirtPageNum(0)), Err(MMError::PageError(PageError::InvalidDirPage)));
    let left = a.remaining();
    view.release(&mut a);
    assert_eq!(a.remaining(), left);
}
