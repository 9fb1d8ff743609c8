use os_core::mm::address::{PhysPageNum, VPNRange, VirtAddr, VirtPageNum};
use os_core::mm::error::{MMError, PageError};
use os_core::mm::flags::{MapPermission, PTEFlags, MAP_R, MAP_U, MAP_W, PTE_V};
use os_core::mm::frame_allocator::FrameAllocator;
use os_core::mm::memory_area::{MapArea, MapType};
use os_core::mm::page_table::{PageTable, PageTableEntry};

fn rw_user() -> MapPermission {
    MapPermission::from_bits(MAP_R | MAP_W | MAP_U).unwrap()
}

fn framed(start: u64, end: u64) -> MapArea {
    MapArea::new(VirtAddr(start * 4096), VirtAddr(end * 4096), MapType::Framed, rw_user())
}

#[test]
fn a_new_area_covers_the_pages_of_its_addresses() {
    let a = MapArea::new(VirtAddr(0x1001), VirtAddr(0x3001), MapType::Framed, rw_user());
    assert_eq!(a.get_range().get_start(), VirtPageNum(1));
    assert_eq!(a.get_range().get_end(), VirtPageNum(4));
    assert_eq!(a.map_type(), MapType::Framed);
    assert_eq!(a.map_perm().bits(), 0x16);
    assert!(a.frame(VirtPageNum(1)).is_none());
}

#[test]
fn ensure_page_raw_maps_a_zero_filled_frame_once() {
    let mut alloc = FrameAllocator::new(PhysPageNum(0x100), PhysPageNum(0x110));
    let mut pt = PageTable::new(&mut alloc).unwrap();
    let mut area = framed(8, 12);
    assert_eq!(area.ensure_page_raw(&mut alloc, &mut pt, VirtPageNum(9)), Ok(()));
    // one data frame and two directories
    assert_eq!(alloc.remaining(), 12);
    let frame = area.frame(VirtPageNum(9)).unwrap();
    assert!(frame.get_bytes_array().iter().all(|b| *b == 0));
    let pte = pt.translate(VirtPageNum(9)).unwrap();
    assert_eq!(pte, PageTableEntry::new(frame.ppn(), PTEFlags { bits: 0x16 | PTE_V }));
    assert_eq!(area.ensure_page_raw(&mut alloc, &mut pt, VirtPageNum(9)), Ok(()));
    assert_eq!(alloc.remaining(), 12);
    assert!(area.frame(VirtPageNum(8)).is_none());
}

#[test]
fn ensure_page_raw_rolls_back_when_the_page_is_mapped() {
    let mut alloc = FrameAllocator::new(PhysPageNum(0x100), PhysPageNum(0x110));
    let mut pt = PageTable::new(&mut alloc).unwrap();
    pt.map(&mut alloc, VirtPageNum(9), PhysPageNum(1), PTEFlags { bits: 2 }).unwrap();
    let before = alloc.remaining();
    let mut area = framed(8, 12);
    assert_eq!(
        area.ensure_page_raw(&mut alloc, &mut pt, VirtPageNum(9)),
        Err(MMError::PageError(PageError::PageAlreadyMapped))
    );
    assert_eq!(alloc.remaining(), before);
    assert!(area.frame(VirtPageNum(9)).is_none());
    assert_eq!(pt.translate(VirtPageNum(9)).unwrap().ppn(), PhysPageNum(1));
    // the frame that was taken and given back is the next to be handed out
    let again = alloc.allocate().unwrap();
    alloc.deallocate(again);
    assert_eq!(area.ensure_page_raw(&mut alloc, &mut pt, VirtPageNum(10)), Ok(()));
    assert_eq!(area.frame(VirtPageNum(10)).unwrap().ppn(), again);
}

#[test]
fn ensure_page_raw_rolls_back_when_frames_are_lacking() {
    // the root takes one frame; one is left where three are needed
    let mut alloc = FrameAllocator::new(PhysPageNum(0x100), PhysPageNum(0x102));
    let mut pt = PageTable::new(&mut alloc).unwrap();
    let mut area = framed(8, 12);
    assert_eq!(
        area.ensure_page_raw(&mut alloc, &mut pt, VirtPageNum(9)),
        Err(MMError::NotEnoughMemory)
    );
    assert_eq!(alloc.remaining(), 1);
    assert!(area.frame(VirtPageNum(9)).is_none());
    assert_eq!(pt.translate(VirtPageNum(9)), Err(MMError::PageError(PageError::InvalidDirPage)));
    let mut empty = FrameAllocator::new(PhysPageNum(1), PhysPageNum(1));
    assert_eq!(
        area.ensure_page_raw(&mut empty, &mut pt, VirtPageNum(9)),
        Err(MMError::NotEnoughMemory)
    );
}

#[test]
fn ensure_range_materializes_the_intersection_and_stops_at_a_failure() {
    let mut alloc = FrameAllocator::new(PhysPageNum(0x100), PhysPageNum(0x106));
    let mut pt = PageTable::new(&mut alloc).unwrap();
    let mut area = framed(8, 20);
    let wanted = VPNRange::new(VirtPageNum(0), VirtPageNum(10));
    assert_eq!(area.ensure_range(&mut alloc, &mut pt, wanted), Ok(()));
    assert!(area.frame(VirtPageNum(8)).is_some());
    assert!(area.frame(VirtPageNum(9)).is_some());
    assert!(area.frame(VirtPageNum(10)).is_none());
    // 5 frames were left: two directories and two pages took four
    assert_eq!(alloc.remaining(), 1);
    assert_eq!(area.ensure_all(&mut alloc, &mut pt), Err(MMError::NotEnoughMemory));
    assert!(area.frame(VirtPageNum(10)).is_some());
    assert!(area.frame(VirtPageNum(11)).is_none());
    assert_eq!(alloc.remaining(), 0);
    for v in 8..11 {
        let f = area.frame(VirtPageNum(v)).unwrap();
        assert_eq!(pt.translate(VirtPageNum(v)).unwrap().ppn(), f.ppn());
        assert!(area.get_range().contains_vpn(VirtPageNum(v)));
    }
}

#[test]
fn map_of_an_identity_area_maps_each_page_to_its_own_number() {
    let mut alloc = FrameAllocator::new(PhysPageNum(0x100), PhysPageNum(0x110));
    let mut pt = PageTable::new(&mut alloc).unwrap();
    let perm = MapPermission::from_bits(MAP_R).unwrap();
    let mut area = MapArea::new(VirtAddr(0x5000), VirtAddr(0x8000), MapType::Identical, perm);
    assert_eq!(area.map(&mut alloc, &mut pt), Ok(()));
    for v in 5..8 {
        let pte = pt.translate(VirtPageNum(v)).unwrap();
        assert_eq!(pte, PageTableEntry::new(PhysPageNum(v), PTEFlags { bits: MAP_R | PTE_V }));
    }
    assert!(area.frame(VirtPageNum(5)).is_none());
    assert_eq!(area.map_one(&mut alloc, &mut pt, VirtPageNum(6)),
        Err(MMError::PageError(PageError::PageAlreadyMapped)));
    assert_eq!(area.ensure_all(&mut alloc, &mut pt), Ok(()));
    assert!(area.frame(VirtPageNum(5)).is_none());
    assert_eq!(area.unmap(&mut alloc, &mut pt), Ok(()));
    for v in 5..8 {
        assert!(!pt.translate(VirtPageNum(v)).unwrap().is_valid());
    }
}

#[test]
fn map_of_an_identity_area_fails_at_a_page_that_is_mapped() {
    let mut alloc = FrameAllocator::new(PhysPageNum(0x100), PhysPageNum(0x110));
    let mut pt = PageTable::new(&mut alloc).unwrap();
    let perm = MapPermission::from_bits(MAP_R).unwrap();
    // the page is mapped to itself already, with the flags that the area would give it
    let same = PTEFlags { bits: MAP_R };
    pt.map(&mut alloc, VirtPageNum(6), PhysPageNum(6), same).unwrap();
    let held = pt.translate(VirtPageNum(6)).unwrap();
    let mut area = MapArea::new(VirtAddr(0x5000), VirtAddr(0x8000), MapType::Identical, perm);
    assert_eq!(area.map(&mut alloc, &mut pt), Err(MMError::PageError(PageError::PageAlreadyMapped)));
    assert_eq!(area.get_range().get_start().0, 5);
    assert_eq!(area.get_range().get_end().0, 8);
    assert!(pt.translate(VirtPageNum(5)).unwrap().is_valid());
    assert_eq!(pt.translate(VirtPageNum(6)).unwrap(), held);
    assert!(!pt.translate(VirtPageNum(7)).unwrap().is_valid());
}

#[test]
fn append_to_keeps_the_range_when_a_new_page_is_mapped() {
    let mut alloc = FrameAllocator::new(PhysPageNum(0x100), PhysPageNum(0x110));
    let mut pt = PageTable::new(&mut alloc).unwrap();
    let perm = MapPermission::from_bits(MAP_R).unwrap();
    let mut area = MapArea::new(VirtAddr(0x5000), VirtAddr(0x6000), MapType::Identical, perm);
    assert_eq!(area.map(&mut alloc, &mut pt), Ok(()));
    pt.map(&mut alloc, VirtPageNum(7), PhysPageNum(7), PTEFlags { bits: MAP_R }).unwrap();
    assert_eq!(
        area.append_to(&mut alloc, &mut pt, VirtPageNum(9)),
        Err(MMError::PageError(PageError::PageAlreadyMapped))
    );
    assert_eq!(area.get_range().get_start().0, 5);
    assert_eq!(area.get_range().get_end().0, 6);
    assert!(!pt.translate(VirtPageNum(8)).unwrap().is_valid());
}

#[test]
fn map_of_a_framed_area_allocates_nothing() {
    let mut alloc = FrameAllocator::new(PhysPageNum(0x100), PhysPageNum(0x110));
    let mut pt = PageTable::new(&mut alloc).unwrap();
    let mut area = framed(8, 12);
    let before = alloc.remaining();
    assert_eq!(area.map(&mut alloc, &mut pt), Ok(()));
    assert_eq!(area.map_one(&mut alloc, &mut pt, VirtPageNum(9)), Ok(()));
    assert_eq!(alloc.remaining(), before);
    assert_eq!(pt.translate(VirtPageNum(9)), Err(MMError::PageError(PageError::InvalidDirPage)));
}

#[test]
fn unmap_one_tolerates_pages_that_were_never_mapped() {
    let mut alloc = FrameAllocator::new(PhysPageNum(0x100), PhysPageNum(0x110));
    let mut pt = PageTable::new(&mut alloc).unwrap();
    let mut area = framed(8, 12);
    assert_eq!(area.unmap_one(&mut alloc, &mut pt, VirtPageNum(9)), Ok(()));
    area.ensure_page_raw(&mut alloc, &mut pt, VirtPageNum(9)).unwrap();
    let left = alloc.remaining();
    assert_eq!(area.unmap_one(&mut alloc, &mut pt, VirtPageNum(10)), Ok(()));
    assert_eq!(alloc.remaining(), left);
    assert_eq!(area.unmap_one(&mut alloc, &mut pt, VirtPageNum(9)), Ok(()));
    assert_eq!(alloc.remaining(), left + 1);
    assert!(area.frame(VirtPageNum(9)).is_none());
    assert!(!pt.translate(VirtPageNum(9)).unwrap().is_valid());
}

#[test]
fn shrink_and_append_move_the_end() {
    let mut alloc = FrameAllocator::new(PhysPageNum(0x100), PhysPageNum(0x120));
    let mut pt = PageTable::new(&mut alloc).unwrap();
    let mut area = framed(8, 12);
    area.ensure_all(&mut alloc, &mut pt).unwrap();
    let left = alloc.remaining();
    assert_eq!(area.shrink_to(&mut alloc, &mut pt, VirtPageNum(10)), Ok(()));
    assert_eq!(area.get_range().get_end(), VirtPageNum(10));
    assert_eq!(alloc.remaining(), left + 2);
    assert!(area.frame(VirtPageNum(9)).is_some());
    assert!(area.frame(VirtPageNum(10)).is_none());
    assert!(!pt.translate(VirtPageNum(11)).unwrap().is_valid());
    assert!(pt.translate(VirtPageNum(9)).unwrap().is_valid());
    assert_eq!(area.append_to(&mut alloc, &mut pt, VirtPageNum(14)), Ok(()));
    assert_eq!(area.get_range().get_end(), VirtPageNum(14));
    assert_eq!(alloc.remaining(), left + 2);
    assert!(area.frame(VirtPageNum(12)).is_none());
    assert_eq!(area.shrink_to(&mut alloc, &mut pt, VirtPageNum(8)), Ok(()));
    assert_eq!(area.get_range().len(), 0);
    assert_eq!(alloc.remaining(), left + 4);
}

#[test]
fn split_divides_range_and_frames_at_the_page() {
    let mut alloc = FrameAllocator::new(PhysPageNum(0x100), PhysPageNum(0x120));
    let mut pt = PageTable::new(&mut alloc).unwrap();
    let mut area = framed(8, 12);
    area.ensure_page_raw(&mut alloc, &mut pt, VirtPageNum(8)).unwrap();
    area.ensure_page_raw(&mut alloc, &mut pt, VirtPageNum(10)).unwrap();
    area.ensure_page_raw(&mut alloc, &mut pt, VirtPageNum(11)).unwrap();
    let frame_low = area.frame(VirtPageNum(8)).unwrap().ppn();
    let frame_high = area.frame(VirtPageNum(10)).unwrap().ppn();
    let (left, right) = area.split(VirtPageNum(10));
    assert_eq!((left.get_range().get_start(), left.get_range().get_end()), (VirtPageNum(8), VirtPageNum(10)));
    assert_eq!((right.get_range().get_start(), right.get_range().get_end()), (VirtPageNum(10), VirtPageNum(12)));
    assert_eq!(left.frame(VirtPageNum(8)).unwrap().ppn(), frame_low);
    assert!(left.frame(VirtPageNum(10)).is_none());
    assert!(left.frame(VirtPageNum(11)).is_none());
    assert_eq!(right.frame(VirtPageNum(10)).unwrap().ppn(), frame_high);
    assert!(right.frame(VirtPageNum(11)).is_some());
    assert!(right.frame(VirtPageNum(8)).is_none());
    assert_eq!(left.map_type(), MapType::Framed);
    assert_eq!(right.map_perm().bits(), 0x16);
}

#[test]
fn split_outside_the_range_gives_the_whole_and_an_empty_area() {
    let (l, r) = framed(8, 12).split(VirtPageNum(8));
    assert_eq!((l.get_range().get_start(), l.get_range().get_end()), (VirtPageNum(8), VirtPageNum(8)));
    assert_eq!((r.get_range().get_start(), r.get_range().get_end()), (VirtPageNum(8), VirtPageNum(12)));
    let (l, r) = framed(8, 12).split(VirtPageNum(3));
    assert_eq!((l.get_range().get_start(), l.get_range().get_end()), (VirtPageNum(3), VirtPageNum(3)));
    assert_eq!((r.get_range().get_start(), r.get_range().get_end()), (VirtPageNum(8), VirtPageNum(12)));
    let (l, r) = framed(8, 12).split(VirtPageNum(12));
    assert_eq!((l.get_range().get_start(), l.get_range().get_end()), (VirtPageNum(8), VirtPageNum(12)));
    assert_eq!((r.get_range().get_start(), r.get_range().get_end()), (VirtPageNum(12), VirtPageNum(12)));
    let (l, r) = framed(8, 12).split(VirtPageNum(40));
    assert_eq!(l.get_range().len(), 4);
    assert_eq!((r.get_range().get_start(), r.get_range().get_end()), (VirtPageNum(40), VirtPageNum(40)));
}

#[test]
fn copy_data_fills_the_first_pages_and_pads_with_zeros() {
    let mut alloc = FrameAllocator::new(PhysPageNum(0x100), PhysPageNum(0x120));
    let mut pt = PageTable::new(&mut alloc).unwrap();
    let mut area = framed(8, 12);
    let data: Vec<u8> = (0..5000u32).map(|i| (i % 251) as u8 + 1).collect();
    assert_eq!(area.copy_data(&mut alloc, &mut pt, &data), Ok(()));
    let first = area.frame(VirtPageNum(8)).unwrap();
    assert_eq!(first.get_bytes_array(), &data[..4096]);
    let second = area.frame(VirtPageNum(9)).unwrap();
    assert_eq!(&second.get_bytes_array()[..904], &data[4096..]);
    assert!(second.get_bytes_array()[904..].iter().all(|b| *b == 0));
    assert!(area.frame(VirtPageNum(10)).is_none());
    // a second copy overwrites the start and keeps the rest
    assert_eq!(area.copy_data(&mut alloc, &mut pt, &[9, 9]), Ok(()));
    let first = area.frame(VirtPageNum(8)).unwrap();
    assert_eq!(&first.get_bytes_array()[..4], &[9, 9, data[2], data[3]]);
    assert_eq!(area.copy_data(&mut alloc, &mut pt, &[]), Ok(()));
}

#[test]
fn copy_data_copies_nothing_when_frames_are_lacking() {
    let mut alloc = FrameAllocator::new(PhysPageNum(0x100), PhysPageNum(0x104));
    let mut pt = PageTable::new(&mut alloc).unwrap();
    let mut area = framed(8, 12);
    let data = vec![7u8; 3 * 4096];
    assert_eq!(area.copy_data(&mut alloc, &mut pt, &data), Err(MMError::NotEnoughMemory));
    let first = area.frame(VirtPageNum(8)).unwrap();
    assert!(first.get_bytes_array().iter().all(|b| *b == 0));
    assert!(area.frame(VirtPageNum(9)).is_none());
}
