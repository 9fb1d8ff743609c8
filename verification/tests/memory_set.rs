use os_core::mm::address::{PhysPageNum, VPNRange, VirtAddr, VirtPageNum};
use os_core::mm::error::{MMError, PageError};
use os_core::mm::flags::{MapPermission, PTEFlags, MAP_R, MAP_U, MAP_W, MAP_X, PTE_V};
use os_core::mm::frame_allocator::FrameAllocator;
use os_core::mm::memory_area::{MapArea, MapType};
use os_core::mm::memory_set::MemorySet;
use os_core::mm::page_table::PageTableEntry;
use os_core::mm::user_buffer::{
    check_user_range, read_user, translated_byte_buffer, translated_str, write_user, UserBuffer,
};

fn perm_rw() -> MapPermission {
    MapPermission::from_bits(MAP_R | MAP_W | MAP_U).unwrap()
}

fn space(frames: u64) -> (FrameAllocator, MemorySet) {
    let mut alloc = FrameAllocator::new(PhysPageNum(0x1000), PhysPageNum(0x1000 + frames));
    let ms = MemorySet::new_bare(&mut alloc).unwrap();
    (alloc, ms)
}

fn ranges_of(ms: &MemorySet) -> Vec<(u64, u64)> {
    (0..ms.area_count())
        .map(|i| (ms.area(i).get_range().get_start().0, ms.area(i).get_range().get_end().0))
        .collect()
}

#[test]
fn a_bare_space_has_a_root_and_no_area() {
    let (alloc, ms) = space(8);
    assert_eq!(alloc.remaining(), 7);
    assert_eq!(ms.area_count(), 0);
    assert_eq!(ms.token(), (8u64 << 60) | 0x1000);
    let mut none = FrameAllocator::new(PhysPageNum(1), PhysPageNum(1));
    assert!(matches!(MemorySet::new_bare(&mut none), Err(MMError::NotEnoughMemory)));
}

#[test]
fn insert_framed_area_is_lazy() {
    let (mut alloc, mut ms) = space(8);
    assert_eq!(ms.insert_framed_area(&mut alloc, VirtAddr(0x10000), VirtAddr(0x12000), perm_rw()), Ok(()));
    assert_eq!(alloc.remaining(), 7);
    assert_eq!(ranges_of(&ms), vec![(0x10, 0x12)]);
    assert_eq!(ms.area(0).map_type(), MapType::Framed);
    assert!(ms.find_page(VirtPageNum(0x10)).is_none());
    assert!(!ms.check_free(VPNRange::new(VirtPageNum(0x11), VirtPageNum(0x20))));
    assert!(ms.check_free(VPNRange::new(VirtPageNum(0x12), VirtPageNum(0x20))));
    assert!(ms.check_free(VPNRange::new(VirtPageNum(0x11), VirtPageNum(0x11))));
    assert_eq!(ms.find_area(VirtPageNum(0x10)), Some(0));
    assert_eq!(ms.find_area(VirtPageNum(0x11)), None);
}

#[test]
fn areas_of_a_space_never_share_a_page() {
    let (mut alloc, mut ms) = space(64);
    assert_eq!(ms.mmap(&mut alloc, 0x10000, 0x3000, 3), 0);
    assert_eq!(ms.mmap(&mut alloc, 0x12000, 0x1000, 3), -1);
    assert_eq!(ms.mmap(&mut alloc, 0x0f000, 0x2000, 3), -1);
    assert_eq!(ms.mmap(&mut alloc, 0x13000, 0x1000, 1), 0);
    assert_eq!(ms.mmap(&mut alloc, 0x0f000, 0x1000, 7), 0);
    let r = ranges_of(&ms);
    for i in 0..r.len() {
        for j in 0..r.len() {
            if i != j {
                assert!(r[i].1 <= r[j].0 || r[j].1 <= r[i].0);
            }
        }
    }
}

#[test]
fn push_copies_data_into_framed_area() {
    let (mut alloc, mut ms) = space(16);
    let area = MapArea::new(VirtAddr(0x20000), VirtAddr(0x23000), MapType::Framed, perm_rw());
    let data: Vec<u8> = (0..6000u32).map(|i| (i % 200) as u8).collect();
    assert_eq!(ms.push(&mut alloc, area, Some(&data)), Ok(()));
    assert_eq!(ms.read_page(VirtPageNum(0x20), 0, 4096).unwrap(), data[..4096].to_vec());
    assert_eq!(ms.read_page(VirtPageNum(0x21), 0, 1904).unwrap(), data[4096..].to_vec());
    assert_eq!(ms.read_page(VirtPageNum(0x21), 1904, 4096).unwrap(), vec![0u8; 2192]);
    assert!(ms.read_page(VirtPageNum(0x22), 0, 1).is_none());
    let back = read_user(&ms, 0x20000, 6000).unwrap();
    assert_eq!(back, data);
    let padded = read_user(&ms, 0x20000, 8192).unwrap();
    assert_eq!(&padded[..6000], &data[..]);
    assert!(padded[6000..].iter().all(|b| *b == 0));
}

#[test]
fn push_maps_an_identity_area_and_rolls_back_on_failure() {
    let (mut alloc, mut ms) = space(16);
    let perm = MapPermission::from_bits(MAP_R | MAP_X).unwrap();
    let area = MapArea::new(VirtAddr(0x5000), VirtAddr(0x7000), MapType::Identical, perm);
    assert_eq!(ms.push(&mut alloc, area, None), Ok(()));
    assert_eq!(
        ms.translate(VirtPageNum(6)).unwrap(),
        PageTableEntry::new(PhysPageNum(6), PTEFlags { bits: MAP_R | MAP_X | PTE_V })
    );
    // 600 pages span two leaf tables; two frames are not enough for the second
    let (mut small, mut tight) = space(3);
    let big = MapArea::new(VirtAddr(0), VirtAddr(600 * 4096), MapType::Identical, perm);
    assert_eq!(tight.push(&mut small, big, None), Err(MMError::NotEnoughMemory));
    assert_eq!(tight.area_count(), 0);
    for v in [0u64, 1, 511] {
        assert!(!tight.translate(VirtPageNum(v)).unwrap().is_valid());
    }
    assert_eq!(tight.translate(VirtPageNum(512)), Err(MMError::PageError(PageError::InvalidDirPage)));
}

#[test]
fn shrink_and_append_find_the_area_by_its_start() {
    let (mut alloc, mut ms) = space(32);
    ms.insert_framed_area(&mut alloc, VirtAddr(0x10000), VirtAddr(0x14000), perm_rw()).unwrap();
    ms.insert_framed_area(&mut alloc, VirtAddr(0x20000), VirtAddr(0x21000), perm_rw()).unwrap();
    ms.ensure_area(&mut alloc, 0).unwrap();
    let left = alloc.remaining();
    assert!(!ms.shrink_to(&mut alloc, VirtAddr(0x11000), VirtAddr(0x12000)));
    assert!(!ms.shrink_to(&mut alloc, VirtAddr(0x10000), VirtAddr(0x15000)));
    assert!(ms.shrink_to(&mut alloc, VirtAddr(0x10000), VirtAddr(0x11001)));
    assert_eq!(ranges_of(&ms), vec![(0x10, 0x12), (0x20, 0x21)]);
    assert_eq!(alloc.remaining(), left + 2);
    assert!(ms.find_page(VirtPageNum(0x11)).is_some());
    assert!(ms.find_page(VirtPageNum(0x12)).is_none());
    assert!(ms.append_to(&mut alloc, VirtAddr(0x10000), VirtAddr(0x20000)));
    assert_eq!(ranges_of(&ms), vec![(0x10, 0x20), (0x20, 0x21)]);
    assert!(!ms.append_to(&mut alloc, VirtAddr(0x10000), VirtAddr(0x20001)));
    assert!(!ms.append_to(&mut alloc, VirtAddr(0x10000), VirtAddr(0x1f000)));
    assert!(!ms.append_to(&mut alloc, VirtAddr(0x30000), VirtAddr(0x31000)));
    assert_eq!(ranges_of(&ms), vec![(0x10, 0x20), (0x20, 0x21)]);
    assert_eq!(alloc.remaining(), left + 2);
}

#[test]
fn remove_area_unmaps_and_frees() {
    let (mut alloc, mut ms) = space(32);
    ms.insert_framed_area(&mut alloc, VirtAddr(0x10000), VirtAddr(0x14000), perm_rw()).unwrap();
    ms.insert_framed_area(&mut alloc, VirtAddr(0x20000), VirtAddr(0x21000), perm_rw()).unwrap();
    ms.ensure_area(&mut alloc, 0).unwrap();
    ms.ensure_area(&mut alloc, 1).unwrap();
    let left = alloc.remaining();
    assert!(!ms.remove_area_with_start_vpn(&mut alloc, VirtPageNum(0x11)));
    assert!(ms.remove_area_with_start_vpn(&mut alloc, VirtPageNum(0x10)));
    assert_eq!(alloc.remaining(), left + 4);
    assert_eq!(ranges_of(&ms), vec![(0x20, 0x21)]);
    assert!(!ms.translate(VirtPageNum(0x10)).unwrap().is_valid());
    assert!(ms.translate(VirtPageNum(0x20)).unwrap().is_valid());
    ms.recycle_data_pages(&mut alloc);
    assert_eq!(ms.area_count(), 0);
    assert_eq!(alloc.remaining(), left + 5);
    assert!(!ms.translate(VirtPageNum(0x20)).unwrap().is_valid());
    ms.release(&mut alloc);
    assert_eq!(alloc.remaining(), 32);
}

#[test]
fn a_copied_space_has_the_same_bytes_in_frames_of_its_own() {
    let (mut alloc, mut parent) = space(64);
    assert_eq!(parent.mmap(&mut alloc, 0x10000, 0x3000, 3), 0);
    parent.insert_framed_area(&mut alloc, VirtAddr(0x40000), VirtAddr(0x48000), perm_rw()).unwrap();
    assert!(write_user(&mut parent, 0x10ffe, &[1, 2, 3, 4]));
    let before = alloc.remaining();
    let mut child = MemorySet::from_existed_user(&mut alloc, &parent).unwrap();
    // root, the same two directories, three pages
    assert_eq!(alloc.remaining(), before - 6);
    assert_eq!(ranges_of(&child), ranges_of(&parent));
    assert_eq!(child.area(0).map_perm().bits(), parent.area(0).map_perm().bits());
    assert_eq!(read_user(&child, 0x10ffe, 4).unwrap(), vec![1, 2, 3, 4]);
    assert_eq!(read_user(&child, 0x10000, 0x3000), read_user(&parent, 0x10000, 0x3000));
    assert!(child.find_page(VirtPageNum(0x40)).is_none());
    assert_ne!(child.token(), parent.token());
    for v in 0x10..0x13u64 {
        let p = parent.translate(VirtPageNum(v)).unwrap();
        let c = child.translate(VirtPageNum(v)).unwrap();
        assert!(p.is_valid() && c.is_valid());
        assert_ne!(p.ppn(), c.ppn());
        assert_eq!(p.flags(), c.flags());
    }
    // a write to one does not reach the other
    assert!(write_user(&mut child, 0x10000, &[9]));
    assert_eq!(read_user(&parent, 0x10000, 1).unwrap(), vec![0]);
    assert!(write_user(&mut parent, 0x12000, &[8]));
    assert_eq!(read_user(&child, 0x12000, 1).unwrap(), vec![0]);
    child.release(&mut alloc);
    assert_eq!(alloc.remaining(), before);
}

#[test]
fn a_failed_copy_gives_every_frame_back() {
    let (mut alloc, mut parent) = space(9);
    assert_eq!(parent.mmap(&mut alloc, 0x10000, 0x3000, 3), 0);
    // three frames are left; the copy needs six
    assert_eq!(alloc.remaining(), 3);
    assert!(matches!(
        MemorySet::from_existed_user(&mut alloc, &parent),
        Err(MMError::NotEnoughMemory)
    ));
    assert_eq!(alloc.remaining(), 3);
    assert_eq!(read_user(&parent, 0x10000, 4).unwrap(), vec![0; 4]);
}

#[test]
fn mmap_materializes_every_page_and_munmap_takes_them_away() {
    let (mut alloc, mut ms) = space(32);
    assert_eq!(ms.mmap(&mut alloc, 0x1000_0000, 8192, 3), 0);
    assert_eq!(ranges_of(&ms), vec![(0x10000, 0x10002)]);
    assert_eq!(ms.area(0).map_perm().bits(), MAP_R | MAP_W | MAP_U);
    assert!(write_user(&mut ms, 0x1000_0000, &[42]));
    assert!(write_user(&mut ms, 0x1000_1000, &[43]));
    assert_eq!(read_user(&ms, 0x1000_0000, 1).unwrap(), vec![42]);
    let pte = ms.translate(VirtPageNum(0x10000)).unwrap();
    assert_eq!(pte.flags().bits, MAP_R | MAP_W | MAP_U | PTE_V);
    assert_eq!(ms.munmap(&mut alloc, 0x1000_0000, 8192), 0);
    assert_eq!(ms.area_count(), 0);
    assert!(!write_user(&mut ms, 0x1000_0000, &[44]));
    assert!(read_user(&ms, 0x1000_0000, 1).is_none());
    assert!(!ms.translate(VirtPageNum(0x10000)).unwrap().is_valid());
}

#[test]
fn mmap_refuses_a_region_that_is_mapped() {
    let (mut alloc, mut ms) = space(32);
    assert_eq!(ms.mmap(&mut alloc, 0x1000_0000, 4096, 3), 0);
    let left = alloc.remaining();
    assert_eq!(ms.mmap(&mut alloc, 0x1000_0000, 4096, 3), -1);
    assert_eq!(alloc.remaining(), left);
    assert_eq!(ms.area_count(), 1);
}

#[test]
fn mmap_refuses_bad_arguments() {
    let (mut alloc, mut ms) = space(32);
    assert_eq!(ms.mmap(&mut alloc, 0x1000_0001, 4096, 3), -1);
    assert_eq!(ms.mmap(&mut alloc, 0x1000_0000, 4096, 0), -1);
    assert_eq!(ms.mmap(&mut alloc, 0x1000_0000, 4096, 8), -1);
    assert_eq!(ms.mmap(&mut alloc, 0x1000_0000, 4096, 0x13), -1);
    assert_eq!(ms.mmap(&mut alloc, (1 << 39) - 4096, 8192, 3), -1);
    assert_eq!(ms.area_count(), 0);
    assert_eq!(alloc.remaining(), 31);
    assert_eq!(ms.mmap(&mut alloc, 0x1000_0000, 4096, 7), 0);
    assert_eq!(ms.area(0).map_perm().bits(), 0x1e);
}

#[test]
fn mmap_then_munmap_restores_the_space() {
    let (mut alloc, mut ms) = space(32);
    ms.insert_framed_area(&mut alloc, VirtAddr(0x40000), VirtAddr(0x42000), perm_rw()).unwrap();
    ms.ensure_area(&mut alloc, 0).unwrap();
    write_user(&mut ms, 0x40000, &[5, 6, 7]);
    let areas = ranges_of(&ms);
    let bytes = read_user(&ms, 0x40000, 8192).unwrap();
    assert_eq!(ms.mmap(&mut alloc, 0x1000_0000, 3 * 4096, 1), 0);
    let during = alloc.remaining();
    assert_eq!(ms.munmap(&mut alloc, 0x1000_0000, 3 * 4096), 0);
    assert_eq!(ranges_of(&ms), areas);
    assert_eq!(read_user(&ms, 0x40000, 8192).unwrap(), bytes);
    for v in 0x10000..0x10003u64 {
        assert!(!ms.translate(VirtPageNum(v)).unwrap().is_valid());
    }
    assert_eq!(alloc.remaining(), during + 3);
    assert_eq!(ms.mmap(&mut alloc, 0x1000_0000, 3 * 4096, 1), 0);
    assert_eq!(alloc.remaining(), during);
}

#[test]
fn a_region_without_a_page_adds_an_area_without_a_page() {
    let (mut alloc, mut ms) = space(32);
    let free = alloc.remaining();
    assert_eq!(ms.mmap(&mut alloc, 0x1000_0000, 0, 5), 0);
    assert_eq!(ranges_of(&ms), vec![(0x10000, 0x10000)]);
    assert_eq!(ms.area(0).map_perm().bits(), MAP_R | MAP_X | MAP_U);
    assert_eq!(ms.area(0).map_type(), MapType::Framed);
    assert!(ms.area(0).frame(VirtPageNum(0x10000)).is_none());
    assert_eq!(alloc.remaining(), free);
    assert_eq!(ms.mmap(&mut alloc, 0x1000_0000, 8192, 3), 0);
    assert_eq!(ranges_of(&ms), vec![(0x10000, 0x10000), (0x10000, 0x10002)]);
    assert_eq!(ms.area(1).map_perm().bits(), MAP_R | MAP_W | MAP_U);
    // the region without a page names the area without a page
    assert_eq!(ms.munmap(&mut alloc, 0x1000_0000, 0), 0);
    assert_eq!(ranges_of(&ms), vec![(0x10000, 0x10002)]);
    assert_eq!(ms.munmap(&mut alloc, 0x1000_0000, 0), 0);
    assert_eq!(ranges_of(&ms), vec![(0x10000, 0x10002)]);
    assert_eq!(ms.munmap(&mut alloc, 0x1000_0000, 8192), 0);
    assert_eq!(ms.area_count(), 0);
    for v in 0x10000..0x10002u64 {
        assert!(!ms.translate(VirtPageNum(v)).unwrap().is_valid());
    }
    assert_eq!(ms.mmap(&mut alloc, 0x1000_0000, 8192, 3), 0);
}

#[test]
fn of_two_areas_without_a_page_the_last_is_unmapped() {
    let (mut alloc, mut ms) = space(32);
    assert_eq!(ms.mmap(&mut alloc, 0x1000_0000, 0, 1), 0);
    assert_eq!(ms.mmap(&mut alloc, 0x1000_0000, 0, 2), 0);
    assert_eq!(ms.area_count(), 2);
    assert_eq!(ms.munmap(&mut alloc, 0x1000_0000, 0), 0);
    assert_eq!(ms.area_count(), 1);
    assert_eq!(ms.area(0).map_perm().bits(), MAP_R | MAP_U);
}

#[test]
fn munmap_passes_over_an_area_without_a_page() {
    let (mut alloc, mut ms) = space(32);
    // an area without a page at the address, as the heap of a program is at first
    ms.insert_framed_area(&mut alloc, VirtAddr(0x1000_0000), VirtAddr(0x1000_0000), perm_rw()).unwrap();
    assert_eq!(ranges_of(&ms), vec![(0x10000, 0x10000)]);
    assert_eq!(ms.mmap(&mut alloc, 0x1000_0000, 8192, 3), 0);
    assert_eq!(ranges_of(&ms), vec![(0x10000, 0x10000), (0x10000, 0x10002)]);
    let during = alloc.remaining();
    write_user(&mut ms, 0x1000_0ffe, &[1, 2, 3, 4]);
    assert_eq!(ms.munmap(&mut alloc, 0x1000_0000, 8192), 0);
    assert_eq!(ranges_of(&ms), vec![(0x10000, 0x10000)]);
    for v in 0x10000..0x10002u64 {
        assert!(!ms.translate(VirtPageNum(v)).unwrap().is_valid());
    }
    assert!(!write_user(&mut ms, 0x1000_0000, &[1]));
    assert_eq!(alloc.remaining(), during + 2);
    assert_eq!(ms.munmap(&mut alloc, 0x1000_0000, 8192), -1);
    assert_eq!(ms.mmap(&mut alloc, 0x1000_0000, 8192, 3), 0);
    assert_eq!(read_user(&ms, 0x1000_0ffe, 4).unwrap(), vec![0, 0, 0, 0]);
}

#[test]
fn munmap_refuses_what_is_not_mapped() {
    let (mut alloc, mut ms) = space(32);
    assert_eq!(ms.mmap(&mut alloc, 0x1000_0000, 4096, 3), 0);
    assert_eq!(ms.munmap(&mut alloc, 0x1000_0001, 4096), -1);
    assert_eq!(ms.munmap(&mut alloc, 0x1000_0000, 8192), -1);
    assert_eq!(ms.munmap(&mut alloc, 0x2000_0000, 4096), -1);
    assert_eq!(ms.area_count(), 1);
    assert_eq!(ms.munmap(&mut alloc, 0x1000_0000, 4096), 0);
    assert_eq!(ms.munmap(&mut alloc, 0x1000_0000, 4096), -1);
}

#[test]
fn mmap_rolls_back_when_frames_are_lacking() {
    let (mut alloc, mut ms) = space(5);
    // four frames are left: two directories and two pages, the third page fails
    assert_eq!(ms.mmap(&mut alloc, 0x1000_0000, 3 * 4096, 3), -1);
    assert_eq!(ms.area_count(), 0);
    assert!(!ms.translate(VirtPageNum(0x10000)).unwrap().is_valid());
    assert_eq!(alloc.remaining(), 2);
    assert_eq!(ms.mmap(&mut alloc, 0x1000_0000, 2 * 4096, 3), 0);
}

#[test]
fn a_buffer_is_cut_at_page_boundaries() {
    let (mut alloc, mut ms) = space(32);
    assert_eq!(ms.mmap(&mut alloc, 0x10000, 3 * 4096, 3), 0);
    let segs = translated_byte_buffer(&ms, 0x10ff0, 0x1020);
    assert_eq!(segs.len(), 3);
    assert_eq!((segs[0].vpn, segs[0].start, segs[0].end), (VirtPageNum(0x10), 0xff0, 4096));
    assert_eq!((segs[1].vpn, segs[1].start, segs[1].end), (VirtPageNum(0x11), 0, 4096));
    assert_eq!((segs[2].vpn, segs[2].start, segs[2].end), (VirtPageNum(0x12), 0, 0x10));
    for s in segs.iter() {
        assert_eq!(s.ppn, ms.translate(s.vpn).unwrap().ppn());
    }
    let buffer = UserBuffer::new(segs);
    assert_eq!(buffer.len(), 0x1020);
    assert_eq!(translated_byte_buffer(&ms, 0x10000, 0).len(), 0);
    let one = translated_byte_buffer(&ms, 0x11000, 4096);
    assert_eq!(one.len(), 1);
    assert_eq!((one[0].start, one[0].end), (0, 4096));
    assert!(check_user_range(&ms, 0x10000, 3 * 4096));
    assert!(!check_user_range(&ms, 0x10000, 3 * 4096 + 1));
    assert!(!check_user_range(&ms, 0xffff, 2));
    assert!(check_user_range(&ms, 0x5000, 0));
}

#[test]
fn writes_and_reads_cross_pages() {
    let (mut alloc, mut ms) = space(32);
    assert_eq!(ms.mmap(&mut alloc, 0x10000, 2 * 4096, 3), 0);
    let data: Vec<u8> = (0..300u32).map(|i| i as u8).collect();
    assert!(write_user(&mut ms, 0x10f00, &data));
    assert_eq!(read_user(&ms, 0x10f00, 300).unwrap(), data);
    assert_eq!(ms.read_page(VirtPageNum(0x10), 0xf00, 0x1000).unwrap(), data[..256].to_vec());
    assert_eq!(ms.read_page(VirtPageNum(0x11), 0, 44).unwrap(), data[256..].to_vec());
    assert_eq!(read_user(&ms, 0x10eff, 1).unwrap(), vec![0]);
    assert!(!write_user(&mut ms, 0x11fff, &[1, 2]));
    assert_eq!(read_user(&ms, 0x11fff, 1).unwrap(), vec![0]);
    assert!(read_user(&ms, 0x11fff, 2).is_none());
}

#[test]
fn a_string_ends_at_the_first_zero_byte() {
    let (mut alloc, mut ms) = space(32);
    assert_eq!(ms.mmap(&mut alloc, 0x10000, 2 * 4096, 3), 0);
    assert!(write_user(&mut ms, 0x10ffd, b"hello\0x"));
    assert_eq!(translated_str(&ms, 0x10ffd).unwrap(), b"hello".to_vec());
    assert_eq!(translated_str(&ms, 0x11002).unwrap(), Vec::<u8>::new());
    assert_eq!(translated_str(&ms, 0x10000).unwrap(), Vec::<u8>::new());
    // a string that runs into unmapped memory is none
    let ones = vec![1u8; 16];
    assert!(write_user(&mut ms, 0x11ff0, &ones));
    assert!(translated_str(&ms, 0x11ff0).is_none());
    assert!(translated_str(&ms, 0x50000).is_none());
    assert!(translated_str(&ms, 1 << 39).is_none());
}
