use os_core::mm::address::{PhysPageNum, VirtPageNum};
use os_core::mm::flags::{PTEFlags, MAP_R, MAP_U, MAP_W, MAP_X, PTE_V};
use os_core::mm::kernel_space::KernelLayout;
use os_core::mm::page_table::PageTableEntry;
use os_core::mm::frame_allocator::FrameAllocator;
use os_core::mm::loader::{read_program_header, LoadError, TRAP_CONTEXT};
use os_core::mm::memory_area::MapType;
use os_core::mm::memory_set::MemorySet;
use os_core::mm::user_buffer::read_user;

fn image(entry: u64, headers: &[(u32, u32, u64, u64, Vec<u8>)]) -> Vec<u8> {
    let n = headers.len();
    let mut out = vec![0u8; 64 + 56 * n];
    out[0..4].copy_from_slice(&[0x7f, b'E', b'L', b'F']);
    out[24..32].copy_from_slice(&entry.to_le_bytes());
    out[32..40].copy_from_slice(&64u64.to_le_bytes());
    out[54..56].copy_from_slice(&56u16.to_le_bytes());
    out[56..58].copy_from_slice(&(n as u16).to_le_bytes());
    for (i, (p_type, flags, vaddr, mem_size, data)) in headers.iter().enumerate() {
        let at = 64 + 56 * i;
        let offset = out.len() as u64;
        out[at..at + 4].copy_from_slice(&p_type.to_le_bytes());
        out[at + 4..at + 8].copy_from_slice(&flags.to_le_bytes());
        out[at + 8..at + 16].copy_from_slice(&offset.to_le_bytes());
        out[at + 16..at + 24].copy_from_slice(&vaddr.to_le_bytes());
        out[at + 32..at + 40].copy_from_slice(&(data.len() as u64).to_le_bytes());
        out[at + 40..at + 48].copy_from_slice(&mem_size.to_le_bytes());
        out.extend_from_slice(data);
    }
    out
}

#[test]
fn a_program_gets_its_segments_a_stack_a_heap_and_a_trap_page() {
    let text: Vec<u8> = (0..5000u32).map(|i| (i % 97) as u8 + 1).collect();
    let elf = image(
        0x10040,
        &[
            (1, 5, 0x10000, 0x2000, text.clone()),
            (6, 4, 0, 0, vec![]),
            (1, 6, 0x12000, 0x3000, vec![7, 8, 9]),
        ],
    );
    let mut alloc = FrameAllocator::new(PhysPageNum(0x2000), PhysPageNum(0x2040));
    let (ms, user_sp, entry) = MemorySet::from_elf(&mut alloc, &elf).unwrap();
    assert_eq!(entry, 0x10040);
    assert_eq!(ms.area_count(), 5);
    let range = |i: usize| (ms.area(i).get_range().get_start().0, ms.area(i).get_range().get_end().0);
    assert_eq!(range(0), (0x10, 0x12));
    assert_eq!(ms.area(0).map_perm().bits(), MAP_U | MAP_R | MAP_X);
    assert_eq!(range(1), (0x12, 0x15));
    assert_eq!(ms.area(1).map_perm().bits(), MAP_U | MAP_R | MAP_W);
    // a guard page above the segments, two pages of stack
    assert_eq!(range(2), (0x16, 0x18));
    assert_eq!(user_sp, 0x18000);
    assert_eq!(ms.area(2).map_perm().bits(), MAP_U | MAP_R | MAP_W);
    assert_eq!(range(3), (0x18, 0x18));
    assert_eq!(range(4), (TRAP_CONTEXT / 4096, TRAP_CONTEXT / 4096 + 1));
    assert_eq!(ms.area(4).map_perm().bits(), MAP_R | MAP_W);
    for i in 0..5 {
        assert_eq!(ms.area(i).map_type(), MapType::Framed);
    }
    assert_eq!(read_user(&ms, 0x10000, 5000).unwrap(), text);
    let tail = read_user(&ms, 0x10000 + 5000, 8192 - 5000).unwrap();
    assert!(tail.iter().all(|b| *b == 0));
    assert_eq!(read_user(&ms, 0x12000, 4).unwrap(), vec![7, 8, 9, 0]);
    // only the pages that hold bytes of the image have frames
    assert!(ms.find_page(VirtPageNum(0x13)).is_none());
    assert!(ms.find_page(VirtPageNum(0x16)).is_none());
    // root, two directories, three pages
    assert_eq!(alloc.remaining(), 0x40 - 6);
    ms.release(&mut alloc);
    assert_eq!(alloc.remaining(), 0x40);
}

#[test]
fn an_image_that_cannot_be_loaded_is_refused_and_costs_nothing() {
    let mut alloc = FrameAllocator::new(PhysPageNum(0x2000), PhysPageNum(0x2040));
    let good = image(0, &[(1, 5, 0x10000, 0x1000, vec![1])]);
    let mut bad_magic = good.clone();
    bad_magic[1] = b'X';
    let overlapping = image(0, &[(1, 5, 0x10000, 0x2000, vec![1]), (1, 6, 0x11000, 0x1000, vec![2])]);
    let too_long = image(0, &[(1, 5, 0x10000, 0x1000, vec![1; 4097])]);
    let too_high = image(0, &[(1, 5, 0x7f_ffff_b000, 0x1000, vec![1])]);
    let mut cut = good.clone();
    cut.truncate(good.len() - 1);
    let mut missing = good.clone();
    missing[56] = 2;
    for bad in [&bad_magic, &overlapping, &too_long, &too_high, &cut, &missing, &vec![0x7f, b'E']] {
        assert!(matches!(MemorySet::from_elf(&mut alloc, bad), Err(LoadError::Invalid)));
        assert_eq!(alloc.remaining(), 0x40);
    }
    assert!(MemorySet::from_elf(&mut alloc, &good).is_ok());
}

#[test]
fn loading_fails_without_frames_and_gives_back_what_it_took() {
    let elf = image(0, &[(1, 5, 0x10000, 0x3000, vec![1; 3 * 4096])]);
    let mut alloc = FrameAllocator::new(PhysPageNum(0x2000), PhysPageNum(0x2005));
    assert!(matches!(MemorySet::from_elf(&mut alloc, &elf), Err(LoadError::NotEnoughMemory)));
    assert_eq!(alloc.remaining(), 5);
    let mut none = FrameAllocator::new(PhysPageNum(0x2000), PhysPageNum(0x2000));
    assert!(matches!(MemorySet::from_elf(&mut none, &elf), Err(LoadError::NotEnoughMemory)));
    let mut enough = FrameAllocator::new(PhysPageNum(0x2000), PhysPageNum(0x2006));
    assert!(MemorySet::from_elf(&mut enough, &elf).is_ok());
    assert_eq!(enough.remaining(), 0);
}

#[test]
fn program_headers_are_read_from_their_place() {
    let elf = image(0x1234, &[(1, 7, 0x40000, 0x5000, vec![3; 10]), (2, 1, 8, 9, vec![])]);
    let first = read_program_header(&elf, 0).unwrap();
    assert_eq!((first.p_type, first.flags, first.vaddr, first.mem_size, first.file_size),
        (1, 7, 0x40000, 0x5000, 10));
    assert_eq!(first.offset, 64 + 2 * 56);
    let second = read_program_header(&elf, 1).unwrap();
    assert_eq!((second.p_type, second.flags, second.vaddr, second.mem_size), (2, 1, 8, 9));
    assert!(read_program_header(&elf, 2).is_none());
    assert!(read_program_header(&elf, 60000).is_none());
}

#[test]
fn the_kernel_space_maps_each_section_to_itself() {
    let layout = KernelLayout {
        stext: 0x8020_0000,
        etext: 0x8020_3000,
        srodata: 0x8020_3000,
        erodata: 0x8020_4800,
        sdata: 0x8020_5000,
        edata: 0x8020_6000,
        sbss: 0x8020_6000,
        ebss: 0x8020_8000,
        ekernel: 0x8020_8000,
        memory_end: 0x8021_0000,
    };
    assert!(layout.check());
    let mut alloc = FrameAllocator::new(PhysPageNum(0x80208), PhysPageNum(0x80210));
    let ms = MemorySet::new_kernel(&mut alloc, &layout).unwrap();
    // root and two directories; no section owns a frame
    assert_eq!(alloc.remaining(), 5);
    assert_eq!(ms.area_count(), 5);
    let expect: [(u64, u64, u8); 5] = [
        (0x80200, 0x80203, MAP_R | MAP_X),
        (0x80203, 0x80205, MAP_R),
        (0x80205, 0x80206, MAP_R | MAP_W),
        (0x80206, 0x80208, MAP_R | MAP_W),
        (0x80208, 0x80210, MAP_R | MAP_W),
    ];
    for (i, (start, end, bits)) in expect.iter().enumerate() {
        let area = ms.area(i);
        assert_eq!(area.get_range().get_start().0, *start);
        assert_eq!(area.get_range().get_end().0, *end);
        assert_eq!(area.map_type(), MapType::Identical);
        assert_eq!(area.map_perm().bits(), *bits);
        assert_eq!(area.map_perm().bits() & (MAP_W | MAP_X) == (MAP_W | MAP_X), false);
        for v in *start..*end {
            assert_eq!(
                ms.translate(VirtPageNum(v)).unwrap(),
                PageTableEntry::new(PhysPageNum(v), PTEFlags { bits: *bits | PTE_V })
            );
        }
    }
    assert!(!ms.translate(VirtPageNum(0x80210)).unwrap().is_valid());
    ms.release(&mut alloc);
    assert_eq!(alloc.remaining(), 8);
    let crossed = KernelLayout { srodata: 0x8020_2fff, ..layout };
    assert!(!crossed.check());
    assert!(matches!(MemorySet::new_kernel(&mut alloc, &crossed), Err(LoadError::Invalid)));
    let backwards = KernelLayout { edata: 0x8020_4fff, ..layout };
    assert!(matches!(MemorySet::new_kernel(&mut alloc, &backwards), Err(LoadError::Invalid)));
    let mut two = FrameAllocator::new(PhysPageNum(0x80208), PhysPageNum(0x8020a));
    assert!(matches!(MemorySet::new_kernel(&mut two, &layout), Err(LoadError::NotEnoughMemory)));
    assert_eq!(two.remaining(), 2);
}
