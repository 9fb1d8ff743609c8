use os_core::mm::address::PhysPageNum;
use os_core::mm::frame_allocator::{frame_alloc, frame_dealloc, FrameAllocator};

#[test]
fn frames_come_in_ascending_order_and_run_out() {
    let mut a = FrameAllocator::new(PhysPageNum(100), PhysPageNum(103));
    assert_eq!(a.remaining(), 3);
    assert_eq!(a.allocate(), Some(PhysPageNum(100)));
    assert_eq!(a.allocate(), Some(PhysPageNum(101)));
    assert_eq!(a.allocate(), Some(PhysPageNum(102)));
    assert_eq!(a.remaining(), 0);
    assert_eq!(a.allocate(), None);
    assert_eq!(a.allocate(), None);
}

#[test]
fn the_frame_given_back_last_is_handed_out_first() {
    let mut a = FrameAllocator::new(PhysPageNum(10), PhysPageNum(20));
    let frame_a = a.allocate().unwrap();
    let frame_b = a.allocate().unwrap();
    let frame_c = a.allocate().unwrap();
    assert_eq!((frame_a.0, frame_b.0, frame_c.0), (10, 11, 12));
    a.deallocate(frame_a);
    a.deallocate(frame_c);
    assert_eq!(a.remaining(), 9);
    assert!(!a.is_allocated(frame_a));
    assert!(a.is_allocated(frame_b));
    assert_eq!(a.allocate(), Some(PhysPageNum(12)));
    assert_eq!(a.allocate(), Some(PhysPageNum(10)));
    assert_eq!(a.allocate(), Some(PhysPageNum(13)));
}

#[test]
fn giving_back_a_frame_that_is_not_out_changes_nothing() {
    let mut a = FrameAllocator::new(PhysPageNum(10), PhysPageNum(12));
    let p = a.allocate().unwrap();
    a.deallocate(PhysPageNum(11));
    a.deallocate(PhysPageNum(5));
    a.deallocate(PhysPageNum(99));
    assert_eq!(a.remaining(), 1);
    a.deallocate(p);
    assert_eq!(a.remaining(), 2);
    a.deallocate(p);
    assert_eq!(a.remaining(), 2);
    assert_eq!(a.allocate(), Some(PhysPageNum(10)));
    assert_eq!(a.allocate(), Some(PhysPageNum(11)));
    assert_eq!(a.allocate(), None);
}

#[test]
fn a_new_frame_is_a_page_of_zero_bytes() {
    let mut a = FrameAllocator::new(PhysPageNum(7), PhysPageNum(9));
    let mut f = frame_alloc(&mut a).unwrap();
    assert_eq!(f.ppn(), PhysPageNum(7));
    assert_eq!(f.get_bytes_array().len(), 4096);
    assert!(f.get_bytes_array().iter().all(|b| *b == 0));
    f.write_at(10, &[1, 2, 3]);
    assert_eq!(&f.get_bytes_array()[9..14], &[0, 1, 2, 3, 0]);
    frame_dealloc(&mut a, f);
    let g = frame_alloc(&mut a).unwrap();
    assert_eq!(g.ppn(), PhysPageNum(7));
    assert!(g.get_bytes_array().iter().all(|b| *b == 0));
    let h = frame_alloc(&mut a).unwrap();
    assert_eq!(h.ppn(), PhysPageNum(8));
    assert!(frame_alloc(&mut a).is_none());
}
