use os_core::mm::address::{PhysAddr, PhysPageNum, VPNRange, VirtAddr, VirtPageNum};

#[test]
fn floor_and_ceil_round_to_pages() {
    assert_eq!(VirtAddr(0).floor(), VirtPageNum(0));
    assert_eq!(VirtAddr(0).ceil(), VirtPageNum(0));
    assert_eq!(VirtAddr(1).floor(), VirtPageNum(0));
    assert_eq!(VirtAddr(1).ceil(), VirtPageNum(1));
    assert_eq!(VirtAddr(4095).floor(), VirtPageNum(0));
    assert_eq!(VirtAddr(4096).floor(), VirtPageNum(1));
    assert_eq!(VirtAddr(4096).ceil(), VirtPageNum(1));
    assert_eq!(VirtAddr(4097).ceil(), VirtPageNum(2));
    assert_eq!(VirtAddr(0x1000_0000).floor(), VirtPageNum(0x10000));
}

#[test]
fn page_number_is_floor_of_its_first_address() {
    for x in [0u64, 1, 7, 511, 512, 0x7ff_ffff] {
        assert_eq!(VirtAddr(x * 4096).floor(), VirtPageNum(x));
        assert_eq!(VirtPageNum(x).start_addr(), VirtAddr(x * 4096));
    }
}

#[test]
fn conversions_keep_the_low_bits() {
    assert_eq!(VirtAddr::from_u64(u64::MAX).0, (1u64 << 39) - 1);
    assert_eq!(PhysAddr::from_u64(u64::MAX).0, (1u64 << 56) - 1);
    assert_eq!(VirtPageNum::from_u64(u64::MAX).0, (1u64 << 27) - 1);
    assert_eq!(PhysPageNum::from_u64(u64::MAX).0, (1u64 << 44) - 1);
    assert_eq!(VirtAddr::from_u64(0x1234).0, 0x1234);
}

#[test]
fn indexes_are_nine_bits_each_high_first() {
    let vpn = VirtPageNum((3 << 18) | (5 << 9) | 7);
    assert_eq!(vpn.indexes(), [3, 5, 7]);
    assert_eq!(VirtPageNum(0x7ff_ffff).indexes(), [511, 511, 511]);
    assert_eq!(VirtPageNum(0).indexes(), [0, 0, 0]);
}

#[test]
fn range_intersection() {
    let a = VPNRange::new(VirtPageNum(10), VirtPageNum(20));
    let b = VPNRange::new(VirtPageNum(15), VirtPageNum(30));
    let c = a.intersection(&b);
    assert_eq!(c.get_start(), VirtPageNum(15));
    assert_eq!(c.get_end(), VirtPageNum(20));
    assert_eq!(c.len(), 5);
    let d = VPNRange::new(VirtPageNum(40), VirtPageNum(50));
    let e = a.intersection(&d);
    assert_eq!(e.len(), 0);
    assert_eq!(e.get_start(), VirtPageNum(40));
    assert!(a.overlaps(&b));
    assert!(!a.overlaps(&d));
    assert!(a.contains_vpn(VirtPageNum(10)));
    assert!(!a.contains_vpn(VirtPageNum(20)));
}

#[test]
fn range_by_len() {
    let r = VPNRange::by_len(VirtPageNum(7), 3);
    assert_eq!(r.get_start(), VirtPageNum(7));
    assert_eq!(r.get_end(), VirtPageNum(10));
}
