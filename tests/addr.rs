use rvkernel::addr::{
    align_down, align_up, is_aligned, PhysAddr, PhysPageNum, VirtAddr, VirtPageNum,
};

#[test]
fn align_up_rounds_to_next_multiple() {
    assert_eq!(align_up(0, 4096), 0);
    assert_eq!(align_up(1, 4096), 4096);
    assert_eq!(align_up(4096, 4096), 4096);
    assert_eq!(align_up(4097, 4096), 8192);
    assert_eq!(align_up(13, 8), 16);
    assert_eq!(align_up(7, 1), 7);
}

#[test]
fn align_down_rounds_to_previous_multiple() {
    assert_eq!(align_down(0, 4096), 0);
    assert_eq!(align_down(4095, 4096), 0);
    assert_eq!(align_down(4096, 4096), 4096);
    assert_eq!(align_down(8191, 4096), 4096);
    assert_eq!(align_down(0x8040_2007, 8), 0x8040_2000);
}

#[test]
fn is_aligned_checks_low_bits() {
    assert!(is_aligned(0, 4096));
    assert!(is_aligned(0x2000, 4096));
    assert!(!is_aligned(0x2001, 4096));
    assert!(!is_aligned(0x800, 4096));
    assert!(is_aligned(24, 8));
    assert!(!is_aligned(20, 8));
}

#[test]
fn page_number_of_aligned_address_round_trips() {
    let n = PhysPageNum::from(PhysAddr(0x8040_3000));
    assert_eq!(n, PhysPageNum(0x80403));
    assert_eq!(PhysAddr::from(n), PhysAddr(0x8040_3000));
    let v = VirtPageNum::from(VirtAddr(0x0100_2000));
    assert_eq!(v, VirtPageNum(0x1002));
    assert_eq!(VirtAddr::from(v), VirtAddr(0x0100_2000));
}

#[test]
fn page_number_drops_offset_bits() {
    let n = PhysPageNum::from(PhysAddr(0x2fff));
    assert_eq!(n, PhysPageNum(2));
    assert_eq!(PhysAddr::from(n), PhysAddr(0x2000));
    assert_eq!(VirtPageNum::from(VirtAddr(0x1234)), VirtPageNum(1));
}

