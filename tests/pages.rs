use rvkernel::addr::{PhysAddr, VirtAddr};
use rvkernel::error::KernelError;
use rvkernel::pages::{
    alloc_pages, get_user_app_list, ident_map_in_kernel, map_one_app, map_page,
    new_address_space, translate, PhysMemory, KERNEL_FLAGS, PAGE_R, PAGE_U, PAGE_V, PAGE_W,
    PAGE_X, USER_BASE, USER_FLAGS,
};

const BASE: u32 = 0x8040_0000;

fn small_memory(pages: u32) -> PhysMemory {
    PhysMemory::new(0x8020_0000, BASE, BASE + pages * 4096)
}

fn pte_addr(e: u32) -> u32 {
    (e >> 10) << 12
}

#[test]
fn allocations_are_increasing_and_fourth_is_out_of_memory() {
    let mut mem = small_memory(3);
    assert_eq!(alloc_pages(&mut mem, 1), Ok(PhysAddr(BASE)));
    assert_eq!(alloc_pages(&mut mem, 1), Ok(PhysAddr(BASE + 4096)));
    assert_eq!(alloc_pages(&mut mem, 1), Ok(PhysAddr(BASE + 8192)));
    assert_eq!(alloc_pages(&mut mem, 1), Err(KernelError::OutOfMemory));
    assert_eq!(mem.next_paddr(), BASE + 3 * 4096);
}

#[test]
fn multi_page_allocations_are_disjoint() {
    let mut mem = small_memory(10);
    let a = alloc_pages(&mut mem, 2).unwrap();
    let b = alloc_pages(&mut mem, 3).unwrap();
    let c = alloc_pages(&mut mem, 0).unwrap();
    let d = alloc_pages(&mut mem, 5).unwrap();
    assert_eq!(a, PhysAddr(BASE));
    assert_eq!(b, PhysAddr(BASE + 2 * 4096));
    assert_eq!(c, PhysAddr(BASE + 5 * 4096));
    assert_eq!(d, PhysAddr(BASE + 5 * 4096));
    assert_eq!(alloc_pages(&mut mem, 1), Err(KernelError::OutOfMemory));
}

#[test]
fn oversized_allocation_changes_nothing() {
    let mut mem = small_memory(4);
    assert_eq!(alloc_pages(&mut mem, 5), Err(KernelError::OutOfMemory));
    assert_eq!(mem.next_paddr(), BASE);
    assert_eq!(alloc_pages(&mut mem, 4), Ok(PhysAddr(BASE)));
}

#[test]
fn allocated_pages_are_zero_filled() {
    let mut mem = small_memory(2);
    let a = alloc_pages(&mut mem, 2).unwrap();
    assert!(mem.page_bytes(a.0).iter().all(|b| *b == 0));
    assert!(mem.page_bytes(a.0 + 4096).iter().all(|b| *b == 0));
    assert_eq!(mem.page_bytes(a.0).len(), 4096);
}

#[test]
fn mapped_page_walks_to_its_physical_page() {
    let mut mem = small_memory(8);
    let root = alloc_pages(&mut mem, 1).unwrap();
    assert_eq!(
        map_page(&mut mem, root, VirtAddr(0x1000), PhysAddr(0x2000), PAGE_R | PAGE_W),
        Ok(())
    );
    let e = translate(&mem, root.0, 0x1000).expect("mapping present");
    assert_ne!(e & PAGE_V, 0);
    assert_eq!(e >> 10, 0x2000 >> 12);
    assert_eq!(pte_addr(e), 0x2000);
    assert_ne!(e & PAGE_R, 0);
    assert_ne!(e & PAGE_W, 0);
    assert_eq!(e & PAGE_U, 0);
    assert_eq!(e & PAGE_X, 0);
    assert_eq!(translate(&mem, root.0, 0x2000), None);
    assert_eq!(translate(&mem, root.0, 0x40_1000), None);
    // one leaf table was taken
    assert_eq!(mem.next_paddr(), BASE + 2 * 4096);
}

#[test]
fn remapping_overwrites_and_reuses_leaf_table() {
    let mut mem = small_memory(8);
    let root = alloc_pages(&mut mem, 1).unwrap();
    map_page(&mut mem, root, VirtAddr(0x1000), PhysAddr(0x2000), PAGE_R).unwrap();
    map_page(&mut mem, root, VirtAddr(0x1000), PhysAddr(0x5000), PAGE_R | PAGE_X).unwrap();
    map_page(&mut mem, root, VirtAddr(0x3000), PhysAddr(0x6000), PAGE_W).unwrap();
    assert_eq!(mem.next_paddr(), BASE + 2 * 4096);
    let e = translate(&mem, root.0, 0x1000).unwrap();
    assert_eq!(pte_addr(e), 0x5000);
    assert_eq!(e & 0x3ff, PAGE_R | PAGE_X | PAGE_V);
    let f = translate(&mem, root.0, 0x3000).unwrap();
    assert_eq!(pte_addr(f), 0x6000);
    assert_eq!(f & 0x3ff, PAGE_W | PAGE_V);
}

#[test]
fn same_input_twice_is_idempotent() {
    let mut mem = small_memory(8);
    let root = alloc_pages(&mut mem, 1).unwrap();
    map_page(&mut mem, root, VirtAddr(0x7000), PhysAddr(0x9000), PAGE_R).unwrap();
    let first = translate(&mem, root.0, 0x7000);
    let used = mem.next_paddr();
    map_page(&mut mem, root, VirtAddr(0x7000), PhysAddr(0x9000), PAGE_R).unwrap();
    assert_eq!(translate(&mem, root.0, 0x7000), first);
    assert_eq!(mem.next_paddr(), used);
}

#[test]
fn unaligned_addresses_are_refused_for_any_flags() {
    let mut mem = small_memory(8);
    let root = alloc_pages(&mut mem, 1).unwrap();
    for flags in [0, PAGE_R, PAGE_R | PAGE_W, PAGE_U | PAGE_R | PAGE_W | PAGE_X, 0x3ff] {
        assert_eq!(
            map_page(&mut mem, root, VirtAddr(0x1001), PhysAddr(0x2000), flags),
            Err(KernelError::Unaligned)
        );
        assert_eq!(
            map_page(&mut mem, root, VirtAddr(0x1000), PhysAddr(0x2800), flags),
            Err(KernelError::Unaligned)
        );
    }
    assert_eq!(translate(&mem, root.0, 0x1000), None);
    assert_eq!(mem.next_paddr(), BASE + 4096);
}

#[test]
fn leaf_table_needs_a_free_page() {
    let mut mem = small_memory(1);
    let root = alloc_pages(&mut mem, 1).unwrap();
    assert_eq!(
        map_page(&mut mem, root, VirtAddr(0x1000), PhysAddr(0x2000), PAGE_R),
        Err(KernelError::OutOfMemory)
    );
}

#[test]
fn kernel_range_is_identity_mapped() {
    let mut mem = PhysMemory::new(0x8020_0000, 0x8040_0000, 0x8060_0000);
    let root = alloc_pages(&mut mem, 1).unwrap().0;
    assert_eq!(ident_map_in_kernel(&mut mem, root), Ok(()));
    for va in [0x8020_0000u32, 0x8020_1000, 0x803f_f000, 0x8040_0000, 0x805f_f000] {
        let e = translate(&mem, root, va).unwrap();
        assert_eq!(pte_addr(e), va);
        assert_eq!(e & 0x3ff, KERNEL_FLAGS | PAGE_V);
        assert_eq!(e & PAGE_U, 0);
    }
    assert_eq!(translate(&mem, root, 0x8060_0000), None);
    assert_eq!(translate(&mem, root, 0x801f_f000), None);
    // root, plus one leaf table for each of the two 4 MiB segments
    assert_eq!(mem.next_paddr(), 0x8040_0000 + 3 * 4096);
}

#[test]
fn unaligned_kernel_base_is_refused() {
    let mut mem = PhysMemory::new(0x8020_0800, 0x8040_0000, 0x8060_0000);
    let root = alloc_pages(&mut mem, 1).unwrap().0;
    assert_eq!(ident_map_in_kernel(&mut mem, root), Err(KernelError::Unaligned));
}

#[test]
fn fresh_address_space_maps_kernel() {
    let mut mem = PhysMemory::new(0x8020_0000, 0x8040_0000, 0x8050_0000);
    let root = new_address_space(&mut mem).unwrap();
    assert_eq!(root, 0x8040_0000);
    let e = translate(&mem, root, 0x8030_0000).unwrap();
    assert_eq!(pte_addr(e), 0x8030_0000);
}

#[test]
fn app_image_is_copied_and_mapped_at_user_base() {
    let mut mem = PhysMemory::new(0x8020_0000, 0x8040_0000, 0x8050_0000);
    let root = alloc_pages(&mut mem, 1).unwrap().0;
    let app: Vec<u8> = (0..5000u32).map(|i| (i % 251) as u8 + 1).collect();
    assert_eq!(map_one_app(&mut mem, root, &app), Ok(()));
    let e0 = translate(&mem, root, USER_BASE).unwrap();
    let e1 = translate(&mem, root, USER_BASE + 4096).unwrap();
    assert_eq!(e0 & 0x3ff, USER_FLAGS | PAGE_V);
    assert_eq!(e1 & 0x3ff, USER_FLAGS | PAGE_V);
    let p0 = mem.page_bytes(pte_addr(e0));
    let p1 = mem.page_bytes(pte_addr(e1));
    assert_eq!(&p0[..], &app[..4096]);
    assert_eq!(&p1[..904], &app[4096..]);
    assert!(p1[904..].iter().all(|b| *b == 0));
    assert_eq!(translate(&mem, root, USER_BASE + 2 * 4096), None);
    assert_ne!(pte_addr(e0), pte_addr(e1));
}

#[test]
fn empty_app_maps_nothing() {
    let mut mem = small_memory(4);
    let root = alloc_pages(&mut mem, 1).unwrap().0;
    assert_eq!(map_one_app(&mut mem, root, &[]), Ok(()));
    assert_eq!(translate(&mem, root, USER_BASE), None);
    assert_eq!(mem.next_paddr(), BASE + 4096);
}

#[test]
fn app_table_lists_consecutive_images() {
    let table = [2u32, 0x8021_0000, 0x8021_4000, 0x8021_9000];
    let apps = get_user_app_list(&table).unwrap();
    assert_eq!(apps, vec![(0x8021_0000, 0x8021_4000), (0x8021_4000, 0x8021_9000)]);
}

#[test]
fn app_table_edge_cases() {
    assert_eq!(get_user_app_list(&[]), None);
    assert_eq!(get_user_app_list(&[0]), Some(vec![]));
    assert_eq!(get_user_app_list(&[1, 0x100]), None);
    assert_eq!(get_user_app_list(&[1, 0x100, 0x200]), Some(vec![(0x100, 0x200)]));
    let mut big = vec![40u32];
    big.extend((0..41u32).map(|i| i * 0x1000));
    let apps = get_user_app_list(&big).unwrap();
    assert_eq!(apps.len(), 16);
    assert_eq!(apps[15], (15 * 0x1000, 16 * 0x1000));
}

#[test]
fn identical_image_pages_get_distinct_physical_pages() {
    let mut mem = PhysMemory::new(0x8020_0000, 0x8040_0000, 0x8050_0000);
    let root = alloc_pages(&mut mem, 1).unwrap().0;
    let app = vec![0x5au8; 3 * 4096];
    map_one_app(&mut mem, root, &app).unwrap();
    let frames: Vec<u32> = (0..3)
        .map(|k| pte_addr(translate(&mem, root, USER_BASE + k * 4096).unwrap()))
        .collect();
    assert_ne!(frames[0], frames[1]);
    assert_ne!(frames[1], frames[2]);
    assert_ne!(frames[0], frames[2]);
}

#[test]
fn kernel_identity_map_leaves_other_pages_alone() {
    let mut mem = PhysMemory::new(0x8020_0000, 0x8040_0000, 0x8060_0000);
    let root = alloc_pages(&mut mem, 1).unwrap();
    map_page(&mut mem, root, VirtAddr(0x1000), PhysAddr(0x2000), PAGE_R).unwrap();
    let before = translate(&mem, root.0, 0x1000);
    ident_map_in_kernel(&mut mem, root.0).unwrap();
    assert_eq!(translate(&mem, root.0, 0x1000), before);
    assert_eq!(translate(&mem, root.0, 0x8060_0000), None);
}

#[test]
fn new_leaf_table_entry_is_a_pointer() {
    let mut mem = small_memory(4);
    let root = alloc_pages(&mut mem, 1).unwrap();
    map_page(&mut mem, root, VirtAddr(0x40_0000), PhysAddr(0x2000), PAGE_R).unwrap();
    // the root entry for segment 1 points at the fresh leaf table, flags V only
    let word_at = |page: &Vec<u8>, i: usize| {
        u32::from_le_bytes([page[4 * i], page[4 * i + 1], page[4 * i + 2], page[4 * i + 3]])
    };
    let e = word_at(mem.page_bytes(root.0), 1);
    assert_eq!(e & 0x3ff, PAGE_V);
    assert_eq!(pte_addr(e), BASE + 4096);
    let leaf = mem.page_bytes(BASE + 4096);
    assert_eq!(word_at(leaf, 1), 0);
    assert_eq!(pte_addr(word_at(leaf, 0)), 0x2000);
}
