use xv6_kernel::kalloc::{Frame, FreeError, KMem, ALLOC_FILL, BOOT_FILL, FREE_FILL};
use xv6_kernel::memlayout::{KERNBASE, PHYSTOP};
use xv6_kernel::riscv::{pgroundup, PGSIZE};

const PAGE0: u64 = 0x8000_0000;
const PAGE1: u64 = PAGE0 + 4096;
const PAGE2: u64 = PAGE0 + 2 * 4096;

fn three_pages() -> KMem {
    KMem::kinit(PAGE0, PAGE0 + 3 * PGSIZE)
}

#[test]
fn seeding_three_pages_then_draining() {
    let mut k = three_pages();
    assert_eq!(k.sys_nfree(), 3);
    assert_eq!(k.kalloc(), Some(PAGE2));
    assert_eq!(k.kalloc(), Some(PAGE1));
    assert_eq!(k.kalloc(), Some(PAGE0));
    assert_eq!(k.sys_nfree(), 0);
    assert_eq!(k.kalloc(), None);
    k.kfree(PAGE1);
    assert_eq!(k.sys_nfree(), 1);
    assert_eq!(k.kalloc(), Some(PAGE1));
    assert_eq!(k.sys_nfree(), 0);
}

#[test]
fn allocations_are_aligned_and_in_region() {
    let start = KERNBASE + 0x1234;
    let end = KERNBASE + 40 * PGSIZE;
    let mut k = KMem::kinit(start, end);
    while let Some(a) = k.kalloc() {
        assert_eq!(a % PGSIZE, 0);
        assert!(start <= a && a < end);
    }
}

#[test]
fn seeded_pool_gives_each_page_once() {
    let start = KERNBASE;
    let n: u64 = 17;
    let mut k = KMem::kinit(start, start + n * PGSIZE);
    assert_eq!(k.sys_nfree(), n);
    let mut seen = Vec::new();
    for _ in 0..n {
        let a = k.kalloc().expect("a page for each seeded one");
        assert!(!seen.contains(&a));
        seen.push(a);
    }
    assert_eq!(k.kalloc(), None);
    assert_eq!(k.sys_nfree(), 0);
}

#[test]
fn unaligned_start_skips_the_partial_page() {
    let k = KMem::kinit(PAGE0 + 1, PAGE0 + 3 * PGSIZE);
    assert_eq!(k.sys_nfree(), 2);
    let k = KMem::kinit(PAGE0 + 1, PAGE0 + PGSIZE);
    assert_eq!(k.sys_nfree(), 0);
}

#[test]
fn whole_physical_memory_above_kernel() {
    let kernel_end = KERNBASE + 0x2_1000 + 17;
    let k = KMem::kinit(kernel_end, PHYSTOP);
    let first = pgroundup(kernel_end);
    assert_eq!(k.sys_nfree(), (PHYSTOP - first) / PGSIZE);
}

#[test]
fn free_is_last_in_first_out() {
    let mut k = three_pages();
    let a = k.kalloc().unwrap();
    let b = k.kalloc().unwrap();
    let c = k.kalloc().unwrap();
    k.kfree(a);
    k.kfree(c);
    k.kfree(b);
    assert_eq!(k.kalloc(), Some(b));
    assert_eq!(k.kalloc(), Some(c));
    assert_eq!(k.kalloc(), Some(a));
    assert_eq!(k.kalloc(), None);
}

#[test]
fn misaligned_free_is_refused() {
    let mut k = three_pages();
    let a = k.kalloc().unwrap();
    assert_eq!(k.check_free(a + 8), Err(FreeError::Misaligned));
    assert_eq!(k.check_free(PAGE0 - 1), Err(FreeError::Misaligned));
    assert_eq!(k.check_free(a), Ok(()));
    assert_eq!(k.sys_nfree(), 2);
    assert_eq!(k.kalloc(), Some(PAGE1));
}

#[test]
fn free_outside_region_is_refused() {
    let mut k = KMem::kinit(PAGE0 + 100, PAGE0 + 4 * PGSIZE);
    assert_eq!(k.sys_nfree(), 3);
    assert_eq!(k.check_free(PAGE0), Err(FreeError::OutOfRange));
    assert_eq!(k.check_free(PAGE0 + 4 * PGSIZE), Err(FreeError::OutOfRange));
    assert_eq!(k.check_free(0), Err(FreeError::OutOfRange));
    assert_eq!(k.check_free(PAGE0 + PGSIZE), Ok(()));
    assert_eq!(k.sys_nfree(), 3);
    assert_eq!(k.kalloc(), Some(PAGE0 + 3 * PGSIZE));
}

#[test]
fn allocated_page_is_poisoned() {
    let mut k = three_pages();
    let a = k.kalloc().unwrap();
    for off in [0, 1, 7, 8, 100, 4095] {
        assert_eq!(k.read_byte(a + off), ALLOC_FILL);
    }
    assert_ne!(ALLOC_FILL, FREE_FILL);
    assert_ne!(ALLOC_FILL, BOOT_FILL);
}

#[test]
fn freed_page_holds_link_and_filler() {
    let mut k = three_pages();
    // PAGE1 is on top of PAGE0 in the free list after PAGE2 leaves.
    assert_eq!(k.kalloc(), Some(PAGE2));
    for off in 0..8u64 {
        assert_eq!(k.read_byte(PAGE1 + off), ((PAGE0 >> (8 * off)) & 0xff) as u8);
    }
    assert_eq!(k.read_byte(PAGE1 + 8), FREE_FILL);
    assert_eq!(k.read_byte(PAGE1 + 4095), FREE_FILL);
    // The last node's link is empty.
    for off in 0..8u64 {
        assert_eq!(k.read_byte(PAGE0 + off), 0);
    }
    k.kfree(PAGE2);
    assert_eq!(k.read_byte(PAGE2), (PAGE1 & 0xff) as u8);
    assert_eq!(k.read_byte(PAGE2 + 1), ((PAGE1 >> 8) & 0xff) as u8);
    assert_eq!(k.read_byte(PAGE2 + 9), FREE_FILL);
}

#[test]
fn freerange_adds_pages_on_top() {
    let mut k = KMem::kinit(PAGE0, PAGE0 + 6 * PGSIZE);
    let mut taken = Vec::new();
    while let Some(a) = k.kalloc() {
        taken.push(a);
    }
    assert_eq!(taken.len(), 6);
    k.freerange(PAGE0 + 10, PAGE0 + 3 * PGSIZE + 5);
    assert_eq!(k.sys_nfree(), 2);
    assert_eq!(k.kalloc(), Some(PAGE0 + 2 * PGSIZE));
    assert_eq!(k.kalloc(), Some(PAGE0 + PGSIZE));
    assert_eq!(k.kalloc(), None);
}

#[test]
fn frame_states_are_plain_values() {
    assert_eq!(Frame::Owned(5), Frame::Owned(ALLOC_FILL));
    assert_ne!(Frame::Free(None), Frame::Free(Some(PAGE0)));
}

#[test]
fn page_round_up_values() {
    assert_eq!(pgroundup(0), 0);
    assert_eq!(pgroundup(1), 4096);
    assert_eq!(pgroundup(4095), 4096);
    assert_eq!(pgroundup(4096), 4096);
    assert_eq!(pgroundup(4097), 8192);
    assert_eq!(pgroundup(KERNBASE + 1), KERNBASE + PGSIZE);
    assert_eq!(PHYSTOP, 0x8800_0000);
}

#[test]
fn is_free_tracks_the_list() {
    let mut k = three_pages();
    assert!(k.is_free(PAGE0));
    assert!(k.is_free(PAGE2));
    assert!(!k.is_free(PAGE0 + 1));
    assert!(!k.is_free(PAGE0 + 3 * PGSIZE));
    assert_eq!(k.kalloc(), Some(PAGE2));
    assert!(!k.is_free(PAGE2));
    assert!(k.is_free(PAGE1));
    k.kfree(PAGE2);
    assert!(k.is_free(PAGE2));
}

#[test]
fn freerange_without_a_whole_page_changes_nothing() {
    let mut k = KMem::kinit(PAGE0, PAGE0 + 4 * PGSIZE);
    let a = k.kalloc().unwrap();
    k.freerange(PAGE0 + 4 * PGSIZE - 10, PAGE0 + 4 * PGSIZE);
    k.freerange(PAGE0 + 1, PAGE0 + PGSIZE + 100);
    assert_eq!(k.sys_nfree(), 3);
    assert_eq!(k.read_byte(a), ALLOC_FILL);
    assert_eq!(k.kalloc(), Some(PAGE0 + 2 * PGSIZE));
}

#[test]
fn freerange_end_may_pass_the_region() {
    let mut k = KMem::kinit(PAGE0, PAGE0 + 4 * PGSIZE);
    while k.kalloc().is_some() {}
    k.freerange(PAGE0 + PGSIZE, PAGE0 + 4 * PGSIZE + 100);
    assert_eq!(k.sys_nfree(), 3);
    assert_eq!(k.kalloc(), Some(PAGE0 + 3 * PGSIZE));
    k.freerange(0, 0);
    assert_eq!(k.sys_nfree(), 2);
}
