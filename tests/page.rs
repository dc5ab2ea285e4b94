use baby_mimalloc::page::Page;

#[test]
fn init_threads_one_extension() {
    let mut p = Page::new();
    assert!(!p.in_use());
    p.set_in_use(true);
    p.init(0x10000, 65536, 16);
    assert_eq!(p.block_size(), 16);
    assert_eq!(p.bin(), 2);
    assert_eq!(p.reserved, 4096);
    // 4096 / 16 blocks per extension
    assert_eq!(p.capacity, 256);
    assert!(p.immediate_available());
    assert_eq!(p.free(), 0x10000);
    assert!(p.all_free());
}

#[test]
fn blocks_come_out_in_address_order() {
    let mut p = Page::new();
    p.init(0x20000, 65536, 1024);
    assert_eq!(p.capacity, 4);
    assert_eq!(p.take_free_block(), 0x20000);
    assert_eq!(p.take_free_block(), 0x20400);
    assert_eq!(p.used, 2);
    assert!(!p.all_free());
}

#[test]
fn extend_only_when_fast_list_is_empty() {
    let mut p = Page::new();
    p.init(0x20000, 65536, 2048);
    assert_eq!(p.capacity, 2);
    p.extend(0x20000);
    assert_eq!(p.capacity, 2);
    p.take_free_block();
    p.take_free_block();
    assert!(!p.immediate_available());
    p.extend(0x20000);
    assert_eq!(p.capacity, 4);
    assert_eq!(p.free(), 0x20000 + 2 * 2048);
}

#[test]
fn large_blocks_extend_one_at_a_time() {
    let mut p = Page::new();
    p.init(0x400000, 4194304, 524288);
    assert_eq!(p.reserved, 8);
    assert_eq!(p.capacity, 1);
}

#[test]
fn frees_are_collected_after_the_fast_list() {
    let mut p = Page::new();
    p.init(0x20000, 65536, 1024);
    let a = p.take_free_block();
    let b = p.take_free_block();
    p.free_block_core(a);
    p.free_block_core(b);
    assert_eq!(p.used, 0);
    // the fast list still holds the two untouched blocks
    assert_eq!(p.free(), 0x20800);
    p.free_collect();
    assert_eq!(p.take_free_block(), 0x20800);
    assert_eq!(p.take_free_block(), 0x20c00);
    // then the freed blocks, last freed first
    assert_eq!(p.take_free_block(), b);
    assert_eq!(p.take_free_block(), a);
    assert!(!p.immediate_available());
}

#[test]
fn flags_are_set_one_by_one() {
    let mut p = Page::new();
    assert!(p.flags.is_clear());
    p.set_full(true);
    assert!(p.flags.full && !p.flags.has_aligned);
    p.set_aligned(true);
    p.set_full(false);
    assert!(p.flags.has_aligned && !p.flags.full);
    assert!(!p.flags.is_clear());
}
