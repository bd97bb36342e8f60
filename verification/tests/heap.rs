use rou2exos::mem::uheap::{align8, heap_page_entry, ArenaMemory, UserHeap, HEAP_END, HEAP_SIZE, HEAP_START};

fn fresh() -> UserHeap<ArenaMemory> {
    UserHeap::init(ArenaMemory::new())
}

fn read_u32(h: &UserHeap<ArenaMemory>, addr: u64) -> u32 {
    let mut v: u32 = 0;
    for k in 0..4u64 {
        v |= (h.load(addr + k).unwrap() as u32) << (8 * k);
    }
    v
}

#[test]
fn heap_init_writes_one_free_block() {
    let h = fresh();
    assert_eq!(read_u32(&h, HEAP_START), (HEAP_SIZE - 8) as u32);
    assert_eq!(read_u32(&h, HEAP_START + 4), 1);
}

#[test]
fn heap_align8_rounds_up() {
    assert_eq!(align8(0), 0);
    assert_eq!(align8(1), 8);
    assert_eq!(align8(8), 8);
    assert_eq!(align8(9), 16);
}

#[test]
fn heap_malloc_first_fit_addresses() {
    let mut h = fresh();
    assert_eq!(h.malloc(10), HEAP_START + 8);
    assert_eq!(h.malloc(1), HEAP_START + 32);
    assert_eq!(h.malloc(24), HEAP_START + 48);
    // headers: used block of 16 bytes, then of 8 bytes
    assert_eq!(read_u32(&h, HEAP_START), 16);
    assert_eq!(read_u32(&h, HEAP_START + 4), 0);
    assert_eq!(read_u32(&h, HEAP_START + 24), 8);
}

#[test]
fn heap_malloc_zero_and_too_large_give_zero() {
    let mut h = fresh();
    assert_eq!(h.malloc(0), 0);
    assert_eq!(h.malloc(HEAP_SIZE), 0);
    assert_eq!(h.malloc(HEAP_SIZE - 7), 0);
    assert_eq!(h.malloc(usize::MAX), 0);
    assert_eq!(h.malloc(8), HEAP_START + 8);
}

#[test]
fn heap_malloc_whole_heap_then_nothing_left() {
    let mut h = fresh();
    assert_eq!(h.malloc(HEAP_SIZE - 8), HEAP_START + 8);
    assert_eq!(h.malloc(1), 0);
}

#[test]
fn heap_malloc_takes_small_remainder_whole() {
    let mut h = fresh();
    let a = h.malloc(HEAP_SIZE - 24);
    assert_eq!(a, HEAP_START + 8);
    // the 16 bytes left are too few to split off: the block keeps them
    assert_eq!(read_u32(&h, HEAP_START), (HEAP_SIZE - 8) as u32);
    assert_eq!(h.malloc(1), 0);
}

#[test]
fn heap_malloc_zeroes_data() {
    let mut h = fresh();
    let a = h.malloc(16);
    for k in 0..16u64 {
        assert!(h.store(a + k, 0xAA));
    }
    h.free(a);
    let b = h.malloc(16);
    assert_eq!(b, a);
    for k in 0..16u64 {
        assert_eq!(h.load(b + k), Some(0));
    }
}

#[test]
fn heap_free_then_malloc_reuses_first_fit() {
    let mut h = fresh();
    let a = h.malloc(16);
    let b = h.malloc(16);
    assert_eq!(b, HEAP_START + 32);
    h.free(a);
    assert_eq!(h.malloc(8), a);
}

#[test]
fn heap_free_coalesces_back_to_one_block() {
    let mut h = fresh();
    let a = h.malloc(16);
    let b = h.malloc(100);
    let c = h.malloc(7);
    h.free(b);
    h.free(a);
    h.free(c);
    assert_eq!(read_u32(&h, HEAP_START), (HEAP_SIZE - 8) as u32);
    assert_eq!(read_u32(&h, HEAP_START + 4), 1);
    assert_eq!(h.malloc(HEAP_SIZE - 8), HEAP_START + 8);
}

#[test]
fn heap_free_undoes_malloc() {
    let mut h = fresh();
    let keep = h.malloc(40);
    let a = h.malloc(100);
    h.free(a);
    assert_eq!(read_u32(&h, keep - 8), 40);
    assert_eq!(read_u32(&h, a - 8), (HEAP_SIZE - 56) as u32);
    assert_eq!(read_u32(&h, a - 4), 1);
}

#[test]
fn heap_free_of_unknown_address_changes_nothing() {
    let mut h = fresh();
    let a = h.malloc(16);
    h.free(a + 4);
    h.free(HEAP_START);
    h.free(0);
    h.free(HEAP_END);
    assert_eq!(read_u32(&h, HEAP_START + 4), 0);
    assert_eq!(h.malloc(8), HEAP_START + 32);
}

#[test]
fn heap_realloc_shrink_gives_back_tail() {
    let mut h = fresh();
    let a = h.malloc(64);
    for k in 0..64u64 {
        assert!(h.store(a + k, k as u8 + 1));
    }
    assert_eq!(h.realloc(a, 16), a);
    for k in 0..16u64 {
        assert_eq!(h.load(a + k), Some(k as u8 + 1));
    }
    assert_eq!(read_u32(&h, a - 8), 16);
    assert_eq!(h.malloc(8), a + 24);
}

#[test]
fn heap_realloc_small_shrink_changes_nothing() {
    let mut h = fresh();
    let a = h.malloc(32);
    assert_eq!(h.realloc(a, 20), a);
    assert_eq!(read_u32(&h, a - 8), 32);
}

#[test]
fn heap_realloc_grows_in_place() {
    let mut h = fresh();
    let a = h.malloc(16);
    for k in 0..16u64 {
        assert!(h.store(a + k, 7));
    }
    assert_eq!(h.realloc(a, 64), a);
    assert_eq!(read_u32(&h, a - 8), 64);
    for k in 0..16u64 {
        assert_eq!(h.load(a + k), Some(7));
    }
    assert_eq!(h.malloc(8), a + 72);
}

#[test]
fn heap_realloc_moves_data() {
    let mut h = fresh();
    let a = h.malloc(16);
    let b = h.malloc(16);
    for k in 0..16u64 {
        assert!(h.store(a + k, 0x40 + k as u8));
    }
    let r = h.realloc(a, 64);
    assert_eq!(r, HEAP_START + 56);
    for k in 0..16u64 {
        assert_eq!(h.load(r + k), Some(0x40 + k as u8));
    }
    for k in 16..64u64 {
        assert_eq!(h.load(r + k), Some(0));
    }
    assert_eq!(read_u32(&h, a - 4), 1);
    assert_eq!(h.malloc(16), a);
    assert_eq!(read_u32(&h, b - 8), 16);
}

#[test]
fn heap_realloc_null_allocates_and_zero_frees() {
    let mut h = fresh();
    let a = h.realloc(0, 10);
    assert_eq!(a, HEAP_START + 8);
    assert_eq!(h.realloc(a, 0), 0);
    assert_eq!(read_u32(&h, HEAP_START + 4), 1);
    assert_eq!(read_u32(&h, HEAP_START), (HEAP_SIZE - 8) as u32);
}

#[test]
fn heap_realloc_unknown_or_too_large_gives_zero() {
    let mut h = fresh();
    let a = h.malloc(16);
    assert_eq!(h.realloc(a + 8, 32), 0);
    assert_eq!(h.realloc(a, HEAP_SIZE), 0);
    assert_eq!(h.realloc(a, HEAP_SIZE - 7), 0);
    assert_eq!(read_u32(&h, a - 8), 16);
    assert_eq!(read_u32(&h, a - 4), 0);
    // the whole heap still fits by taking in the free block after it
    assert_eq!(h.realloc(a, HEAP_SIZE - 8), a);
    assert_eq!(read_u32(&h, a - 8), (HEAP_SIZE - 8) as u32);
}

#[test]
fn heap_store_only_into_used_data() {
    let mut h = fresh();
    assert!(!h.store(HEAP_START + 8, 1));
    let a = h.malloc(8);
    assert!(h.store(a, 1));
    assert!(h.store(a + 7, 2));
    assert!(!h.store(a + 8, 3));
    assert!(!h.store(a - 1, 3));
    assert!(!h.store(0, 3));
    assert_eq!(h.load(a), Some(1));
    assert_eq!(h.load(a + 7), Some(2));
    assert_eq!(h.load(HEAP_END), None);
    assert_eq!(h.load(HEAP_START - 1), None);
}

#[test]
fn heap_page_entry_maps_or_opens() {
    assert_eq!(heap_page_entry(0, 0xC00_000), 0xC00_087);
    assert_eq!(heap_page_entry(0xC00_080, 0xC00_000), 0xC00_087);
    assert_eq!(heap_page_entry(0xE00_081, 0xE00_000), 0xE00_087);
    assert_eq!(heap_page_entry(0x20_0003, 0xE00_000), 0x20_0007);
}
