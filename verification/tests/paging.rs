use rou2exos::mem::pages::{alloc_page, create_user_page_table, ensure_user_pages, map_vram, PagePool, VRAM_VIRT};
use rou2exos::mem::phys::{PhysMemory, SparseMemory};
use rou2exos::mem::pmm::{build_physmap_2m, enable_recursive_mapping, map_framebuffer, pmm_alloc, reserve_initial_frames, PhysicalBitmap};

#[test]
fn paging_sparse_memory_reads_back() {
    let mut m = SparseMemory::new();
    assert_eq!(m.read64(0x1000), 0);
    m.write64(0x1000, 7);
    m.write64(0x1008, 9);
    m.write64(0x1000, 8);
    assert_eq!(m.read64(0x1000), 8);
    assert_eq!(m.read64(0x1008), 9);
}

#[test]
fn paging_alloc_page_zeroes_and_advances() {
    let mut m = SparseMemory::new();
    m.write64(0x100_000 + 16, 5);
    m.write64(0x101_000, 6);
    let mut pool = PagePool::new(0x100_000);
    assert_eq!(pool.pages_left(), 64);
    assert_eq!(alloc_page(&mut pool, &mut m), 0x100_000);
    assert_eq!(m.read64(0x100_000 + 16), 0);
    assert_eq!(m.read64(0x101_000), 6);
    assert_eq!(pool.next, 0x1000);
    assert_eq!(pool.pages_left(), 63);
}

fn kernel_tables() -> SparseMemory {
    let mut m = SparseMemory::new();
    m.write64(0x1000, 0x2003);
    m.write64(0x1000 + 8 * 5, 0x1234);
    m.write64(0x2000, 0x3003);
    m.write64(0x2000 + 8 * 2, 0x4000_0083);
    m.write64(0x3000 + 8, 0x20_0083);
    m.write64(0x3000 + 8 * 3, 0x60_0083);
    m
}

#[test]
fn paging_create_user_page_table_copies_and_links() {
    let mut m = kernel_tables();
    let mut pool = PagePool::new(0x100_000);
    let p4 = create_user_page_table(&mut m, &mut pool, 0x1000, 2);
    assert_eq!(p4, 0x100_000);
    assert_eq!(pool.next, 0x3000);
    assert_eq!(m.read64(0x100_000), 0x101_007);
    assert_eq!(m.read64(0x100_000 + 8 * 5), 0x1234);
    assert_eq!(m.read64(0x101_000), 0x102_007);
    assert_eq!(m.read64(0x101_000 + 8 * 2), 0x4000_0083);
    assert_eq!(m.read64(0x102_000 + 8), 0x20_0083);
    assert_eq!(m.read64(0x102_000 + 8 * 3), 0x140_0087);
    // the kernel's own tables are untouched
    assert_eq!(m.read64(0x1000), 0x2003);
    assert_eq!(m.read64(0x3000 + 8 * 3), 0x60_0083);
}

#[test]
fn paging_map_vram_needs_present_tables() {
    let mut m = SparseMemory::new();
    let mut pool = PagePool::new(0x100_000);
    assert_eq!(map_vram(&mut m, &mut pool, 0x1000), 0);
    m.write64(0x1000, 0x2003);
    assert_eq!(map_vram(&mut m, &mut pool, 0x1000), 0);
    assert_eq!(pool.next, 0);
}

#[test]
fn paging_map_vram_installs_page_table_once() {
    let mut m = kernel_tables();
    m.write64(0x3000 + 8 * 5, 0xA0_0083);
    let mut pool = PagePool::new(0x100_000);
    assert_eq!(map_vram(&mut m, &mut pool, 0x1000), VRAM_VIRT);
    assert_eq!(pool.next, 0x1000);
    assert_eq!(m.read64(0x3000 + 8 * 5), 0x100_007);
    assert_eq!(m.read64(0x100_000), 0xA_0007);
    assert_eq!(m.read64(0x100_000 + 8 * 15), 0xA_F007);
    assert_eq!(m.read64(0x100_000 + 8 * 16), 0);
    assert_eq!(map_vram(&mut m, &mut pool, 0x1000), VRAM_VIRT);
    assert_eq!(pool.next, 0x1000);
}

#[test]
fn paging_map_framebuffer_uses_two_fresh_frames() {
    let mut m = SparseMemory::new();
    let mut bitmap = PhysicalBitmap::new();
    reserve_initial_frames(&mut bitmap, 0x10_0000, 0x10_0fff);
    let virt: u64 = 0xffff_8000_fd00_0000;
    map_framebuffer(&mut m, &mut bitmap, 0x1000, 0xfd00_0000, virt);
    let i4 = (virt >> 39) & 0x1FF;
    let i3 = (virt >> 30) & 0x1FF;
    let i2 = (virt >> 21) & 0x1FF;
    assert_eq!(m.read64(0x1000 + 8 * i4), 0x1003);
    assert_eq!(m.read64(0x1000 + 8 * i3), 0x2003);
    assert_eq!(m.read64(0x2000 + 8 * i2), 0xfd00_0083);
    assert_eq!(m.read64(0x2000 + 8 * (i2 + 3)), 0xfd60_0083);
    assert!(bitmap.is_used(1) && bitmap.is_used(2));
    assert_eq!(pmm_alloc(&mut bitmap), Some(0x3000));
}

#[test]
fn paging_reserve_initial_frames_marks_kernel() {
    let mut bitmap = PhysicalBitmap::new();
    reserve_initial_frames(&mut bitmap, 0x10_0000, 0x10_ffff);
    assert!(bitmap.is_used(0));
    assert!(!bitmap.is_used(1));
    assert!(bitmap.is_used(256));
    assert!(bitmap.is_used(271));
    assert!(!bitmap.is_used(272));
    let mut empty = PhysicalBitmap::new();
    reserve_initial_frames(&mut empty, 0x20_0000, 0x10_0000);
    assert!(empty.is_used(0));
    assert!(!empty.is_used(256));
    assert!(!empty.is_used(512));
}

fn walk_tables() -> SparseMemory {
    let mut m = SparseMemory::new();
    m.write64(0x1000, 0x2003);
    m.write64(0x2000, 0x3003);
    m.write64(0x2000 + 8, 0x4000_0083);
    m.write64(0x3000, 0x83);
    m.write64(0x3000 + 16, 0x40_0083);
    m
}

#[test]
fn paging_ensure_user_pages_opens_present_entries() {
    let mut m = walk_tables();
    ensure_user_pages(&mut m, 0x1000, 0x1234, 0x50_0000);
    assert_eq!(m.read64(0x1000), 0x2007);
    assert_eq!(m.read64(0x2000), 0x3007);
    assert_eq!(m.read64(0x3000), 0x87);
    assert_eq!(m.read64(0x3000 + 8), 0);
    assert_eq!(m.read64(0x3000 + 16), 0x40_0087);
    assert_eq!(m.read64(0x2000 + 8), 0x4000_0083);
}

#[test]
fn paging_ensure_user_pages_huge_and_absent() {
    let mut m = walk_tables();
    ensure_user_pages(&mut m, 0x1000, 0x4000_0000, 0x4000_0001);
    assert_eq!(m.read64(0x2000 + 8), 0x4000_0087);
    assert_eq!(m.read64(0x3000), 0x83);
    let mut empty = SparseMemory::new();
    ensure_user_pages(&mut empty, 0x5000, 0, 0x8000_0000);
    assert_eq!(empty.read64(0x5000), 0);
    assert_eq!(empty.cells.len(), 0);
}

#[test]
fn paging_build_physmap_maps_2m_pages() {
    let mut m = SparseMemory::new();
    let mut bitmap = PhysicalBitmap::new();
    reserve_initial_frames(&mut bitmap, 0x10_0000, 0x10_0fff);
    let base: u64 = 0xFFFF_8000_0000_0000;
    let steps = build_physmap_2m(&mut m, &mut bitmap, 0x9000, 0x40_0001, base);
    assert_eq!(steps.len(), 2);
    assert_eq!(steps[1].phys, 0x20_0000);
    assert_eq!(steps[1].virt, base + 0x20_0000);
    assert!(steps[0].l3_found && steps[0].l2_found && steps[1].l3_found && steps[1].l2_found);
    assert_eq!(m.read64(0x9000 + 8 * 256), 0x3003);
    assert_eq!(m.read64(0x1000), 0x2003);
    assert_eq!(m.read64(0x2000), 0x83);
    assert_eq!(m.read64(0x3000), 0x4003);
    assert_eq!(m.read64(0x4000 + 8), 0x20_0083);
    assert_eq!(pmm_alloc(&mut bitmap), Some(0x5000));
    assert_eq!(build_physmap_2m(&mut m, &mut bitmap, 0x9000, 0x1F_FFFF, base).len(), 0);
}

#[test]
fn paging_enable_recursive_mapping_points_back() {
    let mut m = SparseMemory::new();
    enable_recursive_mapping(&mut m, 0x9000, 0x9000);
    assert_eq!(m.read64(0x9000 + 8 * 510), 0x9003);
    assert_eq!(m.read64(0x9000 + 8 * 511), 0);
}
