//! Address arithmetic for the four-level x86-64 page tables.
use vstd::prelude::*;
use crate::mem::phys::PhysMemory;

verus! {

/// Base of the 2 MiB physical frames handed to user slots (16 MiB).
pub const USER_FRAME_BASE: u64 = 0x100_0000;

/// Size of one user slot frame (2 MiB).
pub const USER_FRAME_SIZE: u64 = 0x20_0000;

/// Physical base address of the 2 MiB frame reserved for user slot `slot`.
pub fn user_frame_phys(slot: usize) -> (r: u64)
    requires
        slot <= 0x7f_ffff_f000,
    ensures
        r == USER_FRAME_BASE + slot * USER_FRAME_SIZE,
{
    USER_FRAME_BASE + (slot as u64) * USER_FRAME_SIZE
}

/// Bytes of the pool that page tables are taken from (64 pages).
pub const PAGE_TABLE_MEMORY_SIZE: usize = 256 * 1024;

/// Page-table entry bit: present.
pub const PAGE_PRESENT: u64 = 1;

/// Page-table entry bit: writable.
pub const PAGE_WRITE: u64 = 2;

/// Page-table entry bit: reachable from user mode.
pub const PAGE_USER: u64 = 4;

/// Page-directory entry bit: a 2 MiB page.
pub const PAGE_PS: u64 = 0x80;

/// The physical-address bits of a table entry.
pub const ADDR_MASK: u64 = 0x000f_ffff_ffff_f000;

/// Address of entry `i` of the table at `table`.
pub open spec fn slot_addr(table: int, i: int) -> int {
    table + 8 * i
}

/// The 4 KiB pages reserved for page tables: `base` is the pool's physical
/// address, `next` the offset of the first page not handed out yet.
pub struct PagePool {
    pub base: u64,
    pub next: usize,
}

impl PagePool {
    /// The pool is page-aligned, lies below 2^64 and `next` is a page
    /// boundary inside it.
    pub open spec fn wf(&self) -> bool {
        &&& self.base % 4096 == 0
        &&& self.next % 4096 == 0
        &&& self.next <= PAGE_TABLE_MEMORY_SIZE
        &&& self.base + PAGE_TABLE_MEMORY_SIZE <= u64::MAX
    }

    /// An empty pool at `base`.
    pub fn new(base: u64) -> (r: Self)
        requires
            base % 4096 == 0,
            base + PAGE_TABLE_MEMORY_SIZE <= u64::MAX,
        ensures
            r.wf(),
            r.base == base,
            r.next == 0,
    {
        PagePool { base, next: 0 }
    }

    /// How many pages are still free.
    pub fn pages_left(&self) -> (r: usize)
        requires
            self.wf(),
        ensures
            r * 4096 == PAGE_TABLE_MEMORY_SIZE - self.next,
    {
        (PAGE_TABLE_MEMORY_SIZE - self.next) / 4096
    }
}

/// Hands out the next page of the pool, zeroed.
pub fn alloc_page<M: PhysMemory>(pool: &mut PagePool, mem: &mut M) -> (r: u64)
    requires
        old(pool).wf(),
        old(pool).next + 0x1000 <= PAGE_TABLE_MEMORY_SIZE,
    ensures
        final(pool).wf(),
        final(pool).base == old(pool).base,
        final(pool).next == old(pool).next + 0x1000,
        r == old(pool).base + old(pool).next,
        r % 4096 == 0,
        forall|i: int| 0 <= i < 512 ==> #[trigger] final(mem).word(slot_addr(r as int, i)) == 0,
        forall|a: int| !(r <= a < r + 4096) ==> #[trigger] final(mem).word(a) == old(mem).word(a),
{
    let addr = pool.base + pool.next as u64;
    pool.next = pool.next + 0x1000;
    assert(addr % 4096 == 0);
    let mut i: u64 = 0;
    while i < 512
        invariant
            addr % 4096 == 0,
            addr + 4096 <= u64::MAX,
            i <= 512,
            forall|j: int| 0 <= j < i ==> #[trigger] mem.word(slot_addr(addr as int, j)) == 0,
            forall|a: int| !(addr <= a < addr + 4096) ==> #[trigger] mem.word(a) == old(mem).word(a),
        decreases 512 - i,
    {
        let w = addr + 8 * i;
        assert(w % 8 == 0);
        mem.write64(w, 0);
        assert(mem.word(slot_addr(addr as int, i as int)) == 0);
        assert forall|j: int| 0 <= j < i + 1 implies #[trigger] mem.word(slot_addr(addr as int, j))
            == 0 by {
            if j < i {
                assert(slot_addr(addr as int, j) != w);
            }
        }
        i = i + 1;
    }
    addr
}

/// Copies the 512 entries of the table at `src` to the table at `dst`.
fn copy_table<M: PhysMemory>(mem: &mut M, src: u64, dst: u64)
    requires
        src % 8 == 0,
        dst % 8 == 0,
        src + 4096 <= u64::MAX,
        dst + 4096 <= u64::MAX,
        src + 4096 <= dst || dst + 4096 <= src,
    ensures
        forall|i: int|
            0 <= i < 512 ==> #[trigger] final(mem).word(slot_addr(dst as int, i)) == old(mem).word(slot_addr(src as int, i)),
        forall|a: int| !(dst <= a < dst + 4096) ==> #[trigger] final(mem).word(a) == old(mem).word(a),
{
    let mut i: u64 = 0;
    while i < 512
        invariant
            src % 8 == 0,
            dst % 8 == 0,
            src + 4096 <= u64::MAX,
            dst + 4096 <= u64::MAX,
            src + 4096 <= dst || dst + 4096 <= src,
            i <= 512,
            forall|j: int|
                0 <= j < i ==> #[trigger] mem.word(slot_addr(dst as int, j)) == old(mem).word(
                    slot_addr(src as int, j),
                ),
            forall|a: int| !(dst <= a < dst + 4096) ==> #[trigger] mem.word(a) == old(mem).word(a),
        decreases 512 - i,
    {
        let v = mem.read64(src + 8 * i);
        assert(mem.word(slot_addr(src as int, i as int)) == old(mem).word(slot_addr(src as int, i as int)));
        mem.write64(dst + 8 * i, v);
        assert forall|j: int| 0 <= j < i + 1 implies #[trigger] mem.word(slot_addr(dst as int, j))
            == old(mem).word(slot_addr(src as int, j)) by {
            if j < i {
                assert(slot_addr(dst as int, j) != dst + 8 * i);
            }
        }
        i = i + 1;
    }
}

/// The table indices of an address (nine bits from bit 39, 30 and 21) are
/// below 512.
pub proof fn lemma_table_indices(virt: u64)
    ensures
        (virt >> 39u64) & 0x1FF < 512,
        (virt >> 30u64) & 0x1FF < 512,
        (virt >> 21u64) & 0x1FF < 512,
{
    assert((virt >> 39u64) & 0x1FF < 512 && (virt >> 30u64) & 0x1FF < 512 && (virt >> 21u64)
        & 0x1FF < 512) by (bit_vector);
}

/// The address bits of an entry are page-aligned and leave room for a page.
pub proof fn lemma_masked(e: u64)
    ensures
        (e & ADDR_MASK) % 4096 == 0,
        (e & ADDR_MASK) % 8 == 0,
        (e & ADDR_MASK) <= 0x000f_ffff_ffff_f000,
{
    assert((e & 0x000f_ffff_ffff_f000u64) % 4096 == 0 && (e & 0x000f_ffff_ffff_f000u64) % 8 == 0
        && (e & 0x000f_ffff_ffff_f000u64) <= 0x000f_ffff_ffff_f000u64) by (bit_vector);
}

/// The table at `k` lies clear of the `len` bytes from `fresh` on.
pub open spec fn clear_of(k: int, fresh: int, len: int) -> bool {
    k + 4096 <= fresh || k >= fresh + len
}

/// Builds the P4/P3/P2 tables of user slot `slot` from three pool pages,
/// copies of the kernel's tables (the P4 at `kernel_cr3`, the P3 and P2
/// its first entries lead to), with the slot's private 2 MiB frame at P2
/// entry 3 (virtual 0x600_000) and the new tables linked through entry 0;
/// returns the new P4's address, for CR3.
#[verifier::rlimit(50)]
#[verifier::spinoff_prover]
pub fn create_user_page_table<M: PhysMemory>(
    mem: &mut M,
    pool: &mut PagePool,
    kernel_cr3: u64,
    slot: usize,
) -> (r: u64)
    requires
        old(pool).wf(),
        old(pool).next + 0x3000 <= PAGE_TABLE_MEMORY_SIZE,
        slot <= 0x7f_ffff_f000,
        kernel_cr3 % 8 == 0,
        kernel_cr3 + 4096 <= u64::MAX,
        clear_of(kernel_cr3 as int, old(pool).base + old(pool).next, 0x3000),
        clear_of(
            (old(mem).word(kernel_cr3 as int) & ADDR_MASK) as int,
            old(pool).base + old(pool).next,
            0x3000,
        ),
        clear_of(
            (old(mem).word((old(mem).word(kernel_cr3 as int) & ADDR_MASK) as int) & ADDR_MASK) as int,
            old(pool).base + old(pool).next,
            0x3000,
        ),
    ensures
        ({
            let fresh = old(pool).base + old(pool).next;
            let k4 = kernel_cr3 as int;
            let k3 = (old(mem).word(k4) & ADDR_MASK) as int;
            let k2 = (old(mem).word(k3) & ADDR_MASK) as int;
            &&& r == fresh
            &&& final(pool).wf()
            &&& final(pool).base == old(pool).base
            &&& final(pool).next == old(pool).next + 0x3000
            &&& forall|i: int|
                0 <= i < 512 ==> #[trigger] final(mem).word(slot_addr(fresh, i)) == (if i == 0 {
                    ((fresh + 0x1000) as u64 | PAGE_PRESENT | PAGE_WRITE | PAGE_USER)
                } else {
                    old(mem).word(slot_addr(k4, i))
                })
            &&& forall|i: int|
                0 <= i < 512 ==> #[trigger] final(mem).word(slot_addr(fresh + 0x1000, i)) == (if i
                    == 0 {
                    ((fresh + 0x2000) as u64 | PAGE_PRESENT | PAGE_WRITE | PAGE_USER)
                } else {
                    old(mem).word(slot_addr(k3, i))
                })
            &&& forall|i: int|
                0 <= i < 512 ==> #[trigger] final(mem).word(slot_addr(fresh + 0x2000, i)) == (if i
                    == 3 {
                    (USER_FRAME_BASE + slot * USER_FRAME_SIZE) as u64 | PAGE_PRESENT | PAGE_WRITE
                        | PAGE_USER | PAGE_PS
                } else {
                    old(mem).word(slot_addr(k2, i))
                })
            &&& forall|a: int|
                !(fresh <= a < fresh + 0x3000) ==> #[trigger] final(mem).word(a) == old(mem).word(a)
        }),
{
    let kernel_p4 = kernel_cr3;
    let e4 = mem.read64(kernel_p4);
    let kernel_p3 = e4 & ADDR_MASK;
    proof {
        lemma_masked(e4);
    }
    let e3 = mem.read64(kernel_p3);
    let kernel_p2 = e3 & ADDR_MASK;
    proof {
        lemma_masked(e3);
    }
    let new_p4 = alloc_page(pool, mem);
    let new_p3 = alloc_page(pool, mem);
    let new_p2 = alloc_page(pool, mem);
    copy_table(mem, kernel_p4, new_p4);
    copy_table(mem, kernel_p3, new_p3);
    copy_table(mem, kernel_p2, new_p2);
    let phys_frame = user_frame_phys(slot);
    mem.write64(new_p2 + 24, phys_frame | PAGE_PRESENT | PAGE_WRITE | PAGE_USER | PAGE_PS);
    mem.write64(new_p3, new_p2 | PAGE_PRESENT | PAGE_WRITE | PAGE_USER);
    mem.write64(new_p4, new_p3 | PAGE_PRESENT | PAGE_WRITE | PAGE_USER);
    proof {
        assert(slot_addr(new_p2 as int, 3) == new_p2 + 24);
        assert(slot_addr(new_p3 as int, 0) == new_p3);
        assert(slot_addr(new_p4 as int, 0) == new_p4);
    }
    new_p4
}

/// Physical address of the VGA graphics window (64 KiB).
pub const VRAM_PHYS: u64 = 0xA_0000;

/// Virtual address the VGA window is mapped at.
pub const VRAM_VIRT: u64 = 0xA00_000;

/// The entry has its present bit.
pub open spec fn present(e: u64) -> bool {
    e & PAGE_PRESENT != 0
}

/// The P2 table reached from the P4 at `cr3` through entry 0 of the P4 and
/// of the P3, when both are present.
pub open spec fn first_p2<M: PhysMemory>(mem: M, cr3: u64) -> Option<int> {
    let p4e = mem.word(cr3 as int);
    let p3e = mem.word((p4e & ADDR_MASK) as int);
    if !present(p4e) || !present(p3e) {
        None
    } else {
        Some((p3e & ADDR_MASK) as int)
    }
}

/// Maps the VGA window (16 pages at `VRAM_PHYS`) at `VRAM_VIRT` for user
/// mode through P2 entry 5 of the tables at `cr3`: keeps a P2 entry that
/// already points at a page table, else takes a page of the pool as one.
/// Returns `VRAM_VIRT`, or 0 when entry 0 of the P4 or the P3 is absent.
pub fn map_vram<M: PhysMemory>(mem: &mut M, pool: &mut PagePool, cr3: u64) -> (r: u64)
    requires
        old(pool).wf(),
        cr3 % 8 == 0,
        (first_p2(*old(mem), cr3) matches Some(p2) && !(present(old(mem).word(p2 + 40)) && old(mem).word(p2 + 40) & PAGE_PS == 0)) ==> old(pool).next + 0x1000 <= PAGE_TABLE_MEMORY_SIZE,
    ensures
        final(pool).wf(),
        final(pool).base == old(pool).base,
        match first_p2(*old(mem), cr3) {
            None => {
                &&& r == 0
                &&& final(pool).next == old(pool).next
                &&& forall|a: int| #[trigger] final(mem).word(a) == old(mem).word(a)
            },
            Some(p2) => {
                let e = old(mem).word(p2 + 40);
                let p1 = old(pool).base + old(pool).next;
                &&& r == VRAM_VIRT
                &&& if present(e) && e & PAGE_PS == 0 {
                    &&& final(pool).next == old(pool).next
                    &&& forall|a: int| #[trigger] final(mem).word(a) == old(mem).word(a)
                } else {
                    &&& final(pool).next == old(pool).next + 0x1000
                    &&& final(mem).word(p2 + 40) == (p1 as u64 | PAGE_PRESENT | PAGE_WRITE
                        | PAGE_USER)
                    &&& forall|i: int|
                        0 <= i < 512 && slot_addr(p1, i) != p2 + 40 ==> #[trigger] final(mem).word(slot_addr(p1, i)) == (if i < 16 {
                            (VRAM_PHYS + i * 0x1000) as u64 | PAGE_PRESENT | PAGE_WRITE
                                | PAGE_USER
                        } else {
                            0
                        })
                    &&& forall|a: int|
                        !(p1 <= a < p1 + 4096) && a != p2 + 40 ==> #[trigger] final(mem).word(a)
                            == old(mem).word(a)
                }
            },
        },
{
    let p4e = mem.read64(cr3);
    proof {
        lemma_masked(p4e);
    }
    let p3 = p4e & ADDR_MASK;
    let p3e = mem.read64(p3);
    if p4e & PAGE_PRESENT == 0 {
        return 0;
    }
    if p3e & PAGE_PRESENT == 0 {
        return 0;
    }
    proof {
        lemma_masked(p3e);
    }
    let p2 = p3e & ADDR_MASK;
    let existing = mem.read64(p2 + 40);
    if existing & PAGE_PRESENT != 0 && existing & PAGE_PS == 0 {
        return VRAM_VIRT;
    }
    let p1 = alloc_page(pool, mem);
    let ghost m2 = |a: int| mem.word(a);
    let mut i: u64 = 0;
    while i < 16
        invariant
            p1 % 4096 == 0,
            p1 + 4096 <= u64::MAX,
            i <= 16,
            forall|j: int|
                0 <= j < i ==> #[trigger] mem.word(slot_addr(p1 as int, j)) == (VRAM_PHYS + j
                    * 0x1000) as u64 | PAGE_PRESENT | PAGE_WRITE | PAGE_USER,
            forall|a: int|
                !(p1 <= a < p1 + 8 * i && (a - p1) % 8 == 0) ==> #[trigger] mem.word(a) == m2(a),
        decreases 16 - i,
    {
        let w = p1 + 8 * i;
        mem.write64(w, (VRAM_PHYS + i * 0x1000) | PAGE_PRESENT | PAGE_WRITE | PAGE_USER);
        assert(mem.word(slot_addr(p1 as int, i as int)) == (VRAM_PHYS + i * 0x1000) as u64
            | PAGE_PRESENT | PAGE_WRITE | PAGE_USER);
        assert forall|j: int| 0 <= j < i + 1 implies #[trigger] mem.word(slot_addr(p1 as int, j))
            == (VRAM_PHYS + j * 0x1000) as u64 | PAGE_PRESENT | PAGE_WRITE | PAGE_USER by {
            if j < i {
                assert(slot_addr(p1 as int, j) != w);
            }
        }
        i = i + 1;
    }
    mem.write64(p2 + 40, p1 | PAGE_PRESENT | PAGE_WRITE | PAGE_USER);
    proof {
        assert forall|j: int|
            0 <= j < 512 && slot_addr(p1 as int, j) != p2 + 40 implies #[trigger] mem.word(
            slot_addr(p1 as int, j),
        ) == (if j < 16 {
            (VRAM_PHYS + j * 0x1000) as u64 | PAGE_PRESENT | PAGE_WRITE | PAGE_USER
        } else {
            0
        }) by {
            if j >= 16 {
                assert(m2(slot_addr(p1 as int, j)) == 0);
            }
        }
    }
    VRAM_VIRT
}

/// Setting the user and write bits of an entry keeps its present bit, its
/// huge-page bit and its address, and setting them twice is setting them once.
pub proof fn lemma_open_entry(e: u64)
    ensures
        (e | (PAGE_USER | PAGE_WRITE)) & 1 == e & 1,
        (e | (PAGE_USER | PAGE_WRITE)) & 0x80 == e & 0x80,
        (e | (PAGE_USER | PAGE_WRITE)) & ADDR_MASK == e & ADDR_MASK,
        ((e | (PAGE_USER | PAGE_WRITE)) | (PAGE_USER | PAGE_WRITE)) == e | (PAGE_USER | PAGE_WRITE),
{
    assert((e | (PAGE_USER | PAGE_WRITE)) & 1 == e & 1 && (e | (PAGE_USER | PAGE_WRITE)) & 0x80 == e
        & 0x80 && (e | (PAGE_USER | PAGE_WRITE)) & ADDR_MASK == e & ADDR_MASK && ((e | (PAGE_USER
        | PAGE_WRITE)) | (PAGE_USER | PAGE_WRITE)) == e | (PAGE_USER | PAGE_WRITE)) by (bit_vector);
}

/// One step of the walk at `addr` through the tables at `p4` in memory `m`:
/// the entries on the way that are present (the P4 entry, the P3 entry, and
/// the P2 entry when the P3 entry is not a 1 GiB page), and the next
/// address: 1 GiB on when the walk stops above the P2 level, else 2 MiB on.
pub open spec fn open_step(m: spec_fn(int) -> u64, p4: u64, addr: u64) -> (Set<int>, int) {
    let i4 = ((addr >> 39u64) & 0x1FF) as int;
    let i3 = ((addr >> 30u64) & 0x1FF) as int;
    let i2 = ((addr >> 21u64) & 0x1FF) as int;
    let a4 = slot_addr(p4 as int, i4);
    let e4 = m(a4);
    let a3 = slot_addr((e4 & ADDR_MASK) as int, i3);
    let e3 = m(a3);
    let a2 = slot_addr((e3 & ADDR_MASK) as int, i2);
    let e2 = m(a2);
    if e4 & 1 == 0 {
        (Set::empty(), addr + 0x4000_0000)
    } else if e3 & 1 == 0 {
        (set![a4], addr + 0x4000_0000)
    } else if e3 & 0x80 != 0 {
        (set![a4, a3], addr + 0x4000_0000)
    } else if e2 & 1 != 0 {
        (set![a4, a3, a2], addr + 0x20_0000)
    } else {
        (set![a4, a3], addr + 0x20_0000)
    }
}

/// The entries that the walk from `addr` to `end` opens to user mode.
pub open spec fn opened(m: spec_fn(int) -> u64, p4: u64, addr: int, end: int) -> Set<int>
    decreases end - addr,
{
    if addr >= end || addr < 0 || addr > u64::MAX {
        Set::empty()
    } else {
        let (here, next) = open_step(m, p4, addr as u64);
        if next <= addr || next >= end {
            here
        } else {
            here + opened(m, p4, next, end)
        }
    }
}

/// Opens every mapping on the way from `virt_start` to `virt_end` (rounded
/// out to 2 MiB) to user mode: each present P4, P3 and P2 entry on the path
/// of each 2 MiB step gets the user and write bits; entries that are not
/// present are left alone, and the walk skips 1 GiB past an absent P4 or P3
/// entry and past a 1 GiB page.
pub fn ensure_user_pages<M: PhysMemory>(mem: &mut M, p4: u64, virt_start: u64, virt_end: u64)
    requires
        p4 % 8 == 0,
        p4 + 4096 <= u64::MAX,
        virt_end + 0x1F_FFFF + 0x4000_0000 <= u64::MAX,
    ensures
        ({
            let start_2m = (virt_start & !0x1F_FFFFu64) as int;
            let end_2m = ((virt_end + 0x1F_FFFF) as u64 & !0x1F_FFFFu64) as int;
            let set = opened(|a: int| old(mem).word(a), p4, start_2m, end_2m);
            forall|a: int| #[trigger]
                final(mem).word(a) == (if set.contains(a) {
                    old(mem).word(a) | (PAGE_USER | PAGE_WRITE)
                } else {
                    old(mem).word(a)
                })
        }),
{
    let ghost m0 = |a: int| mem.word(a);
    let start_2m = virt_start & !0x1F_FFFFu64;
    let up = virt_end + 0x1F_FFFF;
    let end_2m = up & !0x1F_FFFFu64;
    assert(end_2m <= up) by (bit_vector)
        requires
            end_2m == up & !0x1F_FFFFu64,
    ;
    let ghost total = opened(m0, p4, start_2m as int, end_2m as int);
    let ghost mut done: Set<int> = Set::empty();
    let mut addr = start_2m;
    while addr < end_2m
        invariant
            p4 % 8 == 0,
            p4 + 4096 <= u64::MAX,
            end_2m + 0x4000_0000 <= u64::MAX,
            total == done + opened(m0, p4, addr as int, end_2m as int),
            forall|a: int| #[trigger]
                mem.word(a) == (if done.contains(a) {
                    m0(a) | (PAGE_USER | PAGE_WRITE)
                } else {
                    m0(a)
                }),
        decreases u64::MAX - addr,
    {
        let p4_idx = (addr >> 39u64) & 0x1FF;
        let p3_idx = (addr >> 30u64) & 0x1FF;
        let p2_idx = (addr >> 21u64) & 0x1FF;
        proof {
            lemma_table_indices(addr);
        }
        let ghost step = open_step(m0, p4, addr);
        assert(opened(m0, p4, addr as int, end_2m as int) == step.0 + opened(
            m0,
            p4,
            step.1,
            end_2m as int,
        ));
        let a4 = p4 + 8 * p4_idx;
        let e4 = mem.read64(a4);
        proof {
            lemma_open_entry(m0(a4 as int));
        }
        if e4 & PAGE_PRESENT == 0 {
            assert(step.0 =~= Set::<int>::empty());
            assert(done + step.0 =~= done);
            addr = addr + 0x4000_0000;
            continue ;
        }
        mem.write64(a4, e4 | (PAGE_USER | PAGE_WRITE));
        proof {
            done = done.insert(a4 as int);
        }
        let e4n = mem.read64(a4);
        proof {
            lemma_masked(e4n);
        }
        let p3 = e4n & ADDR_MASK;
        let a3 = p3 + 8 * p3_idx;
        let e3 = mem.read64(a3);
        proof {
            lemma_open_entry(m0(a3 as int));
        }
        assert(m0(a4 as int) & 1 != 0);
        assert(e4n == m0(a4 as int) | (PAGE_USER | PAGE_WRITE));
        assert(a3 == slot_addr((m0(a4 as int) & ADDR_MASK) as int, p3_idx as int));
        if e3 & PAGE_PRESENT == 0 {
            assert(m0(a3 as int) & 1 == 0);
            assert(step.0 =~= set![a4 as int]);
            addr = addr + 0x4000_0000;
            continue ;
        }
        if e3 & PAGE_PS != 0 {
            mem.write64(a3, e3 | (PAGE_USER | PAGE_WRITE));
            proof {
                done = done.insert(a3 as int);
                assert(step.0 =~= set![a4 as int, a3 as int]);
            }
            addr = addr + 0x4000_0000;
            continue ;
        }
        mem.write64(a3, e3 | (PAGE_USER | PAGE_WRITE));
        proof {
            done = done.insert(a3 as int);
        }
        let e3n = mem.read64(a3);
        proof {
            lemma_masked(e3n);
        }
        let p2 = e3n & ADDR_MASK;
        let a2 = p2 + 8 * p2_idx;
        let e2 = mem.read64(a2);
        proof {
            lemma_open_entry(m0(a2 as int));
        }
        if e2 & PAGE_PRESENT != 0 {
            mem.write64(a2, e2 | (PAGE_USER | PAGE_WRITE));
            proof {
                done = done.insert(a2 as int);
                assert(step.0 =~= set![a4 as int, a3 as int, a2 as int]);
            }
        } else {
            assert(step.0 =~= set![a4 as int, a3 as int]);
        }
        addr = addr + 0x20_0000;
    }
    assert(opened(m0, p4, addr as int, end_2m as int) =~= Set::<int>::empty());
    assert(done =~= total);
}

} // verus!
