//! Mapping the linear framebuffer into the page tables, page by page.
use vstd::prelude::*;

verus! {

/// Size of a page.
pub const PAGE_SIZE: u64 = 4096;

/// Present and writable.
pub const PAGE_FLAGS: u64 = 3;

/// The page tables the framebuffer is mapped through: the top table, the
/// one third-level table, the second-level tables (one per third-level
/// index) and the first-level tables (one per pair of third- and
/// second-level indices).
pub struct FbTables {
    pub p4: [u64; 512],
    pub p3: [u64; 512],
    pub p2: Vec<[u64; 512]>,
    pub p1: Vec<[u64; 512]>,
}

/// The tables as sequences of entries.
pub struct TablesView {
    pub p4: Seq<u64>,
    pub p3: Seq<u64>,
    pub p2: Seq<Seq<u64>>,
    pub p1: Seq<Seq<u64>>,
}

impl FbTables {
    /// The tables as sequences of entries.
    pub open spec fn view(&self) -> TablesView {
        TablesView {
            p4: self.p4@,
            p3: self.p3@,
            p2: Seq::new(self.p2@.len(), |i: int| self.p2@[i]@),
            p1: Seq::new(self.p1@.len(), |i: int| self.p1@[i]@),
        }
    }
}

/// The table indices of the page at `virt`: bits 39.., 30.., 21.. and 12..
/// of the address, nine bits each.
pub open spec fn indices(virt: u64) -> (int, int, int, int) {
    (
        ((virt / 0x80_0000_0000) % 512) as int,
        ((virt / 0x4000_0000) % 512) as int,
        ((virt / 0x20_0000) % 512) as int,
        ((virt / 0x1000) % 512) as int,
    )
}

/// An entry without the present bit.
pub open spec fn absent(e: u64) -> bool {
    e % 2 == 0
}

/// The tables after mapping the page at `virt` to `phys`: each missing
/// link on the way down is set to the next table's address (the third-
/// level table's, the second-level table of index p3, the first-level
/// table of index p3 * 512 + p2) with the flags, and the first-level entry
/// to `phys` with the flags.
pub open spec fn map_page(t: TablesView, virt: u64, phys: u64, p3_addr: u64, p2_addrs: Seq<u64>, p1_addrs: Seq<u64>) -> TablesView {
    let (i4, i3, i2, i1) = indices(virt);
    let k = i3 * 512 + i2;
    let p4 = if absent(t.p4[i4]) { t.p4.update(i4, (p3_addr | PAGE_FLAGS)) } else { t.p4 };
    let p3 = if absent(t.p3[i3]) { t.p3.update(i3, (p2_addrs[i3] | PAGE_FLAGS)) } else { t.p3 };
    let p2 = if absent(t.p2[i3][i2]) { t.p2.update(i3, t.p2[i3].update(i2, (p1_addrs[k] | PAGE_FLAGS))) } else { t.p2 };
    let p1 = t.p1.update(k, t.p1[k].update(i1, (phys | PAGE_FLAGS)));
    TablesView { p4, p3, p2, p1 }
}

/// The tables after mapping the first `n` pages of the framebuffer.
pub open spec fn map_pages(t: TablesView, phys: u64, virt: u64, n: nat, p3_addr: u64, p2_addrs: Seq<u64>, p1_addrs: Seq<u64>) -> TablesView
    decreases n,
{
    if n == 0 {
        t
    } else {
        let prev = map_pages(t, phys, virt, (n - 1) as nat, p3_addr, p2_addrs, p1_addrs);
        map_page(
            prev,
            (virt + (n - 1) * 4096) as u64,
            (phys + (n - 1) * 4096) as u64,
            p3_addr,
            p2_addrs,
            p1_addrs,
        )
    }
}

/// Every page of the framebuffer has its second- and first-level table:
/// the page addresses fit in 64 bits, and their table indices fall within
/// the tables and addresses given.
pub open spec fn mapping_fits(phys: u64, virt: u64, n: nat, p2_len: nat, p1_len: nat) -> bool {
    &&& phys + n * 4096 <= u64::MAX
    &&& virt + n * 4096 <= u64::MAX
    &&& forall|i: int| 0 <= i < n ==> {
        let (i4, i3, i2, i1) = #[trigger] indices((virt + i * 4096) as u64);
        &&& i3 < p2_len
        &&& i3 * 512 + i2 < p1_len
    }
}

/// Maps the framebuffer of `fb_size` bytes at `fb_phys_addr` to
/// `fb_virt_base`, one 4 KiB page after another (the last one partly
/// used), through the given tables; `p3_addr`, `p2_addrs` and `p1_addrs`
/// are the physical addresses of the third-, second- and first-level tables.
pub fn map_framebuffer(
    fb_phys_addr: u64,
    fb_virt_base: u64,
    fb_size: u64,
    tables: &mut FbTables,
    p3_addr: u64,
    p2_addrs: &[u64],
    p1_addrs: &[u64],
)
    requires
        old(tables).p2@.len() == p2_addrs@.len(),
        old(tables).p1@.len() == p1_addrs@.len(),
        mapping_fits(fb_phys_addr, fb_virt_base, ((fb_size + 4095) / 4096) as nat, p2_addrs@.len(), p1_addrs@.len()),
    ensures
        final(tables)@ == map_pages(
            old(tables)@,
            fb_phys_addr,
            fb_virt_base,
            ((fb_size + 4095) / 4096) as nat,
            p3_addr,
            p2_addrs@,
            p1_addrs@,
        ),
{
    let page_count = fb_size / PAGE_SIZE + if fb_size % PAGE_SIZE == 0 { 0 } else { 1 };
    assert(page_count == (fb_size + 4095) / 4096);
    let mut i: u64 = 0;
    while i < page_count
        invariant
            page_count == (fb_size + 4095) / 4096,
            i <= page_count,
            tables.p2@.len() == p2_addrs@.len(),
            tables.p1@.len() == p1_addrs@.len(),
            mapping_fits(fb_phys_addr, fb_virt_base, page_count as nat, p2_addrs@.len(), p1_addrs@.len()),
            tables@ == map_pages(old(tables)@, fb_phys_addr, fb_virt_base, i as nat, p3_addr, p2_addrs@, p1_addrs@),
        decreases page_count - i,
    {
        assert(i * 4096 <= page_count * 4096) by (nonlinear_arith)
            requires i <= page_count;
        let virt = fb_virt_base + i * PAGE_SIZE;
        let phys = fb_phys_addr + i * PAGE_SIZE;
        let ghost before = tables@;
        let p4i = ((virt >> 39) & 0x1FF) as usize;
        let p3i = ((virt >> 30) & 0x1FF) as usize;
        let p2i = ((virt >> 21) & 0x1FF) as usize;
        let p1i = ((virt >> 12) & 0x1FF) as usize;
        assert((virt >> 39) & 0x1FF == (virt / 0x80_0000_0000) % 512) by (bit_vector);
        assert((virt >> 30) & 0x1FF == (virt / 0x4000_0000) % 512) by (bit_vector);
        assert((virt >> 21) & 0x1FF == (virt / 0x20_0000) % 512) by (bit_vector);
        assert((virt >> 12) & 0x1FF == (virt / 0x1000) % 512) by (bit_vector);
        let ghost idx = indices(virt);
        assert(idx == indices((fb_virt_base + i * 4096) as u64));
        assert(p3i < p2_addrs@.len() && p3i * 512 + p2i < p1_addrs@.len());
        let k = p3i * 512 + p2i;
        let e4 = tables.p4[p4i];
        assert(e4 & 1 == e4 % 2) by (bit_vector);
        if e4 & 1 == 0 {
            tables.p4[p4i] = p3_addr | PAGE_FLAGS;
        }
        let e3 = tables.p3[p3i];
        assert(e3 & 1 == e3 % 2) by (bit_vector);
        if e3 & 1 == 0 {
            tables.p3[p3i] = p2_addrs[p3i] | PAGE_FLAGS;
        }
        let mut p2_table = tables.p2[p3i];
        let e2 = p2_table[p2i];
        assert(e2 & 1 == e2 % 2) by (bit_vector);
        if e2 & 1 == 0 {
            p2_table[p2i] = p1_addrs[k] | PAGE_FLAGS;
            tables.p2.set(p3i, p2_table);
        }
        let mut p1_table = tables.p1[k];
        p1_table[p1i] = phys | PAGE_FLAGS;
        tables.p1.set(k, p1_table);
        proof {
            let after = map_page(before, virt, phys, p3_addr, p2_addrs@, p1_addrs@);
            assert(tables@.p4 =~= after.p4);
            assert(tables@.p3 =~= after.p3);
            assert(tables@.p2 =~= after.p2);
            assert(tables@.p1 =~= after.p1);
            assert((fb_phys_addr + i * 4096) as u64 == phys);
        }
        i = i + 1;
    }
}

} // verus!
