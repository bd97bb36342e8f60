//! The Multiboot2 boot information block: walking its tags and decoding
//! the framebuffer, memory map and ACPI tags, from the bytes the boot
//! loader handed over.
use vstd::prelude::*;
use crate::fs::fat12::entry::{le16, le32, read_le16, read_le32};

verus! {

/// Tag types of the Multiboot2 information block.
pub const TAG_END: u32 = 0;
pub const TAG_CMDLINE: u32 = 1;
pub const TAG_MODULE: u32 = 3;
pub const TAG_MMAP: u32 = 6;
pub const TAG_FRAMEBUFFER: u32 = 8;
pub const TAG_ACPI_OLD: u32 = 14;

/// The walk stops after this many tags.
pub const MAX_TAGS: usize = 64;

/// Little-endian 64-bit value at `off` in `s`.
pub open spec fn le64(s: Seq<u8>, off: int) -> int {
    le32(s, off) + 0x1_0000_0000 * le32(s, off + 4)
}

/// Reads a little-endian `u64` at `off`.
pub fn read_le64(s: &[u8], off: usize) -> (r: u64)
    requires
        off + 8 <= s@.len(),
    ensures
        r == le64(s@, off as int),
{
    let _n = s.len();
    read_le32(s, off) as u64 + (read_le32(s, off + 4) as u64) * 0x1_0000_0000
}

/// `x` rounded up to a multiple of 8.
pub open spec fn align8(x: int) -> int {
    x + (8 - x % 8) % 8
}

/// The header every tag starts with.
#[derive(Clone, Copy)]
pub struct TagHeader {
    pub typ: u32,
    pub size: u32,
}

/// The tags met on a walk from `ptr` (below `end`), with `count` tags
/// already counted: (tags counted in the end, (offset, type, size) of each
/// tag visited). The walk ends at `end`, at a tag whose size is below 8 or
/// above 4096, at the end tag, after 64 tags, or where a header would run
/// past the given bytes.
pub open spec fn tag_walk(info: Seq<u8>, ptr: int, end: int, count: int) -> (int, Seq<(int, u32, u32)>)
    decreases (if end > ptr { end - ptr } else { 0 }),
{
    if ptr >= end || ptr < 0 || ptr + 8 > info.len() {
        (count, Seq::empty())
    } else {
        let typ = le32(info, ptr) as u32;
        let size = le32(info, ptr + 4) as u32;
        if size < 8 || size > 4096 || typ == TAG_END {
            (count, Seq::empty())
        } else if count + 1 > MAX_TAGS {
            (count + 1, seq![(ptr, typ, size)])
        } else {
            let rest = tag_walk(info, ptr + align8(size as int), end, count + 1);
            (rest.0, seq![(ptr, typ, size)] + rest.1)
        }
    }
}

/// The result of walking the information block.
pub struct BootInfo {
    /// How many tags were counted (the parser's result; 0 means failure).
    pub tag_count: usize,
    /// Offset in the block and header of every tag visited, in order.
    pub tags: Vec<(usize, TagHeader)>,
}

/// Walks the tags of the Multiboot2 information block `info` (which starts
/// at the 8-aligned address the loader gave): its first four bytes give
/// its total size, and the tags follow from offset 8, each 8-aligned.
pub fn parse_multiboot2_info(info: &[u8]) -> (r: BootInfo)
    requires
        info@.len() >= 8,
        info@.len() <= 0x1_0000_0000,
    ensures
        ({
            let (count, tags) = tag_walk(info@, 8, le32(info@, 0), 0);
            &&& r.tag_count == count
            &&& r.tags@.len() == tags.len()
            &&& forall|k: int| 0 <= k < tags.len() ==> {
                &&& (#[trigger] r.tags@[k]).0 == tags[k].0
                &&& r.tags@[k].1.typ == tags[k].1
                &&& r.tags@[k].1.size == tags[k].2
            }
        }),
{
    let len = info.len() as u64;
    let end = read_le32(info, 0) as u64;
    let mut ptr: u64 = 8;
    let mut count: usize = 0;
    let mut tags: Vec<(usize, TagHeader)> = Vec::new();
    let ghost full = tag_walk(info@, 8, end as int, 0);
    while ptr < end && ptr + 8 <= len
        invariant
            len == info@.len(),
            len <= 0x1_0000_0000,
            end == le32(info@, 0),
            end <= 0xFFFF_FFFF,
            ptr <= end + 4096 + 8,
            count <= MAX_TAGS,
            full == tag_walk(info@, 8, end as int, 0),
            ({
                let rest = tag_walk(info@, ptr as int, end as int, count as int);
                &&& full.0 == rest.0
                &&& full.1 == tags@.map_values(|t: (usize, TagHeader)| (t.0 as int, t.1.typ, t.1.size)) + rest.1
            }),
        decreases end + 4104 - ptr,
    {
        let p = ptr as usize;
        let typ = read_le32(info, p);
        let size = read_le32(info, p + 4);
        if size < 8 || size > 4096 || typ == TAG_END {
            assert(tags@.map_values(|t: (usize, TagHeader)| (t.0 as int, t.1.typ, t.1.size)) + Seq::<(int, u32, u32)>::empty()
                =~= tags@.map_values(|t: (usize, TagHeader)| (t.0 as int, t.1.typ, t.1.size)));
            return BootInfo { tag_count: count, tags };
        }
        let ghost before = tags@;
        tags.push((p, TagHeader { typ, size }));
        let step = size as u64 + (8 - size as u64 % 8) % 8;
        let ghost old_ptr = ptr as int;
        ptr = ptr + step;
        count = count + 1;
        assert(tags@.map_values(|t: (usize, TagHeader)| (t.0 as int, t.1.typ, t.1.size))
            =~= before.map_values(|t: (usize, TagHeader)| (t.0 as int, t.1.typ, t.1.size)).push((old_ptr, typ, size)));
        if count > MAX_TAGS {
            assert(tags@.map_values(|t: (usize, TagHeader)| (t.0 as int, t.1.typ, t.1.size))
                =~= before.map_values(|t: (usize, TagHeader)| (t.0 as int, t.1.typ, t.1.size)) + seq![(old_ptr, typ, size)]);
            return BootInfo { tag_count: count, tags };
        }
        proof {
            let m0 = before.map_values(|t: (usize, TagHeader)| (t.0 as int, t.1.typ, t.1.size));
            let rest = tag_walk(info@, ptr as int, end as int, count as int);
            assert(m0 + (seq![(old_ptr, typ, size)] + rest.1) =~= m0.push((old_ptr, typ, size)) + rest.1);
        }
    }
    proof {
        let m = tags@.map_values(|t: (usize, TagHeader)| (t.0 as int, t.1.typ, t.1.size));
        assert(m + Seq::<(int, u32, u32)>::empty() =~= m);
    }
    BootInfo { tag_count: count, tags }
}

/// The framebuffer tag.
#[derive(Clone, Copy)]
pub struct FramebufferTag {
    pub typ: u32,
    pub size: u32,
    pub addr: u64,
    pub pitch: u32,
    pub width: u32,
    pub height: u32,
    pub bpp: u8,
    pub fb_type: u8,
    pub reserved: u16,
}

/// Decodes the framebuffer tag at `off`.
pub fn framebuffer_tag(info: &[u8], off: usize) -> (r: FramebufferTag)
    requires
        off + 32 <= info@.len(),
    ensures
        r.typ == le32(info@, off as int),
        r.size == le32(info@, off + 4),
        r.addr == le64(info@, off + 8),
        r.pitch == le32(info@, off + 16),
        r.width == le32(info@, off + 20),
        r.height == le32(info@, off + 24),
        r.bpp == info@[off + 28],
        r.fb_type == info@[off + 29],
        r.reserved == le16(info@, off + 30),
{
    let _n = info.len();
    FramebufferTag {
        typ: read_le32(info, off),
        size: read_le32(info, off + 4),
        addr: read_le64(info, off + 8),
        pitch: read_le32(info, off + 16),
        width: read_le32(info, off + 20),
        height: read_le32(info, off + 24),
        bpp: info[off + 28],
        fb_type: info[off + 29],
        reserved: read_le16(info, off + 30),
    }
}

/// The ACPI 1.0 root pointer tag.
#[derive(Clone, Copy)]
pub struct AcpiRSDPTag {
    pub typ: u32,
    pub size: u32,
    pub signature: [u8; 8],
    pub checksum: u8,
    pub oemid: [u8; 6],
    pub revision: u8,
    pub rsdt_addr: u32,
}

/// Decodes the ACPI 1.0 root pointer tag at `off`.
pub fn acpi_rsdp_tag(info: &[u8], off: usize) -> (r: AcpiRSDPTag)
    requires
        off + 28 <= info@.len(),
    ensures
        r.typ == le32(info@, off as int),
        r.size == le32(info@, off + 4),
        r.signature@ == info@.subrange(off + 8, off + 16),
        r.checksum == info@[off + 16],
        r.oemid@ == info@.subrange(off + 17, off + 23),
        r.revision == info@[off + 23],
        r.rsdt_addr == le32(info@, off + 24),
{
    let n = info.len();
    let mut signature = [0u8; 8];
    let mut i: usize = 0;
    while i < 8
        invariant
            off + 28 <= info@.len(),
            n == info@.len(),
            i <= 8,
            forall|j: int| 0 <= j < i ==> signature@[j] == info@[off + 8 + j],
        decreases 8 - i,
    {
        signature[i] = info[off + 8 + i];
        i = i + 1;
    }
    let mut oemid = [0u8; 6];
    let mut k: usize = 0;
    while k < 6
        invariant
            off + 28 <= info@.len(),
            n == info@.len(),
            k <= 6,
            forall|j: int| 0 <= j < k ==> oemid@[j] == info@[off + 17 + j],
        decreases 6 - k,
    {
        oemid[k] = info[off + 17 + k];
        k = k + 1;
    }
    assert(signature@ =~= info@.subrange(off + 8, off + 16));
    assert(oemid@ =~= info@.subrange(off + 17, off + 23));
    AcpiRSDPTag {
        typ: read_le32(info, off),
        size: read_le32(info, off + 4),
        signature,
        checksum: info[off + 16],
        oemid,
        revision: info[off + 23],
        rsdt_addr: read_le32(info, off + 24),
    }
}

/// The header of an ACPI system description table.
#[derive(Clone, Copy)]
pub struct AcpiSDTHeader {
    pub signature: [u8; 4],
    pub length: u32,
    pub revision: u8,
    pub checksum: u8,
    pub oemid: [u8; 6],
    pub oem_table_id: [u8; 8],
    pub oem_revision: u32,
    pub creator_id: u32,
    pub creatpr_revision: u32,
}

/// A usable memory region from the memory map.
#[derive(Clone, Copy)]
pub struct UsableMemory {
    pub base: u64,
    pub length: u64,
    pub memtype: u32,
    pub reserved: u32,
}

/// The memory map entries the memory map tag at `tag_off` describes, taken
/// in the order they are walked: `(size - 16) / entry_size` entries of
/// `entry_size` bytes each, counted from byte 16 of the information block;
/// entry `i` is recorded when its type is 1 (usable). Nothing is read when
/// the entry size is 0 or the tag is shorter than its 16-byte header;
/// entries that would run past the block end the walk.
pub open spec fn usable_walk(info: Seq<u8>, tag_off: int, i: int) -> Seq<(int, int, int, int, int)>
    decreases i,
{
    if i <= 0 {
        Seq::empty()
    } else {
        let prev = usable_walk(info, tag_off, i - 1);
        let es = le32(info, tag_off + 8);
        let e = 16 + (i - 1) * es;
        if e + 24 <= info.len() && le32(info, e + 16) == 1 {
            prev.push((i - 1, le64(info, e), le64(info, e + 8), le32(info, e + 16), le32(info, e + 20)))
        } else {
            prev
        }
    }
}

/// Number of memory map entries the memory map tag at `tag_off` claims.
pub open spec fn mmap_entry_count(info: Seq<u8>, tag_off: int) -> int {
    let size = le32(info, tag_off + 4);
    let es = le32(info, tag_off + 8);
    if es == 0 || size < 16 { 0 } else { (size - 16) / es }
}

/// The usable regions of the memory map tag at `tag_off`, each with its
/// index among the entries.
pub fn usable_memory(info: &[u8], tag_off: usize) -> (r: Vec<(usize, UsableMemory)>)
    requires
        tag_off + 16 <= info@.len(),
        info@.len() <= 0x1_0000_0000,
    ensures
        r@.len() == usable_walk(info@, tag_off as int, mmap_entry_count(info@, tag_off as int)).len(),
        forall|k: int| 0 <= k < r@.len() ==> {
            let w = usable_walk(info@, tag_off as int, mmap_entry_count(info@, tag_off as int))[k];
            &&& (#[trigger] r@[k]).0 == w.0
            &&& r@[k].1.base == w.1
            &&& r@[k].1.length == w.2
            &&& r@[k].1.memtype == w.3
            &&& r@[k].1.reserved == w.4
        },
{
    let len = info.len() as u64;
    let size = read_le32(info, tag_off + 4) as u64;
    let es = read_le32(info, tag_off + 8) as u64;
    let mut out: Vec<(usize, UsableMemory)> = Vec::new();
    if es == 0 || size < 16 {
        return out;
    }
    let n = (size - 16) / es;
    assert(n * es <= size - 16) by (nonlinear_arith)
        requires n == (size - 16) as int / es as int, es > 0, size >= 16;
    let mut i: u64 = 0;
    while i < n
        invariant
            len == info@.len(),
            len <= 0x1_0000_0000,
            tag_off + 16 <= info@.len(),
            es == le32(info@, tag_off + 8),
            es > 0,
            n == mmap_entry_count(info@, tag_off as int),
            n * es <= 0xFFFF_FFFF,
            i <= n,
            out@.len() == usable_walk(info@, tag_off as int, i as int).len(),
            forall|k: int| 0 <= k < out@.len() ==> {
                let w = usable_walk(info@, tag_off as int, i as int)[k];
                &&& (#[trigger] out@[k]).0 == w.0
                &&& out@[k].1.base == w.1
                &&& out@[k].1.length == w.2
                &&& out@[k].1.memtype == w.3
                &&& out@[k].1.reserved == w.4
            },
        decreases n - i,
    {
        assert(i * es < n * es) by (nonlinear_arith)
            requires i < n, es > 0;
        let e = 16 + i * es;
        if e + 24 <= len {
            let eu = e as usize;
            let typ = read_le32(info, eu + 16);
            if typ == 1 {
                let m = UsableMemory {
                    base: read_le64(info, eu),
                    length: read_le64(info, eu + 8),
                    memtype: typ,
                    reserved: read_le32(info, eu + 20),
                };
                out.push((i as usize, m));
            }
        }
        i = i + 1;
    }
    out
}

} // verus!
