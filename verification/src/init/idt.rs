//! The 16-byte GDT descriptor of the task state segment.
use vstd::prelude::*;

verus! {

/// The byte of `v` whose lowest bit has weight `unit` (a power of 256).
pub open spec fn byte_at(v: int, unit: int) -> u8 {
    ((v / unit) % 256) as u8
}

/// The descriptor of an available 64-bit TSS at `base` with `limit`: limit
/// bits 0..16, base bits 0..24, access byte 0x89 (present, ring 0, type 9),
/// limit bits 16..20, base bits 24..64, then four zero bytes.
pub open spec fn tss_descriptor(base: u64, limit: u32) -> Seq<u8> {
    seq![
        byte_at(limit as int, 1), byte_at(limit as int, 0x100),
        byte_at(base as int, 1), byte_at(base as int, 0x100), byte_at(base as int, 0x1_0000),
        0x89u8,
        ((limit as int / 0x1_0000) % 16) as u8,
        byte_at(base as int, 0x100_0000), byte_at(base as int, 0x1_0000_0000),
        byte_at(base as int, 0x100_0000_0000), byte_at(base as int, 0x1_0000_0000_0000),
        byte_at(base as int, 0x100_0000_0000_0000),
        0u8, 0u8, 0u8, 0u8,
    ]
}

/// Builds the GDT descriptor of the task state segment.
pub fn make_tss_descriptor(base: u64, limit: u32) -> (r: [u8; 16])
    ensures
        r@ == tss_descriptor(base, limit),
{
    let mut desc = [0u8; 16];
    desc[0] = (limit % 256) as u8;
    desc[1] = ((limit / 256) % 256) as u8;
    desc[2] = (base % 256) as u8;
    desc[3] = ((base / 256) % 256) as u8;
    desc[4] = ((base / 0x1_0000) % 256) as u8;
    desc[5] = 0b10001001;
    desc[6] = ((limit / 0x1_0000) % 16) as u8;
    desc[7] = ((base / 0x100_0000) % 256) as u8;
    desc[8] = ((base / 0x1_0000_0000) % 256) as u8;
    desc[9] = ((base / 0x100_0000_0000) % 256) as u8;
    desc[10] = ((base / 0x1_0000_0000_0000) % 256) as u8;
    desc[11] = ((base / 0x100_0000_0000_0000) % 256) as u8;
    desc[12] = 0;
    desc[13] = 0;
    desc[14] = 0;
    desc[15] = 0;
    assert(desc@ =~= tss_descriptor(base, limit));
    desc
}

} // verus!
