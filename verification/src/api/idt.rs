//! Long-mode interrupt descriptor table entries and the pointer that `lidt`
//! loads.
use vstd::prelude::*;

verus! {

/// Number of entries of the interrupt descriptor table.
pub const IDT_ENTRIES: u16 = 256;

/// A 16-byte entry of the long-mode interrupt descriptor table.
#[derive(Clone, Copy, PartialEq, Eq, Structural)]
pub struct IdtEntry64 {
    pub offset_low: u16,
    pub selector: u16,
    pub ist: u8,
    pub type_attr: u8,
    pub offset_mid: u16,
    pub offset_high: u32,
    pub zero: u32,
}

impl IdtEntry64 {
    /// An entry to `handler`: the handler address split into its low 16,
    /// middle 16 and high 32 bits, with the selector, IST index and type.
    pub fn new(handler: u64, selector: u16, ist: u8, type_attr: u8) -> (r: Self)
        ensures
            r.offset_low == handler % 0x1_0000,
            r.offset_mid == (handler / 0x1_0000) % 0x1_0000,
            r.offset_high == handler / 0x1_0000_0000,
            r.selector == selector,
            r.ist == ist,
            r.type_attr == type_attr,
            r.zero == 0,
    {
        let low = (handler & 0xFFFF) as u16;
        let mid = ((handler >> 16) & 0xFFFF) as u16;
        let high = (handler >> 32) as u32;
        assert(handler & 0xFFFF == handler % 0x1_0000) by (bit_vector);
        assert((handler >> 16) & 0xFFFF == (handler / 0x1_0000) % 0x1_0000) by (bit_vector);
        assert(handler >> 32 == handler / 0x1_0000_0000) by (bit_vector);
        Self { offset_low: low, selector, ist, type_attr, offset_mid: mid, offset_high: high, zero: 0 }
    }

    /// The entry of interrupt 0x7f, the user-mode entry: selector 0x08, no
    /// IST, a present 64-bit interrupt descriptor with privilege level 3.
    pub fn syscall_entry(handler: u64) -> (r: Self)
        ensures
            r == Self::spec_entry(handler, 0x08, 0, 0xEE),
    {
        Self::new(handler, 0x08, 0, 0b1110_1110)
    }

    /// The entry `new` returns for these arguments.
    pub open spec fn spec_entry(handler: u64, selector: u16, ist: u8, type_attr: u8) -> Self {
        IdtEntry64 {
            offset_low: (handler % 0x1_0000) as u16,
            selector,
            ist,
            type_attr,
            offset_mid: ((handler / 0x1_0000) % 0x1_0000) as u16,
            offset_high: (handler / 0x1_0000_0000) as u32,
            zero: 0,
        }
    }

    /// The handler address an entry points to.
    pub open spec fn handler(self) -> int {
        self.offset_low + self.offset_mid * 0x1_0000 + self.offset_high * 0x1_0000_0000
    }
}

/// Splitting a handler address into an entry and reading it back gives the
/// address again.
pub proof fn lemma_entry_handler_roundtrip(handler: u64, selector: u16, ist: u8, type_attr: u8)
    ensures
        IdtEntry64::spec_entry(handler, selector, ist, type_attr).handler() == handler,
{
    let h = handler as int;
    let q = h / 0x1_0000;
    vstd::arithmetic::div_mod::lemma_fundamental_div_mod(h, 0x1_0000);
    vstd::arithmetic::div_mod::lemma_fundamental_div_mod(q, 0x1_0000);
    vstd::arithmetic::div_mod::lemma_div_denominator(h, 0x1_0000, 0x1_0000);
}

/// The operand of `lidt`: the table's size in bytes less one, and its address.
#[derive(Clone, Copy, PartialEq, Eq, Structural)]
pub struct IdtPointer {
    pub limit: u16,
    pub base: u64,
}

impl IdtPointer {
    /// The pointer to a table of 256 gates at `base`.
    pub fn new(base: u64) -> (r: Self)
        ensures
            r.limit == 256 * 16 - 1,
            r.base == base,
    {
        IdtPointer { limit: IDT_ENTRIES * 16 - 1, base }
    }
}

} // verus!
