//! Physical memory seen as 64-bit words at 8-byte aligned addresses, the way
//! the page-table code reads and writes it.
use vstd::prelude::*;

verus! {

/// Physical memory, word by word. A memory driven outside the library (RAM)
/// may keep the default model, all zero; nothing is then stated about it.
pub trait PhysMemory {
    /// The word stored at physical address `addr`.
    open spec fn word(&self, addr: int) -> u64 {
        0
    }

    /// Reads the word at `addr`.
    fn read64(&self, addr: u64) -> (r: u64)
        requires
            addr % 8 == 0,
        ensures
            r == self.word(addr as int),
    ;

    /// Writes the word at `addr`; every other word keeps its value.
    fn write64(&mut self, addr: u64, v: u64)
        requires
            addr % 8 == 0,
        ensures
            forall|a: int| #[trigger]
                final(self).word(a) == (if a == addr {
                    v
                } else {
                    old(self).word(a)
                }),
    ;
}

/// The word at `a` after the writes `ws` (address, value), made in order,
/// to a memory whose words were `m`.
pub open spec fn after_writes(m: spec_fn(int) -> u64, ws: Seq<(int, u64)>, a: int) -> u64
    decreases ws.len(),
{
    if ws.len() == 0 {
        m(a)
    } else if ws.last().0 == a {
        ws.last().1
    } else {
        after_writes(m, ws.drop_last(), a)
    }
}

/// The value of the last pair in `cells` for address `a`, or 0.
pub open spec fn cell_value(cells: Seq<(u64, u64)>, a: int) -> u64
    decreases cells.len(),
{
    if cells.len() == 0 {
        0
    } else if cells.last().0 == a {
        cells.last().1
    } else {
        cell_value(cells.drop_last(), a)
    }
}

/// A sparse memory: the words written so far as (address, value) pairs,
/// later pairs winning; every other word reads 0.
pub struct SparseMemory {
    pub cells: Vec<(u64, u64)>,
}

impl SparseMemory {
    /// A memory of zeros.
    pub fn new() -> (r: Self)
        ensures
            r.cells@.len() == 0,
    {
        SparseMemory { cells: Vec::new() }
    }
}

impl PhysMemory for SparseMemory {
    open spec fn word(&self, addr: int) -> u64 {
        cell_value(self.cells@, addr)
    }

    fn read64(&self, addr: u64) -> (r: u64) {
        let mut i = self.cells.len();
        assert(self.cells@.subrange(0, i as int) =~= self.cells@);
        while i > 0
            invariant
                i <= self.cells@.len(),
                cell_value(self.cells@, addr as int) == cell_value(
                    self.cells@.subrange(0, i as int),
                    addr as int,
                ),
            decreases i,
        {
            let (a, v) = self.cells[i - 1];
            let ghost pre = self.cells@.subrange(0, i as int);
            assert(pre.drop_last() =~= self.cells@.subrange(0, i - 1));
            if a == addr {
                return v;
            }
            i = i - 1;
        }
        0
    }

    fn write64(&mut self, addr: u64, v: u64) {
        let ghost before = self.cells@;
        self.cells.push((addr, v));
        assert(self.cells@.drop_last() =~= before);
    }
}

} // verus!
