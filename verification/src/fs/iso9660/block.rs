//! Devices of 2048-byte ISO9660 blocks: the interface, an image held in
//! memory, and the READ(10) command the ATAPI drive is sent.
use vstd::prelude::*;

verus! {

/// Size of one ISO9660 logical block.
pub const BLOCK_SIZE: usize = 2048;

/// A device of 2048-byte blocks. A block may be unreadable (no medium, a
/// timeout, an error): then `block` is None. The default model has no
/// readable block; a driver of real hardware, which cannot state its model,
/// keeps it and does not meet the contract of `read_block`, so what is
/// proved over this trait describes the models given here, such as
/// `IsoImage`, and not reads from such a driver.
pub trait IsoDevice {
    /// The bytes of block `lba`, or None when it cannot be read.
    open spec fn block(&self, lba: u32) -> Option<Seq<u8>> {
        None
    }

    /// Reads block `lba` into `buf`; false when it cannot be read.
    fn read_block(&self, lba: u32, buf: &mut [u8; 2048]) -> (r: bool)
        ensures
            r == self.block(lba) is Some,
            r ==> final(buf)@ == self.block(lba)->0,
    ;
}

/// An ISO9660 image held in memory; block `n` is `data[n * 2048 ..][..2048]`.
pub struct IsoImage {
    pub data: Vec<u8>,
}

impl IsoImage {
    /// Wraps an in-memory image; a trailing partial block is not readable.
    pub fn new(data: Vec<u8>) -> (r: Self)
        ensures
            r.data@ == data@,
    {
        IsoImage { data }
    }
}

impl IsoDevice for IsoImage {
    open spec fn block(&self, lba: u32) -> Option<Seq<u8>> {
        if (lba as int + 1) * 2048 <= self.data@.len() {
            Some(self.data@.subrange(lba as int * 2048, lba as int * 2048 + 2048))
        } else {
            None
        }
    }

    fn read_block(&self, lba: u32, buf: &mut [u8; 2048]) -> (r: bool) {
        let len = self.data.len();
        if (lba as usize) >= len / 2048 {
            assert((lba as int + 1) * 2048 > len) by (nonlinear_arith)
                requires lba >= len / 2048;
            return false;
        }
        assert((lba as int + 1) * 2048 <= len) by (nonlinear_arith)
            requires lba < len / 2048;
        let base = (lba as usize) * 2048;
        let mut i: usize = 0;
        while i < 2048
            invariant
                base == lba * 2048,
                base + 2048 <= self.data@.len(),
                i <= 2048,
                forall|j: int| 0 <= j < i ==> buf@[j] == self.data@[base + j],
            decreases 2048 - i,
        {
            buf[i] = self.data[base + i];
            i = i + 1;
        }
        assert(buf@ =~= self.data@.subrange(lba as int * 2048, lba as int * 2048 + 2048));
        true
    }
}

/// The CD-ROM drive on the secondary IDE channel.
pub struct Atapi;

impl Atapi {
    /// The drive handle.
    pub fn new() -> (r: Self) {
        Atapi
    }

    /// The six 16-bit words of the READ(10) packet for one block at `lba`:
    /// the opcode, the block address big-endian, and a transfer length of 1.
    pub fn read_packet(lba: u32) -> (r: [u16; 6])
        ensures
            r[0] == 0x0028,
            r[1] == (lba / 0x100_0000) % 256 + 256 * ((lba / 0x1_0000) % 256),
            r[2] == (lba / 0x100) % 256 + 256 * (lba % 256),
            r[3] == 0,
            r[4] == 1,
            r[5] == 0,
    {
        let b2 = ((lba / 0x100_0000) % 256) as u16;
        let b3 = ((lba / 0x1_0000) % 256) as u16;
        let b4 = ((lba / 0x100) % 256) as u16;
        let b5 = (lba % 256) as u16;
        [0x0028, b2 + b3 * 256, b4 + b5 * 256, 0, 1, 0]
    }
}

} // verus!
