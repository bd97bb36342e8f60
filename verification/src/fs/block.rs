//! Sector-addressed storage: the device interface the file systems are
//! written against, and an in-memory disk that implements it.
use vstd::prelude::*;

verus! {

/// Size of one sector in bytes.
pub const SECTOR_SIZE: usize = 512;

/// A device that stores fixed-size 512-byte sectors addressed by LBA.
///
/// The model of a device is the sequence of its sectors: `sector_count()`
/// sectors, each read back as `sector(lba)`. A device driven outside the
/// library (real hardware) may keep the default model, an empty device;
/// nothing is then stated about its contents.
pub trait BlockDevice {
    /// Number of sectors that the device can address.
    open spec fn sector_count(&self) -> nat {
        0
    }

    /// The bytes currently stored in sector `lba`.
    open spec fn sector(&self, lba: int) -> Seq<u8> {
        Seq::empty()
    }

    /// Every addressable sector holds SECTOR_SIZE bytes.
    proof fn lemma_sector_len(&self, lba: int)
        requires
            0 <= lba < self.sector_count(),
        ensures
            self.sector(lba).len() == SECTOR_SIZE,
    ;

    /// Number of sectors that the device can address.
    fn sector_total(&self) -> (r: u64)
        ensures
            r == self.sector_count(),
    ;

    /// Reads 1 sector at the given LBA into `buffer`.
    fn read_sector(&self, lba: u64, buffer: &mut [u8])
        requires
            lba < self.sector_count(),
            old(buffer)@.len() == SECTOR_SIZE,
        ensures
            final(buffer)@ == self.sector(lba as int),
    ;

    /// Writes 1 sector from `buffer` to `lba`; every other sector keeps its bytes.
    fn write_sector(&mut self, lba: u64, buffer: &[u8; 512])
        requires
            lba < old(self).sector_count(),
        ensures
            final(self).sector_count() == old(self).sector_count(),
            final(self).sector(lba as int) == buffer@,
            forall|l: int| l != lba ==> #[trigger] final(self).sector(l) == old(self).sector(l),
    ;
}

/// A disk held in memory; sector `n` is `data[n * 512 .. n * 512 + 512]`.
pub struct MemDisk {
    pub data: Vec<u8>,
}

impl MemDisk {
    /// Wraps an in-memory image; a trailing partial sector is not addressable.
    pub fn new(data: Vec<u8>) -> (r: Self)
        ensures
            r.data@ == data@,
    {
        Self { data }
    }

    /// Byte offset of the first byte of sector `lba`.
    fn sector_offset(&self, lba: u64) -> (r: usize)
        requires
            lba < self.sector_count(),
        ensures
            r == lba * SECTOR_SIZE,
            r + SECTOR_SIZE <= self.data@.len(),
    {
        let len = self.data.len();
        assert(lba < len / 512);
        assert(lba * 512 + 512 <= len) by (nonlinear_arith)
            requires lba < len / 512;
        let l = lba as usize;
        assert(l == lba);
        l * SECTOR_SIZE
    }
}

impl BlockDevice for MemDisk {
    open spec fn sector_count(&self) -> nat {
        self.data@.len() / 512
    }

    open spec fn sector(&self, lba: int) -> Seq<u8> {
        if 0 <= lba < self.sector_count() {
            self.data@.subrange(lba * 512, lba * 512 + 512)
        } else {
            Seq::empty()
        }
    }

    proof fn lemma_sector_len(&self, lba: int) {
        let len = self.data@.len();
        assert(lba * 512 + 512 <= len) by (nonlinear_arith)
            requires 0 <= lba < len / 512;
    }

    fn sector_total(&self) -> (r: u64) {
        (self.data.len() / 512) as u64
    }

    fn read_sector(&self, lba: u64, buffer: &mut [u8]) {
        let offset = self.sector_offset(lba);
        let mut i: usize = 0;
        while i < SECTOR_SIZE
            invariant
                offset == lba * 512,
                offset + 512 <= self.data@.len(),
                buffer@.len() == 512,
                0 <= i <= 512,
                forall|j: int| 0 <= j < i ==> buffer@[j] == self.data@[offset + j],
            decreases 512 - i,
        {
            buffer[i] = self.data[offset + i];
            i = i + 1;
        }
        assert(buffer@ =~= self.sector(lba as int));
    }

    fn write_sector(&mut self, lba: u64, buffer: &[u8; 512]) {
        let offset = self.sector_offset(lba);
        let ghost before = self.data@;
        let mut i: usize = 0;
        while i < SECTOR_SIZE
            invariant
                offset == lba * 512,
                offset + 512 <= before.len(),
                self.data@.len() == before.len(),
                0 <= i <= 512,
                forall|j: int| 0 <= j < i ==> self.data@[offset + j] == buffer@[j],
                forall|j: int|
                    0 <= j < before.len() && !(offset <= j < offset + i) ==> self.data@[j]
                        == before[j],
            decreases 512 - i,
        {
            self.data.set(offset + i, buffer[i]);
            i = i + 1;
        }
        assert(self.sector(lba as int) =~= buffer@);
        assert forall|l: int| l != lba implies #[trigger] self.sector(l) == old(self).sector(l) by {
            if 0 <= l < self.sector_count() {
                assert(l * 512 + 512 <= before.len()) by (nonlinear_arith)
                    requires 0 <= l < before.len() / 512;
                assert forall|j: int| 0 <= j < 512 implies #[trigger] self.data@[l * 512 + j] == before[l * 512 + j] by {
                    if l < lba {
                        assert(l * 512 + 512 <= lba * 512) by (nonlinear_arith) requires l < lba;
                    } else {
                        assert(lba * 512 + 512 <= l * 512) by (nonlinear_arith) requires l > lba;
                    }
                }
                assert(self.sector(l) =~= old(self).sector(l));
            }
        }
    }
}

/// The floppy drive of a 1.44 MB disk: 18 sectors per track, 2 heads.
pub struct Floppy;

impl Floppy {
    /// The cylinder, head and (1-based) sector of `lba`, each cut to a byte.
    pub fn lba_to_chs(&self, lba: u64) -> (r: (u8, u8, u8))
        ensures
            r.0 == (lba / 36) as u8,
            r.1 == ((lba % 36) / 18) as u8,
            r.2 == ((lba % 36) % 18 + 1) as u8,
    {
        let sectors_per_track: u64 = 18;
        let heads: u64 = 2;
        let cylinder = (lba / (sectors_per_track * heads)) as u8;
        let temp = lba % (sectors_per_track * heads);
        let head = (temp / sectors_per_track) as u8;
        let sector = (temp % sectors_per_track + 1) as u8;
        (cylinder, head, sector)
    }
}

} // verus!
