//! On-disk records of a FAT12 volume: the BIOS parameter block of the
//! boot sector and the 32-byte directory entry.
use vstd::prelude::*;

verus! {

/// Little-endian 16-bit value at `off` in `s`.
pub open spec fn le16(s: Seq<u8>, off: int) -> int {
    s[off] + 256 * s[off + 1]
}

/// Little-endian 32-bit value at `off` in `s`.
pub open spec fn le32(s: Seq<u8>, off: int) -> int {
    le16(s, off) + 65536 * le16(s, off + 2)
}

/// Reads a little-endian `u16` at `off`.
pub fn read_le16(s: &[u8], off: usize) -> (r: u16)
    requires
        off + 2 <= s@.len(),
    ensures
        r == le16(s@, off as int),
{
    s[off] as u16 + (s[off + 1] as u16) * 256
}

/// Reads a little-endian `u32` at `off`.
pub fn read_le32(s: &[u8], off: usize) -> (r: u32)
    requires
        off + 4 <= s@.len(),
    ensures
        r == le32(s@, off as int),
{
    let n = s.len();
    read_le16(s, off) as u32 + (read_le16(s, off + 2) as u32) * 65536
}

/// The fields of the FAT12 BIOS parameter block that the file system reads.
#[derive(Clone, Copy)]
pub struct BootSector {
    pub oem: [u8; 8],
    pub bytes_per_sector: u16,
    pub sectors_per_cluster: u8,
    pub reserved_sectors: u16,
    pub fat_count: u8,
    pub root_entry_count: u16,
    pub total_sectors_16: u16,
    pub media: u8,
    pub fat_size_16: u16,
    pub sectors_per_track: u16,
    pub heads: u16,
}

impl BootSector {
    /// The parameter block stored in the boot sector bytes `s`.
    pub open spec fn spec_parse(s: Seq<u8>) -> BootSector {
        BootSector {
            oem: arbitrary(),
            bytes_per_sector: le16(s, 11) as u16,
            sectors_per_cluster: s[13],
            reserved_sectors: le16(s, 14) as u16,
            fat_count: s[16],
            root_entry_count: le16(s, 17) as u16,
            total_sectors_16: le16(s, 19) as u16,
            media: s[21],
            fat_size_16: le16(s, 22) as u16,
            sectors_per_track: le16(s, 24) as u16,
            heads: le16(s, 26) as u16,
        }
    }

    /// True when `self` holds the numeric fields stored in `s` and the OEM
    /// name from bytes 3..11.
    pub open spec fn parsed_from(self, s: Seq<u8>) -> bool {
        let p = BootSector::spec_parse(s);
        &&& self.oem@ == s.subrange(3, 11)
        &&& self.bytes_per_sector == p.bytes_per_sector
        &&& self.sectors_per_cluster == p.sectors_per_cluster
        &&& self.reserved_sectors == p.reserved_sectors
        &&& self.fat_count == p.fat_count
        &&& self.root_entry_count == p.root_entry_count
        &&& self.total_sectors_16 == p.total_sectors_16
        &&& self.media == p.media
        &&& self.fat_size_16 == p.fat_size_16
        &&& self.sectors_per_track == p.sectors_per_track
        &&& self.heads == p.heads
    }

    /// Decodes the parameter block of a 512-byte boot sector.
    pub fn parse(s: &[u8; 512]) -> (r: BootSector)
        ensures
            r.parsed_from(s@),
    {
        let mut oem = [0u8; 8];
        let mut i: usize = 0;
        while i < 8
            invariant
                0 <= i <= 8,
                forall|j: int| 0 <= j < i ==> oem@[j] == s@[3 + j],
            decreases 8 - i,
        {
            oem[i] = s[3 + i];
            i = i + 1;
        }
        assert(oem@ =~= s@.subrange(3, 11));
        let b: &[u8] = s;
        BootSector {
            oem,
            bytes_per_sector: read_le16(b, 11),
            sectors_per_cluster: s[13],
            reserved_sectors: read_le16(b, 14),
            fat_count: s[16],
            root_entry_count: read_le16(b, 17),
            total_sectors_16: read_le16(b, 19),
            media: s[21],
            fat_size_16: read_le16(b, 22),
            sectors_per_track: read_le16(b, 24),
            heads: read_le16(b, 26),
        }
    }
}

/// Attribute bit of a directory.
pub const ATTR_DIRECTORY: u8 = 0x10;

/// Attribute bit of a volume label.
pub const ATTR_VOLUME_ID: u8 = 0x08;

/// A 32-byte FAT directory entry: 8.3 name, attributes, first cluster and size.
#[derive(Clone, Copy)]
pub struct Entry {
    pub name: [u8; 8],
    pub ext: [u8; 3],
    pub attr: u8,
    pub reserved: [u8; 14],
    pub start_cluster: u16,
    pub file_size: u32,
}

impl Entry {
    /// True when `self` is the entry stored in the 32 bytes of `s` at `off`.
    pub open spec fn decoded_from(self, s: Seq<u8>, off: int) -> bool {
        &&& self.name@ == s.subrange(off, off + 8)
        &&& self.ext@ == s.subrange(off + 8, off + 11)
        &&& self.attr == s[off + 11]
        &&& self.reserved@ == s.subrange(off + 12, off + 26)
        &&& self.start_cluster == le16(s, off + 26)
        &&& self.file_size == le32(s, off + 28)
    }

    /// The bytes of a slot decode to one entry only.
    pub proof fn lemma_decoded_unique(e1: Entry, e2: Entry, s: Seq<u8>, off: int)
        requires
            e1.decoded_from(s, off),
            e2.decoded_from(s, off),
        ensures
            e1 == e2,
    {
        assert(e1.name =~= e2.name);
        assert(e1.ext =~= e2.ext);
        assert(e1.reserved =~= e2.reserved);
    }

    /// The entry stored at `off` in `s`.
    pub open spec fn spec_decode(s: Seq<u8>, off: int) -> Entry {
        choose|e: Entry| e.decoded_from(s, off)
    }

    /// Decodes the entry stored at `off` in `s`.
    pub fn from_bytes(s: &[u8], off: usize) -> (r: Entry)
        requires
            off + 32 <= s@.len(),
        ensures
            r.decoded_from(s@, off as int),
            r == Entry::spec_decode(s@, off as int),
    {
        let mut name = [0u8; 8];
        let mut ext = [0u8; 3];
        let mut reserved = [0u8; 14];
        let n = s.len();
        let mut i: usize = 0;
        while i < 8
            invariant
                off + 32 <= s@.len(),
                n == s@.len(),
                0 <= i <= 8,
                forall|j: int| 0 <= j < i ==> name@[j] == s@[off + j],
            decreases 8 - i,
        {
            name[i] = s[off + i];
            i = i + 1;
        }
        i = 0;
        while i < 3
            invariant
                off + 32 <= s@.len(),
                n == s@.len(),
                0 <= i <= 3,
                forall|j: int| 0 <= j < i ==> ext@[j] == s@[off + 8 + j],
            decreases 3 - i,
        {
            ext[i] = s[off + 8 + i];
            i = i + 1;
        }
        i = 0;
        while i < 14
            invariant
                off + 32 <= s@.len(),
                n == s@.len(),
                0 <= i <= 14,
                forall|j: int| 0 <= j < i ==> reserved@[j] == s@[off + 12 + j],
            decreases 14 - i,
        {
            reserved[i] = s[off + 12 + i];
            i = i + 1;
        }
        assert(name@ =~= s@.subrange(off as int, off + 8));
        assert(ext@ =~= s@.subrange(off + 8, off + 11));
        assert(reserved@ =~= s@.subrange(off + 12, off + 26));
        let r = Entry {
            name,
            ext,
            attr: s[off + 11],
            reserved,
            start_cluster: read_le16(s, off + 26),
            file_size: read_le32(s, off + 28),
        };
        proof {
            assert(r.decoded_from(s@, off as int));
            let c = Entry::spec_decode(s@, off as int);
            assert(c.decoded_from(s@, off as int));
            Entry::lemma_decoded_unique(r, c, s@, off as int);
        }
        r
    }

    /// The 32 bytes that store this entry on disk: name, extension,
    /// attributes, the reserved bytes, then cluster and size little-endian.
    pub open spec fn spec_bytes(self) -> Seq<u8> {
        self.name@ + self.ext@ + seq![self.attr] + self.reserved@ + seq![
            (self.start_cluster % 256) as u8,
            (self.start_cluster / 256) as u8,
            (self.file_size % 256) as u8,
            ((self.file_size / 256) % 256) as u8,
            ((self.file_size / 65536) % 256) as u8,
            (self.file_size / 16777216) as u8,
        ]
    }

    /// The 32 bytes that store this entry on disk.
    pub fn to_bytes(&self) -> (r: [u8; 32])
        ensures
            self.decoded_from(r@, 0),
            r@ == self.spec_bytes(),
    {
        let mut r = [0u8; 32];
        let mut i: usize = 0;
        while i < 8
            invariant
                0 <= i <= 8,
                forall|j: int| 0 <= j < i ==> r@[j] == self.name@[j],
            decreases 8 - i,
        {
            r[i] = self.name[i];
            i = i + 1;
        }
        i = 0;
        while i < 3
            invariant
                0 <= i <= 3,
                forall|j: int| 0 <= j < 8 ==> r@[j] == self.name@[j],
                forall|j: int| 0 <= j < i ==> r@[8 + j] == self.ext@[j],
            decreases 3 - i,
        {
            r[8 + i] = self.ext[i];
            i = i + 1;
        }
        r[11] = self.attr;
        i = 0;
        while i < 14
            invariant
                0 <= i <= 14,
                forall|j: int| 0 <= j < 8 ==> r@[j] == self.name@[j],
                forall|j: int| 0 <= j < 3 ==> r@[8 + j] == self.ext@[j],
                r@[11] == self.attr,
                forall|j: int| 0 <= j < i ==> r@[12 + j] == self.reserved@[j],
            decreases 14 - i,
        {
            r[12 + i] = self.reserved[i];
            i = i + 1;
        }
        let c = self.start_cluster;
        r[26] = (c % 256) as u8;
        r[27] = (c / 256) as u8;
        let f = self.file_size;
        r[28] = (f % 256) as u8;
        r[29] = ((f / 256) % 256) as u8;
        r[30] = ((f / 65536) % 256) as u8;
        r[31] = (f / 16777216) as u8;
        assert(r@.subrange(0, 8) =~= self.name@);
        assert(r@.subrange(8, 11) =~= self.ext@);
        assert(r@.subrange(12, 26) =~= self.reserved@);
        assert(r@ =~= self.spec_bytes());
        r
    }
}

/// Decoding the 32 bytes that store an entry gives the entry back.
pub proof fn lemma_entry_bytes_roundtrip(e: Entry)
    ensures
        e.decoded_from(e.spec_bytes(), 0),
        Entry::spec_decode(e.spec_bytes(), 0) == e,
{
    let b = e.spec_bytes();
    assert(b.subrange(0, 8) =~= e.name@);
    assert(b.subrange(8, 11) =~= e.ext@);
    assert(b.subrange(12, 26) =~= e.reserved@);
    assert(le16(b, 26) == e.start_cluster);
    assert(le32(b, 28) == e.file_size);
    assert(e.decoded_from(b, 0));
    let d = Entry::spec_decode(b, 0);
    assert(d.decoded_from(b, 0));
    Entry::lemma_decoded_unique(d, e, b, 0);
}

} // verus!
