//! Read-only ISO9660: the primary volume descriptor, directory records,
//! lookup by name and path, and reading a file's blocks.
use vstd::prelude::*;
use crate::fs::fat12::entry::{le32, read_le32};
use crate::fs::iso9660::block::{IsoDevice, BLOCK_SIZE};
use crate::input::keyboard::{first_index, lemma_first_index, position};

verus! {

/// A directory entry: its name (lower-cased, version suffix removed, at
/// most 32 bytes), whether it is a directory, its first block and its size.
#[derive(Clone, Copy)]
pub struct IsoEntry {
    pub name: [u8; 32],
    pub name_len: u8,
    pub is_dir: bool,
    pub lba: u32,
    pub size: u32,
}

impl IsoEntry {
    /// An empty, nameless file entry at block 0.
    pub fn empty() -> (r: Self)
        ensures
            r.name@ == Seq::new(32, |i: int| 0u8),
            r.name_len == 0,
            !r.is_dir,
            r.lba == 0,
            r.size == 0,
    {
        let r = IsoEntry { name: [0u8; 32], name_len: 0, is_dir: false, lba: 0, size: 0 };
        assert(r.name@ =~= Seq::new(32, |i: int| 0u8));
        r
    }
}

impl Default for IsoEntry {
    fn default() -> (r: Self)
        ensures
            r.name@ == Seq::new(32, |i: int| 0u8),
            r.name_len == 0,
            !r.is_dir,
            r.lba == 0,
            r.size == 0,
    {
        IsoEntry::empty()
    }
}

/// ASCII lower case.
pub open spec fn lower(b: u8) -> u8 {
    if 0x41 <= b <= 0x5a { (b + 32) as u8 } else { b }
}

/// ASCII upper case.
pub open spec fn upper(b: u8) -> u8 {
    if 0x61 <= b <= 0x7a { (b - 32) as u8 } else { b }
}

/// ASCII lower case of a byte.
pub fn to_lower(b: u8) -> (r: u8)
    ensures
        r == lower(b),
{
    if 0x41 <= b && b <= 0x5a { b + 32 } else { b }
}

/// ASCII upper case of a byte.
pub fn to_upper(b: u8) -> (r: u8)
    ensures
        r == upper(b),
{
    if 0x61 <= b && b <= 0x7a { b - 32 } else { b }
}

/// Index of the last ';' in `s`, or -1.
pub open spec fn last_semicolon(s: Seq<u8>) -> int
    decreases s.len(),
{
    if s.len() == 0 {
        -1
    } else if s.last() == 0x3b {
        s.len() - 1
    } else {
        last_semicolon(s.drop_last())
    }
}

/// A file name without its ";version" suffix (everything from the last ';').
pub open spec fn spec_strip_version(s: Seq<u8>) -> Seq<u8> {
    if last_semicolon(s) >= 0 { s.take(last_semicolon(s)) } else { s }
}

proof fn lemma_last_semicolon(s: Seq<u8>)
    ensures
        -1 <= last_semicolon(s) < s.len(),
    decreases s.len(),
{
    if s.len() > 0 {
        lemma_last_semicolon(s.drop_last());
    }
}

/// Removes the ";version" suffix of a file name.
pub fn strip_version(name: &[u8]) -> (r: &[u8])
    ensures
        r@ == spec_strip_version(name@),
{
    let mut i: usize = name.len();
    assert(name@.take(i as int) =~= name@);
    while i > 0 && name[i - 1] != 0x3b
        invariant
            i <= name@.len(),
            last_semicolon(name@) == last_semicolon(name@.take(i as int)),
        decreases i,
    {
        assert(name@.take(i as int).drop_last() =~= name@.take(i - 1));
        i = i - 1;
    }
    if i == 0 {
        assert(last_semicolon(name@.take(0)) == -1);
        name
    } else {
        assert(name@.take(i as int).last() == 0x3b);
        &name[0..i - 1]
    }
}

/// Two names are equal ignoring ASCII case.
pub open spec fn spec_names_match(a: Seq<u8>, b: Seq<u8>) -> bool {
    a.len() == b.len() && forall|i: int| 0 <= i < a.len() ==> upper(#[trigger] a[i]) == upper(b[i])
}

/// Whether two names are equal ignoring ASCII case.
pub fn names_match(iso_name: &[u8], query: &[u8]) -> (r: bool)
    ensures
        r == spec_names_match(iso_name@, query@),
{
    if iso_name.len() != query.len() {
        return false;
    }
    let mut i: usize = 0;
    while i < iso_name.len()
        invariant
            iso_name@.len() == query@.len(),
            i <= iso_name@.len(),
            forall|j: int| 0 <= j < i ==> upper(#[trigger] iso_name@[j]) == upper(query@[j]),
        decreases iso_name@.len() - i,
    {
        if to_upper(iso_name[i]) != to_upper(query[i]) {
            return false;
        }
        i = i + 1;
    }
    true
}

/// The record at `off` of a directory block is the "." or ".." record.
pub open spec fn is_dot_record(b: Seq<u8>, off: int) -> bool {
    b[off + 32] == 1 && off + 33 < 2048 && (b[off + 33] == 0 || b[off + 33] == 1)
}

/// The name stored in the record at `off`, without its version suffix.
pub open spec fn record_name(b: Seq<u8>, off: int) -> Seq<u8> {
    spec_strip_version(b.subrange(off + 33, off + 33 + b[off + 32]))
}

/// `e` is the entry the record at `off` of block `b` describes.
pub open spec fn entry_matches(e: IsoEntry, b: Seq<u8>, off: int) -> bool {
    let st = record_name(b, off);
    let cl = if st.len() < 32 { st.len() as int } else { 32 };
    &&& e.name_len == cl
    &&& forall|i: int| 0 <= i < 32 ==> #[trigger] e.name@[i] == if i < cl { lower(st[i]) } else { 0u8 }
    &&& e.is_dir == (b[off + 25] & 2 != 0)
    &&& e.lba == le32(b, off + 2)
    &&& e.size == le32(b, off + 10)
}

/// The records of a directory block that `list_dir` takes, from `off` on,
/// with `taken` entries already taken: (their offsets, whether the list
/// is full). A record shorter than 33 bytes or running past the block ends
/// the block; "." and ".." are skipped; a record whose name runs past the
/// block ends the block.
pub open spec fn scan_list(b: Seq<u8>, chunk: int, off: int, taken: int) -> (Seq<int>, bool)
    decreases (if chunk > off { chunk - off } else { 0 }),
{
    if off >= chunk || off < 0 {
        (Seq::empty(), false)
    } else {
        let rl = b[off] as int;
        if rl < 33 || off + rl > 2048 {
            (Seq::empty(), false)
        } else if is_dot_record(b, off) {
            scan_list(b, chunk, off + rl, taken)
        } else if taken >= 64 {
            (Seq::empty(), true)
        } else if off + 33 + b[off + 32] > 2048 {
            (Seq::empty(), false)
        } else {
            let (rest, stop) = scan_list(b, chunk, off + rl, taken + 1);
            (seq![off] + rest, stop)
        }
    }
}

/// The (block, offset) of every record `list_dir` takes in the directory
/// of `remaining` bytes starting at block `lba`, `taken` already taken.
pub open spec fn list_walk<D: IsoDevice>(dev: &D, lba: u32, remaining: int, taken: int) -> Seq<(u32, int)>
    decreases (if remaining > 0 { remaining } else { 0 }),
{
    if remaining <= 0 {
        Seq::empty()
    } else {
        match dev.block(lba) {
            None => Seq::empty(),
            Some(b) => {
                let chunk = if remaining < 2048 { remaining } else { 2048 };
                let (offs, stop) = scan_list(b, chunk, 0, taken);
                let here = offs.map_values(|o: int| (lba, o));
                if stop {
                    here
                } else {
                    here + list_walk(dev, ((lba + 1) % 0x1_0000_0000) as u32, remaining - 2048, taken + offs.len())
                }
            },
        }
    }
}

/// The offset of the first record of a block (from `off`) named `name`,
/// ignoring case; "." and "..", and records whose name runs past the
/// block, are passed over.
pub open spec fn scan_find(b: Seq<u8>, chunk: int, off: int, name: Seq<u8>) -> Option<int>
    decreases (if chunk > off { chunk - off } else { 0 }),
{
    if off >= chunk || off < 0 {
        None
    } else {
        let rl = b[off] as int;
        if rl < 33 || off + rl > 2048 {
            None
        } else if is_dot_record(b, off) || off + 33 + b[off + 32] > 2048 {
            scan_find(b, chunk, off + rl, name)
        } else if spec_names_match(record_name(b, off), name) {
            Some(off)
        } else {
            scan_find(b, chunk, off + rl, name)
        }
    }
}

/// The (block, offset) of the first record named `name` in the directory
/// of `remaining` bytes starting at block `lba`.
pub open spec fn find_walk<D: IsoDevice>(dev: &D, lba: u32, remaining: int, name: Seq<u8>) -> Option<(u32, int)>
    decreases (if remaining > 0 { remaining } else { 0 }),
{
    if remaining <= 0 {
        None
    } else {
        match dev.block(lba) {
            None => None,
            Some(b) => {
                let chunk = if remaining < 2048 { remaining } else { 2048 };
                match scan_find(b, chunk, 0, name) {
                    Some(off) => Some((lba, off)),
                    None => find_walk(dev, ((lba + 1) % 0x1_0000_0000) as u32, remaining - 2048, name),
                }
            },
        }
    }
}

/// Names that are equal ignoring case match the same record names.
proof fn lemma_names_match_same(a: Seq<u8>, n1: Seq<u8>, n2: Seq<u8>)
    requires
        spec_names_match(n1, n2),
    ensures
        spec_names_match(a, n1) == spec_names_match(a, n2),
{
    if spec_names_match(a, n1) {
        assert forall|i: int| 0 <= i < a.len() implies upper(#[trigger] a[i]) == upper(n2[i]) by {
            assert(upper(n1[i]) == upper(n2[i]));
        }
    }
    if spec_names_match(a, n2) {
        assert forall|i: int| 0 <= i < a.len() implies upper(#[trigger] a[i]) == upper(n1[i]) by {
            assert(upper(n1[i]) == upper(n2[i]));
        }
    }
}

proof fn lemma_scan_find_ignores_case(b: Seq<u8>, chunk: int, off: int, n1: Seq<u8>, n2: Seq<u8>)
    requires
        spec_names_match(n1, n2),
    ensures
        scan_find(b, chunk, off, n1) == scan_find(b, chunk, off, n2),
    decreases (if chunk > off { chunk - off } else { 0 }),
{
    if !(off >= chunk || off < 0) {
        let rl = b[off] as int;
        if !(rl < 33 || off + rl > 2048) {
            lemma_names_match_same(record_name(b, off), n1, n2);
            lemma_scan_find_ignores_case(b, chunk, off + rl, n1, n2);
        }
    }
}

/// Looking a name up in a directory ignores ASCII case: two names that are
/// equal ignoring case find the same record (so `find` of a name, of its
/// upper-case and of its lower-case form agree).
pub proof fn lemma_find_ignores_case<D: IsoDevice>(dev: &D, lba: u32, remaining: int, n1: Seq<u8>, n2: Seq<u8>)
    requires
        spec_names_match(n1, n2),
    ensures
        find_walk(dev, lba, remaining, n1) == find_walk(dev, lba, remaining, n2),
    decreases (if remaining > 0 { remaining } else { 0 }),
{
    if remaining > 0 {
        match dev.block(lba) {
            None => {},
            Some(b) => {
                let chunk = if remaining < 2048 { remaining } else { 2048 };
                lemma_scan_find_ignores_case(b, chunk, 0, n1, n2);
                lemma_find_ignores_case(dev, ((lba + 1) % 0x1_0000_0000) as u32, remaining - 2048, n1, n2);
            },
        }
    }
}

/// A name matches its ASCII upper-case and lower-case forms.
pub proof fn lemma_names_match_case_forms(n: Seq<u8>)
    ensures
        spec_names_match(n, n.map_values(|c: u8| upper(c))),
        spec_names_match(n, n.map_values(|c: u8| lower(c))),
{
    assert forall|i: int| 0 <= i < n.len() implies upper(#[trigger] n[i]) == upper(n.map_values(|c: u8| lower(c))[i]) by {
        let c = n[i];
        assert(n.map_values(|c: u8| lower(c))[i] == lower(c));
    }
}

proof fn lemma_scan_list_offsets(b: Seq<u8>, chunk: int, off: int, taken: int)
    requires
        b.len() == 2048,
        chunk <= 2048,
    ensures
        forall|k: int| 0 <= k < scan_list(b, chunk, off, taken).0.len() ==> {
            let o = #[trigger] scan_list(b, chunk, off, taken).0[k];
            &&& 0 <= o
            &&& o + 33 + b[o + 32] <= 2048
        },
        taken + scan_list(b, chunk, off, taken).0.len() <= (if taken > 64 { taken } else { 64 }),
    decreases (if chunk > off { chunk - off } else { 0 }),
{
    if !(off >= chunk || off < 0) {
        let rl = b[off] as int;
        if !(rl < 33 || off + rl > 2048) {
            if is_dot_record(b, off) {
                lemma_scan_list_offsets(b, chunk, off + rl, taken);
            } else if taken < 64 && off + 33 + b[off + 32] <= 2048 {
                lemma_scan_list_offsets(b, chunk, off + rl, taken + 1);
                let rest = scan_list(b, chunk, off + rl, taken + 1).0;
                assert forall|k: int| 0 <= k < scan_list(b, chunk, off, taken).0.len() implies {
                    let o = #[trigger] scan_list(b, chunk, off, taken).0[k];
                    &&& 0 <= o
                    &&& o + 33 + b[o + 32] <= 2048
                } by {
                    if k > 0 {
                        assert(scan_list(b, chunk, off, taken).0[k] == rest[k - 1]);
                    }
                }
            }
        }
    }
}

/// The records a block's scan takes are never the "." or ".." record: none
/// has a one-byte name that is 0x00 or 0x01.
proof fn lemma_scan_list_skips_dots(b: Seq<u8>, chunk: int, off: int, taken: int)
    ensures
        forall|k: int| 0 <= k < scan_list(b, chunk, off, taken).0.len() ==> {
            let o = #[trigger] scan_list(b, chunk, off, taken).0[k];
            !(b[o + 32] == 1 && (b[o + 33] == 0 || b[o + 33] == 1))
        },
    decreases (if chunk > off { chunk - off } else { 0 }),
{
    if !(off >= chunk || off < 0) {
        let rl = b[off] as int;
        if !(rl < 33 || off + rl > 2048) {
            if is_dot_record(b, off) {
                lemma_scan_list_skips_dots(b, chunk, off + rl, taken);
                assert(scan_list(b, chunk, off, taken) == scan_list(b, chunk, off + rl, taken));
            } else if taken >= 64 || off + 33 + b[off + 32] > 2048 {
                assert(scan_list(b, chunk, off, taken).0.len() == 0);
            } else {
                lemma_scan_list_skips_dots(b, chunk, off + rl, taken + 1);
                let rest = scan_list(b, chunk, off + rl, taken + 1).0;
                assert forall|k: int| 0 <= k < scan_list(b, chunk, off, taken).0.len() implies {
                    let o = #[trigger] scan_list(b, chunk, off, taken).0[k];
                    !(b[o + 32] == 1 && (b[o + 33] == 0 || b[o + 33] == 1))
                } by {
                    if k > 0 {
                        assert(scan_list(b, chunk, off, taken).0[k] == rest[k - 1]);
                    } else {
                        assert(scan_list(b, chunk, off, taken).0 == seq![off] + rest);
                        assert(scan_list(b, chunk, off, taken).0[0] == off);
                        assert(!is_dot_record(b, off));
                    }
                }
            }
        }
    }
}

/// A directory listing never takes the "." or ".." record: every record
/// it lists, in the block it was read from, has a name other than the
/// one byte 0x00 or 0x01.
pub proof fn lemma_listing_skips_dots<D: IsoDevice>(dev: &D, lba: u32, remaining: int, taken: int)
    ensures
        forall|k: int| 0 <= k < list_walk(dev, lba, remaining, taken).len() ==> {
            let (blba, o) = #[trigger] list_walk(dev, lba, remaining, taken)[k];
            &&& dev.block(blba) is Some
            &&& !(dev.block(blba)->0[o + 32] == 1
                && (dev.block(blba)->0[o + 33] == 0 || dev.block(blba)->0[o + 33] == 1))
        },
    decreases (if remaining > 0 { remaining } else { 0 }),
{
    if remaining > 0 {
        match dev.block(lba) {
            None => {},
            Some(b) => {
                let chunk = if remaining < 2048 { remaining } else { 2048 };
                let (offs, stop) = scan_list(b, chunk, 0, taken);
                lemma_scan_list_skips_dots(b, chunk, 0, taken);
                let here = offs.map_values(|o: int| (lba, o));
                let next = ((lba + 1) % 0x1_0000_0000) as u32;
                if !stop {
                    lemma_listing_skips_dots(dev, next, remaining - 2048, taken + offs.len());
                }
                let w = list_walk(dev, lba, remaining, taken);
                assert forall|k: int| 0 <= k < w.len() implies {
                    let (blba, o) = #[trigger] w[k];
                    &&& dev.block(blba) is Some
                    &&& !(dev.block(blba)->0[o + 32] == 1
                        && (dev.block(blba)->0[o + 33] == 0 || dev.block(blba)->0[o + 33] == 1))
                } by {
                    if k < here.len() {
                        assert(w[k] == here[k]);
                        assert(here[k] == (lba, offs[k]));
                    } else {
                        let rest = list_walk(dev, next, remaining - 2048, taken + offs.len());
                        assert(w[k] == rest[k - here.len()]);
                    }
                }
            },
        }
    }
}

/// An ISO9660 volume on `device`, with the extent of its root directory.
pub struct Iso9660<D: IsoDevice> {
    pub device: D,
    pub root_lba: u32,
    pub root_size: u32,
}

/// Builds the entry of the record at `off` of `b`.
fn entry_at(b: &[u8; 2048], off: usize) -> (e: IsoEntry)
    requires
        off + 33 + b@[off + 32] <= 2048,
    ensures
        entry_matches(e, b@, off as int),
{
    let nl = b[off + 32] as usize;
    let raw = &b.as_slice()[off + 33..off + 33 + nl];
    let stripped = strip_version(raw);
    let copy_len = if stripped.len() < 32 { stripped.len() } else { 32 };
    let mut e = IsoEntry::empty();
    let mut i: usize = 0;
    while i < copy_len
        invariant
            copy_len <= 32,
            copy_len <= stripped@.len(),
            i <= copy_len,
            e.name@.len() == 32,
            forall|j: int| 0 <= j < i ==> e.name@[j] == lower(stripped@[j]),
            forall|j: int| i <= j < 32 ==> e.name@[j] == 0,
        decreases copy_len - i,
    {
        e.name[i] = to_lower(stripped[i]);
        i = i + 1;
    }
    e.name_len = copy_len as u8;
    e.is_dir = b[off + 25] & 0x02 != 0;
    e.lba = read_le32(b.as_slice(), off + 2);
    e.size = read_le32(b.as_slice(), off + 10);
    assert(raw@ == b@.subrange(off + 33, off + 33 + b@[off + 32]));
    e
}

impl<D: IsoDevice> Iso9660<D> {
    /// `find` ignores ASCII case: looking up a name in a directory gives the
    /// same answer as looking up its upper-case form or its lower-case form.
    pub proof fn lemma_find_any_case(&self, dir_lba: u32, dir_size: u32, name: Seq<u8>)
        ensures
            find_walk(&self.device, dir_lba, dir_size as int, name)
                == find_walk(&self.device, dir_lba, dir_size as int, name.map_values(|c: u8| upper(c))),
            find_walk(&self.device, dir_lba, dir_size as int, name)
                == find_walk(&self.device, dir_lba, dir_size as int, name.map_values(|c: u8| lower(c))),
    {
        lemma_names_match_case_forms(name);
        lemma_find_ignores_case(&self.device, dir_lba, dir_size as int, name, name.map_values(|c: u8| upper(c)));
        lemma_find_ignores_case(&self.device, dir_lba, dir_size as int, name, name.map_values(|c: u8| lower(c)));
    }

    /// Reads the primary volume descriptor (block 16: type 1, "CD001") and
    /// takes the root directory's extent from it; None when the block
    /// cannot be read or is not a primary volume descriptor.
    pub fn probe(device: D) -> (r: Option<Self>)
        ensures
            match device.block(16) {
                Some(b) => if b[0] == 1 && b.subrange(1, 6) == seq![0x43u8, 0x44, 0x30, 0x30, 0x31] {
                    r matches Some(iso) && iso.device == device && iso.root_lba == le32(b, 158)
                        && iso.root_size == le32(b, 166)
                } else {
                    r is None
                },
                None => r is None,
            },
    {
        let mut buf = [0u8; 2048];
        if !device.read_block(16, &mut buf) {
            return None;
        }
        let magic = buf[0] == 0x01 && buf[1] == 0x43 && buf[2] == 0x44 && buf[3] == 0x30 && buf[4] == 0x30
            && buf[5] == 0x31;
        assert(magic == (buf@[0] == 1 && buf@.subrange(1, 6) == seq![0x43u8, 0x44, 0x30, 0x30, 0x31])) by {
            if buf@[0] == 1 && buf@.subrange(1, 6) == seq![0x43u8, 0x44, 0x30, 0x30, 0x31] {
                assert(buf@.subrange(1, 6)[0] == buf@[1]);
                assert(buf@.subrange(1, 6)[1] == buf@[2]);
                assert(buf@.subrange(1, 6)[2] == buf@[3]);
                assert(buf@.subrange(1, 6)[3] == buf@[4]);
                assert(buf@.subrange(1, 6)[4] == buf@[5]);
            }
            if magic {
                assert(buf@.subrange(1, 6) =~= seq![0x43u8, 0x44, 0x30, 0x30, 0x31]);
            }
        }
        if !magic {
            return None;
        }
        let root_lba = read_le32(buf.as_slice(), 158);
        let root_size = read_le32(buf.as_slice(), 166);
        Some(Iso9660 { device, root_lba, root_size })
    }

    /// Lists the directory of `size` bytes at block `lba`: at most 64
    /// entries, in order, "." and ".." left out (see `list_walk`).
    pub fn list_dir(&self, lba: u32, size: u32) -> (r: Vec<IsoEntry>)
        ensures
            r@.len() == list_walk(&self.device, lba, size as int, 0).len(),
            forall|k: int| 0 <= k < r@.len() ==> {
                let (blba, off) = list_walk(&self.device, lba, size as int, 0)[k];
                &&& self.device.block(blba) is Some
                &&& entry_matches(#[trigger] r@[k], self.device.block(blba)->0, off)
            },
    {
        let mut out: Vec<IsoEntry> = Vec::new();
        let mut block_lba = lba;
        let mut remaining = size as usize;
        let ghost full = list_walk(&self.device, lba, size as int, 0);
        let ghost mut done: Seq<(u32, int)> = Seq::empty();
        assert(full =~= done + full);
        while remaining > 0
            invariant
                full == list_walk(&self.device, lba, size as int, 0),
                full == done + list_walk(&self.device, block_lba, remaining as int, out@.len() as int),
                out@.len() == done.len(),
                out@.len() <= 64,
                forall|k: int| 0 <= k < out@.len() ==> {
                    let (blba, off) = #[trigger] done[k];
                    &&& self.device.block(blba) is Some
                    &&& entry_matches(out@[k], self.device.block(blba)->0, off)
                },
            decreases remaining,
        {
            let mut buf = [0u8; 2048];
            if !self.device.read_block(block_lba, &mut buf) {
                assert(done + Seq::<(u32, int)>::empty() =~= done);
                return out;
            }
            let chunk = if remaining < BLOCK_SIZE { remaining } else { BLOCK_SIZE };
            let ghost b = buf@;
            let ghost taken0 = out@.len() as int;
            let ghost out0 = out@;
            let ghost scan0 = scan_list(b, chunk as int, 0, taken0);
            let ghost mut offs: Seq<int> = Seq::empty();
            let mut off: usize = 0;
            let mut stop = false;
            assert(scan0.0 =~= offs + scan0.0);
            while off < chunk
                invariant_except_break
                    !stop,
                invariant
                    b == buf@,
                    b.len() == 2048,
                    chunk <= 2048,
                    off <= 2048,
                    0 <= taken0 <= 64,
                    out0.len() == taken0,
                    out@.len() <= 64,
                    scan0 == scan_list(b, chunk as int, 0, taken0),
                    scan0.0 == offs + scan_list(b, chunk as int, off as int, out@.len() as int).0,
                    scan0.1 == scan_list(b, chunk as int, off as int, out@.len() as int).1,
                    out@.len() == taken0 + offs.len(),
                    out@.take(taken0) == out0,
                    forall|k: int| 0 <= k < offs.len() ==> entry_matches(#[trigger] out@[taken0 + k], b, offs[k]),
                ensures
                    scan0 == (offs, stop),
                    out@.len() <= 64,
                    out@.len() == taken0 + offs.len(),
                    out@.take(taken0) == out0,
                    forall|k: int| 0 <= k < offs.len() ==> entry_matches(#[trigger] out@[taken0 + k], b, offs[k]),
                decreases 2048 - off,
            {
                let rec_len = buf[off] as usize;
                if rec_len < 33 || off + rec_len > BLOCK_SIZE {
                    assert(offs + Seq::<int>::empty() =~= offs);
                    break;
                }
                let name_len = buf[off + 32] as usize;
                let dot = name_len == 1 && off + 33 < BLOCK_SIZE && (buf[off + 33] == 0 || buf[off + 33] == 1);
                if dot {
                    off = off + rec_len;
                } else {
                    if out.len() >= 64 {
                        stop = true;
                        assert(offs + Seq::<int>::empty() =~= offs);
                        break;
                    }
                    if off + 33 + name_len > BLOCK_SIZE {
                        assert(offs + Seq::<int>::empty() =~= offs);
                        break;
                    }
                    let e = entry_at(&buf, off);
                    let ghost o = off as int;
                    let ghost prev_out = out@;
                    let ghost prev_offs = offs;
                    out.push(e);
                    proof {
                        let rest = scan_list(b, chunk as int, o + rec_len, out@.len() as int).0;
                        assert(offs + (seq![o] + rest) =~= offs.push(o) + rest);
                        offs = offs.push(o);
                        assert(out@.take(taken0) =~= prev_out.take(taken0));
                        assert forall|k: int| 0 <= k < offs.len() implies entry_matches(#[trigger] out@[taken0 + k], b, offs[k]) by {
                            if k < offs.len() - 1 {
                                assert(out@[taken0 + k] == prev_out[taken0 + k]);
                                assert(offs[k] == prev_offs[k]);
                            }
                        }
                    }
                    off = off + rec_len;
                }
            }
            proof {
                if !stop {
                    assert(offs + Seq::<int>::empty() =~= offs);
                }
            }
            let ghost here = offs.map_values(|o: int| (block_lba, o));
            let ghost old_done = done;
            proof {
                assert forall|k: int| 0 <= k < out@.len() implies {
                    let (blba, off) = #[trigger] (done + here)[k];
                    &&& self.device.block(blba) is Some
                    &&& entry_matches(out@[k], self.device.block(blba)->0, off)
                } by {
                    if k < taken0 {
                        assert((done + here)[k] == done[k]);
                        assert(out@[k] == out0[k]) by {
                            assert(out@.take(taken0)[k] == out@[k]);
                        }
                    } else {
                        let j = k - taken0;
                        assert((done + here)[k] == here[j]);
                        assert(here[j] == (block_lba, offs[j]));
                        assert(entry_matches(out@[taken0 + j], b, offs[j]));
                    }
                }
                done = done + here;
            }
            if stop {
                assert(done + Seq::<(u32, int)>::empty() =~= done);
                return out;
            }
            let ghost old_lba = block_lba;
            let ghost old_rem = remaining as int;
            block_lba = block_lba.wrapping_add(1);
            remaining = if remaining > BLOCK_SIZE { remaining - BLOCK_SIZE } else { 0 };
            proof {
                let t = out@.len() as int;
                assert(list_walk(&self.device, old_lba, old_rem, taken0)
                    == here + list_walk(&self.device, block_lba, old_rem - 2048, t));
                if old_rem <= 2048 {
                    assert(list_walk(&self.device, block_lba, old_rem - 2048, t) == Seq::<(u32, int)>::empty());
                    assert(list_walk(&self.device, block_lba, remaining as int, t) == Seq::<(u32, int)>::empty());
                }
                assert(full =~= done + list_walk(&self.device, block_lba, remaining as int, t));
            }
        }
        assert(done + Seq::<(u32, int)>::empty() =~= done);
        out
    }

    /// Looks up `name` (ignoring case) in the directory of `dir_size`
    /// bytes at block `dir_lba` (see `find_walk`).
    pub fn find(&self, dir_lba: u32, dir_size: u32, name: &[u8]) -> (r: Option<IsoEntry>)
        ensures
            match find_walk(&self.device, dir_lba, dir_size as int, name@) {
                None => r is None,
                Some((blba, off)) => r matches Some(e) && self.device.block(blba) is Some
                    && entry_matches(e, self.device.block(blba)->0, off),
            },
    {
        let mut block_lba = dir_lba;
        let mut remaining = dir_size as usize;
        let ghost full = find_walk(&self.device, dir_lba, dir_size as int, name@);
        while remaining > 0
            invariant
                full == find_walk(&self.device, dir_lba, dir_size as int, name@),
                full == find_walk(&self.device, block_lba, remaining as int, name@),
            decreases remaining,
        {
            let mut buf = [0u8; 2048];
            if !self.device.read_block(block_lba, &mut buf) {
                return None;
            }
            let chunk = if remaining < BLOCK_SIZE { remaining } else { BLOCK_SIZE };
            let ghost b = buf@;
            let mut off: usize = 0;
            while off < chunk
                invariant
                    b == buf@,
                    b.len() == 2048,
                    self.device.block(block_lba) == Some(b),
                    remaining > 0,
                    chunk == if remaining < 2048 { remaining } else { 2048 },
                    full == find_walk(&self.device, dir_lba, dir_size as int, name@),
                    full == find_walk(&self.device, block_lba, remaining as int, name@),
                    chunk <= 2048,
                    off <= 2048,
                    scan_find(b, chunk as int, 0, name@) == scan_find(b, chunk as int, off as int, name@),
                ensures
                    scan_find(b, chunk as int, 0, name@) is None,
                decreases 2048 - off,
            {
                let rec_len = buf[off] as usize;
                if rec_len < 33 || off + rec_len > BLOCK_SIZE {
                    break;
                }
                let name_len = buf[off + 32] as usize;
                let dot = name_len == 1 && off + 33 < BLOCK_SIZE && (buf[off + 33] == 0 || buf[off + 33] == 1);
                if dot || off + 33 + name_len > BLOCK_SIZE {
                    off = off + rec_len;
                } else {
                    let raw = &buf.as_slice()[off + 33..off + 33 + name_len];
                    let stripped = strip_version(raw);
                    assert(raw@ == b.subrange(off + 33, off + 33 + b[off + 32]));
                    if names_match(stripped, name) {
                        let e = entry_at(&buf, off);
                        assert(scan_find(b, chunk as int, off as int, name@) == Some(off as int));
                        assert(find_walk(&self.device, block_lba, remaining as int, name@) == Some((block_lba, off as int)));
                        return Some(e);
                    }
                    off = off + rec_len;
                }
            }
            block_lba = block_lba.wrapping_add(1);
            let ghost old_rem = remaining as int;
            remaining = if remaining > BLOCK_SIZE { remaining - BLOCK_SIZE } else { 0 };
            proof {
                if old_rem <= 2048 {
                    assert(find_walk(&self.device, block_lba, old_rem - 2048, name@) is None);
                }
            }
        }
        None
    }

    /// The entry a path names, relative to the root directory; a leading
    /// '/' is ignored and so are empty components; every component but the
    /// last must be a directory. The empty path names the root directory.
    pub fn resolve(&self, path: &[u8]) -> (r: Option<IsoEntry>)
        ensures
            ({
                let p = if path@.len() > 0 && path@[0] == 0x2f { path@.skip(1) } else { path@ };
                if p.len() == 0 {
                    r matches Some(e) && e.is_dir && e.lba == self.root_lba && e.size == self.root_size
                        && e.name_len == 0 && e.name@ == Seq::new(32, |i: int| 0u8)
                } else {
                    match resolve_walk(&self.device, self.root_lba, self.root_size, p, None) {
                        None => r is None,
                        Some((blba, off)) => r matches Some(e) && self.device.block(blba) is Some
                            && entry_matches(e, self.device.block(blba)->0, off),
                    }
                }
            }),
    {
        let p: &[u8] = if path.len() > 0 && path[0] == 0x2f { &path[1..path.len()] } else { path };
        assert(path@.len() > 0 && path@[0] == 0x2f ==> p@ == path@.skip(1));
        if p.len() == 0 {
            let mut e = IsoEntry::empty();
            e.is_dir = true;
            e.lba = self.root_lba;
            e.size = self.root_size;
            return Some(e);
        }
        let mut cur_lba = self.root_lba;
        let mut cur_size = self.root_size;
        let mut remaining = p;
        let mut last: Option<IsoEntry> = None;
        let ghost mut last_pos: Option<(u32, int)> = None;
        let ghost goal = resolve_walk(&self.device, self.root_lba, self.root_size, p@, None);
        while remaining.len() > 0
            invariant
                p@ == (if path@.len() > 0 && path@[0] == 0x2f { path@.skip(1) } else { path@ }),
                p@.len() > 0,
                goal == resolve_walk(&self.device, self.root_lba, self.root_size, p@, None),
                goal == resolve_walk(&self.device, cur_lba, cur_size, remaining@, last_pos),
                match last_pos {
                    None => last is None,
                    Some((blba, off)) => last matches Some(e) && self.device.block(blba) is Some
                        && entry_matches(e, self.device.block(blba)->0, off),
                },
            decreases remaining@.len(),
        {
            let pos = position(remaining, 0x2f);
            proof { lemma_first_index(remaining@, 0x2f); }
            let component = &remaining[0..pos];
            let rest: &[u8] = if pos < remaining.len() { &remaining[pos + 1..remaining.len()] } else { &[] };
            assert(component@ =~= remaining@.take(pos as int));
            assert(rest@ =~= (if pos < remaining@.len() { remaining@.skip(pos + 1) } else { Seq::<u8>::empty() }));
            if component.len() == 0 {
                remaining = rest;
            } else {
                match self.find(cur_lba, cur_size, component) {
                    None => {
                        return None;
                    },
                    Some(entry) => {
                        let ghost found = find_walk(&self.device, cur_lba, cur_size as int, component@)->0;
                        if rest.len() > 0 {
                            if !entry.is_dir {
                                return None;
                            }
                            cur_lba = entry.lba;
                            cur_size = entry.size;
                        }
                        last = Some(entry);
                        proof {
                            last_pos = Some(found);
                        }
                        remaining = rest;
                    },
                }
            }
        }
        last
    }

    /// Reads the file `entry` into `buf`: its first `min(size, buf.len())`
    /// bytes, block after block from `entry.lba`, stopping at the first
    /// block that cannot be read. Returns how many bytes were read.
    pub fn read_file(&self, entry: &IsoEntry, buf: &mut [u8]) -> (r: usize)
        ensures
            r <= entry.size,
            r <= old(buf)@.len(),
            r == (if (entry.size as int) < old(buf)@.len() { entry.size as int } else { old(buf)@.len() as int })
                || (r % 2048 == 0 && self.device.block(file_block(entry.lba, r as int)) is None),
            final(buf)@.len() == old(buf)@.len(),
            forall|t: int| 0 <= t < r ==> file_byte_ok(&self.device, entry.lba, t, #[trigger] final(buf)@[t]),
            forall|t: int| r <= t < old(buf)@.len() ==> #[trigger] final(buf)@[t] == old(buf)@[t],
    {
        let total = if (entry.size as usize) < buf.len() { entry.size as usize } else { buf.len() };
        let mut done: usize = 0;
        let mut block_lba = entry.lba;
        while done < total
            invariant
                total <= entry.size,
                total <= buf@.len(),
                total == (if (entry.size as int) < old(buf)@.len() { entry.size as int } else { old(buf)@.len() as int }),
                buf@.len() == old(buf)@.len(),
                done <= total,
                done < total ==> done % 2048 == 0,
                done < total ==> block_lba == file_block(entry.lba, done as int),
                forall|t: int| 0 <= t < done ==> file_byte_ok(&self.device, entry.lba, t, #[trigger] buf@[t]),
                forall|t: int| done <= t < old(buf)@.len() ==> #[trigger] buf@[t] == old(buf)@[t],
            decreases total - done,
        {
            let mut block = [0u8; 2048];
            if !self.device.read_block(block_lba, &mut block) {
                return done;
            }
            let to_copy = if total - done < BLOCK_SIZE { total - done } else { BLOCK_SIZE };
            let mut k: usize = 0;
            while k < to_copy
                invariant
                    to_copy <= 2048,
                    done + to_copy <= total,
                    total <= buf@.len(),
                    buf@.len() == old(buf)@.len(),
                    done % 2048 == 0,
                    k <= to_copy,
                    block@ == self.device.block(block_lba)->0,
                    self.device.block(block_lba) is Some,
                    block_lba == file_block(entry.lba, done as int),
                    forall|t: int| 0 <= t < done ==> file_byte_ok(&self.device, entry.lba, t, #[trigger] buf@[t]),
                    forall|t: int| done <= t < done + k ==> #[trigger] buf@[t] == block@[t - done],
                    forall|t: int| done + k <= t < old(buf)@.len() ==> #[trigger] buf@[t] == old(buf)@[t],
                decreases to_copy - k,
            {
                buf[done + k] = block[k];
                k = k + 1;
            }
            proof {
                assert forall|t: int| 0 <= t < done + to_copy implies file_byte_ok(&self.device, entry.lba, t, #[trigger] buf@[t]) by {
                    if t >= done {
                        assert(t / 2048 == done / 2048 && t % 2048 == t - done) by (nonlinear_arith)
                            requires
                                done % 2048 == 0,
                                done <= t < done + 2048,
                        {
                            assert(done == 2048 * (done / 2048));
                        }
                    }
                }
            }
            let ghost old_done = done as int;
            done = done + to_copy;
            block_lba = block_lba.wrapping_add(1);
            proof {
                if done < total {
                    assert(to_copy == 2048);
                    assert(done / 2048 == old_done / 2048 + 1);
                    let x = entry.lba + old_done / 2048;
                    vstd::arithmetic::div_mod::lemma_add_mod_noop(x, 1, 0x1_0000_0000);
                    assert(block_lba == file_block(entry.lba, done as int));
                }
            }
        }
        done
    }
}

/// Block `t / 2048` of a file starting at block `lba` (block numbers wrap).
pub open spec fn file_block(lba: u32, t: int) -> u32 {
    ((lba + t / 2048) % 0x1_0000_0000) as u32
}

/// `v` is byte `t` of the file starting at block `lba`: its block can be
/// read and holds `v` at `t % 2048`.
pub open spec fn file_byte_ok<D: IsoDevice>(dev: &D, lba: u32, t: int, v: u8) -> bool {
    &&& dev.block(file_block(lba, t)) is Some
    &&& v == dev.block(file_block(lba, t))->0[t % 2048]
}

/// The (block, offset) of the record a path (its components separated by
/// '/', empty components ignored) names, walking from the directory of
/// `size` bytes at block `lba`; `last` is the record named so far.
pub open spec fn resolve_walk<D: IsoDevice>(dev: &D, lba: u32, size: u32, p: Seq<u8>, last: Option<(u32, int)>) -> Option<(u32, int)>
    decreases p.len(),
{
    if p.len() == 0 {
        last
    } else {
        let q = first_index(p, 0x2f);
        proof {
            lemma_first_index(p, 0x2f);
        }
        let comp = p.take(q);
        let rest = if q < p.len() { p.skip(q + 1) } else { Seq::empty() };
        if comp.len() == 0 {
            resolve_walk(dev, lba, size, rest, last)
        } else {
            match find_walk(dev, lba, size as int, comp) {
                None => None,
                Some(pos) => {
                    let b = dev.block(pos.0)->0;
                    if rest.len() > 0 {
                        if b[pos.1 + 25] & 2 == 0 {
                            None
                        } else {
                            resolve_walk(dev, le32(b, pos.1 + 2) as u32, le32(b, pos.1 + 10) as u32, rest, Some(pos))
                        }
                    } else {
                        resolve_walk(dev, lba, size, rest, Some(pos))
                    }
                },
            }
        }
    }
}

} // verus!
