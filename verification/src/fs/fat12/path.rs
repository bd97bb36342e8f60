//! Names and paths in FAT12 directories: the 8.3 form of a typed name,
//! looking a name up in a directory, and walking a '/'-separated path.
use vstd::prelude::*;
use crate::fs::block::BlockDevice;
use super::entry::Entry;
use super::fs::Fs;
use super::table::fat_offset;
use crate::input::keyboard::{first_index, lemma_first_index, pad_prefix, pad_state, position};

verus! {

/// The entry is a slot in use: neither free (first byte 0x00) nor deleted
/// (first byte 0xE5).
pub open spec fn in_use(e: Entry) -> bool {
    e.name[0] != 0 && e.name[0] != 0xE5
}

/// The 11 bytes of an entry's name: base, then extension.
pub open spec fn full_name(e: Entry) -> Seq<u8> {
    e.name@ + e.ext@
}

/// Index of the first entry in use named `n`, from `i` on; `es.len()` when
/// there is none.
pub open spec fn named_from(es: Seq<Entry>, n: Seq<u8>, i: int) -> int
    decreases es.len() - i,
{
    if i < 0 || i >= es.len() {
        es.len() as int
    } else if in_use(es[i]) && full_name(es[i]) == n {
        i
    } else {
        named_from(es, n, i + 1)
    }
}

proof fn lemma_named_from(es: Seq<Entry>, n: Seq<u8>, i: int)
    requires
        0 <= i <= es.len(),
    ensures
        i <= named_from(es, n, i) <= es.len(),
    decreases es.len() - i,
{
    if i < es.len() {
        lemma_named_from(es, n, i + 1);
    }
}

/// The name of the "." entry.
pub open spec fn dot_name() -> Seq<u8> {
    seq![0x2eu8, 0x20, 0x20, 0x20, 0x20, 0x20, 0x20, 0x20, 0x20, 0x20, 0x20]
}

/// The name of the ".." entry.
pub open spec fn dotdot_name() -> Seq<u8> {
    seq![0x2eu8, 0x2e, 0x20, 0x20, 0x20, 0x20, 0x20, 0x20, 0x20, 0x20, 0x20]
}

/// The 8.3 name a typed name stands for: "." and ".." name the dot
/// entries; otherwise its first 12 bytes, upper-cased, with a '.' jumping
/// to the extension, padded with spaces.
pub open spec fn name83_of(s: Seq<u8>) -> Seq<u8> {
    if s == seq![0x2eu8] {
        dot_name()
    } else if s == seq![0x2eu8, 0x2e] {
        dotdot_name()
    } else {
        pad_state(s.take(if s.len() < 12 { s.len() as int } else { 12 })).0
    }
}

/// The 8.3 name of a typed name.
pub fn fat83(name: &[u8]) -> (r: [u8; 11])
    ensures
        r@ == name83_of(name@),
{
    if name.len() == 1 && name[0] == 0x2e {
        assert(name@ =~= seq![0x2eu8]);
        let r: [u8; 11] = [0x2e, 0x20, 0x20, 0x20, 0x20, 0x20, 0x20, 0x20, 0x20, 0x20, 0x20];
        assert(r@ =~= dot_name());
        return r;
    }
    if name.len() == 2 && name[0] == 0x2e && name[1] == 0x2e {
        assert(name@ =~= seq![0x2eu8, 0x2e]);
        let r: [u8; 11] = [0x2e, 0x2e, 0x20, 0x20, 0x20, 0x20, 0x20, 0x20, 0x20, 0x20, 0x20];
        assert(r@ =~= dotdot_name());
        return r;
    }
    proof {
        if name@ == seq![0x2eu8] {
            assert(name@.len() == 1 && name@[0] == 0x2e);
        }
        if name@ == seq![0x2eu8, 0x2e] {
            assert(name@.len() == 2 && name@[0] == 0x2e && name@[1] == 0x2e);
        }
    }
    let n = if name.len() < 12 { name.len() } else { 12 };
    let head = &name[0..n];
    assert(head@ =~= name@.take(n as int));
    pad_prefix(head)
}

/// Whether the 11 bytes of `e`'s name are `n`.
fn name_is(e: &Entry, n: &[u8; 11]) -> (r: bool)
    ensures
        r == (full_name(*e) == n@),
{
    let mut i: usize = 0;
    while i < 8
        invariant
            i <= 8,
            forall|j: int| 0 <= j < i ==> e.name@[j] == n@[j],
        decreases 8 - i,
    {
        if e.name[i] != n[i] {
            assert(full_name(*e)[i as int] != n@[i as int]);
            return false;
        }
        i = i + 1;
    }
    let mut k: usize = 0;
    while k < 3
        invariant
            k <= 3,
            forall|j: int| 0 <= j < 8 ==> e.name@[j] == n@[j],
            forall|j: int| 0 <= j < k ==> e.ext@[j] == n@[8 + j],
        decreases 3 - k,
    {
        if e.ext[k] != n[8 + k] {
            assert(full_name(*e)[8 + k] != n@[8 + k]);
            return false;
        }
        k = k + 1;
    }
    assert(full_name(*e) =~= n@);
    true
}

/// Index of the first entry in use named `n`, or `es.len()`.
pub fn find_named(es: &Vec<Entry>, n: &[u8; 11]) -> (r: usize)
    ensures
        r == named_from(es@, n@, 0),
{
    let mut i: usize = 0;
    while i < es.len()
        invariant
            i <= es@.len(),
            named_from(es@, n@, 0) == named_from(es@, n@, i as int),
        decreases es@.len() - i,
    {
        let e = &es[i];
        if e.name[0] != 0 && e.name[0] != 0xE5 && name_is(e, n) {
            return i;
        }
        i = i + 1;
    }
    i
}

impl<D: BlockDevice> Fs<D> {
    /// The first entry in use named `n` in directory `dir`; None when there
    /// is none or the directory does not lie on the device.
    pub open spec fn spec_find_entry(&self, dir: u16, n: Seq<u8>) -> Option<Entry> {
        if !self.dir_walk_on_device(dir) {
            None
        } else {
            let es = self.dir_entries(dir);
            let i = named_from(es, n, 0);
            if 0 <= i < es.len() { Some(es[i]) } else { None }
        }
    }

    /// Looks up the entry named `n` in directory `dir`.
    pub fn find_entry(&self, dir: u16, n: &[u8; 11]) -> (r: Option<Entry>)
        requires
            self.wf(),
        ensures
            r == self.spec_find_entry(dir, n@),
    {
        if !self.can_walk_dir(dir) {
            return None;
        }
        let es = self.entries(dir);
        let i = find_named(&es, n);
        proof {
            lemma_named_from(es@, n@, 0);
        }
        if i < es.len() {
            Some(es[i])
        } else {
            None
        }
    }

    /// The entry a path names, walking from directory `dir` (its components
    /// separated by '/', empty ones ignored); `last` is the entry named so
    /// far. Every component but the last must be a directory.
    pub open spec fn path_walk(&self, dir: u16, p: Seq<u8>, last: Option<Entry>) -> Option<Entry>
        decreases p.len(),
    {
        if p.len() == 0 {
            last
        } else {
            let q = first_index(p, 0x2f);
            proof {
                lemma_first_index(p, 0x2f);
            }
            let comp = p.take(q);
            let rest = if q < p.len() { p.skip(q + 1) } else { Seq::empty() };
            if comp.len() == 0 {
                self.path_walk(dir, rest, last)
            } else {
                match self.spec_find_entry(dir, name83_of(comp)) {
                    None => None,
                    Some(e) => {
                        if rest.len() > 0 {
                            if e.attr & 0x10 == 0 {
                                None
                            } else {
                                self.path_walk(e.start_cluster, rest, Some(e))
                            }
                        } else {
                            Some(e)
                        }
                    },
                }
            }
        }
    }

    /// The entry `path` names relative to directory `base`; None when a
    /// component is missing or an inner one is not a directory, and for a
    /// path without components.
    pub fn resolve_path_from(&self, base: u16, path: &[u8]) -> (r: Option<Entry>)
        requires
            self.wf(),
        ensures
            r == self.path_walk(base, path@, None),
    {
        let mut dir = base;
        let mut remaining = path;
        let mut last: Option<Entry> = None;
        let ghost goal = self.path_walk(base, path@, None);
        while remaining.len() > 0
            invariant
                self.wf(),
                goal == self.path_walk(base, path@, None),
                goal == self.path_walk(dir, remaining@, last),
            decreases remaining@.len(),
        {
            let pos = position(remaining, 0x2f);
            proof { lemma_first_index(remaining@, 0x2f); }
            let component = &remaining[0..pos];
            let rest: &[u8] = if pos < remaining.len() { &remaining[pos + 1..remaining.len()] } else { &[] };
            assert(component@ =~= remaining@.take(pos as int));
            assert(rest@ =~= (if pos < remaining@.len() { remaining@.skip(pos + 1) } else { Seq::<u8>::empty() }));
            if component.len() == 0 {
                remaining = rest;
            } else {
                let n = fat83(component);
                match self.find_entry(dir, &n) {
                    None => {
                        return None;
                    },
                    Some(entry) => {
                        if rest.len() > 0 {
                            if entry.attr & 0x10 == 0 {
                                return None;
                            }
                            dir = entry.start_cluster;
                            last = Some(entry);
                            remaining = rest;
                        } else {
                            return Some(entry);
                        }
                    },
                }
            }
        }
        last
    }
}


/// The bytes read of a FAT12 file whose chain starts at `c`,
/// with `left` bytes of it still to read: the whole first sector of each
/// cluster in chain order, until `left` runs out or the chain ends (an end
/// mark or a free entry). A cluster below 2, past the device's last sector,
/// or whose table entry lies off the device ends the read.
pub open spec fn chain_bytes<D: BlockDevice>(fs: &Fs<D>, c: u16, left: int) -> Seq<u8>
    decreases (if left > 0 { left } else { 0 }),
{
    if left <= 0 {
        Seq::empty()
    } else if c < 2 || fs.spec_cluster_lba(c) >= fs.device.sector_count() || !fs.fat_entry_readable(c) {
        Seq::empty()
    } else {
        let here = fs.disk()[fs.spec_cluster_lba(c)];
        let next = fs.fat_entry(c);
        if next >= 0xFF8 || next == 0 {
            here
        } else {
            here + chain_bytes(fs, next, left - 512)
        }
    }
}

/// The bytes of the FAT12 chain from `start`, `size` bytes of file.
pub fn read_chain<D: BlockDevice>(fs: &Fs<D>, start: u16, size: u32) -> (r: Vec<u8>)
    requires
        fs.wf(),
    ensures
        r@ == chain_bytes(fs, start, size as int),
{
    proof { fs.lemma_layout_bounds(); }
    let count = fs.device.sector_total();
    let mut out: Vec<u8> = Vec::new();
    let mut c = start;
    let mut left: u64 = size as u64;
    while left > 0
        invariant_except_break
            out@ + chain_bytes(fs, c, left as int) == chain_bytes(fs, start, size as int),
        invariant
            fs.wf(),
            count == fs.device.sector_count(),
        ensures
            out@ == chain_bytes(fs, start, size as int),
        decreases left,
    {
        if c < 2 {
            assert(out@ + Seq::<u8>::empty() =~= out@);
            break;
        }
        let lba = fs.cluster_to_lba(c);
        let fat_sector = fs.fat_start_lba + ((c as u64 * 3) / 2 + 1) / 512;
        assert(fat_sector == fs.fat_start_lba + (fat_offset(c) + 1) / 512);
        if lba >= count || fat_sector >= count {
            assert(out@ + Seq::<u8>::empty() =~= out@);
            break;
        }
        let mut sector = [0u8; 512];
        fs.device.read_sector(lba, &mut sector);
        let ghost before = out@;
        let mut k: usize = 0;
        while k < 512
            invariant
                k <= 512,
                out@ == before + sector@.take(k as int),
            decreases 512 - k,
        {
            out.push(sector[k]);
            k = k + 1;
            assert(out@ =~= before + sector@.take(k as int));
        }
        assert(sector@.take(512) =~= sector@);
        assert(sector@ == fs.disk()[lba as int]);
        let next = fs.read_fat12_entry(c);
        if next >= 0xFF8 || next == 0 {
            assert(chain_bytes(fs, c, left as int) == sector@);
            assert(out@ + Seq::<u8>::empty() =~= out@);
            break;
        }
        proof {
            assert(chain_bytes(fs, c, left as int) == sector@ + chain_bytes(fs, next, left - 512));
            assert(before + (sector@ + chain_bytes(fs, next, left - 512)) =~= out@ + chain_bytes(fs, next, left - 512));
            if left <= 512 {
                assert(chain_bytes(fs, next, left - 512) == Seq::<u8>::empty());
                assert(chain_bytes(fs, next, 0) == Seq::<u8>::empty());
            }
        }
        c = next;
        left = if left > 512 { left - 512 } else { 0 };
    }
    out
}

} // verus!
