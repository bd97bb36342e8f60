//! Editing FAT12 directories: finding, renaming, deleting and inserting
//! entries, and creating subdirectories.
use vstd::prelude::*;
use crate::fs::block::BlockDevice;
use super::entry::Entry;
use super::fs::{Fs, CHAIN_LIMIT};
use super::table::{fat_get, fat_set};
use crate::input::keyboard::{first_index, lemma_first_index, position};

verus! {

/// The slots of `k` consecutive sectors from LBA `lba`, 16 per sector, in
/// order: each slot is the LBA of its sector and its byte offset there.
pub open spec fn run_slots(lba: int, k: nat) -> Seq<(int, int)> {
    Seq::new(k * 16, |q: int| (lba + q / 16, (q % 16) * 32))
}

/// Slot positions as held in memory, as integers.
pub open spec fn pos_view(v: Seq<(u64, usize)>) -> Seq<(int, int)> {
    Seq::new(v.len(), |i: int| (v[i].0 as int, v[i].1 as int))
}

/// The disk after copying `bytes` into sector `lba` from byte `off` on.
pub open spec fn put_bytes(disk: Seq<Seq<u8>>, lba: int, off: int, bytes: Seq<u8>) -> Seq<Seq<u8>> {
    disk.update(
        lba,
        Seq::new(disk[lba].len(), |i: int| if off <= i < off + bytes.len() { bytes[i - off] } else { disk[lba][i] }),
    )
}

/// The slot at `pos` holds an entry in use: its first byte marks neither
/// the end of the directory (0x00) nor a deleted entry (0xE5).
pub open spec fn slot_in_use(disk: Seq<Seq<u8>>, pos: (int, int)) -> bool {
    disk[pos.0][pos.1] != 0x00 && disk[pos.0][pos.1] != 0xE5
}

/// The 8-byte base name of the slot at `pos` is `name8`.
pub open spec fn slot_base_is(disk: Seq<Seq<u8>>, pos: (int, int), name8: Seq<u8>) -> bool {
    disk[pos.0].subrange(pos.1, pos.1 + 8) == name8
}

/// A search for the base name `name8` stops at the slot at `pos`; with
/// `skip_free` unused slots are passed over.
pub open spec fn slot_hit(disk: Seq<Seq<u8>>, pos: (int, int), name8: Seq<u8>, skip_free: bool) -> bool {
    (!skip_free || slot_in_use(disk, pos)) && slot_base_is(disk, pos, name8)
}

/// `i` is the first slot of `slots` where the search for `name8` stops.
pub open spec fn first_hit(disk: Seq<Seq<u8>>, slots: Seq<(int, int)>, name8: Seq<u8>, skip_free: bool, i: int) -> bool {
    &&& 0 <= i < slots.len()
    &&& slot_hit(disk, slots[i], name8, skip_free)
    &&& forall|j: int| 0 <= j < i ==> !#[trigger] slot_hit(disk, slots[j], name8, skip_free)
}

/// `i` is the first unused slot of `slots`.
pub open spec fn first_unused(disk: Seq<Seq<u8>>, slots: Seq<(int, int)>, i: int) -> bool {
    &&& 0 <= i < slots.len()
    &&& !slot_in_use(disk, slots[i])
    &&& forall|j: int| 0 <= j < i ==> #[trigger] slot_in_use(disk, slots[j])
}

/// The 32 bytes of a directory entry named `name11` (8.3, 11 bytes) with
/// the directory attribute, first cluster `c` and size 0.
pub open spec fn dir_entry_bytes(name11: Seq<u8>, c: u16) -> Seq<u8> {
    name11 + seq![0x10u8] + Seq::new(14, |i: int| 0u8) + seq![(c % 256) as u8, (c / 256) as u8, 0u8, 0u8, 0u8, 0u8]
}

/// The 8.3 name ".".
pub open spec fn dot_name() -> Seq<u8> {
    seq![0x2Eu8, 0x20u8, 0x20u8, 0x20u8, 0x20u8, 0x20u8, 0x20u8, 0x20u8, 0x20u8, 0x20u8, 0x20u8]
}

/// The 8.3 name "..".
pub open spec fn dotdot_name() -> Seq<u8> {
    seq![0x2Eu8, 0x2Eu8, 0x20u8, 0x20u8, 0x20u8, 0x20u8, 0x20u8, 0x20u8, 0x20u8, 0x20u8, 0x20u8]
}

/// The first sector of a new subdirectory at cluster `c` inside `parent`:
/// the entries "." (to `c`) and ".." (to `parent`), then zeros.
pub open spec fn subdir_block(c: u16, parent: u16) -> Seq<u8> {
    dir_entry_bytes(dot_name(), c) + dir_entry_bytes(dotdot_name(), parent) + Seq::new(448, |i: int| 0u8)
}

proof fn lemma_push_slot(prev: Seq<(u64, usize)>, base: Seq<(int, int)>, lba: int, k: nat, q: int, x: (u64, usize))
    requires
        pos_view(prev) == base + run_slots(lba, k).subrange(0, q),
        0 <= q < k * 16,
        x.0 == lba + q / 16,
        x.1 == (q % 16) * 32,
    ensures
        pos_view(prev.push(x)) == base + run_slots(lba, k).subrange(0, q + 1),
{
    let a = pos_view(prev.push(x));
    let b = base + run_slots(lba, k).subrange(0, q + 1);
    assert(pos_view(prev).len() == prev.len());
    assert forall|j: int| 0 <= j < a.len() implies a[j] == b[j] by {
        if j < prev.len() {
            assert(a[j] == pos_view(prev)[j]);
        }
    }
    assert(a =~= b);
}

/// What `delete_file(dir_cluster, filename)` does to the file system `f0`,
/// giving `f1` and the result `ok`.
pub open spec fn file_deleted<D: BlockDevice>(
    f0: Fs<D>,
    f1: Fs<D>,
    dir_cluster: u16,
    filename: Seq<u8>,
    ok: bool,
) -> bool {
    &&& (!ok ==> f1.disk() == f0.disk())
    &&& (!f0.search_fits(f0.disk(), dir_cluster, f0.root_sectors(), f0.sectors_per_cluster as nat) ==> !ok)
    &&& (f0.search_fits(f0.disk(), dir_cluster, f0.root_sectors(), f0.sectors_per_cluster as nat) ==> {
        &&& ok == exists|i: int|
            0 <= i < f0.name_slots(dir_cluster).len()
                && #[trigger] slot_hit(f0.disk(), f0.name_slots(dir_cluster)[i], filename.subrange(0, 8), false)
        &&& forall|i: int|
            #[trigger] first_hit(f0.disk(), f0.name_slots(dir_cluster), filename.subrange(0, 8), false, i)
                ==> f1.disk() == put_bytes(
                    f0.disk(),
                    f0.name_slots(dir_cluster)[i].0,
                    f0.name_slots(dir_cluster)[i].1,
                    seq![0xE5u8],
                )
    })
}

/// What `rename_file(dir_cluster, old_filename, new_filename)` does to the
/// file system `f0`, giving `f1` and the result `ok`.
pub open spec fn file_renamed<D: BlockDevice>(
    f0: Fs<D>,
    f1: Fs<D>,
    dir_cluster: u16,
    old_filename: Seq<u8>,
    new_filename: Seq<u8>,
    ok: bool,
) -> bool {
    &&& (!ok ==> f1.disk() == f0.disk())
    &&& (!f0.search_fits(f0.disk(), dir_cluster, f0.root_sectors(), f0.sectors_per_cluster as nat) ==> !ok)
    &&& (f0.search_fits(f0.disk(), dir_cluster, f0.root_sectors(), f0.sectors_per_cluster as nat) ==> {
        &&& ok == exists|i: int|
            0 <= i < f0.name_slots(dir_cluster).len()
                && #[trigger] slot_hit(f0.disk(), f0.name_slots(dir_cluster)[i], old_filename.subrange(0, 8), true)
        &&& forall|i: int|
            #[trigger] first_hit(f0.disk(), f0.name_slots(dir_cluster), old_filename.subrange(0, 8), true, i)
                ==> f1.disk() == put_bytes(
                    f0.disk(),
                    f0.name_slots(dir_cluster)[i].0,
                    f0.name_slots(dir_cluster)[i].1,
                    new_filename,
                )
    })
}

/// What `create_subdirectory(name, parent_cluster)` does to the file system
/// `f0`, giving `f1` and the new cluster `c`.
pub open spec fn dir_created<D: BlockDevice>(
    f0: Fs<D>,
    f1: Fs<D>,
    name: Seq<u8>,
    parent_cluster: u16,
    c: u16,
) -> bool {
    &&& (c == 0 ==> f1.disk() == f0.disk() && (f0.sectors_per_cluster == 0
        || forall|k: u16| 2 <= k < f0.boot_sector.total_sectors_16 ==> #[trigger] f0.fat_entry(k) != 0))
    &&& (c != 0 ==> f0.is_first_free_cluster(c) && exists|mid: Seq<Seq<u8>>, ok: bool|
        #[trigger] f0.inserted(
            fat_set(f0.disk(), f0.fat_start_lba as int, c, 0xFFF),
            mid,
            parent_cluster,
            dir_entry_bytes(name, c),
            ok,
        ) && f1.disk() == fat_set(
            if f0.spec_cluster_lba(c) < f0.device.sector_count() {
                mid.update(f0.spec_cluster_lba(c), subdir_block(c, parent_cluster))
            } else {
                mid
            },
            f0.fat_start_lba as int,
            c,
            0xFFF,
        ))
}

impl<D: BlockDevice> Fs<D> {
    /// The table entry of `c` on `disk`.
    pub open spec fn entry_on(&self, disk: Seq<Seq<u8>>, c: u16) -> u16 {
        fat_get(disk, self.fat_start_lba as int, c)
    }

    /// The slots visited along the cluster chain from `c` on `disk`: the
    /// first `k` sectors of each cluster, at most `fuel` clusters, up to an
    /// end mark.
    pub open spec fn chain_slots(&self, disk: Seq<Seq<u8>>, c: u16, k: nat, fuel: nat) -> Seq<(int, int)>
        decreases fuel,
    {
        if fuel == 0 {
            Seq::empty()
        } else if self.entry_on(disk, c) >= 0xFF8 {
            run_slots(self.spec_cluster_lba(c), k)
        } else {
            run_slots(self.spec_cluster_lba(c), k) + self.chain_slots(disk, self.entry_on(disk, c), k, (fuel - 1) as nat)
        }
    }

    /// The clusters of that walk are data clusters whose first `k` sectors
    /// and table entries lie on the device.
    pub open spec fn chain_fits(&self, disk: Seq<Seq<u8>>, c: u16, k: nat, fuel: nat) -> bool
        decreases fuel,
    {
        fuel == 0 || {
            &&& 2 <= c
            &&& self.spec_cluster_lba(c) + k <= self.device.sector_count()
            &&& self.fat_entry_readable(c)
            &&& (self.entry_on(disk, c) < 0xFF8 ==> self.chain_fits(disk, self.entry_on(disk, c), k, (fuel - 1) as nat))
        }
    }

    /// The walk from `c` reaches an end mark within `fuel` clusters.
    pub open spec fn chain_ends(&self, disk: Seq<Seq<u8>>, c: u16, fuel: nat) -> bool
        decreases fuel,
    {
        fuel > 0 && (self.entry_on(disk, c) >= 0xFF8 || self.chain_ends(disk, self.entry_on(disk, c), (fuel - 1) as nat))
    }

    /// The last cluster reached from `c`, following at most `links` links.
    pub open spec fn chain_end_cluster(&self, disk: Seq<Seq<u8>>, c: u16, links: nat) -> u16
        decreases links,
    {
        if links > 0 && self.entry_on(disk, c) < 0xFF8 {
            self.chain_end_cluster(disk, self.entry_on(disk, c), (links - 1) as nat)
        } else {
            c
        }
    }

    /// The slots a search of directory `dir` visits: the first
    /// `root_sectors` sectors of the root directory (`dir` 0), or the first
    /// `k` sectors of each cluster of a subdirectory's chain.
    pub open spec fn search_slots(&self, disk: Seq<Seq<u8>>, dir: u16, root_sectors: nat, k: nat) -> Seq<(int, int)> {
        if dir == 0 {
            run_slots(self.root_dir_start_lba as int, root_sectors)
        } else {
            self.chain_slots(disk, dir, k, CHAIN_LIMIT as nat)
        }
    }

    /// Every sector of that search lies on the device.
    pub open spec fn search_fits(&self, disk: Seq<Seq<u8>>, dir: u16, root_sectors: nat, k: nat) -> bool {
        if dir == 0 {
            self.root_dir_start_lba + root_sectors <= self.device.sector_count()
        } else {
            self.chain_fits(disk, dir, k, CHAIN_LIMIT as nat)
        }
    }

    /// Number of sectors that hold the root directory's entries.
    pub open spec fn root_sectors(&self) -> nat {
        ((self.boot_sector.root_entry_count * 32 + 511) / 512) as nat
    }

    /// The slots that renaming and deleting search: every sector of the root
    /// directory, or every sector of each cluster of a subdirectory.
    pub open spec fn name_slots(&self, dir: u16) -> Seq<(int, int)> {
        self.search_slots(self.disk(), dir, self.root_sectors(), self.sectors_per_cluster as nat)
    }

    /// The slots that insertion searches: the first `root_entry_count / 16`
    /// sectors of the root directory, or the first sector of each cluster of
    /// a subdirectory.
    pub open spec fn insert_slots(&self, disk: Seq<Seq<u8>>, dir: u16) -> Seq<(int, int)> {
        self.search_slots(disk, dir, (self.boot_sector.root_entry_count / 16) as nat, 1)
    }

    /// Table entry `n` is the lowest free one in 2..total_sectors_16 on `disk`.
    pub open spec fn first_free_on(&self, disk: Seq<Seq<u8>>, n: u16) -> bool {
        &&& 2 <= n < self.boot_sector.total_sectors_16
        &&& self.entry_on(disk, n) == 0
        &&& forall|c: u16| 2 <= c < n ==> #[trigger] self.entry_on(disk, c) != 0
    }

    /// What growing a directory by a cluster needs of the device: the table
    /// lies on it and the clusters handed out stay below 0xFF8.
    pub open spec fn grow_ready(&self) -> bool {
        &&& self.fat_on_device()
        &&& self.fat_start_lba + self.sectors_per_cluster <= self.device.sector_count()
        &&& self.boot_sector.total_sectors_16 <= 0xFF8
    }

    /// The disk after a directory whose chain ends at `last` grows by the
    /// free cluster `n`: `n` is taken and marked as an end, linked after
    /// `last`, and its first sector, when it lies on the device, holds
    /// `bytes` followed by zeros.
    pub open spec fn grown_disk(&self, disk: Seq<Seq<u8>>, last: u16, n: u16, bytes: Seq<u8>) -> Seq<Seq<u8>> {
        let fs = self.fat_start_lba as int;
        let d1 = fat_set(disk, fs, n, 0xFFF);
        let d2 = fat_set(d1, fs, last, n);
        let d3 = fat_set(d2, fs, n, 0xFFF);
        if self.spec_cluster_lba(n) < self.device.sector_count() {
            d3.update(self.spec_cluster_lba(n), bytes + Seq::new(480, |i: int| 0u8))
        } else {
            d3
        }
    }

    /// The outcome of inserting the 32 bytes `bytes` as an entry of
    /// directory `dir`, from the disk `before` to `after`; `r` tells whether
    /// the entry was written. The first unused slot takes it; a subdirectory
    /// with no unused slot grows by the lowest free cluster; a directory
    /// whose walk would leave the device is not touched.
    pub open spec fn inserted(&self, before: Seq<Seq<u8>>, after: Seq<Seq<u8>>, dir: u16, bytes: Seq<u8>, r: bool) -> bool {
        let slots = self.insert_slots(before, dir);
        if !self.search_fits(before, dir, (self.boot_sector.root_entry_count / 16) as nat, 1) {
            !r && after == before
        } else if exists|i: int| first_unused(before, slots, i) {
            forall|i: int| first_unused(before, slots, i) ==> r && after == put_bytes(before, slots[i].0, slots[i].1, bytes)
        } else if dir == 0 || !self.chain_ends(before, dir, CHAIN_LIMIT as nat) || self.sectors_per_cluster == 0
            || (forall|c: u16| 2 <= c < self.boot_sector.total_sectors_16 ==> #[trigger] self.entry_on(before, c) != 0) {
            !r && after == before
        } else {
            forall|n: u16| #[trigger] self.first_free_on(before, n) ==> r && after == self.grown_disk(
                before,
                self.chain_end_cluster(before, dir, (CHAIN_LIMIT - 1) as nat),
                n,
                bytes,
            )
        }
    }

    /// Lists the slots of a directory search in the order they are visited.
    pub fn slot_positions(&self, dir_cluster: u16, root_sectors: u64, k: u8) -> (r: Vec<(u64, usize)>)
        requires
            self.wf(),
            self.search_fits(self.disk(), dir_cluster, root_sectors as nat, k as nat),
        ensures
            pos_view(r@) == self.search_slots(self.disk(), dir_cluster, root_sectors as nat, k as nat),
            forall|i: int|
                0 <= i < r@.len() ==> {
                    &&& (#[trigger] r@[i]).0 < self.device.sector_count()
                    &&& r@[i].1 % 32 == 0
                    &&& r@[i].1 + 32 <= 512
                },
    {
        proof { self.lemma_layout_bounds(); }
        let count = self.device.sector_total();
        let mut out: Vec<(u64, usize)> = Vec::new();
        if dir_cluster == 0 {
            let start = self.root_dir_start_lba;
            let mut s: u64 = 0;
            while s < root_sectors
                invariant
                    self.wf(),
                    dir_cluster == 0,
                    start == self.root_dir_start_lba,
                    start <= 0x100_0000,
                    start + root_sectors <= self.device.sector_count(),
                    count == self.device.sector_count(),
                    s <= root_sectors,
                    pos_view(out@) == run_slots(start as int, root_sectors as nat).subrange(0, s * 16),
                    forall|i: int|
                        0 <= i < out@.len() ==> {
                            &&& (#[trigger] out@[i]).0 < self.device.sector_count()
                            &&& out@[i].1 % 32 == 0
                            &&& out@[i].1 + 32 <= 512
                        },
                decreases root_sectors - s,
            {
                let mut i: usize = 0;
                while i < 16
                    invariant
                        start + root_sectors <= self.device.sector_count(),
                        count == self.device.sector_count(),
                        start <= 0x100_0000,
                        s < root_sectors,
                        i <= 16,
                        pos_view(out@) == run_slots(start as int, root_sectors as nat).subrange(0, s * 16 + i),
                        forall|j: int|
                            0 <= j < out@.len() ==> {
                                &&& (#[trigger] out@[j]).0 < self.device.sector_count()
                                &&& out@[j].1 % 32 == 0
                                &&& out@[j].1 + 32 <= 512
                            },
                    decreases 16 - i,
                {
                    let ghost q = s * 16 + i;
                    assert(q / 16 == s && q % 16 == i);
                    let ghost prev = out@;
                    out.push((start + s, i * 32));
                    proof {
                        assert(Seq::<(int, int)>::empty() + run_slots(start as int, root_sectors as nat).subrange(0, q)
                            =~= run_slots(start as int, root_sectors as nat).subrange(0, q));
                        lemma_push_slot(prev, Seq::empty(), start as int, root_sectors as nat, q, out@[prev.len() as int]);
                        assert(out@ == prev.push(out@[prev.len() as int]));
                        assert(Seq::<(int, int)>::empty() + run_slots(start as int, root_sectors as nat).subrange(0, q + 1)
                            =~= run_slots(start as int, root_sectors as nat).subrange(0, q + 1));
                    }
                    i = i + 1;
                }
                s = s + 1;
            }
            assert(run_slots(start as int, root_sectors as nat).subrange(0, root_sectors * 16)
                =~= run_slots(start as int, root_sectors as nat));
            out
        } else {
            let mut c = dir_cluster;
            let mut fuel: u32 = CHAIN_LIMIT;
            loop
                invariant
                    self.wf(),
                    dir_cluster != 0,
                    1 <= fuel <= CHAIN_LIMIT,
                    self.chain_fits(self.disk(), c, k as nat, fuel as nat),
                    pos_view(out@) + self.chain_slots(self.disk(), c, k as nat, fuel as nat)
                        == self.chain_slots(self.disk(), dir_cluster, k as nat, CHAIN_LIMIT as nat),
                    forall|i: int|
                        0 <= i < out@.len() ==> {
                            &&& (#[trigger] out@[i]).0 < self.device.sector_count()
                            &&& out@[i].1 % 32 == 0
                            &&& out@[i].1 + 32 <= 512
                        },
                decreases fuel,
            {
                let lba = self.cluster_to_lba(c);
                let ghost base = out@;
                let mut s: u8 = 0;
                while s < k
                    invariant
                        self.wf(),
                        lba == self.spec_cluster_lba(c),
                        lba + k <= self.device.sector_count(),
                        lba <= 0x200_0000,
                        s <= k,
                        pos_view(out@) == pos_view(base) + run_slots(lba as int, k as nat).subrange(0, s * 16),
                        forall|i: int|
                            0 <= i < out@.len() ==> {
                                &&& (#[trigger] out@[i]).0 < self.device.sector_count()
                                &&& out@[i].1 % 32 == 0
                                &&& out@[i].1 + 32 <= 512
                            },
                    decreases k - s,
                {
                    let mut i: usize = 0;
                    while i < 16
                        invariant
                            lba + k <= self.device.sector_count(),
                            lba <= 0x200_0000,
                            s < k,
                            i <= 16,
                            pos_view(out@) == pos_view(base) + run_slots(lba as int, k as nat).subrange(0, s * 16 + i),
                            forall|j: int|
                                0 <= j < out@.len() ==> {
                                    &&& (#[trigger] out@[j]).0 < self.device.sector_count()
                                    &&& out@[j].1 % 32 == 0
                                    &&& out@[j].1 + 32 <= 512
                                },
                        decreases 16 - i,
                    {
                        let ghost q = s * 16 + i;
                        assert(q / 16 == s && q % 16 == i);
                        let ghost prev = out@;
                        out.push((lba + s as u64, i * 32));
                        proof {
                            lemma_push_slot(prev, pos_view(base), lba as int, k as nat, q, out@[prev.len() as int]);
                            assert(out@ == prev.push(out@[prev.len() as int]));
                        }
                        i = i + 1;
                    }
                    s = s + 1;
                }
                assert(run_slots(lba as int, k as nat).subrange(0, k * 16) =~= run_slots(lba as int, k as nat));
                let next = self.read_fat12_entry(c);
                if next >= 0xFF8 || fuel == 1 {
                    proof {
                        if next < 0xFF8 {
                            assert(self.chain_slots(self.disk(), next, k as nat, 0) =~= Seq::<(int, int)>::empty());
                        }
                        assert(pos_view(out@) =~= pos_view(base) + self.chain_slots(self.disk(), c, k as nat, fuel as nat));
                        assert(pos_view(base) + self.chain_slots(self.disk(), c, k as nat, fuel as nat)
                            =~= self.chain_slots(self.disk(), dir_cluster, k as nat, CHAIN_LIMIT as nat));
                    }
                    return out;
                }
                proof {
                    assert(pos_view(out@) + self.chain_slots(self.disk(), next, k as nat, (fuel - 1) as nat)
                        =~= pos_view(base) + self.chain_slots(self.disk(), c, k as nat, fuel as nat));
                }
                c = next;
                fuel = fuel - 1;
            }
        }
    }
    /// Whether every sector of a directory search lies on the device.
    pub fn can_search(&self, dir_cluster: u16, root_sectors: u64, k: u8) -> (r: bool)
        requires
            self.wf(),
        ensures
            r == self.search_fits(self.disk(), dir_cluster, root_sectors as nat, k as nat),
    {
        proof { self.lemma_layout_bounds(); }
        let count = self.device.sector_total();
        if dir_cluster == 0 {
            return root_sectors <= count && self.root_dir_start_lba <= count - root_sectors;
        }
        let mut c = dir_cluster;
        let mut fuel: u32 = CHAIN_LIMIT;
        loop
            invariant
                self.wf(),
                dir_cluster != 0,
                count == self.device.sector_count(),
                1 <= fuel <= CHAIN_LIMIT,
                self.chain_fits(self.disk(), c, k as nat, fuel as nat)
                    == self.chain_fits(self.disk(), dir_cluster, k as nat, CHAIN_LIMIT as nat),
            decreases fuel,
        {
            if c < 2 {
                return false;
            }
            let lba = self.cluster_to_lba(c);
            if lba + k as u64 > count {
                return false;
            }
            let fat_off = (c as u64 * 3) / 2;
            if self.fat_start_lba + (fat_off + 1) / 512 >= count {
                return false;
            }
            let next = self.read_fat12_entry(c);
            if next >= 0xFF8 || fuel == 1 {
                assert(self.chain_fits(self.disk(), next, k as nat, 0));
                return true;
            }
            c = next;
            fuel = fuel - 1;
        }
    }

    /// Finds the first of `slots` where a search for the base name
    /// `filename[0..8]` stops; with `skip_free` unused slots are passed over.
    fn find_slot(&self, slots: &Vec<(u64, usize)>, filename: &[u8; 11], skip_free: bool) -> (r: Option<usize>)
        requires
            forall|i: int|
                0 <= i < slots@.len() ==> {
                    &&& (#[trigger] slots@[i]).0 < self.device.sector_count()
                    &&& slots@[i].1 + 32 <= 512
                },
        ensures
            r is None ==> forall|i: int|
                0 <= i < slots@.len() ==> !#[trigger] slot_hit(self.disk(), pos_view(slots@)[i], filename@.subrange(0, 8), skip_free),
            r matches Some(i) ==> first_hit(self.disk(), pos_view(slots@), filename@.subrange(0, 8), skip_free, i as int),
    {
        let ghost name8 = filename@.subrange(0, 8);
        let mut buf = [0u8; 512];
        let mut i: usize = 0;
        while i < slots.len()
            invariant
                forall|j: int|
                    0 <= j < slots@.len() ==> {
                        &&& (#[trigger] slots@[j]).0 < self.device.sector_count()
                        &&& slots@[j].1 + 32 <= 512
                    },
                name8 == filename@.subrange(0, 8),
                i <= slots@.len(),
                buf@.len() == 512,
                forall|j: int| 0 <= j < i ==> !#[trigger] slot_hit(self.disk(), pos_view(slots@)[j], name8, skip_free),
            decreases slots.len() - i,
        {
            let (lba, off) = slots[i];
            self.device.read_sector(lba, &mut buf);
            let ghost pos = pos_view(slots@)[i as int];
            assert(pos == (lba as int, off as int));
            assert(self.disk()[lba as int] == buf@);
            let used = buf[off] != 0x00 && buf[off] != 0xE5;
            let mut k: usize = 0;
            let mut same = true;
            while k < 8
                invariant
                    off + 32 <= 512,
                    buf@.len() == 512,
                    k <= 8,
                    same == forall|t: int| 0 <= t < k ==> buf@[off + t] == filename@[t],
                decreases 8 - k,
            {
                if buf[off + k] != filename[k] {
                    same = false;
                }
                k = k + 1;
            }
            assert(same == slot_base_is(self.disk(), pos, name8)) by {
                if same {
                    assert(buf@.subrange(off as int, off + 8) =~= name8);
                } else {
                    let t = choose|t: int| 0 <= t < 8 && buf@[off + t] != filename@[t];
                    assert(buf@.subrange(off as int, off + 8)[t] != name8[t]);
                }
            }
            if (!skip_free || used) && same {
                return Some(i);
            }
            i = i + 1;
        }
        None
    }

    /// Finds the first unused slot of `slots`.
    fn find_unused(&self, slots: &Vec<(u64, usize)>) -> (r: Option<usize>)
        requires
            forall|i: int|
                0 <= i < slots@.len() ==> {
                    &&& (#[trigger] slots@[i]).0 < self.device.sector_count()
                    &&& slots@[i].1 + 32 <= 512
                },
        ensures
            r is None ==> forall|i: int| 0 <= i < slots@.len() ==> #[trigger] slot_in_use(self.disk(), pos_view(slots@)[i]),
            r matches Some(i) ==> first_unused(self.disk(), pos_view(slots@), i as int),
    {
        let mut buf = [0u8; 512];
        let mut i: usize = 0;
        while i < slots.len()
            invariant
                forall|j: int|
                    0 <= j < slots@.len() ==> {
                        &&& (#[trigger] slots@[j]).0 < self.device.sector_count()
                        &&& slots@[j].1 + 32 <= 512
                    },
                i <= slots@.len(),
                buf@.len() == 512,
                forall|j: int| 0 <= j < i ==> #[trigger] slot_in_use(self.disk(), pos_view(slots@)[j]),
            decreases slots.len() - i,
        {
            let (lba, off) = slots[i];
            self.device.read_sector(lba, &mut buf);
            assert(pos_view(slots@)[i as int] == (lba as int, off as int));
            if buf[off] == 0x00 || buf[off] == 0xE5 {
                return Some(i);
            }
            i = i + 1;
        }
        None
    }

    /// Copies `bytes` into sector `lba` from byte `off` on.
    fn patch_slot(&mut self, lba: u64, off: usize, bytes: &[u8])
        requires
            old(self).wf(),
            lba < old(self).device.sector_count(),
            off + bytes@.len() <= 512,
        ensures
            final(self).wf(),
            final(self).same_layout(old(self)),
            final(self).disk() == put_bytes(old(self).disk(), lba as int, off as int, bytes@),
    {
        let mut buf = [0u8; 512];
        self.device.read_sector(lba, &mut buf);
        let ghost before = buf@;
        let n = bytes.len();
        let mut k: usize = 0;
        while k < n
            invariant
                n == bytes@.len(),
                off + n <= 512,
                buf@.len() == 512,
                k <= n,
                forall|t: int| 0 <= t < 512 && !(off <= t < off + k) ==> buf@[t] == before[t],
                forall|t: int| off <= t < off + k ==> buf@[t] == bytes@[t - off],
            decreases n - k,
        {
            buf[off + k] = bytes[k];
            k = k + 1;
        }
        self.device.write_sector(lba, &buf);
        proof {
            assert(old(self).disk()[lba as int] == before);
            assert(buf@ =~= put_bytes(old(self).disk(), lba as int, off as int, bytes@)[lba as int]);
            assert(self.disk() =~= put_bytes(old(self).disk(), lba as int, off as int, bytes@));
        }
    }

    /// Deletes the file of that name in the directory: the first slot whose
    /// 8-byte base name is `filename[0..8]` is marked deleted (first byte
    /// 0xE5). Returns false, leaving the disk as it was, when no slot
    /// matches, or when the directory's walk would leave the device.
    pub fn delete_file(&mut self, dir_cluster: u16, filename: &[u8; 11]) -> (r: bool)
        requires
            old(self).wf(),
        ensures
            final(self).wf(),
            final(self).same_layout(old(self)),
            file_deleted(*old(self), *final(self), dir_cluster, filename@, r),
    {
        let root_sectors = (self.boot_sector.root_entry_count as u64 * 32 + 511) / 512;
        let spc = self.boot_sector.sectors_per_cluster;
        if !self.can_search(dir_cluster, root_sectors, spc) {
            return false;
        }
        assert(root_sectors as nat == self.root_sectors());
        let slots = self.slot_positions(dir_cluster, root_sectors, spc);
        assert(pos_view(slots@) == old(self).name_slots(dir_cluster));
        match self.find_slot(&slots, filename, false) {
            Some(i) => {
                let (lba, off) = slots[i];
                let ghost slots_v = pos_view(slots@);
                proof {
                    assert forall|j: int| #[trigger] first_hit(old(self).disk(), slots_v, filename@.subrange(0, 8), false, j) implies j == i by {
                        if j < i { assert(!slot_hit(old(self).disk(), slots_v[j], filename@.subrange(0, 8), false)); }
                        if j > i { assert(!slot_hit(old(self).disk(), slots_v[i as int], filename@.subrange(0, 8), false)); }
                    }
                    assert(slots_v[i as int] == (lba as int, off as int));
                }
                let mark: [u8; 1] = [0xE5];
                assert(mark@ =~= seq![0xE5u8]);
                self.patch_slot(lba, off, &mark);
                true
            },
            None => false,
        }
    }

    /// Renames the file of that name in the directory: the first slot in
    /// use whose 8-byte base name is `old_filename[0..8]` gets the 11 bytes
    /// of `new_filename`. Returns false, leaving the disk as it was, when no
    /// slot matches, or when the directory's walk would leave the device.
    pub fn rename_file(&mut self, dir_cluster: u16, old_filename: &[u8; 11], new_filename: &[u8; 11]) -> (r: bool)
        requires
            old(self).wf(),
        ensures
            final(self).wf(),
            final(self).same_layout(old(self)),
            file_renamed(*old(self), *final(self), dir_cluster, old_filename@, new_filename@, r),
    {
        let root_sectors = (self.boot_sector.root_entry_count as u64 * 32 + 511) / 512;
        let spc = self.boot_sector.sectors_per_cluster;
        if !self.can_search(dir_cluster, root_sectors, spc) {
            return false;
        }
        assert(root_sectors as nat == self.root_sectors());
        let slots = self.slot_positions(dir_cluster, root_sectors, spc);
        assert(pos_view(slots@) == old(self).name_slots(dir_cluster));
        match self.find_slot(&slots, old_filename, true) {
            Some(i) => {
                let (lba, off) = slots[i];
                let ghost slots_v = pos_view(slots@);
                proof {
                    assert forall|j: int| #[trigger] first_hit(old(self).disk(), slots_v, old_filename@.subrange(0, 8), true, j) implies j == i by {
                        if j < i { assert(!slot_hit(old(self).disk(), slots_v[j], old_filename@.subrange(0, 8), true)); }
                        if j > i { assert(!slot_hit(old(self).disk(), slots_v[i as int], old_filename@.subrange(0, 8), true)); }
                    }
                    assert(slots_v[i as int] == (lba as int, off as int));
                }
                self.patch_slot(lba, off, new_filename);
                true
            },
            None => false,
        }
    }
    /// Two file systems of the same layout walk a chain on a disk alike.
    pub proof fn lemma_walks_same_layout(&self, other: &Self, disk: Seq<Seq<u8>>, c: u16, k: nat, fuel: nat)
        requires
            self.same_layout(other),
        ensures
            self.chain_slots(disk, c, k, fuel) == other.chain_slots(disk, c, k, fuel),
            self.chain_fits(disk, c, k, fuel) == other.chain_fits(disk, c, k, fuel),
            self.chain_ends(disk, c, fuel) == other.chain_ends(disk, c, fuel),
            self.chain_end_cluster(disk, c, fuel) == other.chain_end_cluster(disk, c, fuel),
        decreases fuel,
    {
        if fuel > 0 {
            self.lemma_walks_same_layout(other, disk, self.entry_on(disk, c), k, (fuel - 1) as nat);
        }
    }

    /// The outcome of an insertion reads the same under two file systems of
    /// the same layout.
    pub proof fn lemma_inserted_same_layout(
        &self,
        other: &Self,
        before: Seq<Seq<u8>>,
        after: Seq<Seq<u8>>,
        dir: u16,
        bytes: Seq<u8>,
        r: bool,
    )
        requires
            self.same_layout(other),
            self.inserted(before, after, dir, bytes, r),
        ensures
            other.inserted(before, after, dir, bytes, r),
    {
        self.lemma_walks_same_layout(other, before, dir, 1, CHAIN_LIMIT as nat);
        self.lemma_walks_same_layout(other, before, dir, 1, (CHAIN_LIMIT - 1) as nat);
        let rs = (self.boot_sector.root_entry_count / 16) as nat;
        assert(self.insert_slots(before, dir) == other.insert_slots(before, dir));
        assert(self.search_fits(before, dir, rs, 1) == other.search_fits(before, dir, rs, 1));
        assert forall|c: u16| #[trigger] self.entry_on(before, c) == other.entry_on(before, c) by {}
        assert forall|n: u16| #[trigger] self.first_free_on(before, n) == other.first_free_on(before, n) by {
            if self.first_free_on(before, n) {
                assert forall|c: u16| 2 <= c < n implies #[trigger] other.entry_on(before, c) != 0 by {
                    assert(self.entry_on(before, c) != 0);
                }
            }
            if other.first_free_on(before, n) {
                assert forall|c: u16| 2 <= c < n implies #[trigger] self.entry_on(before, c) != 0 by {
                    assert(other.entry_on(before, c) != 0);
                }
            }
        }
        let total = self.boot_sector.total_sectors_16;
        assert((forall|c: u16| 2 <= c < total ==> #[trigger] self.entry_on(before, c) != 0)
            == (forall|c: u16| 2 <= c < total ==> #[trigger] other.entry_on(before, c) != 0)) by {
            if forall|c: u16| 2 <= c < total ==> #[trigger] self.entry_on(before, c) != 0 {
                assert forall|c: u16| 2 <= c < total implies #[trigger] other.entry_on(before, c) != 0 by {
                    assert(self.entry_on(before, c) != 0);
                }
            }
            if forall|c: u16| 2 <= c < total ==> #[trigger] other.entry_on(before, c) != 0 {
                assert forall|c: u16| 2 <= c < total implies #[trigger] self.entry_on(before, c) != 0 by {
                    assert(other.entry_on(before, c) != 0);
                }
            }
        }
        assert forall|n: u16, last: u16| #[trigger] self.grown_disk(before, last, n, bytes) == other.grown_disk(before, last, n, bytes) by {}
        let slots = self.insert_slots(before, dir);
        if self.search_fits(before, dir, rs, 1) && !(exists|i: int| first_unused(before, slots, i)) && !(dir == 0
            || !self.chain_ends(before, dir, CHAIN_LIMIT as nat) || self.sectors_per_cluster == 0
            || (forall|c: u16| 2 <= c < total ==> #[trigger] self.entry_on(before, c) != 0)) {
            let last = self.chain_end_cluster(before, dir, (CHAIN_LIMIT - 1) as nat);
            assert forall|n: u16| #[trigger] other.first_free_on(before, n) implies r && after == other.grown_disk(before, last, n, bytes) by {
                assert(self.first_free_on(before, n));
            }
        }
    }

    /// Whether a directory can grow by a cluster on this device.
    pub fn can_grow(&self) -> (r: bool)
        requires
            self.wf(),
        ensures
            r == self.grow_ready(),
    {
        proof { self.lemma_layout_bounds(); }
        let count = self.device.sector_total();
        let spc = self.sectors_per_cluster as u64;
        let total = self.boot_sector.total_sectors_16 as u64;
        if total > 0xFF8 {
            return false;
        }
        self.fat_start_lba + 12 <= count && self.fat_start_lba + spc <= count
    }

    /// Follows the chain from `c0` to its last cluster, visiting at most
    /// CHAIN_LIMIT clusters; tells whether an end mark was reached.
    fn chain_end(&self, c0: u16) -> (r: (u16, bool))
        requires
            self.wf(),
            self.chain_fits(self.disk(), c0, 1, CHAIN_LIMIT as nat),
        ensures
            r.1 == self.chain_ends(self.disk(), c0, CHAIN_LIMIT as nat),
            r.0 == self.chain_end_cluster(self.disk(), c0, (CHAIN_LIMIT - 1) as nat),
            2 <= r.0,
            self.fat_entry_readable(r.0),
    {
        let mut c = c0;
        let mut fuel: u32 = CHAIN_LIMIT;
        loop
            invariant
                self.wf(),
                1 <= fuel <= CHAIN_LIMIT,
                self.chain_fits(self.disk(), c, 1, fuel as nat),
                self.chain_ends(self.disk(), c, fuel as nat) == self.chain_ends(self.disk(), c0, CHAIN_LIMIT as nat),
                self.chain_end_cluster(self.disk(), c, (fuel - 1) as nat)
                    == self.chain_end_cluster(self.disk(), c0, (CHAIN_LIMIT - 1) as nat),
            decreases fuel,
        {
            let next = self.read_fat12_entry(c);
            if next >= 0xFF8 {
                return (c, true);
            }
            if fuel == 1 {
                assert(!self.chain_ends(self.disk(), next, 0));
                return (c, false);
            }
            c = next;
            fuel = fuel - 1;
        }
    }

    /// Inserts `new_entry` into directory `dir_cluster` (0 is the root
    /// directory): the first unused slot of the searched sectors takes it;
    /// a subdirectory with no unused slot grows by the lowest free cluster,
    /// whose first sector then holds the entry. Returns whether the entry
    /// was written (see `inserted`).
    pub fn insert_directory_entry(&mut self, dir_cluster: u16, new_entry: &Entry) -> (r: bool)
        requires
            old(self).wf(),
            dir_cluster != 0 ==> old(self).grow_ready(),
        ensures
            final(self).wf(),
            final(self).same_layout(old(self)),
            old(self).inserted(old(self).disk(), final(self).disk(), dir_cluster, new_entry.spec_bytes(), r),
    {
        proof { self.lemma_layout_bounds(); }
        let ghost before = self.disk();
        let ghost bytes_v = new_entry.spec_bytes();
        let bytes = new_entry.to_bytes();
        let root_sectors = self.boot_sector.root_entry_count as u64 / 16;
        if !self.can_search(dir_cluster, root_sectors, 1) {
            return false;
        }
        assert(root_sectors as nat == (self.boot_sector.root_entry_count / 16) as nat);
        let slots = self.slot_positions(dir_cluster, root_sectors, 1);
        let ghost slots_v = pos_view(slots@);
        assert(slots_v == old(self).insert_slots(before, dir_cluster));
        if let Some(i) = self.find_unused(&slots) {
            let (lba, off) = slots[i];
            proof {
                assert forall|j: int| #[trigger] first_unused(before, slots_v, j) implies j == i by {
                    if j < i { assert(slot_in_use(before, slots_v[j])); }
                    if j > i { assert(slot_in_use(before, slots_v[i as int])); }
                }
                assert(slots_v[i as int] == (lba as int, off as int));
            }
            self.patch_slot(lba, off, &bytes);
            return true;
        }
        assert(!exists|i: int| first_unused(before, slots_v, i));
        if dir_cluster == 0 {
            return false;
        }
        let (last, ended) = self.chain_end(dir_cluster);
        if !ended {
            return false;
        }
        let next = self.allocate_cluster();
        if next == 0 {
            proof {
                if old(self).sectors_per_cluster != 0 {
                    assert forall|c: u16| 2 <= c < old(self).boot_sector.total_sectors_16 implies #[trigger] old(self).entry_on(before, c) != 0 by {
                        assert(old(self).fat_entry(c) != 0);
                    }
                }
            }
            return false;
        }
        proof {
            assert(old(self).entry_on(before, next) == 0);
            assert forall|n: u16| #[trigger] old(self).first_free_on(before, n) implies n == next by {
                if n < next { assert(old(self).fat_entry(n) != 0); }
                if next < n { assert(old(self).entry_on(before, next) != 0); }
            }
        }
        let ghost d1 = self.disk();
        self.write_fat12_entry(last, next);
        self.write_fat12_entry(next, 0xFFF);
        let lba = self.cluster_to_lba(next);
        let count = self.device.sector_total();
        if lba >= count {
            return true;
        }
        let zero = [0u8; 512];
        let ghost d3 = self.disk();
        assert(d3 == fat_set(fat_set(d1, old(self).fat_start_lba as int, last, next), old(self).fat_start_lba as int, next, 0xFFF));
        self.device.write_sector(lba, &zero);
        let mut block = [0u8; 512];
        let mut k: usize = 0;
        while k < 32
            invariant
                block@.len() == 512,
                bytes@ == bytes_v,
                bytes_v.len() == 32,
                k <= 32,
                forall|t: int| 0 <= t < k ==> block@[t] == bytes_v[t],
                forall|t: int| k <= t < 512 ==> block@[t] == 0,
            decreases 32 - k,
        {
            block[k] = bytes[k];
            k = k + 1;
        }
        self.device.write_sector(lba, &block);
        proof {
            assert(block@ =~= bytes_v + Seq::new(480, |i: int| 0u8));
            assert(self.disk() =~= d3.update(lba as int, block@));
            assert(self.disk() == old(self).grown_disk(before, last, next, bytes_v));
        }
        true
    }

    /// Creates the subdirectory `name` (8.3, 11 bytes) in directory
    /// `parent_cluster`: the lowest free cluster is taken and marked as an
    /// end, an entry with the directory attribute and that cluster is
    /// inserted in the parent, and the cluster's first sector, when it lies
    /// on the device, gets the "." and ".." entries. Returns the new
    /// cluster, or 0 when none is free.
    pub fn create_subdirectory(&mut self, name: &[u8; 11], parent_cluster: u16) -> (r: u16)
        requires
            old(self).wf(),
            old(self).grow_ready(),
        ensures
            final(self).wf(),
            final(self).same_layout(old(self)),
            dir_created(*old(self), *final(self), name@, parent_cluster, r),
    {
        proof { self.lemma_layout_bounds(); }
        let cluster = self.allocate_cluster();
        if cluster == 0 {
            return 0;
        }
        let entry = Entry {
            name: [name[0], name[1], name[2], name[3], name[4], name[5], name[6], name[7]],
            ext: [name[8], name[9], name[10]],
            attr: 0x10,
            reserved: [0u8; 14],
            start_cluster: cluster,
            file_size: 0,
        };
        assert(entry.spec_bytes() =~= dir_entry_bytes(name@, cluster));
        let ghost m = *self;
        let ok = self.insert_directory_entry(parent_cluster, &entry);
        let ghost mid = self.disk();
        proof {
            assert(m.inserted(m.disk(), mid, parent_cluster, dir_entry_bytes(name@, cluster), ok));
            m.lemma_inserted_same_layout(old(self), m.disk(), mid, parent_cluster, dir_entry_bytes(name@, cluster), ok);
        }
        let dot = Entry {
            name: [0x2E, 0x20, 0x20, 0x20, 0x20, 0x20, 0x20, 0x20],
            ext: [0x20, 0x20, 0x20],
            attr: 0x10,
            reserved: [0u8; 14],
            start_cluster: cluster,
            file_size: 0,
        };
        let dotdot = Entry {
            name: [0x2E, 0x2E, 0x20, 0x20, 0x20, 0x20, 0x20, 0x20],
            ext: [0x20, 0x20, 0x20],
            attr: 0x10,
            reserved: [0u8; 14],
            start_cluster: parent_cluster,
            file_size: 0,
        };
        let dot_bytes = dot.to_bytes();
        let dotdot_bytes = dotdot.to_bytes();
        assert(dot_bytes@ =~= dir_entry_bytes(dot_name(), cluster));
        assert(dotdot_bytes@ =~= dir_entry_bytes(dotdot_name(), parent_cluster));
        let mut buf = [0u8; 512];
        let mut k: usize = 0;
        while k < 32
            invariant
                buf@.len() == 512,
                k <= 32,
                forall|t: int| 0 <= t < k ==> buf@[t] == dot_bytes@[t],
                forall|t: int| 32 <= t < 512 ==> buf@[t] == 0,
            decreases 32 - k,
        {
            buf[k] = dot_bytes[k];
            k = k + 1;
        }
        k = 0;
        while k < 32
            invariant
                buf@.len() == 512,
                k <= 32,
                forall|t: int| 0 <= t < 32 ==> buf@[t] == dot_bytes@[t],
                forall|t: int| 0 <= t < k ==> buf@[32 + t] == dotdot_bytes@[t],
                forall|t: int| 64 <= t < 512 ==> buf@[t] == 0,
            decreases 32 - k,
        {
            buf[32 + k] = dotdot_bytes[k];
            k = k + 1;
        }
        assert(buf@ =~= subdir_block(cluster, parent_cluster));
        let lba = self.cluster_to_lba(cluster);
        if lba < self.device.sector_total() {
            self.device.write_sector(lba, &buf);
            assert(self.disk() =~= mid.update(lba as int, buf@));
        }
        self.write_fat12_entry(cluster, 0xFFF);
        cluster
    }
}

/// How a directory listing shows an entry's name: the base name up to its
/// first space, then, when the extension has a byte other than a space, a
/// dot and the extension up to its first space.
pub open spec fn display_name(e: Entry) -> Seq<u8> {
    let base = e.name@.take(first_index(e.name@, 0x20));
    let ext = e.ext@.take(first_index(e.ext@, 0x20));
    if exists|i: int| 0 <= i < 3 && e.ext@[i] != 0x20 {
        base + seq![0x2Eu8] + ext
    } else {
        base
    }
}

/// The name of `e` as a directory listing shows it.
pub fn print_name(e: &Entry) -> (r: Vec<u8>)
    ensures
        r@ == display_name(*e),
{
    let mut out: Vec<u8> = Vec::new();
    let n = position(&e.name, 0x20);
    proof { lemma_first_index(e.name@, 0x20); }
    let mut i: usize = 0;
    while i < n
        invariant
            n == first_index(e.name@, 0x20),
            n <= 8,
            i <= n,
            out@ == e.name@.take(i as int),
        decreases n - i,
    {
        out.push(e.name[i]);
        i = i + 1;
        assert(out@ =~= e.name@.take(i as int));
    }
    let has_ext = e.ext[0] != 0x20 || e.ext[1] != 0x20 || e.ext[2] != 0x20;
    assert(has_ext == exists|i: int| 0 <= i < 3 && e.ext@[i] != 0x20) by {
        if has_ext {
            if e.ext@[0] != 0x20 { assert(e.ext@[0] != 0x20); }
            else if e.ext@[1] != 0x20 { assert(e.ext@[1] != 0x20); }
            else { assert(e.ext@[2] != 0x20); }
        }
    }
    if has_ext {
        out.push(0x2E);
        let m = position(&e.ext, 0x20);
        proof { lemma_first_index(e.ext@, 0x20); }
        let ghost head = out@;
        let mut k: usize = 0;
        while k < m
            invariant
                m == first_index(e.ext@, 0x20),
                m <= 3,
                k <= m,
                out@ == head + e.ext@.take(k as int),
            decreases m - k,
        {
            out.push(e.ext[k]);
            k = k + 1;
            assert(out@ =~= head + e.ext@.take(k as int));
        }
    }
    out
}

/// A slot that delete_file marks (first byte 0xE5) is no longer in use, so
/// a later insertion into the directory may take it.
pub proof fn lemma_deleted_slot_unused(disk: Seq<Seq<u8>>, pos: (int, int))
    requires
        0 <= pos.0 < disk.len(),
        0 <= pos.1 < disk[pos.0].len(),
    ensures
        !slot_in_use(put_bytes(disk, pos.0, pos.1, seq![0xE5u8]), pos),
{
}

/// A slot that rename_file rewrites carries the new base name, and is
/// found by a search for it.
pub proof fn lemma_renamed_slot_named(disk: Seq<Seq<u8>>, pos: (int, int), new11: Seq<u8>)
    requires
        0 <= pos.0 < disk.len(),
        0 <= pos.1,
        pos.1 + 11 <= disk[pos.0].len(),
        new11.len() == 11,
    ensures
        slot_base_is(put_bytes(disk, pos.0, pos.1, new11), pos, new11.subrange(0, 8)),
{
    assert(put_bytes(disk, pos.0, pos.1, new11)[pos.0].subrange(pos.1, pos.1 + 8) =~= new11.subrange(0, 8));
}

} // verus!
