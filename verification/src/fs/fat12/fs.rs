//! The FAT12 file system over a sector device.
use vstd::prelude::*;
use crate::fs::block::{BlockDevice, SECTOR_SIZE};
use super::entry::{BootSector, Entry, le16, le32, ATTR_DIRECTORY, ATTR_VOLUME_ID};
use super::table::{disk_of, fat_get, fat_set, fat_offset, fat_byte, fat12_decode, fat12_patch, fat_sector_of, fat_entry_in_one_sector, fat_entry_on_disk, free_list, lemma_fat_get_after_set, lemma_fat_get_frame, lemma_fat_sectors, lemma_fat_set_frame, lemma_free_list, lemma_mask12, lemma_next_free};

verus! {

/// The 5-byte label that marks a FAT12 boot sector.
pub open spec fn fat12_label() -> Seq<u8> {
    seq![0x46u8, 0x41u8, 0x54u8, 0x31u8, 0x32u8]
}

/// True when the boot sector `s` holds the label "FAT12" starting at some
/// offset below 507.
pub open spec fn has_fat12_label(s: Seq<u8>) -> bool {
    exists|i: int| 0 <= i < 507 && #[trigger] s.subrange(i, i + 5) == fat12_label()
}

/// Longest cluster chain followed: a FAT12 table has fewer entries, so only a
/// chain that runs in a cycle is cut short.
pub const CHAIN_LIMIT: u32 = 4096;

/// The disk after freeing the chain that starts at `cluster`: each entry
/// of the chain is set to 0, following at most `fuel` links.
pub open spec fn spec_free_chain(disk: Seq<Seq<u8>>, fat_start: int, cluster: u16, fuel: nat) -> Seq<Seq<u8>>
    decreases fuel,
{
    if fuel == 0 || cluster >= 0xFF8 {
        disk
    } else {
        spec_free_chain(
            fat_set(disk, fat_start, cluster, 0),
            fat_start,
            fat_get(disk, fat_start, cluster),
            (fuel - 1) as nat,
        )
    }
}

/// Number of clusters that write_file chains for a file of `len` bytes:
/// one per 512 bytes begun, and at least one.
pub open spec fn file_clusters(len: nat) -> nat {
    if len == 0 {
        1
    } else {
        ((len + 511) / 512) as nat
    }
}

/// Block `t` of `data`: its bytes from `t * 512`, at most 512 of them,
/// followed by zeros up to 512 bytes.
pub open spec fn data_block(data: Seq<u8>, t: int) -> Seq<u8> {
    let end = if data.len() < t * 512 + 512 { data.len() as int } else { t * 512 + 512 };
    let b = data.subrange(t * 512, end);
    b + Seq::new((512 - b.len()) as nat, |i: int| 0u8)
}

/// The table of `disk` links the clusters of `chain` in order, marks the
/// last one as the end of the chain (0xFFF), and holds the entries of
/// `base` for every other cluster below 0xFF8.
#[verifier::opaque]
pub open spec fn fat_links(disk: Seq<Seq<u8>>, fat_start: int, chain: Seq<u16>, base: Seq<Seq<u8>>) -> bool {
    &&& chain.len() > 0
    &&& forall|k: int| 0 <= k < chain.len() - 1 ==> fat_get(disk, fat_start, #[trigger] chain[k]) == chain[k + 1]
    &&& fat_get(disk, fat_start, chain.last()) == 0xFFF
    &&& forall|x: u16| x < 0xFF8 && !chain.contains(x)
        ==> #[trigger] fat_get(disk, fat_start, x) == fat_get(base, fat_start, x)
}

/// The links of a chain stay when the first twelve table sectors stay.
proof fn lemma_fat_links_frame(d1: Seq<Seq<u8>>, d2: Seq<Seq<u8>>, fat_start: int, chain: Seq<u16>, base: Seq<Seq<u8>>)
    requires
        fat_links(d1, fat_start, chain, base),
        forall|i: int| fat_start <= i < fat_start + 12 ==> #[trigger] d1[i] == d2[i],
        forall|k: int| 0 <= k < chain.len() ==> #[trigger] chain[k] < 0xFF8,
    ensures
        fat_links(d2, fat_start, chain, base),
{
    reveal(fat_links);
    assert forall|x: u16| x < 0xFF8 implies #[trigger] fat_get(d2, fat_start, x) == fat_get(d1, fat_start, x) by {
        lemma_fat_get_frame(d1, d2, fat_start, x);
    }
    assert(chain.last() == chain[chain.len() - 1]);
}

/// A chain whose last entry now points to `next`, a new cluster whose entry
/// is an end mark, every other entry as before, is linked one cluster further.
proof fn lemma_links_extend(d0: Seq<Seq<u8>>, d2: Seq<Seq<u8>>, fat_start: int, chain: Seq<u16>, base: Seq<Seq<u8>>, next: u16)
    requires
        fat_links(d0, fat_start, chain, base),
        next < 0xFF8,
        !chain.contains(next),
        forall|k: int| 0 <= k < chain.len() ==> #[trigger] chain[k] < 0xFF8,
        forall|i: int, j: int| 0 <= i < j < chain.len() ==> #[trigger] chain[i] != #[trigger] chain[j],
        fat_get(d2, fat_start, chain.last()) == next,
        fat_get(d2, fat_start, next) == 0xFFF,
        forall|x: u16| x < 0xFF8 && x != chain.last() && x != next
            ==> #[trigger] fat_get(d2, fat_start, x) == fat_get(d0, fat_start, x),
    ensures
        fat_links(d2, fat_start, chain.push(next), base),
{
    reveal(fat_links);
    let c2 = chain.push(next);
    let last = chain.len() - 1;
    assert(chain.last() == chain[last]);
    assert forall|k: int| 0 <= k < c2.len() - 1 implies fat_get(d2, fat_start, #[trigger] c2[k]) == c2[k + 1] by {
        if k < last {
            assert(chain[k] != chain[last]);
            assert(chain[k] != next) by {
                if chain[k] == next {
                    assert(chain.contains(next));
                }
            }
            assert(fat_get(d2, fat_start, chain[k]) == fat_get(d0, fat_start, chain[k]));
        }
    }
    assert forall|x: u16| x < 0xFF8 && !c2.contains(x)
        implies #[trigger] fat_get(d2, fat_start, x) == fat_get(base, fat_start, x) by {
        assert(x != next) by {
            if x == next {
                assert(c2[chain.len() as int] == next);
            }
        }
        assert(!chain.contains(x)) by {
            if chain.contains(x) {
                let j = choose|j: int| 0 <= j < chain.len() && chain[j] == x;
                assert(c2[j] == x);
            }
        }
        assert(x != chain.last());
    }
}

/// Setting the last entry of a linked chain to an end mark again keeps it linked.
proof fn lemma_links_end_again(d0: Seq<Seq<u8>>, d2: Seq<Seq<u8>>, fat_start: int, chain: Seq<u16>, base: Seq<Seq<u8>>)
    requires
        fat_links(d0, fat_start, chain, base),
        forall|i: int, j: int| 0 <= i < j < chain.len() ==> #[trigger] chain[i] != #[trigger] chain[j],
        fat_get(d2, fat_start, chain.last()) == 0xFFF,
        forall|x: u16| x < 0xFF8 && x != chain.last()
            ==> #[trigger] fat_get(d2, fat_start, x) == fat_get(d0, fat_start, x),
        forall|k: int| 0 <= k < chain.len() ==> #[trigger] chain[k] < 0xFF8,
    ensures
        fat_links(d2, fat_start, chain, base),
{
    reveal(fat_links);
    let last = chain.len() - 1;
    assert(chain.last() == chain[last]);
    assert forall|k: int| 0 <= k < chain.len() - 1 implies fat_get(d2, fat_start, #[trigger] chain[k]) == chain[k + 1] by {
        assert(chain[k] != chain[last]);
    }
    assert forall|x: u16| x < 0xFF8 && !chain.contains(x)
        implies #[trigger] fat_get(d2, fat_start, x) == fat_get(base, fat_start, x) by {
        assert(x != chain.last()) by {
            if x == chain.last() {
                assert(chain.contains(chain[last]));
            }
        }
    }
}

/// The lowest free cluster `r`, marked as the end of a chain, forms a chain
/// of one: the first of the free list.
proof fn lemma_links_first(mid: Seq<Seq<u8>>, d2: Seq<Seq<u8>>, fat_start: int, hi: int, r: u16)
    requires
        hi <= 0xFF8,
        2 <= r < hi,
        fat_get(mid, fat_start, r) == 0,
        forall|x: u16| 2 <= x < r ==> #[trigger] fat_get(mid, fat_start, x) != 0,
        fat_entry_in_one_sector(r),
        forall|x: u16| x < 0xFF8 ==> #[trigger] fat_entry_on_disk(mid, fat_start, x),
        d2 == fat_set(mid, fat_start, r, 0xFFF),
    ensures
        0 < free_list(mid, fat_start, hi).len(),
        free_list(mid, fat_start, hi)[0] == r,
        fat_links(d2, fat_start, free_list(mid, fat_start, hi).take(1), mid),
{
    reveal(fat_links);
    lemma_next_free(mid, mid, fat_start, hi, 0, r);
    lemma_fat_set_frame(mid, fat_start, r, 0xFFF);
    lemma_mask12(0xFFF);
    let ch = free_list(mid, fat_start, hi).take(1);
    assert(ch =~= seq![r]);
    assert forall|x: u16| x < 0xFF8 && !ch.contains(x)
        implies #[trigger] fat_get(d2, fat_start, x) == fat_get(mid, fat_start, x) by {
        if x == r {
            assert(ch[0] == x);
        }
    }
}

/// With the first `m` clusters of the free list of `mid` linked on `pre`
/// and no entry of 2..hi free on `pre`, the free list has no more clusters.
proof fn lemma_no_more_free(mid: Seq<Seq<u8>>, pre: Seq<Seq<u8>>, fat_start: int, hi: int, m: int)
    requires
        hi <= 0xFF8,
        1 <= m <= free_list(mid, fat_start, hi).len(),
        fat_links(pre, fat_start, free_list(mid, fat_start, hi).take(m), mid),
        forall|x: u16| 2 <= x < hi ==> #[trigger] fat_get(pre, fat_start, x) != 0,
    ensures
        free_list(mid, fat_start, hi).len() == m,
{
    let fl = free_list(mid, fat_start, hi);
    lemma_free_list(mid, fat_start, hi);
    if fl.len() > m {
        reveal(fat_links);
        let x = fl[m];
        assert(!fl.take(m).contains(x)) by {
            if fl.take(m).contains(x) {
                let j = choose|j: int| 0 <= j < m && fl.take(m)[j] == x;
                assert(fl[j] < fl[m]);
            }
        }
        assert(fat_get(pre, fat_start, x) == fat_get(mid, fat_start, x));
        assert(fat_get(pre, fat_start, x) != 0);
    }
}

/// The first `m` clusters of the free list of `mid` linked on `pre`, the
/// lowest free cluster `r` of `pre` is the next of the list.
proof fn lemma_next_free_after(mid: Seq<Seq<u8>>, pre: Seq<Seq<u8>>, fat_start: int, hi: int, m: int, r: u16)
    requires
        hi <= 0xFF8,
        1 <= m <= free_list(mid, fat_start, hi).len(),
        fat_links(pre, fat_start, free_list(mid, fat_start, hi).take(m), mid),
        2 <= r < hi,
        fat_get(pre, fat_start, r) == 0,
        forall|x: u16| 2 <= x < r ==> #[trigger] fat_get(pre, fat_start, x) != 0,
    ensures
        m < free_list(mid, fat_start, hi).len(),
        free_list(mid, fat_start, hi)[m] == r,
{
    let fl = free_list(mid, fat_start, hi);
    let ch = fl.take(m);
    reveal(fat_links);
    lemma_free_list(mid, fat_start, hi);
    assert(ch.last() == fl[m - 1]);
    assert forall|jj: int| 0 <= jj < m implies fat_get(pre, fat_start, #[trigger] fl[jj]) != 0 by {
        assert(ch[jj] == fl[jj]);
        if jj < m - 1 {
            assert(fat_get(pre, fat_start, ch[jj]) == ch[jj + 1]);
        } else {
            assert(fat_get(pre, fat_start, ch.last()) == 0xFFF);
        }
    }
    assert forall|x: u16| 2 <= x < hi && !fl.take(m).contains(x)
        implies #[trigger] fat_get(pre, fat_start, x) == fat_get(mid, fat_start, x) by {
    }
    lemma_next_free(pre, mid, fat_start, hi, m, r);
}

/// The first `m` clusters of the free list of `mid` linked on `pre`, the
/// lowest free cluster `r` of `pre` is the next of the list; marking it as
/// the end and pointing the last linked cluster to it links `m + 1`.
proof fn lemma_links_step(mid: Seq<Seq<u8>>, pre: Seq<Seq<u8>>, d2: Seq<Seq<u8>>, fat_start: int, hi: int, m: int, r: u16)
    requires
        hi <= 0xFF8,
        1 <= m <= free_list(mid, fat_start, hi).len(),
        fat_links(pre, fat_start, free_list(mid, fat_start, hi).take(m), mid),
        2 <= r < hi,
        fat_get(pre, fat_start, r) == 0,
        forall|x: u16| 2 <= x < r ==> #[trigger] fat_get(pre, fat_start, x) != 0,
        forall|x: u16| x < 0xFF8 ==> #[trigger] fat_entry_on_disk(pre, fat_start, x),
        forall|k: int| 0 <= k <= m && k < free_list(mid, fat_start, hi).len()
            ==> fat_entry_in_one_sector(#[trigger] free_list(mid, fat_start, hi)[k]),
        d2 == fat_set(fat_set(pre, fat_start, r, 0xFFF), fat_start, free_list(mid, fat_start, hi)[m - 1], r),
    ensures
        m < free_list(mid, fat_start, hi).len(),
        free_list(mid, fat_start, hi)[m] == r,
        fat_links(d2, fat_start, free_list(mid, fat_start, hi).take(m + 1), mid),
{
    let fl = free_list(mid, fat_start, hi);
    let ch = fl.take(m);
    lemma_free_list(mid, fat_start, hi);
    assert(ch.last() == fl[m - 1]);
    lemma_next_free_after(mid, pre, fat_start, hi, m, r);
    let cur = fl[m - 1];
    lemma_fat_set_frame(pre, fat_start, r, 0xFFF);
    let d_a = fat_set(pre, fat_start, r, 0xFFF);
    lemma_fat_set_frame(d_a, fat_start, cur, r);
    lemma_mask12(r);
    lemma_mask12(0xFFF);
    assert forall|kk: int| 0 <= kk < ch.len() implies #[trigger] ch[kk] < 0xFF8 by {
        assert(ch[kk] == fl[kk]);
    }
    assert forall|a: int, b: int| 0 <= a < b < ch.len() implies #[trigger] ch[a] != #[trigger] ch[b] by {
        assert(ch[a] == fl[a] && ch[b] == fl[b]);
        assert(fl[a] < fl[b]);
    }
    assert(!ch.contains(r)) by {
        if ch.contains(r) {
            let jj = choose|jj: int| 0 <= jj < ch.len() && ch[jj] == r;
            assert(ch[jj] == fl[jj]);
            assert(fl[jj] < fl[m]);
        }
    }
    assert(cur < r);
    lemma_links_extend(pre, d2, fat_start, ch, mid, r);
    assert(fl.take(m + 1) =~= ch.push(r));
}

/// Marking the last of the linked clusters as the end again keeps them linked.
proof fn lemma_links_close(mid: Seq<Seq<u8>>, pre: Seq<Seq<u8>>, d2: Seq<Seq<u8>>, fat_start: int, hi: int, m: int)
    requires
        hi <= 0xFF8,
        1 <= m <= free_list(mid, fat_start, hi).len(),
        fat_links(pre, fat_start, free_list(mid, fat_start, hi).take(m), mid),
        forall|x: u16| x < 0xFF8 ==> #[trigger] fat_entry_on_disk(pre, fat_start, x),
        fat_entry_in_one_sector(free_list(mid, fat_start, hi)[m - 1]),
        d2 == fat_set(pre, fat_start, free_list(mid, fat_start, hi)[m - 1], 0xFFF),
    ensures
        fat_links(d2, fat_start, free_list(mid, fat_start, hi).take(m), mid),
{
    let fl = free_list(mid, fat_start, hi);
    let ch = fl.take(m);
    lemma_free_list(mid, fat_start, hi);
    assert(ch.last() == fl[m - 1]);
    lemma_fat_set_frame(pre, fat_start, fl[m - 1], 0xFFF);
    lemma_mask12(0xFFF);
    assert forall|kk: int| 0 <= kk < ch.len() implies #[trigger] ch[kk] < 0xFF8 by {
        assert(ch[kk] == fl[kk]);
    }
    assert forall|a: int, b: int| 0 <= a < b < ch.len() implies #[trigger] ch[a] != #[trigger] ch[b] by {
        assert(ch[a] == fl[a] && ch[b] == fl[b]);
        assert(fl[a] < fl[b]);
    }
    lemma_links_end_again(pre, d2, fat_start, ch, mid);
}

/// Sector `s` of cluster `c`, in a data area that starts at sector
/// `data_start` with `spc` sectors per cluster (clusters start at 2).
pub open spec fn sector_of_cluster(data_start: int, spc: int, c: u16, s: int) -> int {
    data_start + (c - 2) * spc + s
}

/// For the first `done` clusters of `chain`, sector `s` of the `k`-th
/// holds block `k * spc + s` of `data`, wherever that block starts within
/// the data and the sector lies on the disk.
#[verifier::opaque]
pub open spec fn holds_data(disk: Seq<Seq<u8>>, data_start: int, spc: int, chain: Seq<u16>, done: int, data: Seq<u8>) -> bool {
    forall|k: int, s: int|
        0 <= k < done && 0 <= s < spc && (k * spc + s) * 512 < data.len()
            && 0 <= sector_of_cluster(data_start, spc, chain[k], s) < disk.len()
            ==> disk[#[trigger] sector_of_cluster(data_start, spc, chain[k], s)] == data_block(data, k * spc + s)
}

/// Sector `t` of cluster `c`, for every `t` below `upto`, holds block
/// `tb + t` of `data`, wherever that block starts within the data and the
/// sector lies on the disk.
#[verifier::opaque]
pub open spec fn cluster_holds(disk: Seq<Seq<u8>>, data_start: int, spc: int, c: u16, tb: int, upto: int, data: Seq<u8>) -> bool {
    forall|t: int|
        0 <= t < upto && (tb + t) * 512 < data.len() && 0 <= sector_of_cluster(data_start, spc, c, t) < disk.len()
            ==> disk[#[trigger] sector_of_cluster(data_start, spc, c, t)] == data_block(data, tb + t)
}

/// Sectors of data clusters lie in the data area, and two different
/// clusters share no sector.
proof fn lemma_sectors_apart(data_start: int, spc: int, c1: u16, s1: int, c2: u16, s2: int)
    requires
        2 <= c1,
        2 <= c2,
        0 <= s1 < spc,
        0 <= s2 < spc,
    ensures
        sector_of_cluster(data_start, spc, c1, s1) >= data_start,
        c1 != c2 ==> sector_of_cluster(data_start, spc, c1, s1) != sector_of_cluster(data_start, spc, c2, s2),
{
    let a = c1 as int - 2;
    let b = c2 as int - 2;
    assert(a * spc >= 0) by (nonlinear_arith)
        requires a >= 0, spc >= 0;
    assert(a != b ==> a * spc + s1 != b * spc + s2) by (nonlinear_arith)
        requires 0 <= s1 < spc, 0 <= s2 < spc;
}

/// A write to a sector of cluster `c`, which is none of the first `done`
/// clusters of `chain`, keeps what those clusters hold.
proof fn lemma_holds_data_write(disk: Seq<Seq<u8>>, data_start: int, spc: int, chain: Seq<u16>, done: int, data: Seq<u8>, c: u16, j: int, buf: Seq<u8>)
    requires
        holds_data(disk, data_start, spc, chain, done, data),
        0 <= sector_of_cluster(data_start, spc, c, j) < disk.len(),
        2 <= c,
        0 <= j < spc,
        forall|k: int| 0 <= k < done ==> 2 <= #[trigger] chain[k] && chain[k] != c,
    ensures
        holds_data(disk.update(sector_of_cluster(data_start, spc, c, j), buf), data_start, spc, chain, done, data),
{
    reveal(holds_data);
    let d2 = disk.update(sector_of_cluster(data_start, spc, c, j), buf);
    assert forall|k: int, s: int|
        0 <= k < done && 0 <= s < spc && (k * spc + s) * 512 < data.len()
            && 0 <= sector_of_cluster(data_start, spc, chain[k], s) < d2.len()
        implies d2[#[trigger] sector_of_cluster(data_start, spc, chain[k], s)] == data_block(data, k * spc + s) by {
        lemma_sectors_apart(data_start, spc, chain[k], s, c, j);
    }
}

/// A write to a sector before the data area keeps what the clusters of
/// `chain` hold.
proof fn lemma_holds_data_low_write(disk: Seq<Seq<u8>>, data_start: int, spc: int, chain: Seq<u16>, done: int, data: Seq<u8>, lba: int, buf: Seq<u8>)
    requires
        holds_data(disk, data_start, spc, chain, done, data),
        0 <= lba < data_start,
        lba < disk.len(),
        forall|k: int| 0 <= k < done ==> 2 <= #[trigger] chain[k],
    ensures
        holds_data(disk.update(lba, buf), data_start, spc, chain, done, data),
{
    reveal(holds_data);
    let d2 = disk.update(lba, buf);
    assert forall|k: int, s: int|
        0 <= k < done && 0 <= s < spc && (k * spc + s) * 512 < data.len()
            && 0 <= sector_of_cluster(data_start, spc, chain[k], s) < d2.len()
        implies d2[#[trigger] sector_of_cluster(data_start, spc, chain[k], s)] == data_block(data, k * spc + s) by {
        lemma_sectors_apart(data_start, spc, chain[k], s, chain[k], s);
    }
}

/// Writing block `tb + j` to sector `j` of `c` extends what `c` holds by one sector.
proof fn lemma_cluster_holds_write(disk: Seq<Seq<u8>>, data_start: int, spc: int, c: u16, tb: int, j: int, data: Seq<u8>, buf: Seq<u8>)
    requires
        cluster_holds(disk, data_start, spc, c, tb, j, data),
        0 <= j,
        0 <= sector_of_cluster(data_start, spc, c, j) < disk.len(),
        buf == data_block(data, tb + j),
    ensures
        cluster_holds(disk.update(sector_of_cluster(data_start, spc, c, j), buf), data_start, spc, c, tb, j + 1, data),
{
    reveal(cluster_holds);
}

/// A sector past the disk, or sectors past the data, need no write.
proof fn lemma_cluster_holds_skip(disk: Seq<Seq<u8>>, data_start: int, spc: int, c: u16, tb: int, j: int, upto: int, data: Seq<u8>)
    requires
        cluster_holds(disk, data_start, spc, c, tb, j, data),
        j <= upto,
        (tb + j) * 512 >= data.len() || (upto == j + 1 && sector_of_cluster(data_start, spc, c, j) >= disk.len()),
    ensures
        cluster_holds(disk, data_start, spc, c, tb, upto, data),
{
    reveal(cluster_holds);
}

/// The clusters of `chain` hold their data up to the `m - 1`-th, and that
/// one holds its blocks: the first `m` hold theirs.
proof fn lemma_holds_data_extend(disk: Seq<Seq<u8>>, data_start: int, spc: int, chain: Seq<u16>, m: int, data: Seq<u8>)
    requires
        1 <= m,
        holds_data(disk, data_start, spc, chain, m - 1, data),
        cluster_holds(disk, data_start, spc, chain[m - 1], (m - 1) * spc, spc, data),
    ensures
        holds_data(disk, data_start, spc, chain, m, data),
{
    reveal(holds_data);
    reveal(cluster_holds);
    assert forall|k: int, s: int|
        0 <= k < m && 0 <= s < spc && (k * spc + s) * 512 < data.len()
            && 0 <= sector_of_cluster(data_start, spc, chain[k], s) < disk.len()
        implies disk[#[trigger] sector_of_cluster(data_start, spc, chain[k], s)] == data_block(data, k * spc + s) by {
        if k == m - 1 {
            assert(sector_of_cluster(data_start, spc, chain[m - 1], s) == sector_of_cluster(data_start, spc, chain[k], s));
        }
    }
}

/// What the first `n` clusters of `fl` hold is what its first `n` hold.
proof fn lemma_holds_data_take(disk: Seq<Seq<u8>>, data_start: int, spc: int, fl: Seq<u16>, n: int, data: Seq<u8>)
    requires
        0 <= n <= fl.len(),
        holds_data(disk, data_start, spc, fl, n, data),
    ensures
        holds_data(disk, data_start, spc, fl.take(n), n, data),
{
    reveal(holds_data);
    assert forall|k: int, s: int|
        0 <= k < n && 0 <= s < spc && (k * spc + s) * 512 < data.len()
            && 0 <= sector_of_cluster(data_start, spc, fl.take(n)[k], s) < disk.len()
        implies disk[#[trigger] sector_of_cluster(data_start, spc, fl.take(n)[k], s)] == data_block(data, k * spc + s) by {
        assert(fl.take(n)[k] == fl[k]);
    }
}

/// True when the chain from `cluster` stays in the data area of a disk of
/// `count` sectors until it reaches an end mark, within `fuel` links.
pub open spec fn chain_in_data<D: BlockDevice>(fs: &Fs<D>, cluster: u16, fuel: nat) -> bool
    decreases fuel,
{
    &&& 2 <= cluster
    &&& fs.spec_cluster_lba(cluster) < fs.device.sector_count()
    &&& fs.fat_entry_readable(cluster)
    &&& (fuel > 0 && fs.fat_entry(cluster) < 0xFF8 ==> chain_in_data(fs, fs.fat_entry(cluster), (fuel - 1) as nat))
}

/// The last cluster of the chain from `cluster`, following at most `fuel` links.
pub open spec fn chain_last<D: BlockDevice>(fs: &Fs<D>, cluster: u16, fuel: nat) -> u16
    decreases fuel,
{
    if fuel > 0 && fs.fat_entry(cluster) < 0xFF8 {
        chain_last(fs, fs.fat_entry(cluster), (fuel - 1) as nat)
    } else {
        cluster
    }
}

/// The sector `sec` after writing a file entry at byte `off`: the 8.3
/// name, the attribute of a normal file (0x20), the first cluster and the
/// size; the other bytes of the slot keep their values.
pub open spec fn entry_patch(sec: Seq<u8>, off: int, name: Seq<u8>, cluster: u16, size: u32) -> Seq<u8> {
    Seq::new(
        sec.len(),
        |i: int|
            if off <= i < off + 11 {
                name[i - off]
            } else if i == off + 11 {
                0x20u8
            } else if i == off + 26 {
                (cluster % 256) as u8
            } else if i == off + 27 {
                (cluster / 256) as u8
            } else if i == off + 28 {
                (size % 256) as u8
            } else if i == off + 29 {
                ((size / 256) % 256) as u8
            } else if i == off + 30 {
                ((size / 65536) % 256) as u8
            } else if i == off + 31 {
                (size / 16777216) as u8
            } else {
                sec[i]
            },
    )
}

/// Number of sectors of a subdirectory that are visited: one per link of
/// its chain, at most `n`.
pub open spec fn chain_sectors<D: BlockDevice>(fs: &Fs<D>, cluster: u16, n: nat) -> nat
    decreases n,
{
    if n == 0 {
        0
    } else if fs.fat_entry(cluster) >= 0xFF8 {
        1
    } else {
        1 + chain_sectors(fs, fs.fat_entry(cluster), (n - 1) as nat)
    }
}

/// The entry of a directory listing is shown: it is in use, is not a
/// volume label and does not carry the name looked for.
pub open spec fn entry_shown(e: Entry, entry_name: Seq<u8>) -> bool {
    &&& e.name@[0] != 0x00
    &&& e.name@[0] != 0xE5
    &&& e.attr & ATTR_VOLUME_ID == 0
    &&& e.name@ != entry_name.subrange(0, 8)
    &&& entry_name[0] == 0x20
}

/// The status of a listing after the entries `es`: -1 once an entry
/// marks the end of the directory, the first cluster of an entry named
/// `entry_name`, the later of the two when both occur, and 0 otherwise.
pub open spec fn list_status(es: Seq<Entry>, entry_name: Seq<u8>) -> int
    decreases es.len(),
{
    if es.len() == 0 {
        0
    } else {
        let e = es.last();
        let prev = list_status(es.drop_last(), entry_name);
        if e.name@[0] == 0x00 {
            -1
        } else if e.name@[0] == 0xE5 || e.attr & ATTR_VOLUME_ID != 0 {
            prev
        } else if e.name@ == entry_name.subrange(0, 8) {
            e.start_cluster as int
        } else {
            prev
        }
    }
}

/// The entries of `es` that a listing shows, in order.
pub open spec fn shown_entries(es: Seq<Entry>, entry_name: Seq<u8>) -> Seq<Entry>
    decreases es.len(),
{
    if es.len() == 0 {
        Seq::empty()
    } else {
        let prev = shown_entries(es.drop_last(), entry_name);
        if entry_shown(es.last(), entry_name) {
            prev.push(es.last())
        } else {
            prev
        }
    }
}

/// A directory listing shows the entry: its slot is in use (its first
/// byte is neither 0x00, 0xE5 nor 0xFF).
pub open spec fn in_listing(e: Entry) -> bool {
    e.name@[0] != 0x00 && e.name@[0] != 0xE5 && e.name@[0] != 0xFF
}

/// The entries of `es` that a directory listing shows, in order.
pub open spec fn listing(es: Seq<Entry>) -> Seq<Entry>
    decreases es.len(),
{
    if es.len() == 0 {
        Seq::empty()
    } else {
        let prev = listing(es.drop_last());
        if in_listing(es.last()) {
            prev.push(es.last())
        } else {
            prev
        }
    }
}

/// The entries of `es` that a directory listing shows, in order.
pub fn listing_entries(es: &[Entry]) -> (r: Vec<Entry>)
    ensures
        r@ == listing(es@),
{
    let mut out: Vec<Entry> = Vec::new();
    let mut i: usize = 0;
    while i < es.len()
        invariant
            i <= es@.len(),
            out@ == listing(es@.take(i as int)),
        decreases es@.len() - i,
    {
        let e = es[i];
        assert(es@.take(i + 1).drop_last() =~= es@.take(i as int));
        assert(es@.take(i + 1).last() == e);
        if e.name[0] != 0x00 && e.name[0] != 0xE5 && e.name[0] != 0xFF {
            out.push(e);
        }
        i = i + 1;
    }
    assert(es@.take(es@.len() as int) =~= es@);
    out
}

/// How a write of a file ended.
#[derive(PartialEq, Eq, Structural, Clone, Copy)]
pub enum WriteStatus {
    /// The data and the directory entry were written; the file starts at this cluster.
    Written(u16),
    /// No cluster was free for the first cluster of the file.
    DiskFull,
    /// The disk filled up after some clusters were written.
    DiskFullMidWrite,
    /// The data was written but the directory had no unused slot.
    NoDirSlot,
}

/// Searches the boot sector for the "FAT12" label.
fn contains_fat12_label(sector: &[u8; 512]) -> (r: bool)
    ensures
        r == has_fat12_label(sector@),
{
    let mut i: usize = 0;
    while i < 512 - 5
        invariant
            0 <= i <= 507,
            forall|k: int| 0 <= k < i ==> #[trigger] sector@.subrange(k, k + 5) != fat12_label(),
        decreases 507 - i,
    {
        if sector[i] == 0x46 && sector[i + 1] == 0x41 && sector[i + 2] == 0x54 && sector[i + 3]
            == 0x31 && sector[i + 4] == 0x32 {
            assert(sector@.subrange(i as int, i + 5) =~= fat12_label());
            return true;
        }
        assert(sector@.subrange(i as int, i + 5)[0] == sector@[i as int]);
        assert(sector@.subrange(i as int, i + 5)[1] == sector@[i + 1]);
        assert(sector@.subrange(i as int, i + 5)[2] == sector@[i + 2]);
        assert(sector@.subrange(i as int, i + 5)[3] == sector@[i + 3]);
        assert(sector@.subrange(i as int, i + 5)[4] == sector@[i + 4]);
        i = i + 1;
    }
    false
}

/// Fs is the file system abstraction for FAT12 devices.
pub struct Fs<D: BlockDevice> {
    pub device: D,
    pub boot_sector: BootSector,
    pub fat_start_lba: u64,
    pub root_dir_start_lba: u64,
    pub data_start_lba: u64,
    pub sectors_per_cluster: u8,
}

impl<D: BlockDevice> Fs<D> {
    /// The layout fields follow from the boot sector: the table starts after
    /// the reserved sectors, the root directory after the tables, and the
    /// data area after the root directory.
    pub open spec fn wf(&self) -> bool {
        let bs = self.boot_sector;
        &&& self.fat_start_lba == bs.reserved_sectors
        &&& self.root_dir_start_lba == bs.reserved_sectors + bs.fat_count * bs.fat_size_16
        &&& self.data_start_lba == self.root_dir_start_lba + (bs.root_entry_count * 32 + 511) / 512
        &&& self.sectors_per_cluster == bs.sectors_per_cluster
    }

    /// The sectors of the underlying device.
    pub open spec fn disk(&self) -> Seq<Seq<u8>> {
        disk_of(&self.device)
    }

    /// The table entry of `cluster` on the current disk.
    pub open spec fn fat_entry(&self, cluster: u16) -> u16 {
        fat_get(self.disk(), self.fat_start_lba as int, cluster)
    }

    /// LBA of the first sector of data cluster `cluster` (clusters start at 2).
    pub open spec fn spec_cluster_lba(&self, cluster: u16) -> int {
        self.data_start_lba + (cluster - 2) * self.sectors_per_cluster
    }

    /// The layout of `other` equals that of `self`.
    pub open spec fn same_layout(&self, other: &Self) -> bool {
        &&& self.boot_sector == other.boot_sector
        &&& self.fat_start_lba == other.fat_start_lba
        &&& self.root_dir_start_lba == other.root_dir_start_lba
        &&& self.data_start_lba == other.data_start_lba
        &&& self.sectors_per_cluster == other.sectors_per_cluster
        &&& self.device.sector_count() == other.device.sector_count()
    }

    /// Reads the boot sector of `device`, checks for the FAT12 label and
    /// computes where the tables, the root directory and the data area lie.
    pub fn new(device: D) -> (r: Result<Self, &'static str>)
        requires
            device.sector_count() > 0,
        ensures
            r is Ok <==> has_fat12_label(device.sector(0)),
            r matches Ok(fs) ==> {
                &&& fs.wf()
                &&& fs.device == device
                &&& fs.boot_sector.parsed_from(device.sector(0))
            },
    {
        let mut sector = [0u8; 512];
        device.read_sector(0, &mut sector);
        let found_fat = contains_fat12_label(&sector);
        if !found_fat {
            return Err("Could not find the FAT12 label, floppy may not be present");
        }
        let boot_sector = BootSector::parse(&sector);
        let fat_start = boot_sector.reserved_sectors as u64;
        let root_dir_sectors = ((boot_sector.root_entry_count as u32 * 32) + 511) / 512;
        let fc = boot_sector.fat_count as u64;
        let fsz = boot_sector.fat_size_16 as u64;
        assert(fc * fsz <= 255 * 65535) by (nonlinear_arith)
            requires fc <= 255, fsz <= 65535;
        let root_dir_start = fat_start + fc * fsz;
        let data_start = root_dir_start + root_dir_sectors as u64;
        Ok(
            Self {
                device,
                boot_sector,
                fat_start_lba: fat_start,
                root_dir_start_lba: root_dir_start,
                data_start_lba: data_start,
                sectors_per_cluster: boot_sector.sectors_per_cluster,
            },
        )
    }

    pub(crate) proof fn lemma_layout_bounds(&self)
        requires
            self.wf(),
        ensures
            self.fat_start_lba <= 0xFFFF,
            self.root_dir_start_lba <= 0x100_0000,
            self.data_start_lba <= 0x101_0000,
    {
        let bs = self.boot_sector;
        assert(bs.fat_count * bs.fat_size_16 <= 255 * 65535) by (nonlinear_arith)
            requires bs.fat_count <= 255, bs.fat_size_16 <= 65535;
    }

    /// cluster_to_lba takes in a cluster number and returns its LBA address.
    pub(crate) fn cluster_to_lba(&self, cluster: u16) -> (r: u64)
        requires
            self.wf(),
            cluster >= 2,
        ensures
            r == self.spec_cluster_lba(cluster),
            r <= 0x200_0000,
    {
        proof {
            self.lemma_layout_bounds();
            assert((cluster - 2) * self.sectors_per_cluster <= 65535 * 255) by (nonlinear_arith)
                requires cluster - 2 <= 65535, self.sectors_per_cluster <= 255;
        }
        self.data_start_lba + ((cluster as u64 - 2) * self.sectors_per_cluster as u64)
    }

    /// True when both bytes of the table entry of `cluster` lie on the device.
    pub open spec fn fat_entry_readable(&self, cluster: u16) -> bool {
        self.fat_start_lba + (fat_offset(cluster) + 1) / 512 < self.device.sector_count()
    }

    /// read_fat12_entry reads the table entry of `cluster`: the next
    /// cluster of its chain, a free mark (0) or an end mark (0xFF8 and up).
    pub fn read_fat12_entry(&self, cluster: u16) -> (r: u16)
        requires
            self.wf(),
            self.fat_entry_readable(cluster),
        ensures
            r == self.fat_entry(cluster),
    {
        proof { self.lemma_layout_bounds(); }
        let fat_offset = (cluster as usize * 3) / 2;
        let sector = (fat_offset / 512) as u64;
        let offset_in_sector = fat_offset % 512;
        let mut fat_sector = [0u8; 512];
        self.device.read_sector(self.fat_start_lba + sector, &mut fat_sector);
        let next_byte = if offset_in_sector == 511 {
            let mut next_sector = [0u8; 512];
            self.device.read_sector(self.fat_start_lba + sector + 1, &mut next_sector);
            next_sector[0]
        } else {
            fat_sector[offset_in_sector + 1]
        };
        let ghost off = fat_offset as int;
        assert(fat_byte(self.disk(), self.fat_start_lba as int, off) == fat_sector[offset_in_sector as int]);
        assert(fat_byte(self.disk(), self.fat_start_lba as int, off + 1) == next_byte);
        let entry: u16;
        if cluster & 1 == 0 {
            entry = ((next_byte as u16 & 0x0F) << 8) | (fat_sector[offset_in_sector] as u16);
        } else {
            entry = ((next_byte as u16) << 4) | ((fat_sector[offset_in_sector] as u16 & 0xF0) >> 4);
        }
        entry & 0x0FFF
    }

    /// write_fat12_entry stores `value` in the table entry of `cluster`; the
    /// sector that holds the entry's first byte is read, patched and written back.
    pub fn write_fat12_entry(&mut self, cluster: u16, value: u16)
        requires
            old(self).wf(),
            fat_sector_of(old(self).fat_start_lba as int, cluster) < old(self).device.sector_count(),
        ensures
            final(self).wf(),
            final(self).same_layout(old(self)),
            final(self).disk() == fat_set(old(self).disk(), old(self).fat_start_lba as int, cluster, value),
            fat_entry_in_one_sector(cluster) ==> final(self).fat_entry(cluster) == value & 0x0FFF,
    {
        proof { self.lemma_layout_bounds(); }
        let fat_offset = (cluster as usize * 3) / 2;
        let fat_sector = self.fat_start_lba + (fat_offset / 512) as u64;
        let mut buf = [0u8; 512];
        self.device.read_sector(fat_sector, &mut buf);
        let ghost sec = buf@;
        let o = fat_offset % 512;
        let o1 = (fat_offset + 1) % 512;
        if cluster & 1 == 0 {
            buf[o] = (value & 0xFF) as u8;
            buf[o1] = (buf[o1] & 0xF0) | ((value >> 8) as u8 & 0x0F);
        } else {
            buf[o] = (buf[o] & 0x0F) | ((value << 4) as u8 & 0xF0);
            buf[o1] = ((value >> 4) & 0xFF) as u8;
        }
        assert(buf@ == fat12_patch(sec, cluster, value));
        self.device.write_sector(fat_sector, &buf);
        assert(self.disk() =~= fat_set(old(self).disk(), old(self).fat_start_lba as int, cluster, value));
        proof {
            if fat_entry_in_one_sector(cluster) {
                assert(old(self).disk()[fat_sector as int] == sec);
                lemma_fat_get_after_set(old(self).disk(), old(self).fat_start_lba as int, cluster, value, cluster);
            }
        }
    }

    /// True when the table lies on the device: every entry of a cluster below
    /// 0xFF8 can be read and written.
    pub open spec fn fat_on_device(&self) -> bool {
        self.fat_start_lba + 12 <= self.device.sector_count()
    }

    /// True when `cluster` is the lowest cluster in 2..total_sectors_16 whose
    /// table entry is free.
    pub open spec fn is_first_free_cluster(&self, cluster: u16) -> bool {
        &&& 2 <= cluster < self.boot_sector.total_sectors_16
        &&& self.fat_entry(cluster) == 0
        &&& forall|c: u16| 2 <= c < cluster ==> #[trigger] self.fat_entry(c) != 0
    }

    /// Looks for a free cluster to write new data to, marks it as the end of
    /// a chain (0xFFF) and returns it; 0 when none is free.
    pub(crate) fn allocate_cluster(&mut self) -> (r: u16)
        requires
            old(self).wf(),
            old(self).fat_start_lba + old(self).sectors_per_cluster <= old(self).device.sector_count(),
            forall|c: u16| c < old(self).boot_sector.total_sectors_16 ==> #[trigger] old(self).fat_entry_readable(c),
        ensures
            final(self).wf(),
            final(self).same_layout(old(self)),
            r == 0 ==> final(self).disk() == old(self).disk() && (old(self).sectors_per_cluster == 0
                || forall|c: u16| 2 <= c < old(self).boot_sector.total_sectors_16 ==> #[trigger] old(self).fat_entry(c) != 0),
            r != 0 ==> {
                &&& old(self).sectors_per_cluster > 0
                &&& old(self).is_first_free_cluster(r)
                &&& final(self).disk() == fat_set(old(self).disk(), old(self).fat_start_lba as int, r, 0xFFF)
            },
    {
        let mut buf = [0u8; 512];
        let spc = self.boot_sector.sectors_per_cluster as u64;
        let total = self.boot_sector.total_sectors_16;
        let mut fat_index: u64 = 0;
        while fat_index < spc
            invariant
                self.wf(),
                self == old(self),
                forall|c: u16| c < self.boot_sector.total_sectors_16 ==> #[trigger] self.fat_entry_readable(c),
                spc == self.sectors_per_cluster,
                total == self.boot_sector.total_sectors_16,
                self.fat_start_lba + spc <= self.device.sector_count(),
                buf@.len() == 512,
                fat_index <= spc,
                fat_index > 0 ==> forall|c: u16| 2 <= c < total ==> #[trigger] self.fat_entry(c) != 0,
            decreases spc - fat_index,
        {
            self.device.read_sector(self.fat_start_lba + fat_index, &mut buf);
            let mut cluster: u16 = 2;
            while cluster < total
                invariant
                    self.wf(),
                    self == old(self),
                    forall|c: u16| c < self.boot_sector.total_sectors_16 ==> #[trigger] self.fat_entry_readable(c),
                    fat_index < spc,
                    spc == self.sectors_per_cluster,
                    total == self.boot_sector.total_sectors_16,
                    2 <= cluster,
                    cluster <= total || total < 2,
                    forall|c: u16| 2 <= c < cluster ==> #[trigger] self.fat_entry(c) != 0,
                decreases total - cluster,
            {
                let value = self.read_fat12_entry(cluster);
                if value == 0x000 {
                    proof {
                        assert(self.is_first_free_cluster(cluster));
                        assert(self.fat_entry_readable(cluster));
                    }
                    self.write_fat12_entry(cluster, 0xFFF);
                    return cluster;
                }
                cluster = cluster + 1;
            }
            fat_index = fat_index + 1;
        }
        0
    }

    /// Frees every cluster of the chain that starts at `cluster`, following
    /// at most CHAIN_LIMIT links.
    fn free_cluster_chain(&mut self, start: u16)
        requires
            old(self).wf(),
            old(self).fat_on_device(),
        ensures
            final(self).wf(),
            final(self).same_layout(old(self)),
            final(self).disk() == spec_free_chain(old(self).disk(), old(self).fat_start_lba as int, start, CHAIN_LIMIT as nat),
    {
        let mut cluster = start;
        let mut fuel: u32 = CHAIN_LIMIT;
        while fuel > 0 && cluster < 0xFF8
            invariant
                self.wf(),
                self.fat_on_device(),
                self.same_layout(old(self)),
                spec_free_chain(self.disk(), self.fat_start_lba as int, cluster, fuel as nat)
                    == spec_free_chain(old(self).disk(), old(self).fat_start_lba as int, start, CHAIN_LIMIT as nat),
            decreases fuel,
        {
            let next = self.read_fat12_entry(cluster);
            self.write_fat12_entry(cluster, 0x000);
            cluster = next;
            fuel = fuel - 1;
        }
    }

    /// read_file loads the sector data into the buffer provided: the first
    /// sector of each cluster of the chain is read in turn into `sector_buf`,
    /// so the buffer ends up holding that of the last cluster.
    pub fn read_file(&self, start_cluster: u16, sector_buf: &mut [u8; 512])
        requires
            self.wf(),
            chain_in_data(self, start_cluster, (CHAIN_LIMIT - 1) as nat),
            old(sector_buf)@.len() == 512,
        ensures
            final(sector_buf)@ == self.disk()[self.spec_cluster_lba(chain_last(self, start_cluster, (CHAIN_LIMIT - 1) as nat))],
    {
        let mut current_cluster = start_cluster;
        let mut fuel: u32 = CHAIN_LIMIT - 1;
        loop
            invariant
                self.wf(),
                fuel < CHAIN_LIMIT,
                chain_in_data(self, current_cluster, fuel as nat),
                chain_last(self, current_cluster, fuel as nat) == chain_last(self, start_cluster, (CHAIN_LIMIT - 1) as nat),
            decreases fuel,
        {
            let lba = self.cluster_to_lba(current_cluster);
            self.device.read_sector(lba, sector_buf);
            let next = self.read_fat12_entry(current_cluster);
            if next >= 0xFF8 || fuel == 0 {
                return;
            }
            current_cluster = next;
            fuel = fuel - 1;
        }
    }

    /// Whether the chain from `start_cluster` stays in the data area of the
    /// device as far as read_file follows it.
    pub fn chain_ok(&self, start_cluster: u16) -> (r: bool)
        requires
            self.wf(),
        ensures
            r == chain_in_data(self, start_cluster, (CHAIN_LIMIT - 1) as nat),
    {
        proof { self.lemma_layout_bounds(); }
        let count = self.device.sector_total();
        let mut c = start_cluster;
        let mut fuel: u32 = CHAIN_LIMIT - 1;
        loop
            invariant
                self.wf(),
                count == self.device.sector_count(),
                fuel < CHAIN_LIMIT,
                chain_in_data(self, c, fuel as nat) == chain_in_data(self, start_cluster, (CHAIN_LIMIT - 1) as nat),
            decreases fuel,
        {
            if c < 2 {
                return false;
            }
            let lba = self.cluster_to_lba(c);
            if lba >= count {
                return false;
            }
            let fat_off = (c as u64 * 3) / 2;
            if self.fat_start_lba + (fat_off + 1) / 512 >= count {
                return false;
            }
            let next = self.read_fat12_entry(c);
            if next >= 0xFF8 || fuel == 0 {
                return true;
            }
            c = next;
            fuel = fuel - 1;
        }
    }

    /// Compares the 8-byte base name of `entry` with the first 8 bytes of `entry_name`.
    fn check_filename(&self, entry: &Entry, entry_name: &[u8; 11]) -> (r: bool)
        ensures
            r == (entry.name@ == entry_name@.subrange(0, 8)),
    {
        let mut i: usize = 0;
        while i < 8
            invariant
                0 <= i <= 8,
                forall|j: int| 0 <= j < i ==> entry.name@[j] == entry_name@[j],
            decreases 8 - i,
        {
            if entry.name[i] != entry_name[i] {
                return false;
            }
            i = i + 1;
        }
        assert(entry.name@ =~= entry_name@.subrange(0, 8));
        true
    }

    /// First sector of the directory `dir_cluster` (0 is the root directory).
    pub open spec fn dir_start(&self, dir_cluster: u16) -> int {
        if dir_cluster == 0 {
            self.root_dir_start_lba as int
        } else {
            self.spec_cluster_lba(dir_cluster)
        }
    }

    /// The sectors scanned in a directory: `sectors_per_cluster` of them from its start.
    pub open spec fn dir_on_device(&self, dir_cluster: u16) -> bool {
        &&& dir_cluster != 1
        &&& self.dir_start(dir_cluster) + self.sectors_per_cluster <= self.device.sector_count()
    }

    /// The 32 bytes of directory slot `p` (16 slots per sector).
    pub open spec fn slot_bytes(&self, dir_cluster: u16, p: int) -> Seq<u8> {
        self.disk()[self.dir_start(dir_cluster) + p / 16].subrange((p % 16) * 32, (p % 16) * 32 + 32)
    }

    /// Slot `p` holds the 8.3 name `name`.
    pub open spec fn slot_named(&self, dir_cluster: u16, p: int, name: Seq<u8>) -> bool {
        self.slot_bytes(dir_cluster, p).subrange(0, 11) == name
    }

    /// Slot `p` is unused (never used, or deleted).
    pub open spec fn slot_free(&self, dir_cluster: u16, p: int) -> bool {
        self.slot_bytes(dir_cluster, p)[0] == 0x00 || self.slot_bytes(dir_cluster, p)[0] == 0xE5
    }

    /// Looks for the directory slot named `filename`; returns its sector, its
    /// byte offset in the sector and its 32 bytes, for the first such slot.
    fn find_dir_entry_mut(&self, dir_cluster: u16, filename: &[u8; 11]) -> (r: Option<(u64, usize, [u8; 32])>)
        requires
            self.wf(),
            self.dir_on_device(dir_cluster),
        ensures
            r is None ==> forall|p: int| 0 <= p < self.sectors_per_cluster * 16 ==> !#[trigger] self.slot_named(dir_cluster, p, filename@),
            r matches Some((lba, off, bytes)) ==> {
                let p = (lba - self.dir_start(dir_cluster)) * 16 + off / 32;
                &&& off % 32 == 0 && off < 512
                &&& lba >= self.dir_start(dir_cluster)
                &&& 0 <= p < self.sectors_per_cluster * 16
                &&& self.slot_named(dir_cluster, p, filename@)
                &&& bytes@ == self.slot_bytes(dir_cluster, p)
                &&& forall|q: int| 0 <= q < p ==> !#[trigger] self.slot_named(dir_cluster, q, filename@)
            },
    {
        proof { self.lemma_layout_bounds(); }
        let mut sector = [0u8; 512];
        let start_lba = if dir_cluster == 0 { self.root_dir_start_lba } else { self.cluster_to_lba(dir_cluster) };
        let sector_count = self.boot_sector.sectors_per_cluster as usize;
        let mut sector_index: usize = 0;
        while sector_index < sector_count
            invariant
                self.wf(),
                self.dir_on_device(dir_cluster),
                start_lba == self.dir_start(dir_cluster),
                start_lba <= 0x200_0000,
                sector_count == self.sectors_per_cluster,
                sector_index <= sector_count,
                sector@.len() == 512,
                forall|q: int| 0 <= q < sector_index * 16 ==> !#[trigger] self.slot_named(dir_cluster, q, filename@),
            decreases sector_count - sector_index,
        {
            self.device.read_sector(start_lba + sector_index as u64, &mut sector);
            let mut i: usize = 0;
            while i < 16
                invariant
                    self.wf(),
                    start_lba == self.dir_start(dir_cluster),
                    start_lba <= 0x200_0000,
                    sector_count == self.sectors_per_cluster,
                    sector_index < sector_count,
                    sector@ == self.disk()[start_lba + sector_index],
                    i <= 16,
                    forall|q: int| 0 <= q < sector_index * 16 + i ==> !#[trigger] self.slot_named(dir_cluster, q, filename@),
                decreases 16 - i,
            {
                let offset = i * 32;
                let ghost p = sector_index * 16 + i;
                assert(p / 16 == sector_index && p % 16 == i);
                let mut k: usize = 0;
                let mut same = true;
                while k < 11
                    invariant
                        offset == i * 32, i < 16,
                        sector@.len() == 512,
                        k <= 11,
                        same == forall|j: int| 0 <= j < k ==> sector@[offset + j] == filename@[j],
                    decreases 11 - k,
                {
                    if sector[offset + k] != filename[k] {
                        same = false;
                    }
                    k = k + 1;
                }
                assert(self.slot_bytes(dir_cluster, p) =~= sector@.subrange(offset as int, offset + 32));
                if same {
                    assert(self.slot_bytes(dir_cluster, p).subrange(0, 11) =~= filename@);
                    let mut entry_buf = [0u8; 32];
                    let mut j: usize = 0;
                    while j < 32
                        invariant
                            offset == i * 32, i < 16,
                            sector@.len() == 512,
                            j <= 32,
                            forall|t: int| 0 <= t < j ==> entry_buf@[t] == sector@[offset + t],
                        decreases 32 - j,
                    {
                        entry_buf[j] = sector[offset + j];
                        j = j + 1;
                    }
                    assert(entry_buf@ =~= sector@.subrange(offset as int, offset + 32));
                    return Some((start_lba + sector_index as u64, offset, entry_buf));
                } else {
                    assert(!self.slot_named(dir_cluster, p, filename@)) by {
                        let j = choose|j: int| 0 <= j < 11 && sector@[offset + j] != filename@[j];
                        assert(self.slot_bytes(dir_cluster, p).subrange(0, 11)[j] == sector@[offset + j]);
                    }
                }
                i = i + 1;
            }
            sector_index = sector_index + 1;
        }
        None
    }

    /// `p` is the first unused slot of the directory.
    pub open spec fn is_first_free_slot(&self, dir_cluster: u16, p: int) -> bool {
        &&& 0 <= p < self.sectors_per_cluster * 16
        &&& self.slot_free(dir_cluster, p)
        &&& forall|q: int| 0 <= q < p ==> !#[trigger] self.slot_free(dir_cluster, q)
    }

    /// write_dir_entry writes a new file entry into the first unused slot of
    /// the directory; returns false, leaving the disk as it was, when no slot is unused.
    fn write_dir_entry(
        &mut self,
        dir_cluster: u16,
        filename: &[u8; 11],
        first_cluster: u16,
        file_size: u32,
    ) -> (r: bool)
        requires
            old(self).wf(),
            old(self).dir_on_device(dir_cluster),
        ensures
            final(self).wf(),
            final(self).same_layout(old(self)),
            r == exists|p: int| #[trigger] old(self).is_first_free_slot(dir_cluster, p),
            !r ==> final(self).disk() == old(self).disk(),
            forall|p: int| #[trigger] old(self).is_first_free_slot(dir_cluster, p) ==> {
                let s = old(self).dir_start(dir_cluster) + p / 16;
                &&& old(self).disk()[s].len() == 512
                &&& final(self).disk() == old(self).disk().update(
                    s,
                    entry_patch(old(self).disk()[s], (p % 16) * 32, filename@, first_cluster, file_size),
                )
            },
    {
        proof { self.lemma_layout_bounds(); }
        let mut sector = [0u8; 512];
        let start_lba = if dir_cluster == 0 { self.root_dir_start_lba } else { self.cluster_to_lba(dir_cluster) };
        let sector_count = self.boot_sector.sectors_per_cluster as usize;
        let mut sector_index: usize = 0;
        while sector_index < sector_count
            invariant
                self.wf(),
                self == old(self),
                self.dir_on_device(dir_cluster),
                start_lba == self.dir_start(dir_cluster),
                start_lba <= 0x200_0000,
                sector_count == self.sectors_per_cluster,
                sector_index <= sector_count,
                sector@.len() == 512,
                forall|q: int| 0 <= q < sector_index * 16 ==> !#[trigger] self.slot_free(dir_cluster, q),
            decreases sector_count - sector_index,
        {
            let lba = start_lba + sector_index as u64;
            self.device.read_sector(lba, &mut sector);
            let mut i: usize = 0;
            while i < 16
                invariant
                    self.wf(),
                    self == old(self),
                    self.dir_on_device(dir_cluster),
                    start_lba == self.dir_start(dir_cluster),
                    start_lba <= 0x200_0000,
                    lba == start_lba + sector_index,
                    sector_count == self.sectors_per_cluster,
                    sector_index < sector_count,
                    sector@ == self.disk()[lba as int],
                    i <= 16,
                    forall|q: int| 0 <= q < sector_index * 16 + i ==> !#[trigger] self.slot_free(dir_cluster, q),
                decreases 16 - i,
            {
                let offset = i * 32;
                let ghost p = sector_index * 16 + i;
                assert(p / 16 == sector_index && p % 16 == i);
                assert(self.slot_bytes(dir_cluster, p)[0] == sector@[offset as int]);
                if sector[offset] == 0x00 || sector[offset] == 0xE5 {
                    assert(self.is_first_free_slot(dir_cluster, p));
                    let ghost before = sector@;
                    let mut k: usize = 0;
                    while k < 11
                        invariant
                            offset == i * 32, i < 16,
                            sector@.len() == 512,
                            k <= 11,
                            forall|t: int| 0 <= t < k ==> sector@[offset + t] == filename@[t],
                            forall|t: int| 0 <= t < 512 && !(offset <= t < offset + k) ==> sector@[t] == before[t],
                        decreases 11 - k,
                    {
                        sector[offset + k] = filename[k];
                        k = k + 1;
                    }
                    sector[offset + 11] = 0x20;
                    sector[offset + 26] = (first_cluster % 256) as u8;
                    sector[offset + 27] = (first_cluster / 256) as u8;
                    sector[offset + 28] = (file_size % 256) as u8;
                    sector[offset + 29] = ((file_size / 256) % 256) as u8;
                    sector[offset + 30] = ((file_size / 65536) % 256) as u8;
                    sector[offset + 31] = (file_size / 16777216) as u8;
                    assert(sector@ =~= entry_patch(before, offset as int, filename@, first_cluster, file_size));
                    self.device.write_sector(lba, &sector);
                    proof {
                        assert forall|p2: int| #[trigger] old(self).is_first_free_slot(dir_cluster, p2) implies p2 == p by {
                            if p2 < p {
                                assert(!old(self).slot_free(dir_cluster, p2));
                            } else if p2 > p {
                                assert(!old(self).slot_free(dir_cluster, p));
                            }
                        }
                        assert(self.disk() =~= old(self).disk().update(lba as int, entry_patch(old(self).disk()[lba as int], offset as int, filename@, first_cluster, file_size)));
                    }
                    return true;
                }
                i = i + 1;
            }
            sector_index = sector_index + 1;
        }
        proof {
            assert forall|p: int| !#[trigger] old(self).is_first_free_slot(dir_cluster, p) by {
                if 0 <= p < self.sectors_per_cluster * 16 {
                    assert(!self.slot_free(dir_cluster, p));
                }
            }
        }
        false
    }

    /// Sector `s` of cluster `c`.
    pub open spec fn cluster_sector(&self, c: u16, s: int) -> int {
        sector_of_cluster(self.data_start_lba as int, self.sectors_per_cluster as int, c, s)
    }

    /// Every table entry below 0xFF8 lies on the disk.
    proof fn lemma_fat_entries_on_disk(&self)
        requires
            self.wf(),
            self.fat_on_device(),
        ensures
            forall|x: u16| x < 0xFF8 ==> #[trigger] fat_entry_on_disk(self.disk(), self.fat_start_lba as int, x),
    {
        assert forall|x: u16| x < 0xFF8 implies #[trigger] fat_entry_on_disk(self.disk(), self.fat_start_lba as int, x) by {
            lemma_fat_sectors(x);
            let fs = self.fat_start_lba as int;
            self.device.lemma_sector_len(fs + fat_offset(x) / 512);
            self.device.lemma_sector_len(fs + (fat_offset(x) + 1) / 512);
        }
    }

    /// Storing a table entry keeps what the first `done` clusters of
    /// `chain` hold and the sectors of directory `dir`.
    proof fn lemma_fat_write_frame(&self, d: Seq<Seq<u8>>, mid: Seq<Seq<u8>>, dir: u16, chain: Seq<u16>, done: int, data: Seq<u8>, y: u16, v: u16)
        requires
            self.wf(),
            y < 0xFF8,
            fat_entry_in_one_sector(y),
            forall|x: u16| x < 0xFF8 ==> #[trigger] fat_entry_on_disk(d, self.fat_start_lba as int, x),
            self.fat_start_lba + 12 <= self.root_dir_start_lba,
            self.sectors_per_cluster > 0,
            self.dir_start(dir) + self.sectors_per_cluster <= d.len(),
            holds_data(d, self.data_start_lba as int, self.sectors_per_cluster as int, chain, done, data),
            forall|k: int| 0 <= k < done ==> 2 <= #[trigger] chain[k],
            dir != 0 ==> dir >= 2,
            forall|i: int| self.dir_start(dir) <= i < self.dir_start(dir) + self.sectors_per_cluster ==> #[trigger] d[i] == mid[i],
        ensures
            holds_data(fat_set(d, self.fat_start_lba as int, y, v), self.data_start_lba as int, self.sectors_per_cluster as int, chain, done, data),
            forall|i: int| self.dir_start(dir) <= i < self.dir_start(dir) + self.sectors_per_cluster
                ==> #[trigger] fat_set(d, self.fat_start_lba as int, y, v)[i] == mid[i],
    {
        let fs0 = self.fat_start_lba as int;
        lemma_fat_set_frame(d, fs0, y, v);
        let sfs = fat_sector_of(fs0, y);
        assert(fat_entry_on_disk(d, fs0, y));
        lemma_holds_data_low_write(d, self.data_start_lba as int, self.sectors_per_cluster as int, chain, done, data, sfs, fat12_patch(d[sfs], y, v));
        if dir != 0 {
            lemma_sectors_apart(self.data_start_lba as int, self.sectors_per_cluster as int, dir, 0, dir, 0);
        }
        let d2 = fat_set(d, fs0, y, v);
        assert forall|i: int| self.dir_start(dir) <= i < self.dir_start(dir) + self.sectors_per_cluster
            implies #[trigger] d2[i] == mid[i] by {
            assert(i != sfs);
        }
    }

    /// Writing sector `j` of cluster `c`, none of the first `done` clusters
    /// of `chain` nor the directory's, keeps what those clusters hold, the
    /// table's first twelve sectors and the directory's sectors.
    proof fn lemma_data_write_frame(&self, d: Seq<Seq<u8>>, mid: Seq<Seq<u8>>, dir: u16, chain: Seq<u16>, done: int, data: Seq<u8>, c: u16, j: int, buf: Seq<u8>)
        requires
            self.wf(),
            self.fat_start_lba + 12 <= d.len(),
            self.dir_start(dir) + self.sectors_per_cluster <= d.len(),
            0 <= self.cluster_sector(c, j) < d.len(),
            2 <= c,
            0 <= j < self.sectors_per_cluster,
            holds_data(d, self.data_start_lba as int, self.sectors_per_cluster as int, chain, done, data),
            forall|k: int| 0 <= k < done ==> 2 <= #[trigger] chain[k] && chain[k] != c,
            self.fat_start_lba + 12 <= self.root_dir_start_lba,
            dir == 0 ==> self.root_dir_start_lba + self.sectors_per_cluster <= self.data_start_lba,
            dir != 0 ==> dir >= 2 && dir != c,
            forall|i: int| self.dir_start(dir) <= i < self.dir_start(dir) + self.sectors_per_cluster ==> #[trigger] d[i] == mid[i],
        ensures
            holds_data(d.update(self.cluster_sector(c, j), buf), self.data_start_lba as int, self.sectors_per_cluster as int, chain, done, data),
            forall|i: int| self.fat_start_lba <= i < self.fat_start_lba + 12
                ==> #[trigger] d.update(self.cluster_sector(c, j), buf)[i] == d[i],
            forall|i: int| self.dir_start(dir) <= i < self.dir_start(dir) + self.sectors_per_cluster
                ==> #[trigger] d.update(self.cluster_sector(c, j), buf)[i] == mid[i],
    {
        let ds = self.data_start_lba as int;
        let spc = self.sectors_per_cluster as int;
        lemma_holds_data_write(d, ds, spc, chain, done, data, c, j, buf);
        lemma_sectors_apart(ds, spc, c, j, c, j);
        let d2 = d.update(self.cluster_sector(c, j), buf);
        assert forall|i: int| self.dir_start(dir) <= i < self.dir_start(dir) + self.sectors_per_cluster
            implies #[trigger] d2[i] == mid[i] by {
            if dir != 0 {
                lemma_sectors_apart(ds, spc, dir, i - self.dir_start(dir), c, j);
            }
        }
    }

    /// The slot `p0` of the earlier entry named `name`, marked deleted by
    /// the first step, is still marked deleted after the new entry went
    /// into the first unused slot `p`, unless `p` is `p0`, which then holds
    /// the new entry.
    proof fn lemma_earlier_entry_gone(&self, pre: &Self, del: &Self, dir: u16, name: Seq<u8>, c: u16, size: u32, p: int, p0: int)
        requires
            self.same_layout(pre),
            pre.same_layout(del),
            pre.is_first_free_slot(dir, p),
            0 <= p0 < pre.sectors_per_cluster * 16,
            0 <= pre.dir_start(dir),
            pre.dir_start(dir) + pre.sectors_per_cluster <= pre.disk().len(),
            name.len() == 11,
            del.slot_bytes(dir, p0)[0] == 0xE5,
            del.disk()[pre.dir_start(dir) + p0 / 16].len() == 512,
            forall|i: int| pre.dir_start(dir) <= i < pre.dir_start(dir) + pre.sectors_per_cluster
                ==> #[trigger] pre.disk()[i] == del.disk()[i],
            pre.disk()[pre.dir_start(dir) + p / 16].len() == 512,
            self.disk() == pre.disk().update(
                pre.dir_start(dir) + p / 16,
                entry_patch(pre.disk()[pre.dir_start(dir) + p / 16], (p % 16) * 32, name, c, size),
            ),
        ensures
            self.slot_bytes(dir, p0)[0] == 0xE5 || (self.slot_named(dir, p0, name) && le16(self.slot_bytes(dir, p0), 26) == c),
    {
        let spc = pre.sectors_per_cluster as int;
        assert(0 <= p0 / 16 < spc);
        assert(0 <= p / 16 < spc);
        let s0 = pre.dir_start(dir) + p0 / 16;
        let s = pre.dir_start(dir) + p / 16;
        assert(pre.disk()[s0] == del.disk()[s0]);
        assert(pre.slot_bytes(dir, p0) =~= del.slot_bytes(dir, p0));
        assert(pre.slot_free(dir, p0));
        if p0 < p {
            assert(!pre.slot_free(dir, p0));
        }
        if p == p0 {
            self.lemma_entry_written(pre.disk(), dir, p, name, c, size);
        } else if p / 16 != p0 / 16 {
            assert(self.disk()[s0] == pre.disk()[s0]);
            assert(self.slot_bytes(dir, p0) =~= pre.slot_bytes(dir, p0));
        } else {
            assert(s == s0);
            assert((p % 16) * 32 + 32 <= (p0 % 16) * 32);
            assert(self.slot_bytes(dir, p0)[0] == self.disk()[s0][(p0 % 16) * 32]);
            assert(self.disk()[s0][(p0 % 16) * 32] == pre.disk()[s0][(p0 % 16) * 32]);
        }
    }

    /// After the new entry went into slot `p` of `dir`, the linked clusters
    /// and what they hold stay: the entry's sector lies apart from both.
    proof fn lemma_written_apart(
        &self,
        pre: &Self,
        dir: u16,
        data: Seq<u8>,
        p: int,
        sec: Seq<u8>,
        mid: Seq<Seq<u8>>,
        fl: Seq<u16>,
        n: int,
    )
        requires
            self.wf(),
            self.same_layout(pre),
            pre.dir_on_device(dir),
            0 <= pre.dir_start(dir),
            0 <= p < pre.sectors_per_cluster * 16,
            self.disk() == pre.disk().update(pre.dir_start(dir) + p / 16, sec),
            pre.fat_start_lba + 12 <= pre.root_dir_start_lba,
            dir == 0 ==> pre.root_dir_start_lba + pre.sectors_per_cluster <= pre.data_start_lba,
            dir != 0 ==> dir >= 2,
            pre.boot_sector.total_sectors_16 <= 0xFF8,
            fl == free_list(mid, pre.fat_start_lba as int, pre.boot_sector.total_sectors_16 as int),
            dir != 0 ==> fat_get(mid, pre.fat_start_lba as int, dir) != 0,
            1 <= n <= fl.len(),
            fat_links(pre.disk(), pre.fat_start_lba as int, fl.take(n), mid),
            holds_data(pre.disk(), pre.data_start_lba as int, pre.sectors_per_cluster as int, fl, n, data),
        ensures
            fat_links(self.disk(), self.fat_start_lba as int, fl.take(n), mid),
            holds_data(self.disk(), self.data_start_lba as int, self.sectors_per_cluster as int, fl.take(n), n, data),
    {
        let fs0 = pre.fat_start_lba as int;
        let hi = pre.boot_sector.total_sectors_16 as int;
        let ds = pre.data_start_lba as int;
        let spc = pre.sectors_per_cluster as int;
        let s = pre.dir_start(dir) + p / 16;
        assert(0 <= p / 16 < spc);
        lemma_free_list(mid, fs0, hi);
        if dir != 0 {
            lemma_sectors_apart(ds, spc, dir, 0, dir, 0);
        }
        let chain = fl.take(n);
        assert forall|kk: int| 0 <= kk < chain.len() implies #[trigger] chain[kk] < 0xFF8 by {
            assert(chain[kk] == fl[kk]);
        }
        lemma_fat_links_frame(pre.disk(), self.disk(), fs0, chain, mid);
        assert forall|kk: int| 0 <= kk < n implies 2 <= #[trigger] fl[kk] && (dir != 0 ==> fl[kk] != dir) by {
            if dir != 0 && fl[kk] == dir {
                assert(fat_get(mid, fs0, fl[kk]) == 0);
            }
        }
        if dir == 0 {
            lemma_holds_data_low_write(pre.disk(), ds, spc, fl, n, data, s, sec);
        } else {
            lemma_holds_data_write(pre.disk(), ds, spc, fl, n, data, dir, p / 16, sec);
        }
        lemma_holds_data_take(self.disk(), ds, spc, fl, n, data);
    }

    /// Slot `p` is the first slot of `dir` named `name`.
    pub open spec fn first_named(&self, dir: u16, name: Seq<u8>, p: int) -> bool {
        &&& 0 <= p < self.sectors_per_cluster * 16
        &&& self.slot_named(dir, p, name)
        &&& forall|q: int| 0 <= q < p ==> !#[trigger] self.slot_named(dir, q, name)
    }

    /// The disk after the first step of write_file: where `dir` has an
    /// entry named `name`, the chain from that entry's first cluster is
    /// freed (see `spec_free_chain`), then the entry's first byte is set to
    /// 0xE5, marking it deleted.
    pub open spec fn cleared_disk(&self, dir: u16, name: Seq<u8>) -> Seq<Seq<u8>> {
        if exists|p: int| self.first_named(dir, name, p) {
            let p = choose|p: int| self.first_named(dir, name, p);
            let c = le16(self.slot_bytes(dir, p), 26) as u16;
            let d1 = spec_free_chain(self.disk(), self.fat_start_lba as int, c, CHAIN_LIMIT as nat);
            let s = self.dir_start(dir) + p / 16;
            d1.update(s, d1[s].update((p % 16) * 32, 0xE5u8))
        } else {
            self.disk()
        }
    }

    /// The free clusters, lowest first, that write_file hands out after its
    /// first step.
    pub open spec fn free_after_clear(&self, dir: u16, name: Seq<u8>) -> Seq<u16> {
        free_list(self.cleared_disk(dir, name), self.fat_start_lba as int, self.boot_sector.total_sectors_16 as int)
    }

    /// What a write of `n` clusters into `dir` needs to keep its parts
    /// apart: the table's first twelve sectors come before the root
    /// directory, the root directory's scanned sectors before the data
    /// area, a subdirectory's own cluster is in use after the first step,
    /// and each of the first `n` clusters handed out has its table entry
    /// within one sector.
    pub open spec fn write_apart(&self, dir: u16, name: Seq<u8>, n: nat) -> bool {
        let fl = self.free_after_clear(dir, name);
        &&& self.fat_start_lba + 12 <= self.root_dir_start_lba
        &&& dir == 0 ==> self.root_dir_start_lba + self.sectors_per_cluster <= self.data_start_lba
        &&& dir != 0 ==> fat_get(self.cleared_disk(dir, name), self.fat_start_lba as int, dir) != 0
        &&& forall|k: int| 0 <= k < n && k < fl.len() ==> fat_entry_in_one_sector(#[trigger] fl[k])
    }

    /// The first step of write_file: where `dir_cluster` has an entry named
    /// `filename`, the chain from its first cluster is freed and the entry
    /// is marked deleted (first byte 0xE5).
    fn delete_entry(&mut self, dir_cluster: u16, filename: &[u8; 11])
        requires
            old(self).wf(),
            old(self).write_ready(dir_cluster),
        ensures
            final(self).wf(),
            final(self).same_layout(old(self)),
            final(self).disk() == old(self).cleared_disk(dir_cluster, filename@),
            forall|p: int| #[trigger] old(self).first_named(dir_cluster, filename@, p)
                ==> final(self).slot_bytes(dir_cluster, p)[0] == 0xE5,
    {
        proof { self.lemma_layout_bounds(); }
        let ghost name = filename@;
        if let Some((entry_lba, entry_offset, dir_entry)) = self.find_dir_entry_mut(dir_cluster, filename) {
            let ghost start = self.dir_start(dir_cluster);
            let ghost p0 = (entry_lba - start) * 16 + entry_offset / 32;
            proof {
                assert(self.first_named(dir_cluster, name, p0));
                assert forall|q: int| #[trigger] self.first_named(dir_cluster, name, q) implies q == p0 by {
                    if q < p0 {
                        assert(!self.slot_named(dir_cluster, q, name));
                    } else if q > p0 {
                        assert(!self.slot_named(dir_cluster, p0, name));
                    }
                }
                assert(p0 / 16 == entry_lba - start);
                assert((p0 % 16) * 32 == entry_offset);
            }
            let first_cluster = dir_entry[26] as u16 + (dir_entry[27] as u16) * 256;
            assert(first_cluster == le16(self.slot_bytes(dir_cluster, p0), 26) as u16);
            self.free_cluster_chain(first_cluster);
            let ghost d1 = self.disk();
            let mut sector = [0u8; 512];
            self.device.read_sector(entry_lba, &mut sector);
            sector[entry_offset] = 0xE5;
            self.device.write_sector(entry_lba, &sector);
            proof {
                assert(self.disk() =~= d1.update(entry_lba as int, d1[entry_lba as int].update(entry_offset as int, 0xE5u8)));
                assert(self.slot_bytes(dir_cluster, p0)[0] == 0xE5);
            }
        } else {
            proof {
                assert forall|p: int| !#[trigger] self.first_named(dir_cluster, name, p) by {}
            }
        }
    }

    /// The chain from its `j`-th cluster on: it stays in the data area and
    /// read_file's walk ends at its last cluster.
    proof fn lemma_chain_walk(&self, chain: Seq<u16>, base: Seq<Seq<u8>>, j: int, fuel: nat)
        requires
            self.wf(),
            fat_links(self.disk(), self.fat_start_lba as int, chain, base),
            0 <= j < chain.len(),
            chain.len() - 1 - j <= fuel,
            forall|k: int| 0 <= k < chain.len() ==> {
                &&& 2 <= #[trigger] chain[k] < 0xFF8
                &&& self.spec_cluster_lba(chain[k]) < self.device.sector_count()
                &&& self.fat_entry_readable(chain[k])
            },
        ensures
            chain_in_data(self, chain[j], fuel),
            chain_last(self, chain[j], fuel) == chain.last(),
        decreases chain.len() - j,
    {
        reveal(fat_links);
        if j < chain.len() - 1 {
            assert(self.fat_entry(chain[j]) == chain[j + 1]);
            self.lemma_chain_walk(chain, base, j + 1, (fuel - 1) as nat);
        } else {
            assert(chain[j] == chain.last());
            assert(self.fat_entry(chain[j]) == 0xFFF);
        }
    }

    /// A file that write_file stored, its chain linked in the table and its
    /// blocks held by its clusters, is read back by read_file: the chain
    /// from its first cluster stays in the data area, and the buffer gets
    /// the first sector of its last cluster, the data's block
    /// `(n - 1) * sectors_per_cluster` for a chain of `n` clusters.
    pub proof fn lemma_file_reads_back(&self, chain: Seq<u16>, base: Seq<Seq<u8>>, data: Seq<u8>)
        requires
            self.wf(),
            fat_links(self.disk(), self.fat_start_lba as int, chain, base),
            holds_data(self.disk(), self.data_start_lba as int, self.sectors_per_cluster as int, chain, chain.len() as int, data),
            1 <= chain.len() <= CHAIN_LIMIT,
            self.sectors_per_cluster > 0,
            ((chain.len() - 1) * self.sectors_per_cluster) * 512 < data.len(),
            forall|k: int| 0 <= k < chain.len() ==> {
                &&& 2 <= #[trigger] chain[k] < 0xFF8
                &&& self.spec_cluster_lba(chain[k]) < self.device.sector_count()
                &&& self.fat_entry_readable(chain[k])
            },
        ensures
            chain_in_data(self, chain[0], (CHAIN_LIMIT - 1) as nat),
            self.disk()[self.spec_cluster_lba(chain_last(self, chain[0], (CHAIN_LIMIT - 1) as nat))]
                == data_block(data, (chain.len() - 1) * self.sectors_per_cluster),
    {
        self.lemma_chain_walk(chain, base, 0, (CHAIN_LIMIT - 1) as nat);
        reveal(holds_data);
        let last = chain.len() - 1;
        assert(chain.last() == chain[last]);
        let ds = self.data_start_lba as int;
        let spc = self.sectors_per_cluster as int;
        assert(self.spec_cluster_lba(chain[last]) == sector_of_cluster(ds, spc, chain[last], 0));
        assert(0 <= sector_of_cluster(ds, spc, chain[last], 0)) by {
            lemma_sectors_apart(ds, spc, chain[last], 0, chain[last], 0);
        }
        assert(last * spc + 0 == last * spc);
    }

    /// A file of at most 512 bytes that write_file stored at cluster `c` (its
    /// table entry an end mark, its first sector its bytes then zeros) is
    /// read back by read_file: the chain from `c` is that one cluster, and
    /// the buffer gets the file's bytes followed by zeros.
    pub proof fn lemma_small_file_reads_back(&self, c: u16, data: Seq<u8>)
        requires
            self.wf(),
            2 <= c,
            self.spec_cluster_lba(c) < self.device.sector_count(),
            self.fat_entry_readable(c),
            self.fat_entry(c) == 0xFFF,
            self.disk()[self.spec_cluster_lba(c)] == Self::small_file_block(data),
        ensures
            chain_in_data(self, c, (CHAIN_LIMIT - 1) as nat),
            self.disk()[self.spec_cluster_lba(chain_last(self, c, (CHAIN_LIMIT - 1) as nat))]
                == Self::small_file_block(data),
    {
    }

    /// The sector of a file of at most 512 bytes: its bytes, then zeros.
    pub open spec fn small_file_block(data: Seq<u8>) -> Seq<u8> {
        data + Seq::new((512 - data.len()) as nat, |i: int| 0u8)
    }

    /// What write_file reports of a write of `data` as `name` into `dir`,
    /// `self` being the file system after it and `before` the one before:
    /// the layout stays; a file written starts at a cluster in
    /// 2..total_sectors_16 and a slot of the directory carries its name, the
    /// attribute of a file, that cluster and the size. Where the parts of the
    /// write lie apart (see `write_apart`), a file written is also described
    /// in full: after the first step (see `cleared_disk`: an earlier entry of
    /// that name deleted and its chain freed), its clusters are the lowest
    /// free ones in increasing order, `file_clusters` of them; the table links
    /// them and ends the chain, every other entry as after the first step;
    /// their sectors hold the data block after block, each padded with zeros;
    /// and the earlier entry's slot stays marked deleted, unless the new
    /// entry took it. The disk is reported full only when no cluster was
    /// free after the first step (or the layout has no sectors per
    /// cluster), and full in mid-write, where the parts lie apart, only when
    /// fewer clusters were free than the file needs.
    pub open spec fn wrote(&self, before: &Self, dir: u16, name: Seq<u8>, data: Seq<u8>, r: WriteStatus) -> bool {
        &&& self.wf()
        &&& self.same_layout(before)
        &&& r matches WriteStatus::Written(c) ==> 2 <= c < before.boot_sector.total_sectors_16
        &&& r matches WriteStatus::Written(c) ==> exists|p: int| {
            &&& 0 <= p < before.sectors_per_cluster * 16
            &&& #[trigger] self.slot_named(dir, p, name)
            &&& self.slot_bytes(dir, p)[11] == 0x20
            &&& le16(self.slot_bytes(dir, p), 26) == c
            &&& le32(self.slot_bytes(dir, p), 28) == data.len() % 0x1_0000_0000
        }
        &&& r matches WriteStatus::Written(c) ==> before.write_apart(dir, name, file_clusters(data.len())) ==> {
            let n = file_clusters(data.len());
            let chain = before.free_after_clear(dir, name).take(n as int);
            &&& n <= before.free_after_clear(dir, name).len()
            &&& chain[0] == c
            &&& fat_links(self.disk(), self.fat_start_lba as int, chain, before.cleared_disk(dir, name))
            &&& holds_data(self.disk(), self.data_start_lba as int, self.sectors_per_cluster as int, chain, n as int, data)
            &&& forall|p: int| #[trigger] before.first_named(dir, name, p) ==> {
                ||| self.slot_bytes(dir, p)[0] == 0xE5
                ||| self.slot_named(dir, p, name) && le16(self.slot_bytes(dir, p), 26) == c
            }
        }
        &&& (r is DiskFull || r is DiskFullMidWrite) ==> (self.sectors_per_cluster == 0
            || forall|c: u16| 2 <= c < self.boot_sector.total_sectors_16 ==> #[trigger] self.fat_entry(c) != 0)
        &&& r is DiskFull ==> (before.sectors_per_cluster == 0 || before.free_after_clear(dir, name).len() == 0)
        &&& r is DiskFullMidWrite ==> before.write_apart(dir, name, file_clusters(data.len()))
            ==> before.free_after_clear(dir, name).len() < file_clusters(data.len())
        &&& r is NoDirSlot ==> forall|p: int|
            0 <= p < self.sectors_per_cluster * 16 ==> !#[trigger] self.slot_free(dir, p)
    }

    /// A directory with an unused slot has a first one.
    proof fn lemma_first_free_exists(&self, dir: u16, p: int)
        requires
            0 <= p < self.sectors_per_cluster * 16,
            self.slot_free(dir, p),
        ensures
            exists|q: int| #[trigger] self.is_first_free_slot(dir, q),
        decreases p,
    {
        if exists|q: int| 0 <= q < p && #[trigger] self.slot_free(dir, q) {
            let q = choose|q: int| 0 <= q < p && #[trigger] self.slot_free(dir, q);
            self.lemma_first_free_exists(dir, q);
        } else {
            assert(self.is_first_free_slot(dir, p));
        }
    }

    /// write_file is a directory-agnostic function to write files into the
    /// file system: an existing entry of that name loses its clusters and is
    /// marked deleted, then the data is written cluster by cluster, the
    /// clusters are linked in the table and a new entry is written. A data
    /// sector past the device's last sector (the table may offer clusters
    /// up to total_sectors_16, beyond the data area) is not written.
    #[verifier::rlimit(60)]
    pub fn write_file(&mut self, dir_cluster: u16, filename: &[u8; 11], data: &[u8]) -> (r: WriteStatus)
        requires
            old(self).wf(),
            old(self).write_ready(dir_cluster),
        ensures
            final(self).wf(),
            final(self).same_layout(old(self)),
            final(self).wrote(old(self), dir_cluster, filename@, data@, r),
    {
        proof { self.lemma_layout_bounds(); }
        self.delete_entry(dir_cluster, filename);
        let ghost del = *self;
        let ghost mid = self.disk();
        let ghost fs0 = self.fat_start_lba as int;
        let ghost hi = self.boot_sector.total_sectors_16 as int;
        let ghost fl = free_list(mid, fs0, hi);
        let ghost n = file_clusters(data@.len());
        let ghost h = old(self).write_apart(dir_cluster, filename@, n);
        let ghost dstart = self.dir_start(dir_cluster);
        let ghost ds = self.data_start_lba as int;
        let ghost sp = self.sectors_per_cluster as int;
        assert(fl == old(self).free_after_clear(dir_cluster, filename@));
        let mut clusters_needed = data.len() / 512 + if data.len() % 512 == 0 { 0 } else { 1 };
        let ghost cn = clusters_needed as int;
        assert(cn == if data@.len() == 0 { 0 } else { n as int });
        let ghost pre_alloc = *self;
        let first_cluster = self.allocate_cluster();
        if first_cluster == 0 {
            proof {
                assert forall|c: u16| 2 <= c < self.boot_sector.total_sectors_16 && self.sectors_per_cluster != 0
                    implies #[trigger] self.fat_entry(c) != 0 by {
                    assert(pre_alloc.fat_entry(c) != 0);
                }
                if self.sectors_per_cluster != 0 && fl.len() > 0 {
                    lemma_free_list(mid, fs0, hi);
                    assert(self.fat_entry(fl[0]) != 0);
                }
            }
            return WriteStatus::DiskFull;
        }
        proof {
            if dir_cluster != 0 {
                lemma_sectors_apart(ds, sp, dir_cluster, 0, dir_cluster, 0);
            }
            if h {
                assert forall|x: u16| 2 <= x < first_cluster implies #[trigger] fat_get(mid, fs0, x) != 0 by {
                    assert(pre_alloc.fat_entry(x) != 0);
                }
                lemma_next_free(mid, mid, fs0, hi, 0, first_cluster);
                assert(fat_entry_in_one_sector(fl[0]));
                pre_alloc.lemma_fat_entries_on_disk();
                lemma_links_first(mid, self.disk(), fs0, hi, first_cluster);
                reveal(holds_data);
                assert(holds_data(mid, ds, sp, fl, 0, data@));
                pre_alloc.lemma_fat_write_frame(mid, mid, dir_cluster, fl, 0, data@, first_cluster, 0xFFF);
            }
        }
        let count = self.device.sector_total();
        let mut current_cluster = first_cluster;
        let mut data_offset: usize = 0;
        let spc = self.boot_sector.sectors_per_cluster;
        let ghost mut m: int = 1;
        let ghost mut tb: int = 0;
        while clusters_needed > 0
            invariant
                self.wf(),
                self.fat_on_device(),
                self.same_layout(old(self)),
                self.dir_on_device(dir_cluster),
                spc == self.sectors_per_cluster,
                spc > 0,
                self.boot_sector.total_sectors_16 <= 0xFF8,
                self.fat_start_lba + self.sectors_per_cluster <= self.device.sector_count(),
                count == self.device.sector_count(),
                2 <= current_cluster < self.boot_sector.total_sectors_16,
                2 <= first_cluster < self.boot_sector.total_sectors_16,
                data_offset <= data@.len(),
                fs0 == self.fat_start_lba,
                hi == self.boot_sector.total_sectors_16,
                dstart == self.dir_start(dir_cluster),
                0 <= dstart,
                ds == self.data_start_lba,
                sp == self.sectors_per_cluster,
                fl == old(self).free_after_clear(dir_cluster, filename@),
                mid.len() == count,
                fl == free_list(mid, fs0, hi),
                n == file_clusters(data@.len()),
                cn == if data@.len() == 0 { 0 } else { n as int },
                h == old(self).write_apart(dir_cluster, filename@, n),
                mid == old(self).cleared_disk(dir_cluster, filename@),
                1 <= m <= n,
                clusters_needed > 0 ==> m + clusters_needed == cn + 1,
                clusters_needed == 0 ==> m == n,
                tb == (m - 1) * spc,
                clusters_needed > 0 ==> data_offset == if data@.len() < tb * 512 { data@.len() as int } else { tb * 512 },
                h ==> {
                    &&& m <= fl.len()
                    &&& current_cluster == fl[m - 1]
                    &&& first_cluster == fl[0]
                    &&& fat_links(self.disk(), fs0, fl.take(m), mid)
                    &&& holds_data(self.disk(), ds, sp, fl, if clusters_needed > 0 { m - 1 } else { m }, data@)
                    &&& forall|i: int| dstart <= i < dstart + spc ==> #[trigger] self.disk()[i] == mid[i]
                },
            decreases clusters_needed,
        {
            let lba = self.cluster_to_lba(current_cluster);
            let mut sector_in_cluster: u8 = 0;
            proof {
                reveal(cluster_holds);
                assert(cluster_holds(self.disk(), ds, sp, current_cluster, tb, 0, data@));
            }
            while sector_in_cluster < spc
                invariant
                    self.wf(),
                    self.fat_on_device(),
                    self.same_layout(old(self)),
                    self.dir_on_device(dir_cluster),
                    spc == self.sectors_per_cluster,
                    spc > 0,
                    self.boot_sector.total_sectors_16 <= 0xFF8,
                    count == self.device.sector_count(),
                    2 <= current_cluster < self.boot_sector.total_sectors_16,
                    lba == self.spec_cluster_lba(current_cluster),
                    lba <= 0x200_0000,
                    sector_in_cluster <= spc,
                    data_offset <= data@.len(),
                    data_offset == if data@.len() < (tb + sector_in_cluster) * 512 {
                        data@.len() as int
                    } else {
                        (tb + sector_in_cluster) * 512
                    },
                    fs0 == self.fat_start_lba,
                    hi == self.boot_sector.total_sectors_16,
                    dstart == self.dir_start(dir_cluster),
                    0 <= dstart,
                    ds == self.data_start_lba,
                    sp == self.sectors_per_cluster,
                    fl == old(self).free_after_clear(dir_cluster, filename@),
                    n == file_clusters(data@.len()),
                    mid.len() == count,
                    fl == free_list(mid, fs0, hi),
                    h == old(self).write_apart(dir_cluster, filename@, n),
                    mid == old(self).cleared_disk(dir_cluster, filename@),
                    1 <= m,
                    0 <= tb,
                    h ==> {
                        &&& m <= fl.len()
                        &&& current_cluster == fl[m - 1]
                        &&& fat_links(self.disk(), fs0, fl.take(m), mid)
                        &&& holds_data(self.disk(), ds, sp, fl, m - 1, data@)
                        &&& cluster_holds(self.disk(), ds, sp, current_cluster, tb, sector_in_cluster as int, data@)
                        &&& forall|i: int| dstart <= i < dstart + spc ==> #[trigger] self.disk()[i] == mid[i]
                    },
                ensures
                    data_offset == if data@.len() < (tb + spc) * 512 { data@.len() as int } else { (tb + spc) * 512 },
                    h ==> cluster_holds(self.disk(), ds, sp, current_cluster, tb, sp, data@),
                decreases spc - sector_in_cluster,
            {
                let mut sector_data = [0u8; 512];
                let remaining = data.len() - data_offset;
                let copy_len = if remaining < 512 { remaining } else { 512 };
                if copy_len == 0 {
                    proof {
                        if h {
                            lemma_cluster_holds_skip(self.disk(), ds, sp, current_cluster, tb, sector_in_cluster as int, sp, data@);
                        }
                    }
                    break;
                }
                let mut k: usize = 0;
                while k < copy_len
                    invariant
                        copy_len <= 512,
                        data_offset + copy_len <= data@.len(),
                        data@.len() == data.len(),
                        k <= copy_len,
                        sector_data@.len() == 512,
                        forall|t: int| 0 <= t < k ==> sector_data@[t] == data@[data_offset + t],
                        forall|t: int| k <= t < 512 ==> sector_data@[t] == 0,
                    decreases copy_len - k,
                {
                    sector_data[k] = data[data_offset + k];
                    k = k + 1;
                }
                let ghost j = sector_in_cluster as int;
                assert(sector_data@ =~= data_block(data@, tb + j));
                let ghost d1 = self.disk();
                if lba + (sector_in_cluster as u64) < count {
                    self.device.write_sector(lba + sector_in_cluster as u64, &sector_data);
                    proof {
                        assert(self.disk() =~= d1.update(self.cluster_sector(current_cluster, j), sector_data@));
                        if h {
                            lemma_free_list(mid, fs0, hi);
                            assert forall|kk: int| 0 <= kk < m - 1 implies 2 <= #[trigger] fl[kk] && fl[kk] != current_cluster by {
                                assert(fl[kk] < fl[m - 1]);
                            }
                            assert(dir_cluster != 0 ==> dir_cluster != current_cluster) by {
                                if dir_cluster != 0 && dir_cluster == current_cluster {
                                    assert(fat_get(mid, fs0, fl[m - 1]) == 0);
                                }
                            }
                            self.lemma_data_write_frame(d1, mid, dir_cluster, fl, m - 1, data@, current_cluster, j, sector_data@);
                            assert forall|kk: int| 0 <= kk < fl.take(m).len() implies #[trigger] fl.take(m)[kk] < 0xFF8 by {
                                assert(fl.take(m)[kk] == fl[kk]);
                            }
                            lemma_fat_links_frame(d1, self.disk(), fs0, fl.take(m), mid);
                            lemma_cluster_holds_write(d1, ds, sp, current_cluster, tb, j, data@, sector_data@);
                        }
                    }
                } else {
                    proof {
                        if h {
                            lemma_cluster_holds_skip(d1, ds, sp, current_cluster, tb, j, j + 1, data@);
                        }
                    }
                }
                data_offset = data_offset + copy_len;
                sector_in_cluster = sector_in_cluster + 1;
            }
            proof {
                if h {
                    lemma_holds_data_extend(self.disk(), ds, sp, fl, m, data@);
                }
            }
            clusters_needed = clusters_needed - 1;
            if clusters_needed > 0 {
                let ghost pre_next = *self;
                let next_cluster = self.allocate_cluster();
                if next_cluster == 0 {
                    proof {
                        assert forall|c: u16| 2 <= c < self.boot_sector.total_sectors_16 && self.sectors_per_cluster != 0
                            implies #[trigger] self.fat_entry(c) != 0 by {
                            assert(pre_next.fat_entry(c) != 0);
                        }
                        if h {
                            assert forall|x: u16| 2 <= x < hi implies #[trigger] fat_get(pre_next.disk(), fs0, x) != 0 by {
                                assert(pre_next.fat_entry(x) != 0);
                            }
                            lemma_no_more_free(mid, pre_next.disk(), fs0, hi, m);
                            assert(m < n);
                        }
                    }
                    return WriteStatus::DiskFullMidWrite;
                }
                let ghost d_a = self.disk();
                proof {
                    if h {
                        assert forall|x: u16| 2 <= x < next_cluster implies #[trigger] fat_get(pre_next.disk(), fs0, x) != 0 by {
                            assert(pre_next.fat_entry(x) != 0);
                        }
                        pre_next.lemma_fat_entries_on_disk();
                        assert(m < n);
                        lemma_next_free_after(mid, pre_next.disk(), fs0, hi, m, next_cluster);
                        assert(fat_entry_in_one_sector(fl[m]));
                        lemma_free_list(mid, fs0, hi);
                        pre_next.lemma_fat_write_frame(pre_next.disk(), mid, dir_cluster, fl, m, data@, next_cluster, 0xFFF);
                        lemma_fat_set_frame(pre_next.disk(), fs0, next_cluster, 0xFFF);
                    }
                }
                self.write_fat12_entry(current_cluster, next_cluster);
                proof {
                    if h {
                        assert(fat_entry_in_one_sector(fl[m - 1]));
                        lemma_free_list(mid, fs0, hi);
                        pre_next.lemma_fat_write_frame(d_a, mid, dir_cluster, fl, m, data@, current_cluster, next_cluster);
                        lemma_links_step(mid, pre_next.disk(), self.disk(), fs0, hi, m, next_cluster);
                    }
                }
                current_cluster = next_cluster;
                proof {
                    m = m + 1;
                    tb = tb + spc;
                    assert(tb == (m - 1) * spc) by (nonlinear_arith)
                        requires tb == (m - 2) * spc + spc;
                }
            } else {
                let ghost d_a = self.disk();
                let ghost st_a = *self;
                proof {
                    if h {
                        self.lemma_fat_entries_on_disk();
                        assert(fat_entry_in_one_sector(fl[m - 1]));
                    }
                }
                self.write_fat12_entry(current_cluster, 0xFFF);
                proof {
                    if h {
                        lemma_free_list(mid, fs0, hi);
                        st_a.lemma_fat_write_frame(d_a, mid, dir_cluster, fl, m, data@, current_cluster, 0xFFF);
                        lemma_links_close(mid, d_a, self.disk(), fs0, hi, m);
                    }
                }
            }
        }
        let size = ((data.len() as u64) % 0x1_0000_0000) as u32;
        let ghost pre = *self;
        let placed = self.write_dir_entry(dir_cluster, filename, first_cluster, size);
        proof {
            if !placed {
                assert forall|p: int| 0 <= p < self.sectors_per_cluster * 16 implies !#[trigger] self.slot_free(dir_cluster, p) by {
                    if self.slot_free(dir_cluster, p) {
                        assert(pre.slot_free(dir_cluster, p));
                        pre.lemma_first_free_exists(dir_cluster, p);
                    }
                }
            }
        }
        if placed {
            proof {
                let p = choose|p: int| #[trigger] pre.is_first_free_slot(dir_cluster, p);
                let s = pre.dir_start(dir_cluster) + p / 16;
                assert(size == data@.len() % 0x1_0000_0000);
                let sec = entry_patch(pre.disk()[s], (p % 16) * 32, filename@, first_cluster, size);
                self.lemma_entry_written(pre.disk(), dir_cluster, p, filename@, first_cluster, size);
                if h {
                    self.lemma_written_apart(&pre, dir_cluster, data@, p, sec, mid, fl, n as int);
                    assert forall|p0: int| #[trigger] old(self).first_named(dir_cluster, filename@, p0) implies {
                        ||| self.slot_bytes(dir_cluster, p0)[0] == 0xE5
                        ||| self.slot_named(dir_cluster, p0, filename@)
                            && le16(self.slot_bytes(dir_cluster, p0), 26) == first_cluster
                    } by {
                        assert(0 <= p0 / 16 < spc);
                        del.device.lemma_sector_len(dstart + p0 / 16);
                        pre.device.lemma_sector_len(s);
                        self.lemma_earlier_entry_gone(&pre, &del, dir_cluster, filename@, first_cluster, size, p, p0);
                    }
                }
            }
            WriteStatus::Written(first_cluster)
        } else {
            WriteStatus::NoDirSlot
        }
    }

    /// The slot `p` of `dir` written by write_dir_entry holds the name, the
    /// attribute of a file, the first cluster and the size.
    #[verifier::spinoff_prover]
    #[verifier::rlimit(30)]
    proof fn lemma_entry_written(&self, before: Seq<Seq<u8>>, dir: u16, p: int, name: Seq<u8>, c: u16, size: u32)
        requires
            0 <= p,
            name.len() == 11,
            before[self.dir_start(dir) + p / 16].len() == 512,
            self.disk()[self.dir_start(dir) + p / 16] == entry_patch(
                before[self.dir_start(dir) + p / 16],
                (p % 16) * 32,
                name,
                c,
                size,
            ),
        ensures
            self.slot_named(dir, p, name),
            self.slot_bytes(dir, p)[11] == 0x20,
            le16(self.slot_bytes(dir, p), 26) == c,
            le32(self.slot_bytes(dir, p), 28) == size,
    {
        let s = self.dir_start(dir) + p / 16;
        let off = (p % 16) * 32;
        let sec = entry_patch(before[s], off, name, c, size);
        assert(0 <= p % 16 < 16);
        let b = self.slot_bytes(dir, p);
        assert(b =~= sec.subrange(off, off + 32));
        assert(b.subrange(0, 11) =~= name);
        assert(le16(b, 26) == c);
        assert(le32(b, 28) == size) by {
            assert(b[28] == size % 256);
            assert(b[29] == (size / 256) % 256);
            assert(b[30] == (size / 65536) % 256);
            assert(b[31] == size / 16777216);
        }
    }

    /// What a write into directory `dir_cluster` needs of the device: the
    /// table and the directory lie on it, and the clusters handed out stay
    /// below 0xFF8.
    pub open spec fn write_ready(&self, dir_cluster: u16) -> bool {
        &&& self.fat_on_device()
        &&& self.dir_on_device(dir_cluster)
        &&& self.fat_start_lba + self.sectors_per_cluster <= self.device.sector_count()
        &&& self.boot_sector.total_sectors_16 <= 0xFF8
    }

    /// Whether a write into directory `dir_cluster` stays on the device.
    pub fn can_write_in(&self, dir_cluster: u16) -> (r: bool)
        requires
            self.wf(),
        ensures
            r == self.write_ready(dir_cluster),
    {
        proof { self.lemma_layout_bounds(); }
        let count = self.device.sector_total();
        let spc = self.sectors_per_cluster as u64;
        let total = self.boot_sector.total_sectors_16 as u64;
        if dir_cluster == 1 || total > 0xFF8 {
            return false;
        }
        let start = if dir_cluster == 0 { self.root_dir_start_lba } else { self.cluster_to_lba(dir_cluster) };
        self.fat_start_lba + 12 <= count
            && start + spc <= count
            && self.fat_start_lba + spc <= count
    }

    /// Whether the walk of directory `dir_cluster` stays on the device.
    pub fn can_walk_dir(&self, dir_cluster: u16) -> (r: bool)
        requires
            self.wf(),
        ensures
            r == self.dir_walk_on_device(dir_cluster),
    {
        proof { self.lemma_layout_bounds(); }
        let count = self.device.sector_total();
        if dir_cluster == 1 {
            return false;
        }
        if dir_cluster == 0 {
            let n = self.boot_sector.root_entry_count as u64;
            self.root_dir_start_lba + (n * 32 + 511) / 512 <= count
        } else {
            let start = self.cluster_to_lba(dir_cluster);
            start + self.sectors_per_cluster as u64 <= count && self.fat_start_lba + 12 <= count
                && dir_cluster < 0xFF8
        }
    }

    /// Number of entries visited in a directory: the entries of the root
    /// directory, or 16 per visited sector of a subdirectory.
    pub open spec fn dir_entry_count(&self, dir_cluster: u16) -> nat {
        if dir_cluster == 0 {
            self.boot_sector.root_entry_count as nat
        } else {
            16 * chain_sectors(self, dir_cluster, self.sectors_per_cluster as nat)
        }
    }

    /// The entries of a directory, in the order they are visited.
    pub open spec fn dir_entries(&self, dir_cluster: u16) -> Seq<Entry> {
        Seq::new(
            self.dir_entry_count(dir_cluster),
            |p: int| Entry::spec_decode(self.disk()[self.dir_start(dir_cluster) + p / 16], (p % 16) * 32),
        )
    }

    /// The directory and the table entries its walk reads lie on the device.
    pub open spec fn dir_walk_on_device(&self, dir_cluster: u16) -> bool {
        &&& dir_cluster != 1
        &&& dir_cluster == 0 ==> self.root_dir_start_lba + (self.boot_sector.root_entry_count as int * 32 + 511) / 512
            <= self.device.sector_count()
        &&& dir_cluster != 0 ==> self.dir_on_device(dir_cluster) && self.fat_on_device() && dir_cluster < 0xFF8
    }

    /// Visits the entries of a directory in order: for the root directory its
    /// `root_entry_count` entries; for a subdirectory the sectors of its first
    /// cluster, one more for each link of its chain, at most `sectors_per_cluster`.
    pub fn entries(&self, dir_cluster: u16) -> (r: Vec<Entry>)
        requires
            self.wf(),
            self.dir_walk_on_device(dir_cluster),
        ensures
            r@ == self.dir_entries(dir_cluster),
    {
        proof { self.lemma_layout_bounds(); }
        let mut out: Vec<Entry> = Vec::new();
        let mut buf = [0u8; 512];
        if dir_cluster == 0 {
            let total_entries = self.boot_sector.root_entry_count as usize;
            let total_sectors = (total_entries * 32 + 511) / 512;
            let mut sector_index: usize = 0;
            while sector_index < total_sectors
                invariant
                    self.wf(),
                    dir_cluster == 0,
                    self.dir_walk_on_device(dir_cluster),
                    total_entries == self.boot_sector.root_entry_count,
                    total_sectors == (total_entries * 32 + 511) / 512,
                    self.root_dir_start_lba <= 0x100_0000,
                    sector_index <= total_sectors,
                    buf@.len() == 512,
                    out@.len() == if sector_index * 16 < total_entries { sector_index * 16 } else { total_entries as int },
                    forall|p: int| 0 <= p < out@.len() ==> #[trigger] out@[p] == self.dir_entries(dir_cluster)[p],
                decreases total_sectors - sector_index,
            {
                self.device.read_sector(self.root_dir_start_lba + sector_index as u64, &mut buf);
                let mut entry_index: usize = 0;
                while entry_index < 16
                    invariant
                        self.wf(),
                        dir_cluster == 0,
                        total_entries == self.boot_sector.root_entry_count,
                        sector_index < total_sectors,
                        total_sectors == (total_entries * 32 + 511) / 512,
                        buf@ == self.disk()[self.root_dir_start_lba + sector_index],
                        entry_index <= 16,
                        out@.len() == if sector_index * 16 + entry_index < total_entries { sector_index * 16 + entry_index } else { total_entries as int },
                        forall|p: int| 0 <= p < out@.len() ==> #[trigger] out@[p] == self.dir_entries(dir_cluster)[p],
                    decreases 16 - entry_index,
                {
                    if sector_index * 16 + entry_index >= total_entries {
                        return out;
                    }
                    let e = Entry::from_bytes(&buf, entry_index * 32);
                    let ghost p = sector_index * 16 + entry_index;
                    assert(p / 16 == sector_index && p % 16 == entry_index);
                    out.push(e);
                    entry_index = entry_index + 1;
                }
                sector_index = sector_index + 1;
            }
            out
        } else {
            let sector_start = self.cluster_to_lba(dir_cluster);
            let mut current_cluster = dir_cluster;
            let spc = self.boot_sector.sectors_per_cluster;
            let mut i: u8 = 0;
            while i < spc
                invariant
                    self.wf(),
                    dir_cluster != 0,
                    self.dir_walk_on_device(dir_cluster),
                    spc == self.sectors_per_cluster,
                    sector_start == self.dir_start(dir_cluster),
                    sector_start <= 0x200_0000,
                    i < spc ==> current_cluster < 0xFF8,
                    i <= spc,
                    buf@.len() == 512,
                    out@.len() == 16 * i,
                    chain_sectors(self, dir_cluster, spc as nat) == i + chain_sectors(self, current_cluster, (spc - i) as nat),
                    forall|p: int| 0 <= p < out@.len() ==> #[trigger] out@[p] == self.dir_entries(dir_cluster)[p],
                decreases spc - i,
            {
                self.device.read_sector(sector_start + i as u64, &mut buf);
                let mut entry_index: usize = 0;
                while entry_index < 16
                    invariant
                        self.wf(),
                        dir_cluster != 0,
                        sector_start == self.dir_start(dir_cluster),
                        buf@ == self.disk()[sector_start + i],
                        entry_index <= 16,
                        out@.len() == 16 * i + entry_index,
                        i < spc,
                        16 * (i + 1) <= self.dir_entry_count(dir_cluster),
                        forall|p: int| 0 <= p < out@.len() ==> #[trigger] out@[p] == self.dir_entries(dir_cluster)[p],
                    decreases 16 - entry_index,
                {
                    let e = Entry::from_bytes(&buf, entry_index * 32);
                    let ghost p = 16 * i + entry_index;
                    assert(p / 16 == i && p % 16 == entry_index);
                    out.push(e);
                    entry_index = entry_index + 1;
                }
                current_cluster = self.read_fat12_entry(current_cluster);
                i = i + 1;
                if current_cluster >= 0xFF8 {
                    return out;
                }
            }
            out
        }
    }

    /// Lists a directory: returns the status (see `list_status`) and the
    /// entries to show when `entry_name` starts with a space.
    pub fn list_dir(&self, start_cluster: u16, entry_name: &[u8; 11]) -> (r: (isize, Vec<Entry>))
        requires
            self.wf(),
            self.dir_walk_on_device(start_cluster),
        ensures
            r.0 == list_status(self.dir_entries(start_cluster), entry_name@),
            r.1@ == shown_entries(self.dir_entries(start_cluster), entry_name@),
    {
        let es = self.entries(start_cluster);
        let mut status: isize = 0;
        let mut shown: Vec<Entry> = Vec::new();
        let mut i: usize = 0;
        while i < es.len()
            invariant
                i <= es@.len(),
                status == list_status(es@.subrange(0, i as int), entry_name@),
                shown@ == shown_entries(es@.subrange(0, i as int), entry_name@),
            decreases es.len() - i,
        {
            let entry = &es[i];
            assert(es@.subrange(0, i + 1).drop_last() =~= es@.subrange(0, i as int));
            if entry.name[0] == 0x00 {
                status = -1;
            } else if entry.name[0] == 0xE5 || entry.attr & ATTR_VOLUME_ID != 0 {
            } else if self.check_filename(entry, entry_name) {
                status = entry.start_cluster as isize;
            } else if entry_name[0] == 0x20 {
                shown.push(*entry);
            }
            i = i + 1;
        }
        assert(es@.subrange(0, es@.len() as int) =~= es@);
        (status, shown)
    }
}

} // verus!
