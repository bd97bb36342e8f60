//! The FAT12 allocation table: twelve-bit entries packed three bytes to two
//! entries, stored across consecutive sectors of the disk.
use vstd::prelude::*;
use crate::fs::block::BlockDevice;

verus! {

/// The disk as a sequence of sectors.
pub open spec fn disk_of<D: BlockDevice>(d: &D) -> Seq<Seq<u8>> {
    Seq::new(d.sector_count(), |l: int| d.sector(l))
}

/// Byte offset of the entry of `cluster` from the start of the table.
pub open spec fn fat_offset(cluster: u16) -> int {
    (cluster as int * 3) / 2
}

/// The table byte at offset `off`, for a table that starts at sector `fat_start`.
pub open spec fn fat_byte(disk: Seq<Seq<u8>>, fat_start: int, off: int) -> u8 {
    disk[fat_start + off / 512][off % 512]
}

/// The twelve-bit value packed in the two bytes `lo`, `hi` that hold the
/// entry of `cluster` (even entries own the low nibble of `hi`, odd ones its high nibble of `lo`).
pub open spec fn fat12_decode(cluster: u16, lo: u8, hi: u8) -> u16 {
    if cluster & 1 == 0 {
        ((((hi as u16) & 0x0F) << 8u16) | (lo as u16)) & 0x0FFF
    } else {
        (((hi as u16) << 4u16) | (((lo as u16) & 0xF0) >> 4u16)) & 0x0FFF
    }
}

/// Value of the table entry of `cluster`.
pub open spec fn fat_get(disk: Seq<Seq<u8>>, fat_start: int, cluster: u16) -> u16 {
    let off = fat_offset(cluster);
    fat12_decode(cluster, fat_byte(disk, fat_start, off), fat_byte(disk, fat_start, off + 1))
}

/// The table sector that holds the first byte of the entry of `cluster`.
pub open spec fn fat_sector_of(fat_start: int, cluster: u16) -> int {
    fat_start + fat_offset(cluster) / 512
}

/// The sector `sec` after storing `value` in the entry of `cluster`; both
/// bytes are written within this one sector (the second byte at
/// `(offset + 1) % 512`).
pub open spec fn fat12_patch(sec: Seq<u8>, cluster: u16, value: u16) -> Seq<u8> {
    let o = fat_offset(cluster) % 512;
    let o1 = (fat_offset(cluster) + 1) % 512;
    if cluster & 1 == 0 {
        let s1 = sec.update(o, (value & 0xFF) as u8);
        s1.update(o1, (s1[o1] & 0xF0) | (((value >> 8u16) as u8) & 0x0F))
    } else {
        let s1 = sec.update(o, (sec[o] & 0x0F) | (((value << 4u16) as u8) & 0xF0));
        s1.update(o1, ((value >> 4u16) & 0xFF) as u8)
    }
}

/// The disk after storing `value` in the table entry of `cluster`.
pub open spec fn fat_set(disk: Seq<Seq<u8>>, fat_start: int, cluster: u16, value: u16) -> Seq<Seq<u8>> {
    let s = fat_sector_of(fat_start, cluster);
    disk.update(s, fat12_patch(disk[s], cluster, value))
}

/// True when the entry of `cluster` lies wholly inside one table sector.
pub open spec fn fat_entry_in_one_sector(cluster: u16) -> bool {
    fat_offset(cluster) % 512 != 511
}

/// True when both bytes of the entry of `cluster` lie on the disk.
pub open spec fn fat_entry_on_disk(disk: Seq<Seq<u8>>, fat_start: int, cluster: u16) -> bool {
    &&& 0 <= fat_start
    &&& fat_start + (fat_offset(cluster) + 1) / 512 < disk.len()
    &&& disk[fat_start + fat_offset(cluster) / 512].len() == 512
    &&& disk[fat_start + (fat_offset(cluster) + 1) / 512].len() == 512
}

proof fn lemma_patch_bytes(sec: Seq<u8>, cluster: u16, value: u16)
    requires
        sec.len() == 512,
    ensures
        fat12_patch(sec, cluster, value).len() == 512,
        forall|i: int|
            0 <= i < 512 && i != fat_offset(cluster) % 512 && i != (fat_offset(cluster) + 1) % 512
                ==> #[trigger] fat12_patch(sec, cluster, value)[i] == sec[i],
{
}

proof fn lemma_decode_after_patch(cluster: u16, value: u16, old_lo: u8, old_hi: u8)
    ensures
        cluster & 1 == 0 ==> fat12_decode(
            cluster,
            (value & 0xFF) as u8,
            (old_hi & 0xF0) | (((value >> 8u16) as u8) & 0x0F),
        ) == value & 0x0FFF,
        cluster & 1 == 1 ==> fat12_decode(
            cluster,
            (old_lo & 0x0F) | (((value << 4u16) as u8) & 0xF0),
            ((value >> 4u16) & 0xFF) as u8,
        ) == value & 0x0FFF,
{
    let even = cluster & 1 == 0;
    let odd = cluster & 1 == 1;
    let a: u16 = ((((((old_hi & 0xF0) | (((value >> 8u16) as u8) & 0x0F))) as u16) & 0x0F) << 8u16
        | (((value & 0xFF) as u8) as u16)) & 0x0FFF;
    assert(a == value & 0x0FFF) by (bit_vector)
        requires
            a == ((((((old_hi & 0xF0) | (((value >> 8u16) as u8) & 0x0F))) as u16) & 0x0F) << 8u16
                | (((value & 0xFF) as u8) as u16)) & 0x0FFF;
    let b: u16 = ((((((value >> 4u16) & 0xFF) as u8) as u16) << 4u16) | (((((old_lo & 0x0F) | (((
    value << 4u16) as u8) & 0xF0)) as u16) & 0xF0) >> 4u16)) & 0x0FFF;
    assert(b == value & 0x0FFF) by (bit_vector)
        requires
            b == ((((((value >> 4u16) & 0xFF) as u8) as u16) << 4u16) | (((((old_lo & 0x0F) | (((
            value << 4u16) as u8) & 0xF0)) as u16) & 0xF0) >> 4u16)) & 0x0FFF;
}

/// Storing a value in the entry of `cluster` is read back from that entry
/// (twelve bits of it), and leaves every other entry as it was, for an
/// entry that does not straddle two table sectors.
pub proof fn lemma_fat_get_after_set(
    disk: Seq<Seq<u8>>,
    fat_start: int,
    cluster: u16,
    value: u16,
    other: u16,
)
    requires
        fat_entry_on_disk(disk, fat_start, cluster),
        fat_entry_on_disk(disk, fat_start, other),
        fat_entry_in_one_sector(cluster),
    ensures
        fat_get(fat_set(disk, fat_start, cluster, value), fat_start, cluster) == value & 0x0FFF,
        other != cluster ==> fat_get(fat_set(disk, fat_start, cluster, value), fat_start, other)
            == fat_get(disk, fat_start, other),
{
    let off = fat_offset(cluster);
    let s = fat_sector_of(fat_start, cluster);
    let sec = disk[s];
    let o = off % 512;
    let new = fat_set(disk, fat_start, cluster, value);
    lemma_patch_bytes(sec, cluster, value);
    assert((off + 1) / 512 == off / 512);
    assert((off + 1) % 512 == o + 1);
    assert(fat_byte(new, fat_start, off) == fat12_patch(sec, cluster, value)[o]);
    assert(fat_byte(new, fat_start, off + 1) == fat12_patch(sec, cluster, value)[o + 1]);
    lemma_decode_after_patch(cluster, value, sec[o], sec[o + 1]);
    if cluster & 1 == 0 {
        assert(cluster % 2 == 0) by (bit_vector) requires cluster & 1 == 0;
    } else {
        assert(cluster & 1 == 1) by (bit_vector) requires cluster & 1 != 0;
        assert(cluster % 2 == 1) by (bit_vector) requires cluster & 1 == 1;
    }
    if other != cluster {
        let off2 = fat_offset(other);
        // bytes outside {off, off + 1} are untouched
        assert forall|p: int| 0 <= p && fat_start + p / 512 < disk.len() && p != off && p != off + 1
            && disk[fat_start + p / 512].len() == 512
            implies #[trigger] fat_byte(new, fat_start, p) == fat_byte(disk, fat_start, p) by {
            if p / 512 != off / 512 {
            } else {
                assert(p % 512 != o && p % 512 != o + 1);
            }
        }
        let lo = fat_byte(disk, fat_start, off2);
        let hi = fat_byte(disk, fat_start, off2 + 1);
        if other & 1 == 0 {
            assert(other % 2 == 0) by (bit_vector) requires other & 1 == 0;
        } else {
            assert(other % 2 == 1) by (bit_vector) requires other & 1 != 0;
            assert(other & 1 == 1) by (bit_vector) requires other & 1 != 0;
        }
        if cluster % 2 == 0 && other == cluster + 1 {
            // the odd neighbour keeps the high nibble of the shared byte
            assert(off2 == off + 1);
            let x = fat12_patch(sec, cluster, value)[o + 1];
            assert(x == (sec[o + 1] & 0xF0) | (((value >> 8u16) as u8) & 0x0F));
            assert(fat_byte(new, fat_start, off2) == x);
            assert(fat_byte(new, fat_start, off2 + 1) == hi);
            let y = sec[o + 1];
            assert(((x as u16) & 0xF0) >> 4u16 == ((y as u16) & 0xF0) >> 4u16) by (bit_vector)
                requires x == (y & 0xF0) | (((value >> 8u16) as u8) & 0x0F);
        } else if cluster % 2 == 1 && other as int == cluster - 1 {
            // the even neighbour keeps the low nibble of the shared byte
            assert(off2 + 1 == off);
            let x = fat12_patch(sec, cluster, value)[o];
            assert(x == (sec[o] & 0x0F) | (((value << 4u16) as u8) & 0xF0));
            assert(fat_byte(new, fat_start, off2 + 1) == x);
            assert(fat_byte(new, fat_start, off2) == lo);
            let y = sec[o];
            assert((x as u16) & 0x0F == (y as u16) & 0x0F) by (bit_vector)
                requires x == (y & 0x0F) | (((value << 4u16) as u8) & 0xF0);
        } else {
            assert(off2 + 1 < off || off2 > off + 1);
        }
    }
}

/// The clusters from 2 up to (not including) `hi` whose table entry is
/// free (0) on `disk`, in increasing order.
pub open spec fn free_list(disk: Seq<Seq<u8>>, fat_start: int, hi: int) -> Seq<u16>
    decreases hi,
{
    if hi <= 2 {
        Seq::empty()
    } else {
        let rest = free_list(disk, fat_start, hi - 1);
        if fat_get(disk, fat_start, (hi - 1) as u16) == 0 {
            rest.push((hi - 1) as u16)
        } else {
            rest
        }
    }
}

/// The free list holds, in increasing order, exactly the free clusters in
/// 2..hi.
pub proof fn lemma_free_list(disk: Seq<Seq<u8>>, fat_start: int, hi: int)
    requires
        hi <= 0x10000,
    ensures
        forall|j: int| 0 <= j < free_list(disk, fat_start, hi).len() ==> {
            &&& 2 <= #[trigger] free_list(disk, fat_start, hi)[j] < hi
            &&& fat_get(disk, fat_start, free_list(disk, fat_start, hi)[j]) == 0
        },
        forall|i: int, j: int| 0 <= i < j < free_list(disk, fat_start, hi).len()
            ==> #[trigger] free_list(disk, fat_start, hi)[i] < #[trigger] free_list(disk, fat_start, hi)[j],
        forall|x: u16| 2 <= x < hi && fat_get(disk, fat_start, x) == 0
            ==> #[trigger] free_list(disk, fat_start, hi).contains(x),
    decreases hi,
{
    if hi > 2 {
        lemma_free_list(disk, fat_start, hi - 1);
        let rest = free_list(disk, fat_start, hi - 1);
        let fl = free_list(disk, fat_start, hi);
        assert forall|x: u16| 2 <= x < hi && fat_get(disk, fat_start, x) == 0 implies #[trigger] fl.contains(x) by {
            if x < hi - 1 {
                assert(rest.contains(x));
                let j = choose|j: int| 0 <= j < rest.len() && rest[j] == x;
                assert(fl[j] == x);
            } else {
                assert(x == (hi - 1) as u16);
                assert(fl[rest.len() as int] == x);
            }
        }
    }
}

/// With the first `k` free clusters of `mid` taken (their entries no
/// longer free) and every other entry as on `mid`, the lowest free cluster
/// `r` of `cur` is the next one of `mid`'s free list.
pub proof fn lemma_next_free(cur: Seq<Seq<u8>>, mid: Seq<Seq<u8>>, fat_start: int, hi: int, k: int, r: u16)
    requires
        hi <= 0x10000,
        0 <= k <= free_list(mid, fat_start, hi).len(),
        forall|x: u16| 2 <= x < hi && !free_list(mid, fat_start, hi).take(k).contains(x)
            ==> #[trigger] fat_get(cur, fat_start, x) == fat_get(mid, fat_start, x),
        forall|j: int| 0 <= j < k ==> fat_get(cur, fat_start, #[trigger] free_list(mid, fat_start, hi)[j]) != 0,
        2 <= r < hi,
        fat_get(cur, fat_start, r) == 0,
        forall|x: u16| 2 <= x < r ==> #[trigger] fat_get(cur, fat_start, x) != 0,
    ensures
        k < free_list(mid, fat_start, hi).len(),
        free_list(mid, fat_start, hi)[k] == r,
{
    let fl = free_list(mid, fat_start, hi);
    lemma_free_list(mid, fat_start, hi);
    if fl.take(k).contains(r) {
        let j = choose|j: int| 0 <= j < k && fl.take(k)[j] == r;
        assert(fl[j] == r);
        assert(false);
    }
    assert(fat_get(mid, fat_start, r) == 0);
    assert(fl.contains(r));
    let j = choose|j: int| 0 <= j < fl.len() && fl[j] == r;
    if j < k {
        assert(fl.take(k)[j] == r);
        assert(false);
    }
    if j > k {
        let y = fl[k];
        assert(y < r);
        assert(!fl.take(k).contains(y)) by {
            if fl.take(k).contains(y) {
                let i = choose|i: int| 0 <= i < k && fl.take(k)[i] == y;
                assert(fl[i] < fl[k]);
            }
        }
        assert(fat_get(cur, fat_start, y) == fat_get(mid, fat_start, y));
        assert(false);
    }
}

/// Entries of clusters below 0xFF8 lie in the first twelve table sectors.
pub proof fn lemma_fat_sectors(c: u16)
    requires
        c < 0xFF8,
    ensures
        0 <= fat_offset(c) / 512 <= 11,
        0 <= (fat_offset(c) + 1) / 512 <= 11,
{
}

/// An entry below 0xFF8 reads the same on two disks whose first twelve
/// table sectors agree.
pub proof fn lemma_fat_get_frame(d1: Seq<Seq<u8>>, d2: Seq<Seq<u8>>, fat_start: int, c: u16)
    requires
        c < 0xFF8,
        forall|i: int| fat_start <= i < fat_start + 12 ==> #[trigger] d1[i] == d2[i],
    ensures
        fat_get(d1, fat_start, c) == fat_get(d2, fat_start, c),
{
    lemma_fat_sectors(c);
    let off = fat_offset(c);
    assert(d1[fat_start + off / 512] == d2[fat_start + off / 512]);
    assert(d1[fat_start + (off + 1) / 512] == d2[fat_start + (off + 1) / 512]);
}

/// A value below 0x1000 keeps all its bits under the twelve-bit mask.
pub proof fn lemma_mask12(x: u16)
    requires
        x < 0x1000,
    ensures
        x & 0x0FFF == x,
{
    assert(x & 0x0FFF == x) by (bit_vector)
        requires x < 0x1000;
}

/// On a disk where every entry below 0xFF8 lies on the disk, storing a
/// value in the entry of `y` (one that lies within one sector) reads back
/// from `y`, leaves every other entry below 0xFF8 and every other sector as
/// they were, and keeps the entries on the disk; the sector written is one
/// of the first twelve of the table.
pub proof fn lemma_fat_set_frame(disk: Seq<Seq<u8>>, fat_start: int, y: u16, v: u16)
    requires
        y < 0xFF8,
        fat_entry_in_one_sector(y),
        forall|x: u16| x < 0xFF8 ==> #[trigger] fat_entry_on_disk(disk, fat_start, x),
    ensures
        fat_get(fat_set(disk, fat_start, y, v), fat_start, y) == v & 0x0FFF,
        forall|x: u16| x < 0xFF8 && x != y
            ==> #[trigger] fat_get(fat_set(disk, fat_start, y, v), fat_start, x) == fat_get(disk, fat_start, x),
        forall|x: u16| x < 0xFF8 ==> #[trigger] fat_entry_on_disk(fat_set(disk, fat_start, y, v), fat_start, x),
        forall|i: int| 0 <= i < disk.len() && i != fat_sector_of(fat_start, y)
            ==> #[trigger] fat_set(disk, fat_start, y, v)[i] == disk[i],
        fat_start <= fat_sector_of(fat_start, y) < fat_start + 12,
        fat_set(disk, fat_start, y, v).len() == disk.len(),
{
    let new = fat_set(disk, fat_start, y, v);
    assert(fat_entry_on_disk(disk, fat_start, y));
    lemma_fat_get_after_set(disk, fat_start, y, v, y);
    assert forall|x: u16| x < 0xFF8 && x != y implies #[trigger] fat_get(new, fat_start, x) == fat_get(disk, fat_start, x) by {
        assert(fat_entry_on_disk(disk, fat_start, x));
        lemma_fat_get_after_set(disk, fat_start, y, v, x);
    }
    let s = fat_sector_of(fat_start, y);
    lemma_patch_bytes(disk[s], y, v);
    assert forall|x: u16| x < 0xFF8 implies #[trigger] fat_entry_on_disk(new, fat_start, x) by {
        assert(fat_entry_on_disk(disk, fat_start, x));
    }
    lemma_fat_sectors(y);
}

} // verus!
