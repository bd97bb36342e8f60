//! Userland heap: a first-fit allocator over the 4 MiB region
//! `0xC00_000 .. 0x1000_000` that all processes share.
//!
//! The region is a chain of blocks, each an in-band 8-byte header
//! `[u32 data_size][u32 flags]` (flags bit 0: 1 = free, 0 = used) followed by
//! `data_size` bytes of data. The model of the heap is the list of its blocks,
//! `(offset, data size, free)`, with offsets counted from `HEAP_START`.
use vstd::prelude::*;

verus! {

/// First byte of the heap.
pub const HEAP_START: u64 = 0xC00_000;

/// One past the last byte of the heap.
pub const HEAP_END: u64 = 0x1000_000;

/// Bytes in the heap region.
pub const HEAP_SIZE: usize = 0x400_000;

/// Size of a block header in bytes.
pub const HDR: usize = 8;

/// Flags value of a free block.
pub const FLAG_FREE: u32 = 1;

/// Smallest data size worth splitting off as a block of its own.
pub const MIN_SPLIT: usize = 16;

/// The little-endian `u32` stored at `m[off .. off + 4]`.
pub open spec fn le32(m: Seq<u8>, off: int) -> u32 {
    (m[off] as u32) | ((m[off + 1] as u32) << 8u32) | ((m[off + 2] as u32) << 16u32) | ((
    m[off + 3] as u32) << 24u32)
}

/// `m` with the little-endian bytes of `v` stored at `off`.
pub open spec fn put32(m: Seq<u8>, off: int, v: u32) -> Seq<u8> {
    m.update(off, (v & 0xff) as u8).update(off + 1, ((v >> 8u32) & 0xff) as u8).update(
        off + 2,
        ((v >> 16u32) & 0xff) as u8,
    ).update(off + 3, ((v >> 24u32) & 0xff) as u8)
}

/// `m1` holds the bytes of `m0` everywhere outside `[lo, hi)`.
pub open spec fn agree_outside(m0: Seq<u8>, m1: Seq<u8>, lo: int, hi: int) -> bool {
    &&& m1.len() == m0.len()
    &&& forall|k: int| 0 <= k < m0.len() && !(lo <= k < hi) ==> #[trigger] m1[k] == m0[k]
}

/// The byte-addressed memory that holds the heap region, offset 0 being
/// `HEAP_START`. The default model is an empty sequence; physical RAM,
/// which cannot state its model, keeps it, so `UserHeap::init` cannot be
/// shown to meet its precondition over it, and what is proved over this
/// trait describes the models given here, such as `ArenaMemory`.
pub trait HeapMemory {
    /// The bytes of the region.
    open spec fn bytes(&self) -> Seq<u8> {
        Seq::empty()
    }

    /// Reads the byte at `off`.
    fn read_u8(&self, off: usize) -> (r: u8)
        requires
            off < self.bytes().len(),
        ensures
            r == self.bytes()[off as int],
    ;

    /// Writes the byte at `off`.
    fn write_u8(&mut self, off: usize, v: u8)
        requires
            off < old(self).bytes().len(),
        ensures
            final(self).bytes() == old(self).bytes().update(off as int, v),
    ;

    /// Reads the little-endian `u32` at `off`.
    fn read_u32(&self, off: usize) -> (r: u32)
        requires
            off + 4 <= self.bytes().len(),
        ensures
            r == le32(self.bytes(), off as int),
    ;

    /// Writes `v` little-endian at `off`.
    fn write_u32(&mut self, off: usize, v: u32)
        requires
            off + 4 <= old(self).bytes().len(),
        ensures
            final(self).bytes() == put32(old(self).bytes(), off as int, v),
    ;

    /// Sets `len` bytes from `off` on to zero.
    fn fill_zero(&mut self, off: usize, len: usize)
        requires
            off + len <= old(self).bytes().len(),
        ensures
            agree_outside(old(self).bytes(), final(self).bytes(), off as int, off + len),
            forall|k: int| off <= k < off + len ==> #[trigger] final(self).bytes()[k] == 0,
    ;

    /// Copies `len` bytes from `src` to `dst`; the two ranges do not overlap.
    fn copy_bytes(&mut self, src: usize, dst: usize, len: usize)
        requires
            src + len <= old(self).bytes().len(),
            dst + len <= old(self).bytes().len(),
            src + len <= dst || dst + len <= src,
        ensures
            agree_outside(old(self).bytes(), final(self).bytes(), dst as int, dst + len),
            forall|k: int|
                dst <= k < dst + len ==> #[trigger] final(self).bytes()[k] == old(
                    self,
                ).bytes()[src + k - dst],
    ;
}

/// A heap region held in a vector.
pub struct ArenaMemory {
    pub bytes: Vec<u8>,
}

impl ArenaMemory {
    /// A zero-filled region of `HEAP_SIZE` bytes.
    pub fn new() -> (r: Self)
        ensures
            r.bytes@.len() == HEAP_SIZE,
            forall|k: int| 0 <= k < HEAP_SIZE ==> #[trigger] r.bytes@[k] == 0,
    {
        let mut bytes: Vec<u8> = Vec::new();
        while bytes.len() < HEAP_SIZE
            invariant
                bytes@.len() <= HEAP_SIZE,
                forall|k: int| 0 <= k < bytes@.len() ==> #[trigger] bytes@[k] == 0,
            decreases HEAP_SIZE - bytes@.len(),
        {
            bytes.push(0);
        }
        ArenaMemory { bytes }
    }
}

impl HeapMemory for ArenaMemory {
    open spec fn bytes(&self) -> Seq<u8> {
        self.bytes@
    }

    fn read_u8(&self, off: usize) -> (r: u8) {
        self.bytes[off]
    }

    fn write_u8(&mut self, off: usize, v: u8) {
        self.bytes.set(off, v);
    }

    fn read_u32(&self, off: usize) -> (r: u32) {
        let _len = self.bytes.len();
        (self.bytes[off] as u32) | ((self.bytes[off + 1] as u32) << 8u32) | ((self.bytes[off
            + 2] as u32) << 16u32) | ((self.bytes[off + 3] as u32) << 24u32)
    }

    fn write_u32(&mut self, off: usize, v: u32) {
        let _len = self.bytes.len();
        self.bytes.set(off, (v & 0xff) as u8);
        self.bytes.set(off + 1, ((v >> 8u32) & 0xff) as u8);
        self.bytes.set(off + 2, ((v >> 16u32) & 0xff) as u8);
        self.bytes.set(off + 3, ((v >> 24u32) & 0xff) as u8);
    }

    fn fill_zero(&mut self, off: usize, len: usize) {
        let mut i: usize = 0;
        let ghost before = self.bytes@;
        let _len = self.bytes.len();
        while i < len
            invariant
                before.len() <= usize::MAX,
                off + len <= before.len(),
                i <= len,
                agree_outside(before, self.bytes@, off as int, off + i),
                forall|k: int| off <= k < off + i ==> #[trigger] self.bytes@[k] == 0,
            decreases len - i,
        {
            self.bytes.set(off + i, 0);
            i = i + 1;
        }
    }

    fn copy_bytes(&mut self, src: usize, dst: usize, len: usize) {
        let mut i: usize = 0;
        let ghost before = self.bytes@;
        let _len = self.bytes.len();
        while i < len
            invariant
                before.len() <= usize::MAX,
                src + len <= before.len(),
                dst + len <= before.len(),
                src + len <= dst || dst + len <= src,
                i <= len,
                agree_outside(before, self.bytes@, dst as int, dst + i),
                forall|k: int| dst <= k < dst + i ==> #[trigger] self.bytes@[k] == before[src + k - dst],
            decreases len - i,
        {
            let b = self.bytes[src + i];
            self.bytes.set(dst + i, b);
            i = i + 1;
        }
    }
}

/// Reading back a stored `u32` gives it, and no byte outside its four changes.
pub proof fn lemma_put32(m: Seq<u8>, off: int, v: u32)
    requires
        0 <= off,
        off + 4 <= m.len(),
    ensures
        le32(put32(m, off, v), off) == v,
        agree_outside(m, put32(m, off, v), off, off + 4),
{
    let m2 = put32(m, off, v);
    let b0 = m2[off];
    let b1 = m2[off + 1];
    let b2 = m2[off + 2];
    let b3 = m2[off + 3];
    assert(b0 == (v & 0xff) as u8);
    assert(b1 == ((v >> 8u32) & 0xff) as u8);
    assert(b2 == ((v >> 16u32) & 0xff) as u8);
    assert(b3 == ((v >> 24u32) & 0xff) as u8);
    assert((b0 as u32) | ((b1 as u32) << 8u32) | ((b2 as u32) << 16u32) | ((b3 as u32) << 24u32)
        == v) by (bit_vector)
        requires
            b0 == (v & 0xff) as u8,
            b1 == ((v >> 8u32) & 0xff) as u8,
            b2 == ((v >> 16u32) & 0xff) as u8,
            b3 == ((v >> 24u32) & 0xff) as u8,
    ;
}

/// One past the last byte of block `b`, header included.
pub open spec fn blk_end(b: (int, int, bool)) -> int {
    b.0 + 8 + b.1
}

/// The flags word of a block.
pub open spec fn flag_word(free: bool) -> u32 {
    if free {
        1
    } else {
        0
    }
}

/// The header of block `b` is stored in `m`.
pub open spec fn hdr_ok(m: Seq<u8>, b: (int, int, bool)) -> bool {
    &&& le32(m, b.0) == b.1
    &&& le32(m, b.0 + 4) == flag_word(b.2)
}

/// The blocks lie end to end from offset 0 to `HEAP_SIZE`, each with at
/// least 8 bytes of data.
pub open spec fn tiles(bs: Seq<(int, int, bool)>) -> bool {
    &&& bs.len() >= 1
    &&& bs[0].0 == 0
    &&& blk_end(bs.last()) == HEAP_SIZE
    &&& forall|i: int| 0 <= i < bs.len() ==> #[trigger] bs[i].1 >= 8
    &&& forall|i: int, j: int|
        #![trigger bs[i], bs[j]]
        0 <= i && j == i + 1 && j < bs.len() ==> bs[j].0 == blk_end(bs[i])
}

/// `m` holds the heap whose blocks are `bs`.
pub open spec fn heap_wf(m: Seq<u8>, bs: Seq<(int, int, bool)>) -> bool {
    &&& m.len() == HEAP_SIZE
    &&& tiles(bs)
    &&& forall|i: int| 0 <= i < bs.len() ==> hdr_ok(m, #[trigger] bs[i])
}

/// Every used block of `bs` whose offset is not `ex` has in `m` the data
/// that it has in `base`.
pub open spec fn keeps_used_except(
    base: Seq<u8>,
    m: Seq<u8>,
    bs: Seq<(int, int, bool)>,
    ex: int,
) -> bool {
    forall|p: int, k: int|
        #![trigger bs[p], m[k]]
        0 <= p < bs.len() && !bs[p].2 && bs[p].0 != ex && bs[p].0 + 8 <= k < blk_end(bs[p])
            ==> m[k] == base[k]
}

/// Every used block of `bs` has in `m` the data that it has in `base`.
pub open spec fn keeps_used(base: Seq<u8>, m: Seq<u8>, bs: Seq<(int, int, bool)>) -> bool {
    keeps_used_except(base, m, bs, -1)
}

/// `bs` with the blocks `i .. j` replaced by `mid`.
pub open spec fn splice(
    bs: Seq<(int, int, bool)>,
    i: int,
    j: int,
    mid: Seq<(int, int, bool)>,
) -> Seq<(int, int, bool)> {
    bs.take(i) + mid + bs.skip(j)
}

/// Blocks that lie end to end from `mid[0].0` to `blk_end(mid.last())`.
pub open spec fn chain(mid: Seq<(int, int, bool)>) -> bool {
    &&& mid.len() >= 1
    &&& forall|k: int| 0 <= k < mid.len() ==> #[trigger] mid[k].1 >= 8
    &&& forall|k: int, l: int|
        #![trigger mid[k], mid[l]]
        0 <= k && l == k + 1 && l < mid.len() ==> mid[l].0 == blk_end(mid[k])
}

/// Blocks of a tiling lie in the heap, in order and apart.
pub proof fn lemma_tiles_order(bs: Seq<(int, int, bool)>, i: int, j: int)
    requires
        tiles(bs),
        0 <= i < j < bs.len(),
    ensures
        blk_end(bs[i]) <= bs[j].0,
    decreases j - i,
{
    let a = bs[j - 1];
    let b = bs[j];
    if j > i + 1 {
        lemma_tiles_order(bs, i, j - 1);
    }
}

/// Every block of a tiling lies inside the heap.
pub proof fn lemma_tiles_bounds(bs: Seq<(int, int, bool)>, i: int)
    requires
        tiles(bs),
        0 <= i < bs.len(),
    ensures
        0 <= bs[i].0,
        blk_end(bs[i]) <= HEAP_SIZE,
        bs[i].1 < HEAP_SIZE,
{
    let last = bs.len() - 1;
    let f = bs[0];
    let l = bs[last];
    let b = bs[i];
    if i > 0 {
        lemma_tiles_order(bs, 0, i);
    }
    if i < last {
        lemma_tiles_order(bs, i, last);
    }
}

/// Replacing a run of blocks by blocks that cover the same bytes keeps a tiling.
pub proof fn lemma_splice_tiles(
    bs: Seq<(int, int, bool)>,
    i: int,
    j: int,
    mid: Seq<(int, int, bool)>,
)
    requires
        tiles(bs),
        0 <= i < j <= bs.len(),
        chain(mid),
        mid[0].0 == bs[i].0,
        blk_end(mid.last()) == blk_end(bs[j - 1]),
    ensures
        tiles(splice(bs, i, j, mid)),
        splice(bs, i, j, mid).len() == bs.len() - (j - i) + mid.len(),
        forall|p: int| 0 <= p < i ==> #[trigger] splice(bs, i, j, mid)[p] == bs[p],
        forall|p: int|
            i <= p < i + mid.len() ==> #[trigger] splice(bs, i, j, mid)[p] == mid[p - i],
        forall|p: int|
            i + mid.len() <= p < bs.len() - (j - i) + mid.len() ==> #[trigger] splice(
                bs,
                i,
                j,
                mid,
            )[p] == bs[p - i - mid.len() + j],
{
    let nb = splice(bs, i, j, mid);
    let n = mid.len();
    assert(nb.len() == bs.len() - (j - i) + n);
    assert forall|p: int| 0 <= p < i implies #[trigger] nb[p] == bs[p] by {}
    assert forall|p: int| i <= p < i + n implies #[trigger] nb[p] == mid[p - i] by {}
    assert forall|p: int| i + n <= p < nb.len() implies #[trigger] nb[p] == bs[p - i - n + j] by {}
    assert forall|p: int| 0 <= p < nb.len() implies #[trigger] nb[p].1 >= 8 by {
        if p < i {
            assert(bs[p].1 >= 8);
        } else if p < i + n {
            assert(mid[p - i].1 >= 8);
        } else {
            assert(bs[p - i - n + j].1 >= 8);
        }
    }
    assert forall|p: int, q: int|
        #![trigger nb[p], nb[q]]
        0 <= p && q == p + 1 && q < nb.len() implies nb[q].0 == blk_end(nb[p]) by {
        if q < i {
            assert(bs[q].0 == blk_end(bs[p]));
        } else if q == i {
            assert(nb[q] == mid[0]);
            assert(bs[i].0 == blk_end(bs[p]));
        } else if q < i + n {
            assert(mid[q - i].0 == blk_end(mid[p - i]));
        } else if q == i + n {
            assert(nb[p] == mid[n - 1]);
            assert(nb[q] == bs[j]);
            assert(bs[j].0 == blk_end(bs[j - 1]));
        } else {
            let a = p - i - n + j;
            assert(nb[p] == bs[a]);
            assert(nb[q] == bs[a + 1]);
            assert(bs[a + 1].0 == blk_end(bs[a]));
        }
    }
    if i == 0 {
        assert(nb[0] == mid[0]);
    } else {
        assert(nb[0] == bs[0]);
    }
    if j == bs.len() {
        assert(nb.last() == mid[n - 1]);
    } else {
        assert(nb.last() == bs[bs.len() - 1]);
    }
}

/// Both words of a header written at `off` read back, and nothing else changes.
pub proof fn lemma_hdr_written(m: Seq<u8>, off: int, size: u32, flags: u32)
    requires
        0 <= off,
        off + 8 <= m.len(),
    ensures
        le32(put32(put32(m, off, size), off + 4, flags), off) == size,
        le32(put32(put32(m, off, size), off + 4, flags), off + 4) == flags,
        agree_outside(m, put32(put32(m, off, size), off + 4, flags), off, off + 8),
{
    let m1 = put32(m, off, size);
    let m2 = put32(m1, off + 4, flags);
    lemma_put32(m, off, size);
    lemma_put32(m1, off + 4, flags);
    assert(le32(m2, off) == le32(m1, off));
}

/// The headers of the blocks that a splice keeps survive writes that stay
/// inside the replaced run, and the new headers make the spliced heap whole.
pub proof fn lemma_splice_wf(
    m0: Seq<u8>,
    m1: Seq<u8>,
    bs: Seq<(int, int, bool)>,
    i: int,
    j: int,
    mid: Seq<(int, int, bool)>,
)
    requires
        heap_wf(m0, bs),
        0 <= i < j <= bs.len(),
        chain(mid),
        mid[0].0 == bs[i].0,
        blk_end(mid.last()) == blk_end(bs[j - 1]),
        agree_outside(m0, m1, bs[i].0, blk_end(bs[j - 1])),
        forall|k: int| 0 <= k < mid.len() ==> hdr_ok(m1, #[trigger] mid[k]),
    ensures
        heap_wf(m1, splice(bs, i, j, mid)),
{
    lemma_splice_tiles(bs, i, j, mid);
    let nb = splice(bs, i, j, mid);
    let n = mid.len();
    assert forall|p: int| 0 <= p < nb.len() implies hdr_ok(m1, #[trigger] nb[p]) by {
        if p < i {
            lemma_tiles_order(bs, p, i);
            lemma_tiles_bounds(bs, p);
            assert(hdr_ok(m0, bs[p]));
            let o = bs[p].0;
            assert(m1[o] == m0[o] && m1[o + 1] == m0[o + 1] && m1[o + 2] == m0[o + 2] && m1[o
                + 3] == m0[o + 3]);
            assert(m1[o + 4] == m0[o + 4] && m1[o + 5] == m0[o + 5] && m1[o + 6] == m0[o + 6]
                && m1[o + 7] == m0[o + 7]);
        } else if p < i + n {
            assert(nb[p] == mid[p - i]);
        } else {
            let q = p - i - n + j;
            assert(nb[p] == bs[q]);
            if q > j - 1 {
                lemma_tiles_order(bs, j - 1, q);
            }
            lemma_tiles_bounds(bs, q);
            assert(hdr_ok(m0, bs[q]));
            let o = bs[q].0;
            assert(m1[o] == m0[o] && m1[o + 1] == m0[o + 1] && m1[o + 2] == m0[o + 2] && m1[o
                + 3] == m0[o + 3]);
            assert(m1[o + 4] == m0[o + 4] && m1[o + 5] == m0[o + 5] && m1[o + 6] == m0[o + 6]
                && m1[o + 7] == m0[o + 7]);
        }
    }
}

/// Used blocks that a splice keeps keep their data when the writes stay
/// inside the replaced run; the used blocks it brings in are the excepted one.
pub proof fn lemma_splice_keeps(
    base: Seq<u8>,
    m0: Seq<u8>,
    m1: Seq<u8>,
    bs: Seq<(int, int, bool)>,
    i: int,
    j: int,
    mid: Seq<(int, int, bool)>,
    ex: int,
)
    requires
        tiles(bs),
        m0.len() == HEAP_SIZE,
        0 <= i < j <= bs.len(),
        chain(mid),
        mid[0].0 == bs[i].0,
        blk_end(mid.last()) == blk_end(bs[j - 1]),
        keeps_used_except(base, m0, bs, ex),
        agree_outside(m0, m1, bs[i].0, blk_end(bs[j - 1])),
        forall|k: int| 0 <= k < mid.len() && !(#[trigger] mid[k]).2 ==> mid[k].0 == ex,
    ensures
        keeps_used_except(base, m1, splice(bs, i, j, mid), ex),
{
    lemma_splice_tiles(bs, i, j, mid);
    let nb = splice(bs, i, j, mid);
    let n = mid.len();
    assert forall|p: int, k: int|
        #![trigger nb[p], m1[k]]
        0 <= p < nb.len() && !nb[p].2 && nb[p].0 != ex && nb[p].0 + 8 <= k < blk_end(nb[p])
            implies m1[k] == base[k] by {
        if p < i {
            lemma_tiles_order(bs, p, i);
            lemma_tiles_bounds(bs, p);
            assert(nb[p] == bs[p]);
            assert(m1[k] == m0[k]);
            assert(m0[k] == base[k]);
        } else if p < i + n {
            assert(nb[p] == mid[p - i]);
        } else {
            let q = p - i - n + j;
            assert(nb[p] == bs[q]);
            if q > j - 1 {
                lemma_tiles_order(bs, j - 1, q);
            }
            lemma_tiles_bounds(bs, q);
            assert(m1[k] == m0[k]);
            assert(m0[k] == base[k]);
        }
    }
}

/// Writes inside the data of one block leave every header in place.
pub proof fn lemma_data_write_wf(
    m0: Seq<u8>,
    m1: Seq<u8>,
    bs: Seq<(int, int, bool)>,
    q: int,
    lo: int,
    hi: int,
)
    requires
        heap_wf(m0, bs),
        0 <= q < bs.len(),
        bs[q].0 + 8 <= lo <= hi <= blk_end(bs[q]),
        agree_outside(m0, m1, lo, hi),
    ensures
        heap_wf(m1, bs),
{
    assert forall|p: int| 0 <= p < bs.len() implies hdr_ok(m1, #[trigger] bs[p]) by {
        lemma_tiles_bounds(bs, p);
        if p < q {
            lemma_tiles_order(bs, p, q);
        } else if p > q {
            lemma_tiles_order(bs, q, p);
        }
        assert(hdr_ok(m0, bs[p]));
        let o = bs[p].0;
        assert(m1[o] == m0[o] && m1[o + 1] == m0[o + 1] && m1[o + 2] == m0[o + 2] && m1[o + 3]
            == m0[o + 3]);
        assert(m1[o + 4] == m0[o + 4] && m1[o + 5] == m0[o + 5] && m1[o + 6] == m0[o + 6]
            && m1[o + 7] == m0[o + 7]);
    }
}

/// Writes inside one block that is free or excepted keep every other used
/// block's data.
pub proof fn lemma_data_write_keeps(
    base: Seq<u8>,
    m0: Seq<u8>,
    m1: Seq<u8>,
    bs: Seq<(int, int, bool)>,
    q: int,
    lo: int,
    hi: int,
    ex: int,
)
    requires
        tiles(bs),
        m0.len() == HEAP_SIZE,
        0 <= q < bs.len(),
        bs[q].0 <= lo <= hi <= blk_end(bs[q]),
        bs[q].2 || bs[q].0 == ex,
        keeps_used_except(base, m0, bs, ex),
        agree_outside(m0, m1, lo, hi),
    ensures
        keeps_used_except(base, m1, bs, ex),
{
    assert forall|p: int, k: int|
        #![trigger bs[p], m1[k]]
        0 <= p < bs.len() && !bs[p].2 && bs[p].0 != ex && bs[p].0 + 8 <= k < blk_end(bs[p])
            implies m1[k] == base[k] by {
        lemma_tiles_bounds(bs, p);
        if p < q {
            lemma_tiles_order(bs, p, q);
        } else if p > q {
            lemma_tiles_order(bs, q, p);
        }
        assert(m1[k] == m0[k]);
    }
}

/// The list left after merging every run of adjacent free blocks, scanning
/// from the front: a free block absorbs the free block that follows it.
pub open spec fn coalesced(bs: Seq<(int, int, bool)>) -> Seq<(int, int, bool)>
    decreases bs.len(),
{
    if bs.len() <= 1 {
        bs
    } else if bs[0].2 && bs[1].2 {
        coalesced(seq![(bs[0].0, bs[0].1 + 8 + bs[1].1, true)] + bs.skip(2))
    } else {
        seq![bs[0]] + coalesced(bs.skip(1))
    }
}

/// One merge of the scan: block `i` absorbs block `i + 1`.
proof fn lemma_coalesce_merge(
    base: Seq<u8>,
    m0: Seq<u8>,
    m1: Seq<u8>,
    bs: Seq<(int, int, bool)>,
    i: int,
    ex: int,
    target: Seq<(int, int, bool)>,
)
    requires
        heap_wf(m0, bs),
        keeps_used_except(base, m0, bs, ex),
        0 <= i,
        i + 1 < bs.len(),
        bs[i].2,
        bs[i + 1].2,
        bs[i].1 + 8 + bs[i + 1].1 < 0x1_0000_0000,
        m1 == put32(put32(m0, bs[i].0, (bs[i].1 + 8 + bs[i + 1].1) as u32), bs[i].0 + 4, 1),
        target == bs.take(i) + coalesced(bs.skip(i)),
    ensures
        ({
            let nb = splice(bs, i, i + 2, seq![(bs[i].0, bs[i].1 + 8 + bs[i + 1].1, true)]);
            &&& heap_wf(m1, nb)
            &&& keeps_used_except(base, m1, nb, ex)
            &&& nb.len() == bs.len() - 1
            &&& nb[i] == (bs[i].0, bs[i].1 + 8 + bs[i + 1].1, true)
            &&& target == nb.take(i) + coalesced(nb.skip(i))
        }),
{
    let merged = bs[i].1 + 8 + bs[i + 1].1;
    let mid = seq![(bs[i].0, merged, true)];
    lemma_tiles_bounds(bs, i);
    lemma_tiles_bounds(bs, i + 1);
    assert(bs[i + 1].0 == blk_end(bs[i]));
    lemma_hdr_written(m0, bs[i].0, merged as u32, 1);
    assert(hdr_ok(m1, mid[0]));
    assert(blk_end(mid.last()) == blk_end(bs[i + 1]));
    lemma_splice_wf(m0, m1, bs, i, i + 2, mid);
    lemma_splice_keeps(base, m0, m1, bs, i, i + 2, mid, ex);
    lemma_splice_tiles(bs, i, i + 2, mid);
    let nb = splice(bs, i, i + 2, mid);
    assert(nb[i] == mid[0]);
    assert(nb.take(i) =~= bs.take(i));
    assert(nb.skip(i) =~= mid + bs.skip(i + 2));
    assert(bs.skip(i).skip(2) =~= bs.skip(i + 2));
    assert(bs.skip(i)[0] == bs[i] && bs.skip(i)[1] == bs[i + 1]);
}

/// One step of the scan past block `i`, which absorbs nothing.
proof fn lemma_coalesce_advance(bs: Seq<(int, int, bool)>, i: int, target: Seq<(int, int, bool)>)
    requires
        0 <= i < bs.len(),
        target == bs.take(i) + coalesced(bs.skip(i)),
        !(i + 1 < bs.len() && bs[i].2 && bs[i + 1].2),
    ensures
        target == bs.take(i + 1) + coalesced(bs.skip(i + 1)),
{
    let rest = bs.skip(i);
    if i + 1 < bs.len() {
        assert(rest[0] == bs[i] && rest[1] == bs[i + 1]);
        assert(rest.skip(1) =~= bs.skip(i + 1));
    } else {
        assert(rest =~= seq![bs[i]]);
        assert(bs.skip(i + 1) =~= Seq::<(int, int, bool)>::empty());
    }
    assert(bs.take(i) + seq![bs[i]] =~= bs.take(i + 1));
}

/// `n` rounded up to a multiple of 8.
pub open spec fn round8(n: int) -> int {
    (n + 7) / 8 * 8
}

/// Block `b` is free and holds at least `s` bytes.
pub open spec fn fits(b: (int, int, bool), s: int) -> bool {
    b.2 && b.1 >= s
}

/// Index of the first block from `from` on that fits `s` bytes, or `bs.len()`.
pub open spec fn first_fit(bs: Seq<(int, int, bool)>, s: int, from: int) -> int
    decreases bs.len() - from,
{
    if from < 0 || from >= bs.len() {
        bs.len() as int
    } else if fits(bs[from], s) {
        from
    } else {
        first_fit(bs, s, from + 1)
    }
}

/// The blocks that take the place of a block of `total` data bytes at `off`
/// when `n` of them are handed out: a used block of `n` bytes and a free
/// remainder, or, when the remainder would be too small to split off, one
/// used block of all `total` bytes.
pub open spec fn carved(off: int, total: int, n: int) -> Seq<(int, int, bool)> {
    if total - n >= 24 {
        seq![(off, n, false), (off + 8 + n, total - n - 8, true)]
    } else {
        seq![(off, total, false)]
    }
}

/// What handing out `s` bytes does to a heap with blocks `bs` and bytes `m`:
/// result `r`, blocks `bs2`, bytes `m2`.
pub open spec fn alloc_post(
    bs: Seq<(int, int, bool)>,
    m: Seq<u8>,
    s: int,
    r: u64,
    bs2: Seq<(int, int, bool)>,
    m2: Seq<u8>,
) -> bool {
    let i = first_fit(bs, s, 0);
    if i == bs.len() {
        r == 0 && bs2 == bs && m2 == m
    } else {
        &&& r == HEAP_START + bs[i].0 + 8
        &&& bs2 == splice(bs, i, i + 1, carved(bs[i].0, bs[i].1, s))
        &&& agree_outside(m, m2, bs[i].0, blk_end(bs[i]))
        &&& forall|k: int| bs[i].0 + 8 <= k < bs[i].0 + 8 + s ==> #[trigger] m2[k] == 0
    }
}

/// What `malloc(size)` does: nothing for 0 bytes, else hands out `size`
/// rounded up to a multiple of 8.
pub open spec fn malloc_post(
    bs: Seq<(int, int, bool)>,
    m: Seq<u8>,
    size: int,
    r: u64,
    bs2: Seq<(int, int, bool)>,
    m2: Seq<u8>,
) -> bool {
    if size == 0 {
        r == 0 && bs2 == bs && m2 == m
    } else {
        alloc_post(bs, m, round8(size), r, bs2, m2)
    }
}

/// The first fit, when there is one, is a free block large enough.
pub proof fn lemma_first_fit(bs: Seq<(int, int, bool)>, s: int, from: int)
    requires
        0 <= from <= bs.len(),
    ensures
        from <= first_fit(bs, s, from) <= bs.len(),
        first_fit(bs, s, from) < bs.len() ==> fits(bs[first_fit(bs, s, from)], s),
    decreases bs.len() - from,
{
    if from < bs.len() && !fits(bs[from], s) {
        lemma_first_fit(bs, s, from + 1);
    }
}

/// No block of a tiling holds more than `HEAP_SIZE - 8` bytes.
pub proof fn lemma_first_fit_none(bs: Seq<(int, int, bool)>, s: int, from: int)
    requires
        tiles(bs),
        0 <= from <= bs.len(),
        s > HEAP_SIZE - 8,
    ensures
        first_fit(bs, s, from) == bs.len(),
    decreases bs.len() - from,
{
    if from < bs.len() {
        lemma_tiles_bounds(bs, from);
        lemma_first_fit_none(bs, s, from + 1);
    }
}

/// `n` rounded up to a multiple of 8.
pub fn align8(n: usize) -> (r: usize)
    requires
        n <= HEAP_SIZE,
    ensures
        r == round8(n as int),
        n <= r <= n + 7,
{
    let t = n + 7;
    let r = t & !7usize;
    assert(r == t / 8 * 8) by (bit_vector)
        requires
            t <= 0x400_007,
            r == t & !7usize,
    ;
    r
}

/// Coalescing keeps every used block.
pub proof fn lemma_coalesced_used(bs: Seq<(int, int, bool)>, p: int) -> (q: int)
    requires
        0 <= p < bs.len(),
        !bs[p].2,
    ensures
        0 <= q < coalesced(bs).len(),
        coalesced(bs)[q] == bs[p],
    decreases bs.len(),
{
    if bs.len() <= 1 {
        p
    } else if bs[0].2 && bs[1].2 {
        let nb = seq![(bs[0].0, bs[0].1 + 8 + bs[1].1, true)] + bs.skip(2);
        assert(nb[p - 1] == bs[p]);
        lemma_coalesced_used(nb, p - 1)
    } else if p == 0 {
        0
    } else {
        let rest = bs.skip(1);
        assert(rest[p - 1] == bs[p]);
        let q = lemma_coalesced_used(rest, p - 1);
        assert((seq![bs[0]] + coalesced(rest))[q + 1] == coalesced(rest)[q]);
        q + 1
    }
}

/// Index of the block whose data starts at address `ptr`, searching from
/// `from` on, or `bs.len()`.
pub open spec fn block_of(bs: Seq<(int, int, bool)>, ptr: int, from: int) -> int
    decreases bs.len() - from,
{
    if from < 0 || from >= bs.len() {
        bs.len() as int
    } else if HEAP_START + bs[from].0 + 8 == ptr {
        from
    } else {
        block_of(bs, ptr, from + 1)
    }
}

/// The block found for an address has its data there.
pub proof fn lemma_block_of(bs: Seq<(int, int, bool)>, ptr: int, from: int)
    requires
        0 <= from <= bs.len(),
    ensures
        from <= block_of(bs, ptr, from) <= bs.len(),
        block_of(bs, ptr, from) < bs.len() ==> HEAP_START + bs[block_of(bs, ptr, from)].0 + 8
            == ptr,
    decreases bs.len() - from,
{
    if from < bs.len() && HEAP_START + bs[from].0 + 8 != ptr {
        lemma_block_of(bs, ptr, from + 1);
    }
}

/// No block's data starts outside `HEAP_START + 8 .. HEAP_END`.
pub proof fn lemma_block_of_range(bs: Seq<(int, int, bool)>, ptr: int, from: int)
    requires
        tiles(bs),
        0 <= from <= bs.len(),
        ptr < HEAP_START + 8 || ptr >= HEAP_END,
    ensures
        block_of(bs, ptr, from) == bs.len(),
    decreases bs.len() - from,
{
    if from < bs.len() {
        lemma_tiles_bounds(bs, from);
        lemma_block_of_range(bs, ptr, from + 1);
    }
}

/// What `free(ptr)` does: when a block's data starts at `ptr`, the block is
/// marked free and the heap coalesced; otherwise nothing.
pub open spec fn free_post(
    bs: Seq<(int, int, bool)>,
    m: Seq<u8>,
    ptr: int,
    bs2: Seq<(int, int, bool)>,
    m2: Seq<u8>,
) -> bool {
    let j = block_of(bs, ptr, 0);
    if j == bs.len() {
        bs2 == bs && m2 == m
    } else {
        &&& bs2 == coalesced(bs.update(j, (bs[j].0, bs[j].1, true)))
        &&& keeps_used(m, m2, bs2)
    }
}

/// `bs` with the block at offset `off` marked free.
pub open spec fn mark_free(bs: Seq<(int, int, bool)>, off: int) -> Seq<(int, int, bool)> {
    Seq::new(bs.len(), |x: int| if bs[x].0 == off { (bs[x].0, bs[x].1, true) } else { bs[x] })
}

/// `x` rounded up to a multiple of 8 is within 7 above it.
pub proof fn lemma_round8(x: int)
    requires
        x >= 0,
    ensures
        x <= round8(x) <= x + 7,
        x >= 1 ==> round8(x) >= 8,
{
    assert(x <= (x + 7) / 8 * 8 <= x + 7) by (nonlinear_arith)
        requires
            x >= 0,
    ;
    assert(x >= 1 ==> (x + 7) / 8 * 8 >= 8) by (nonlinear_arith)
        requires
            x >= 0,
    ;
}

/// What resizing block `j` to `n` bytes does to a heap with blocks `bs` and
/// bytes `m`: result `r`, blocks `bs2`, bytes `m2`. A block that shrinks by
/// enough gives its tail back; one that grows takes in the free block after
/// it when that suffices, and otherwise moves to the first fit, taking its
/// data along.
pub open spec fn resize_post(
    bs: Seq<(int, int, bool)>,
    m: Seq<u8>,
    j: int,
    n: int,
    r: u64,
    bs2: Seq<(int, int, bool)>,
    m2: Seq<u8>,
) -> bool {
    let b = bs[j];
    let ptr = HEAP_START + b.0 + 8;
    if n <= b.1 {
        &&& r == ptr
        &&& if b.1 - n >= 24 {
            &&& bs2 == coalesced(splice(bs, j, j + 1, carved(b.0, b.1, n)))
            &&& keeps_used_except(m, m2, bs2, b.0)
            &&& forall|k: int| b.0 + 8 <= k < b.0 + 8 + n ==> #[trigger] m2[k] == m[k]
        } else {
            bs2 == bs && m2 == m
        }
    } else if j + 1 < bs.len() && bs[j + 1].2 && b.1 + 8 + bs[j + 1].1 >= n {
        &&& r == ptr
        &&& bs2 == splice(bs, j, j + 2, carved(b.0, b.1 + 8 + bs[j + 1].1, n))
        &&& agree_outside(m, m2, b.0, blk_end(bs[j + 1]))
        &&& forall|k: int| b.0 + 8 <= k < b.0 + 8 + n ==> #[trigger] m2[k] == m[k]
    } else {
        move_post(bs, m, j, n, r, bs2, m2)
    }
}

/// What moving block `j` to a new block of `n` bytes does: the first fit
/// is handed out, gets the old data and zeros after it, and the old block
/// is freed and the heap coalesced; with no fit, nothing.
pub open spec fn move_post(
    bs: Seq<(int, int, bool)>,
    m: Seq<u8>,
    j: int,
    n: int,
    r: u64,
    bs2: Seq<(int, int, bool)>,
    m2: Seq<u8>,
) -> bool {
    let b = bs[j];
    let k = first_fit(bs, n, 0);
    if k == bs.len() {
        r == 0 && bs2 == bs && m2 == m
    } else {
        let c = bs[k];
        &&& r == HEAP_START + c.0 + 8
        &&& bs2 == coalesced(mark_free(splice(bs, k, k + 1, carved(c.0, c.1, n)), b.0))
        &&& keeps_used_except(m, m2, bs2, c.0)
        &&& forall|t: int| 0 <= t < b.1 ==> #[trigger] m2[c.0 + 8 + t] == m[b.0 + 8 + t]
        &&& forall|t: int| b.1 <= t < n ==> #[trigger] m2[c.0 + 8 + t] == 0
    }
}

/// What `realloc(ptr, new_size)` does to a heap with blocks `bs` and bytes
/// `m`: result `r`, blocks `bs2`, bytes `m2`.
pub open spec fn realloc_post(
    bs: Seq<(int, int, bool)>,
    m: Seq<u8>,
    ptr: int,
    new_size: int,
    r: u64,
    bs2: Seq<(int, int, bool)>,
    m2: Seq<u8>,
) -> bool {
    let j = block_of(bs, ptr, 0);
    if ptr == 0 {
        malloc_post(bs, m, new_size, r, bs2, m2)
    } else if new_size == 0 {
        r == 0 && free_post(bs, m, ptr, bs2, m2)
    } else if j == bs.len() {
        r == 0 && bs2 == bs && m2 == m
    } else {
        resize_post(bs, m, j, round8(new_size), r, bs2, m2)
    }
}

/// Page-table entry bit: present.
pub const PAGE_PRESENT: u64 = 1;

/// Page-table entry bit: writable.
pub const PAGE_WRITE: u64 = 2;

/// Page-table entry bit: reachable from user mode.
pub const PAGE_USER: u64 = 4;

/// Page-directory entry bit: a 2 MiB page.
pub const PAGE_PS: u64 = 0x80;

/// The page-directory entry that maps 2 MiB of the heap at physical `phys`:
/// a fresh user-writable huge page where `entry` is not present, else
/// `entry` opened to user mode and writes.
pub fn heap_page_entry(entry: u64, phys: u64) -> (r: u64)
    ensures
        r == (if entry & PAGE_PRESENT == 0 {
            phys | (PAGE_PRESENT | PAGE_WRITE | PAGE_USER | PAGE_PS)
        } else {
            entry | PAGE_USER | PAGE_WRITE
        }),
{
    let huge = PAGE_PRESENT | PAGE_WRITE | PAGE_USER | PAGE_PS;
    if entry & PAGE_PRESENT == 0 {
        phys | huge
    } else {
        entry | PAGE_USER | PAGE_WRITE
    }
}

/// Offset `a` lies in the data of a used block.
pub open spec fn in_used_data(bs: Seq<(int, int, bool)>, a: int) -> bool {
    exists|p: int| 0 <= p < bs.len() && !bs[p].2 && bs[p].0 + 8 <= a < blk_end(#[trigger] bs[p])
}

/// No two free blocks of `bs` lie side by side.
pub open spec fn no_free_pair(bs: Seq<(int, int, bool)>) -> bool {
    forall|i: int, j: int|
        #![trigger bs[i], bs[j]]
        0 <= i && j == i + 1 && j < bs.len() ==> !(bs[i].2 && bs[j].2)
}

/// Coalescing keeps the first block's offset and state.
pub proof fn lemma_coalesced_head(bs: Seq<(int, int, bool)>)
    requires
        bs.len() >= 1,
    ensures
        coalesced(bs).len() >= 1,
        coalesced(bs)[0].0 == bs[0].0,
        coalesced(bs)[0].2 == bs[0].2,
    decreases bs.len(),
{
    if bs.len() > 1 && bs[0].2 && bs[1].2 {
        lemma_coalesced_head(seq![(bs[0].0, bs[0].1 + 8 + bs[1].1, true)] + bs.skip(2));
    }
}

/// After coalescing no two free blocks lie side by side.
pub proof fn lemma_coalesced_no_free_pair(bs: Seq<(int, int, bool)>)
    ensures
        no_free_pair(coalesced(bs)),
    decreases bs.len(),
{
    if bs.len() <= 1 {
    } else if bs[0].2 && bs[1].2 {
        lemma_coalesced_no_free_pair(seq![(bs[0].0, bs[0].1 + 8 + bs[1].1, true)] + bs.skip(2));
    } else {
        let rest = bs.skip(1);
        let cr = coalesced(rest);
        lemma_coalesced_no_free_pair(rest);
        lemma_coalesced_head(rest);
        let c = coalesced(bs);
        assert(c == seq![bs[0]] + cr);
        assert forall|i: int, j: int|
            #![trigger c[i], c[j]]
            0 <= i && j == i + 1 && j < c.len() implies !(c[i].2 && c[j].2) by {
            if i == 0 {
                assert(c[1] == cr[0]);
                assert(rest[0] == bs[1]);
            } else {
                assert(c[i] == cr[i - 1] && c[j] == cr[j - 1]);
            }
        }
    }
}

/// Coalescing a heap with no two free blocks side by side changes nothing.
pub proof fn lemma_coalesced_id(bs: Seq<(int, int, bool)>)
    requires
        no_free_pair(bs),
    ensures
        coalesced(bs) == bs,
    decreases bs.len(),
{
    if bs.len() > 1 {
        assert(!(bs[0].2 && bs[1].2));
        let rest = bs.skip(1);
        assert forall|i: int, j: int|
            #![trigger rest[i], rest[j]]
            0 <= i && j == i + 1 && j < rest.len() implies !(rest[i].2 && rest[j].2) by {
            assert(rest[i] == bs[i + 1] && rest[j] == bs[j + 1]);
        }
        lemma_coalesced_id(rest);
        assert(seq![bs[0]] + rest =~= bs);
    }
}

/// Coalescing leaves a prefix alone that has no two free blocks side by
/// side and ends in a used block.
pub proof fn lemma_coalesced_prefix(p: Seq<(int, int, bool)>, q: Seq<(int, int, bool)>)
    requires
        p.len() >= 1,
        no_free_pair(p),
        !p.last().2,
    ensures
        coalesced(p + q) == p + coalesced(q),
    decreases p.len(),
{
    let pq = p + q;
    assert(pq[0] == p[0]);
    if p.len() == 1 {
        assert(pq.skip(1) =~= q);
        assert(!pq[0].2);
        assert(seq![p[0]] =~= p);
    } else {
        let p1 = p.skip(1);
        assert(pq[1] == p[1]);
        assert(!(p[0].2 && p[1].2));
        assert(pq.skip(1) =~= p1 + q);
        assert forall|i: int, j: int|
            #![trigger p1[i], p1[j]]
            0 <= i && j == i + 1 && j < p1.len() implies !(p1[i].2 && p1[j].2) by {
            assert(p1[i] == p[i + 1] && p1[j] == p[j + 1]);
        }
        assert(p1.last() == p.last());
        lemma_coalesced_prefix(p1, q);
        assert(seq![p[0]] + (p1 + coalesced(q)) =~= p + coalesced(q));
    }
}

/// `block_of` finds the block at index `i` when no earlier block starts there.
pub proof fn lemma_block_of_at(bs: Seq<(int, int, bool)>, ptr: int, from: int, i: int)
    requires
        0 <= from <= i < bs.len(),
        HEAP_START + bs[i].0 + 8 == ptr,
        forall|p: int| from <= p < i ==> HEAP_START + (#[trigger] bs[p]).0 + 8 != ptr,
    ensures
        block_of(bs, ptr, from) == i,
    decreases i - from,
{
    if from < i {
        lemma_block_of_at(bs, ptr, from + 1, i);
    }
}

/// Freeing the used front part of a split block brings the block back.
proof fn lemma_refree_split(bs: Seq<(int, int, bool)>, i: int, s: int)
    requires
        tiles(bs),
        no_free_pair(bs),
        0 <= i < bs.len(),
        bs[i].2,
        bs[i].1 - s >= 24,
    ensures
        coalesced(
            bs.take(i) + (seq![(bs[i].0, s, true), (bs[i].0 + 8 + s, bs[i].1 - s - 8, true)]
                + bs.skip(i + 1)),
        ) == bs,
{
    let b = bs[i];
    let pre = bs.take(i);
    let a = (b.0, s, true);
    let c = (b.0 + 8 + s, b.1 - s - 8, true);
    let suf = bs.skip(i + 1);
    if i > 0 {
        assert(!(bs[i - 1].2 && bs[i].2));
    }
    if i + 1 < bs.len() {
        assert(!(bs[i].2 && bs[i + 1].2));
    }
    assert forall|x: int, y: int|
        #![trigger suf[x], suf[y]]
        0 <= x && y == x + 1 && y < suf.len() implies !(suf[x].2 && suf[y].2) by {
        assert(suf[x] == bs[x + i + 1] && suf[y] == bs[y + i + 1]);
    }
    lemma_coalesced_id(suf);
    let rest = seq![a, c] + suf;
    assert(rest[0] == a && rest[1] == c);
    assert(rest.skip(2) =~= suf);
    let one = seq![(b.0, b.1, true)] + suf;
    assert(one[0] == (b.0, b.1, true));
    if suf.len() >= 1 {
        assert(suf[0] == bs[i + 1]);
        assert(one[1] == suf[0]);
        assert(one.skip(1) =~= suf);
    } else {
        assert(one =~= seq![(b.0, b.1, true)]);
    }
    assert(coalesced(rest) == coalesced(one));
    assert(coalesced(one) =~= one);
    if i > 0 {
        assert forall|x: int, y: int|
            #![trigger pre[x], pre[y]]
            0 <= x && y == x + 1 && y < pre.len() implies !(pre[x].2 && pre[y].2) by {
            assert(pre[x] == bs[x] && pre[y] == bs[y]);
        }
        assert(pre.last() == bs[i - 1]);
        lemma_coalesced_prefix(pre, rest);
    } else {
        assert(pre + rest =~= rest);
    }
    assert(pre + one =~= bs);
}

/// On a heap with no two free blocks side by side, freeing what `malloc`
/// handed out gives back the blocks the heap had before.
pub proof fn lemma_free_undoes_malloc(
    bs: Seq<(int, int, bool)>,
    m: Seq<u8>,
    size: int,
    r: u64,
    bs2: Seq<(int, int, bool)>,
    m2: Seq<u8>,
    bs3: Seq<(int, int, bool)>,
    m3: Seq<u8>,
)
    requires
        heap_wf(m, bs),
        no_free_pair(bs),
        size > 0,
        malloc_post(bs, m, size, r, bs2, m2),
        r != 0,
        free_post(bs2, m2, r as int, bs3, m3),
    ensures
        bs3 == bs,
{
    let s = round8(size);
    lemma_round8(size);
    let i = first_fit(bs, s, 0);
    lemma_first_fit(bs, s, 0);
    let b = bs[i];
    let mid = carved(b.0, b.1, s);
    lemma_splice_tiles(bs, i, i + 1, mid);
    assert forall|p: int| 0 <= p < i implies HEAP_START + (#[trigger] bs2[p]).0 + 8 != r by {
        lemma_tiles_order(bs, p, i);
    }
    lemma_block_of_at(bs2, r as int, 0, i);
    let freed = bs2.update(i, (b.0, bs2[i].1, true));
    if b.1 - s >= 24 {
        assert(freed =~= bs.take(i) + (seq![(b.0, s, true), (b.0 + 8 + s, b.1 - s - 8, true)]
            + bs.skip(i + 1)));
        lemma_refree_split(bs, i, s);
    } else {
        assert(freed =~= bs);
        lemma_coalesced_id(bs);
    }
}

/// Every block starts at an offset that is a multiple of 8 and holds a
/// multiple of 8 data bytes.
pub open spec fn aligned8(bs: Seq<(int, int, bool)>) -> bool {
    forall|i: int| 0 <= i < bs.len() ==> (#[trigger] bs[i]).0 % 8 == 0 && bs[i].1 % 8 == 0
}

proof fn lemma_round8_aligned(x: int)
    requires
        x >= 0,
    ensures
        round8(x) % 8 == 0,
{
    assert(((x + 7) / 8 * 8) % 8 == 0) by (nonlinear_arith)
        requires
            x >= 0,
    ;
}

proof fn lemma_splice_aligned(bs: Seq<(int, int, bool)>, i: int, j: int, mid: Seq<(int, int, bool)>)
    requires
        aligned8(bs),
        aligned8(mid),
        0 <= i <= j <= bs.len(),
    ensures
        aligned8(splice(bs, i, j, mid)),
{
    let r = splice(bs, i, j, mid);
    assert forall|k: int| 0 <= k < r.len() implies (#[trigger] r[k]).0 % 8 == 0 && r[k].1 % 8 == 0 by {
        if k < i {
            assert(r[k] == bs[k]);
        } else if k < i + mid.len() {
            assert(r[k] == mid[k - i]);
        } else {
            assert(r[k] == bs[k - i - mid.len() + j]);
        }
    }
}

proof fn lemma_carved_aligned(off: int, total: int, n: int)
    requires
        off % 8 == 0,
        total % 8 == 0,
        n % 8 == 0,
    ensures
        aligned8(carved(off, total, n)),
{
}

proof fn lemma_coalesced_aligned(bs: Seq<(int, int, bool)>)
    requires
        aligned8(bs),
    ensures
        aligned8(coalesced(bs)),
    decreases bs.len(),
{
    if bs.len() <= 1 {
    } else if bs[0].2 && bs[1].2 {
        let t = seq![(bs[0].0, bs[0].1 + 8 + bs[1].1, true)] + bs.skip(2);
        assert(aligned8(t)) by {
            assert forall|k: int| 0 <= k < t.len() implies (#[trigger] t[k]).0 % 8 == 0 && t[k].1 % 8 == 0 by {
                if k > 0 {
                    assert(t[k] == bs[k + 1]);
                } else {
                    assert(bs[0].0 % 8 == 0 && bs[1].1 % 8 == 0);
                }
            }
        }
        lemma_coalesced_aligned(t);
    } else {
        let t = bs.skip(1);
        assert(aligned8(t)) by {
            assert forall|k: int| 0 <= k < t.len() implies (#[trigger] t[k]).0 % 8 == 0 && t[k].1 % 8 == 0 by {
                assert(t[k] == bs[k + 1]);
            }
        }
        lemma_coalesced_aligned(t);
        let c = seq![bs[0]] + coalesced(t);
        assert forall|k: int| 0 <= k < c.len() implies (#[trigger] c[k]).0 % 8 == 0 && c[k].1 % 8 == 0 by {
            if k > 0 {
                assert(c[k] == coalesced(t)[k - 1]);
            }
        }
    }
}

proof fn lemma_alloc_aligned(bs: Seq<(int, int, bool)>, m: Seq<u8>, s: int, r: u64, bs2: Seq<(int, int, bool)>, m2: Seq<u8>)
    requires
        aligned8(bs),
        s % 8 == 0,
        alloc_post(bs, m, s, r, bs2, m2),
    ensures
        aligned8(bs2),
        r != 0 ==> r % 8 == 0,
{
    let i = first_fit(bs, s, 0);
    lemma_first_fit(bs, s, 0);
    if i < bs.len() {
        lemma_carved_aligned(bs[i].0, bs[i].1, s);
        lemma_splice_aligned(bs, i, i + 1, carved(bs[i].0, bs[i].1, s));
    }
}

/// The heap hands out 8-aligned addresses: `malloc` on a heap whose blocks
/// are 8-aligned returns 0 or a multiple of 8, and leaves the blocks
/// 8-aligned.
pub proof fn lemma_malloc_aligned(
    bs: Seq<(int, int, bool)>,
    m: Seq<u8>,
    size: int,
    r: u64,
    bs2: Seq<(int, int, bool)>,
    m2: Seq<u8>,
)
    requires
        aligned8(bs),
        size >= 0,
        malloc_post(bs, m, size, r, bs2, m2),
    ensures
        aligned8(bs2),
        r % 8 == 0,
{
    if size != 0 {
        lemma_round8_aligned(size);
        lemma_alloc_aligned(bs, m, round8(size), r, bs2, m2);
    }
}

/// `free` keeps the blocks 8-aligned.
pub proof fn lemma_free_aligned(bs: Seq<(int, int, bool)>, m: Seq<u8>, ptr: int, bs2: Seq<(int, int, bool)>, m2: Seq<u8>)
    requires
        aligned8(bs),
        free_post(bs, m, ptr, bs2, m2),
    ensures
        aligned8(bs2),
{
    let j = block_of(bs, ptr, 0);
    lemma_block_of(bs, ptr, 0);
    if j < bs.len() {
        let u = bs.update(j, (bs[j].0, bs[j].1, true));
        assert(aligned8(u)) by {
            assert forall|k: int| 0 <= k < u.len() implies (#[trigger] u[k]).0 % 8 == 0 && u[k].1 % 8 == 0 by {
                assert(bs[k].0 % 8 == 0 && bs[k].1 % 8 == 0);
            }
        }
        lemma_coalesced_aligned(u);
    }
}

/// `realloc` on a heap whose blocks are 8-aligned returns 0 or a multiple
/// of 8, and leaves the blocks 8-aligned.
pub proof fn lemma_realloc_aligned(
    bs: Seq<(int, int, bool)>,
    m: Seq<u8>,
    ptr: int,
    new_size: int,
    r: u64,
    bs2: Seq<(int, int, bool)>,
    m2: Seq<u8>,
)
    requires
        aligned8(bs),
        new_size >= 0,
        realloc_post(bs, m, ptr, new_size, r, bs2, m2),
    ensures
        aligned8(bs2),
        r % 8 == 0,
{
    let j = block_of(bs, ptr, 0);
    lemma_block_of(bs, ptr, 0);
    if ptr == 0 {
        lemma_malloc_aligned(bs, m, new_size, r, bs2, m2);
    } else if new_size == 0 {
        lemma_free_aligned(bs, m, ptr, bs2, m2);
    } else if j < bs.len() {
        let n = round8(new_size);
        lemma_round8_aligned(new_size);
        let b = bs[j];
        assert(b.0 % 8 == 0 && b.1 % 8 == 0);
        if n <= b.1 {
            if b.1 - n >= 24 {
                lemma_carved_aligned(b.0, b.1, n);
                lemma_splice_aligned(bs, j, j + 1, carved(b.0, b.1, n));
                lemma_coalesced_aligned(splice(bs, j, j + 1, carved(b.0, b.1, n)));
            }
        } else if j + 1 < bs.len() && bs[j + 1].2 && b.1 + 8 + bs[j + 1].1 >= n {
            assert(bs[j + 1].1 % 8 == 0);
            lemma_carved_aligned(b.0, b.1 + 8 + bs[j + 1].1, n);
            lemma_splice_aligned(bs, j, j + 2, carved(b.0, b.1 + 8 + bs[j + 1].1, n));
        } else {
            let k = first_fit(bs, n, 0);
            lemma_first_fit(bs, n, 0);
            if k < bs.len() {
                let c = bs[k];
                lemma_carved_aligned(c.0, c.1, n);
                lemma_splice_aligned(bs, k, k + 1, carved(c.0, c.1, n));
                let sp = splice(bs, k, k + 1, carved(c.0, c.1, n));
                let mf = mark_free(sp, b.0);
                assert(aligned8(mf)) by {
                    assert forall|x: int| 0 <= x < mf.len() implies (#[trigger] mf[x]).0 % 8 == 0 && mf[x].1 % 8 == 0 by {
                        assert(sp[x].0 % 8 == 0 && sp[x].1 % 8 == 0);
                    }
                }
                lemma_coalesced_aligned(mf);
            }
        }
    }
}

/// The fresh heap's one block is 8-aligned.
pub proof fn lemma_init_aligned()
    ensures
        aligned8(seq![(0int, HEAP_SIZE - 8, true)]),
{
}

/// Handing out the front of a run of blocks keeps free blocks apart when the
/// block after the run is used.
proof fn lemma_carve_no_free_pair(
    bs: Seq<(int, int, bool)>,
    i: int,
    j: int,
    off: int,
    total: int,
    n: int,
)
    requires
        no_free_pair(bs),
        0 <= i < j <= bs.len(),
        j < bs.len() ==> !bs[j].2,
    ensures
        no_free_pair(splice(bs, i, j, carved(off, total, n))),
{
    let mid = carved(off, total, n);
    let nb = splice(bs, i, j, mid);
    let l = mid.len();
    assert(nb.len() == bs.len() - (j - i) + l);
    assert forall|x: int, y: int|
        #![trigger nb[x], nb[y]]
        0 <= x && y == x + 1 && y < nb.len() implies !(nb[x].2 && nb[y].2) by {
        if y < i {
            assert(nb[x] == bs[x] && nb[y] == bs[y]);
        } else if y < i + l {
            assert(nb[y] == mid[y - i]);
            if y == i {
                assert(!mid[0].2);
            } else {
                assert(nb[x] == mid[0]);
            }
        } else {
            assert(nb[y] == bs[y - i - l + j]);
            if x < i + l {
                assert(nb[x] == mid[l - 1]);
                assert(y - i - l + j == j);
            } else {
                assert(nb[x] == bs[x - i - l + j]);
            }
        }
    }
}

/// `malloc` keeps free blocks apart.
pub proof fn lemma_malloc_no_free_pair(
    bs: Seq<(int, int, bool)>,
    m: Seq<u8>,
    size: int,
    r: u64,
    bs2: Seq<(int, int, bool)>,
    m2: Seq<u8>,
)
    requires
        heap_wf(m, bs),
        no_free_pair(bs),
        malloc_post(bs, m, size, r, bs2, m2),
    ensures
        no_free_pair(bs2),
{
    let s = round8(size);
    let i = first_fit(bs, s, 0);
    lemma_first_fit(bs, s, 0);
    if size != 0 && i < bs.len() {
        if i + 1 < bs.len() {
            assert(!(bs[i].2 && bs[i + 1].2));
        }
        lemma_carve_no_free_pair(bs, i, i + 1, bs[i].0, bs[i].1, s);
    }
}

/// `free` keeps free blocks apart.
pub proof fn lemma_free_no_free_pair(
    bs: Seq<(int, int, bool)>,
    m: Seq<u8>,
    ptr: int,
    bs2: Seq<(int, int, bool)>,
    m2: Seq<u8>,
)
    requires
        no_free_pair(bs),
        free_post(bs, m, ptr, bs2, m2),
    ensures
        no_free_pair(bs2),
{
    let j = block_of(bs, ptr, 0);
    if j != bs.len() {
        lemma_coalesced_no_free_pair(bs.update(j, (bs[j].0, bs[j].1, true)));
    }
}

/// `realloc` keeps free blocks apart.
pub proof fn lemma_realloc_no_free_pair(
    bs: Seq<(int, int, bool)>,
    m: Seq<u8>,
    ptr: int,
    new_size: int,
    r: u64,
    bs2: Seq<(int, int, bool)>,
    m2: Seq<u8>,
)
    requires
        heap_wf(m, bs),
        no_free_pair(bs),
        realloc_post(bs, m, ptr, new_size, r, bs2, m2),
    ensures
        no_free_pair(bs2),
{
    let j = block_of(bs, ptr, 0);
    let n = round8(new_size);
    if ptr == 0 {
        lemma_malloc_no_free_pair(bs, m, new_size, r, bs2, m2);
    } else if new_size == 0 {
        lemma_free_no_free_pair(bs, m, ptr, bs2, m2);
    } else if j != bs.len() {
        lemma_block_of(bs, ptr, 0);
        let b = bs[j];
        if n <= b.1 {
            if b.1 - n >= 24 {
                lemma_coalesced_no_free_pair(splice(bs, j, j + 1, carved(b.0, b.1, n)));
            }
        } else if j + 1 < bs.len() && bs[j + 1].2 && b.1 + 8 + bs[j + 1].1 >= n {
            if j + 2 < bs.len() {
                assert(!(bs[j + 1].2 && bs[j + 2].2));
            }
            lemma_carve_no_free_pair(bs, j, j + 2, b.0, b.1 + 8 + bs[j + 1].1, n);
        } else {
            let k = first_fit(bs, n, 0);
            if k != bs.len() {
                let c = bs[k];
                lemma_coalesced_no_free_pair(
                    mark_free(splice(bs, k, k + 1, carved(c.0, c.1, n)), b.0),
                );
            }
        }
    }
}

/// What `malloc` hands out lies in `HEAP_START + 8 .. HEAP_END` and is the
/// data of a used block that holds the bytes asked for.
pub proof fn lemma_malloc_block(
    bs: Seq<(int, int, bool)>,
    m: Seq<u8>,
    size: int,
    r: u64,
    bs2: Seq<(int, int, bool)>,
    m2: Seq<u8>,
)
    requires
        heap_wf(m, bs),
        size > 0,
        malloc_post(bs, m, size, r, bs2, m2),
        r != 0,
    ensures
        HEAP_START + 8 <= r,
        r + size <= HEAP_END,
        block_of(bs2, r as int, 0) < bs2.len(),
        !bs2[block_of(bs2, r as int, 0)].2,
        bs2[block_of(bs2, r as int, 0)].1 >= size,
{
    let s = round8(size);
    lemma_round8(size);
    let i = first_fit(bs, s, 0);
    lemma_first_fit(bs, s, 0);
    lemma_tiles_bounds(bs, i);
    let b = bs[i];
    lemma_splice_tiles(bs, i, i + 1, carved(b.0, b.1, s));
    assert forall|p: int| 0 <= p < i implies HEAP_START + (#[trigger] bs2[p]).0 + 8 != r by {
        lemma_tiles_order(bs, p, i);
    }
    lemma_block_of_at(bs2, r as int, 0, i);
}

/// The userland heap over the memory `M`.
pub struct UserHeap<M: HeapMemory> {
    mem: M,
    blocks: Ghost<Seq<(int, int, bool)>>,
}

impl<M: HeapMemory> UserHeap<M> {
    /// The blocks of the heap, in address order: `(offset, data size, free)`.
    pub closed spec fn blocks(&self) -> Seq<(int, int, bool)> {
        self.blocks@
    }

    /// The bytes of the heap region.
    pub closed spec fn bytes(&self) -> Seq<u8> {
        self.mem.bytes()
    }

    /// The memory holds a heap whose blocks are `blocks()`.
    pub open spec fn wf(&self) -> bool {
        heap_wf(self.bytes(), self.blocks())
    }

    /// Reads the header at `off`: data size and flags.
    fn read_hdr(&self, off: usize) -> (r: (u32, u32))
        requires
            off + 8 <= HEAP_SIZE,
            self.bytes().len() == HEAP_SIZE,
        ensures
            r.0 == le32(self.bytes(), off as int),
            r.1 == le32(self.bytes(), off + 4),
    {
        (self.mem.read_u32(off), self.mem.read_u32(off + 4))
    }

    /// Writes the header at `off`.
    fn write_hdr(&mut self, off: usize, size: u32, flags: u32)
        requires
            off + 8 <= HEAP_SIZE,
            old(self).bytes().len() == HEAP_SIZE,
        ensures
            final(self).bytes() == put32(
                put32(old(self).bytes(), off as int, size),
                off + 4,
                flags,
            ),
            final(self).blocks() == old(self).blocks(),
    {
        self.mem.write_u32(off, size);
        self.mem.write_u32(off + 4, flags);
    }

    /// Lays out a fresh heap over `mem`: one free block over the whole region.
    pub fn init(mem: M) -> (r: Self)
        requires
            mem.bytes().len() == HEAP_SIZE,
        ensures
            r.wf(),
            r.blocks() == seq![(0int, HEAP_SIZE - 8, true)],
            aligned8(r.blocks()),
            agree_outside(mem.bytes(), r.bytes(), 0, 8),
    {
        let ghost first: Seq<(int, int, bool)> = seq![(0int, HEAP_SIZE - 8, true)];
        let blocks: Ghost<Seq<(int, int, bool)>> = Ghost(first);
        let mut heap = UserHeap { mem, blocks };
        let ghost m0 = heap.bytes();
        heap.write_hdr(0, (HEAP_SIZE - HDR) as u32, FLAG_FREE);
        proof {
            lemma_hdr_written(m0, 0, (HEAP_SIZE - HDR) as u32, FLAG_FREE);
            assert(hdr_ok(heap.bytes(), heap.blocks()[0]));
        }
        heap
    }

    /// Hands out `n` of the `total` data bytes of the run of blocks
    /// `i .. j` at `off`: writes the header of a used block and, when the
    /// remainder is large enough, of a free block after it.
    #[verifier::rlimit(40)]
    fn place(
        &mut self,
        off: usize,
        total: usize,
        n: usize,
        Ghost(i): Ghost<int>,
        Ghost(j): Ghost<int>,
        Ghost(base): Ghost<Seq<u8>>,
    )
        requires
            old(self).wf(),
            0 <= i < j <= old(self).blocks().len(),
            old(self).blocks()[i].0 == off,
            blk_end(old(self).blocks()[j - 1]) == off + 8 + total,
            8 <= n <= total,
            keeps_used_except(base, old(self).bytes(), old(self).blocks(), off as int),
        ensures
            final(self).wf(),
            final(self).blocks() == splice(
                old(self).blocks(),
                i,
                j,
                carved(off as int, total as int, n as int),
            ),
            keeps_used_except(base, final(self).bytes(), final(self).blocks(), off as int),
            agree_outside(old(self).bytes(), final(self).bytes(), off as int, off + 8 + total),
            forall|k: int|
                off + 8 <= k < off + 8 + n ==> #[trigger] final(self).bytes()[k] == old(
                    self,
                ).bytes()[k],
    {
        let ghost bs = self.blocks();
        let ghost m0 = self.bytes();
        let ghost mid = carved(off as int, total as int, n as int);
        proof {
            lemma_tiles_bounds(bs, i);
            lemma_tiles_bounds(bs, j - 1);
        }
        let rem = total - n;
        if rem >= HDR + MIN_SPLIT {
            self.write_hdr(off + HDR + n, (rem - HDR) as u32, FLAG_FREE);
            let ghost m1 = self.bytes();
            self.write_hdr(off, n as u32, 0);
            proof {
                lemma_hdr_written(m0, off + 8 + n, (rem - 8) as u32, 1);
                lemma_hdr_written(m1, off as int, n as u32, 0);
                let o = off + 8 + n;
                assert(le32(self.bytes(), o) == le32(m1, o));
                assert(le32(self.bytes(), o + 4) == le32(m1, o + 4));
                assert(hdr_ok(self.bytes(), mid[0]));
                assert(hdr_ok(self.bytes(), mid[1]));
            }
        } else {
            self.write_hdr(off, total as u32, 0);
            proof {
                lemma_hdr_written(m0, off as int, total as u32, 0);
                assert(hdr_ok(self.bytes(), mid[0]));
            }
        }
        proof {
            assert(blk_end(mid.last()) == off + 8 + total);
            lemma_splice_wf(m0, self.bytes(), bs, i, j, mid);
            lemma_splice_keeps(base, m0, self.bytes(), bs, i, j, mid, off as int);
        }
        self.blocks = Ghost(splice(bs, i, j, mid));
    }

    /// First fit: hands out `size` bytes of the first free block that holds
    /// them, zeroed, splitting off the rest of the block when it is large
    /// enough; 0 when no free block is large enough.
    fn alloc_inner(&mut self, size: usize) -> (r: u64)
        requires
            old(self).wf(),
            8 <= size <= HEAP_SIZE,
        ensures
            final(self).wf(),
            alloc_post(
                old(self).blocks(),
                old(self).bytes(),
                size as int,
                r,
                final(self).blocks(),
                final(self).bytes(),
            ),
            r != 0 ==> keeps_used_except(
                old(self).bytes(),
                final(self).bytes(),
                final(self).blocks(),
                r - HEAP_START - 8,
            ),
    {
        let ghost bs = self.blocks();
        let ghost m0 = self.bytes();
        let mut addr: usize = 0;
        let ghost mut i: int = 0;
        proof {
            lemma_tiles_bounds(bs, 0);
        }
        while addr + HDR <= HEAP_SIZE
            invariant
                self.wf(),
                self.blocks() == bs,
                self.bytes() == m0,
                bs == old(self).blocks(),
                m0 == old(self).bytes(),
                8 <= size <= HEAP_SIZE,
                0 <= i <= bs.len(),
                addr == (if i < bs.len() {
                    bs[i].0
                } else {
                    HEAP_SIZE as int
                }),
                first_fit(bs, size as int, 0) == first_fit(bs, size as int, i),
                addr <= HEAP_SIZE,
                i < bs.len() ==> addr + 8 <= HEAP_SIZE,
            ensures
                i == bs.len(),
            decreases bs.len() - i,
        {
            proof {
                lemma_tiles_bounds(bs, i);
            }
            let (blk, flags) = self.read_hdr(addr);
            assert(hdr_ok(self.bytes(), bs[i]));
            assert((flags & FLAG_FREE != 0) == (flags == 1)) by (bit_vector)
                requires
                    flags == 0 || flags == 1,
            ;
            if flags & FLAG_FREE != 0 && blk as usize >= size {
                proof {
                    assert(first_fit(bs, size as int, i) == i);
                }
                self.place(addr, blk as usize, size, Ghost(i), Ghost(i + 1), Ghost(m0));
                let ghost m1 = self.bytes();
                self.mem.fill_zero(addr + HDR, size);
                proof {
                    let nb = self.blocks();
                    lemma_splice_tiles(bs, i, i + 1, carved(addr as int, blk as int, size as int));
                    assert(nb[i].0 == addr);
                    lemma_data_write_wf(m1, self.bytes(), nb, i, addr + 8, addr + 8 + size);
                    lemma_data_write_keeps(
                        m0,
                        m1,
                        self.bytes(),
                        nb,
                        i,
                        addr + 8,
                        addr + 8 + size,
                        addr as int,
                    );
                    assert(first_fit(bs, size as int, 0) == i);
                    assert(nb == splice(bs, i, i + 1, carved(bs[i].0, bs[i].1, size as int)));
                    assert(agree_outside(m0, self.bytes(), bs[i].0, blk_end(bs[i])));
                    assert(forall|k: int|
                        bs[i].0 + 8 <= k < bs[i].0 + 8 + size ==> #[trigger] self.bytes()[k]
                            == 0);
                }
                let r = HEAP_START + addr as u64 + HDR as u64;
                assert(r - HEAP_START - 8 == addr);
                return r;
            }
            if blk == 0 {
                break;
            }
            proof {
                if i + 1 < bs.len() {
                    lemma_tiles_bounds(bs, i + 1);
                    assert(bs[i + 1].0 == blk_end(bs[i]));
                } else {
                    assert(bs.last() == bs[i]);
                }
                i = i + 1;
            }
            addr = addr + HDR + blk as usize;
        }
        0
    }

    /// Allocates `size` bytes, zeroed, and returns the address of their
    /// first byte (inside `HEAP_START + 8 .. HEAP_END`), or 0 when `size` is
    /// 0 or no free block holds `size` rounded up to a multiple of 8.
    pub fn malloc(&mut self, size: usize) -> (r: u64)
        requires
            old(self).wf(),
        ensures
            final(self).wf(),
            malloc_post(
                old(self).blocks(),
                old(self).bytes(),
                size as int,
                r,
                final(self).blocks(),
                final(self).bytes(),
            ),
    {
        if size == 0 {
            return 0;
        }
        if size > HEAP_SIZE {
            proof {
                lemma_first_fit_none(self.blocks(), round8(size as int), 0);
            }
            return 0;
        }
        let size = align8(size);
        self.alloc_inner(size)
    }

    /// Looks for the block whose data starts at `ptr`: whether there is one,
    /// and its offset.
    fn find_block(&self, ptr: u64) -> (r: (bool, usize))
        requires
            self.wf(),
        ensures
            r.0 == (block_of(self.blocks(), ptr as int, 0) < self.blocks().len()),
            r.0 ==> r.1 == self.blocks()[block_of(self.blocks(), ptr as int, 0)].0,
    {
        let ghost bs = self.blocks();
        let mut addr: usize = 0;
        let ghost mut i: int = 0;
        proof {
            lemma_tiles_bounds(bs, 0);
        }
        while addr + HDR <= HEAP_SIZE
            invariant
                self.wf(),
                bs == self.blocks(),
                0 <= i <= bs.len(),
                addr == (if i < bs.len() {
                    bs[i].0
                } else {
                    HEAP_SIZE as int
                }),
                block_of(bs, ptr as int, 0) == block_of(bs, ptr as int, i),
                addr <= HEAP_SIZE,
                i < bs.len() ==> addr + 8 <= HEAP_SIZE,
            ensures
                i == bs.len(),
            decreases bs.len() - i,
        {
            proof {
                lemma_tiles_bounds(bs, i);
            }
            if HEAP_START + addr as u64 + HDR as u64 == ptr {
                return (true, addr);
            }
            let (blk, _flags) = self.read_hdr(addr);
            assert(hdr_ok(self.bytes(), bs[i]));
            proof {
                if i + 1 < bs.len() {
                    lemma_tiles_bounds(bs, i + 1);
                    assert(bs[i + 1].0 == blk_end(bs[i]));
                } else {
                    assert(bs.last() == bs[i]);
                }
                i = i + 1;
            }
            addr = addr + HDR + blk as usize;
        }
        (false, 0)
    }

    /// Marks block `j`, at `off`, free.
    fn set_free(
        &mut self,
        off: usize,
        Ghost(j): Ghost<int>,
        Ghost(base): Ghost<Seq<u8>>,
        Ghost(ex): Ghost<int>,
    )
        requires
            old(self).wf(),
            0 <= j < old(self).blocks().len(),
            old(self).blocks()[j].0 == off,
            keeps_used_except(base, old(self).bytes(), old(self).blocks(), ex),
        ensures
            final(self).wf(),
            final(self).blocks() == old(self).blocks().update(
                j,
                (off as int, old(self).blocks()[j].1, true),
            ),
            keeps_used_except(base, final(self).bytes(), final(self).blocks(), ex),
            agree_outside(old(self).bytes(), final(self).bytes(), off + 4, off + 8),
    {
        let ghost bs = self.blocks();
        let ghost m0 = self.bytes();
        proof {
            lemma_tiles_bounds(bs, j);
        }
        self.mem.write_u32(off + 4, FLAG_FREE);
        proof {
            let m1 = self.bytes();
            let mid = seq![(off as int, bs[j].1, true)];
            lemma_put32(m0, off + 4, FLAG_FREE);
            assert(hdr_ok(m0, bs[j]));
            assert(le32(m1, off as int) == le32(m0, off as int));
            assert(hdr_ok(m1, mid[0]));
            lemma_splice_wf(m0, m1, bs, j, j + 1, mid);
            lemma_splice_keeps(base, m0, m1, bs, j, j + 1, mid, ex);
            assert(splice(bs, j, j + 1, mid) =~= bs.update(j, mid[0]));
        }
        self.blocks = Ghost(bs.update(j, (off as int, bs[j].1, true)));
    }

    /// Frees the block whose data starts at `ptr` and merges the free blocks
    /// that then lie side by side; an address at which no block's data
    /// starts changes nothing.
    pub fn free(&mut self, ptr: u64)
        requires
            old(self).wf(),
        ensures
            final(self).wf(),
            free_post(
                old(self).blocks(),
                old(self).bytes(),
                ptr as int,
                final(self).blocks(),
                final(self).bytes(),
            ),
    {
        let ghost bs = self.blocks();
        let ghost m0 = self.bytes();
        if ptr < HEAP_START + HDR as u64 || ptr >= HEAP_END {
            proof {
                lemma_block_of_range(bs, ptr as int, 0);
            }
            return ;
        }
        proof {
            lemma_block_of(bs, ptr as int, 0);
        }
        let (found, off) = self.find_block(ptr);
        if !found {
            return ;
        }
        let ghost j = block_of(bs, ptr as int, 0);
        self.set_free(off, Ghost(j), Ghost(m0), Ghost(-1));
        self.coalesce(Ghost(m0), Ghost(-1));
    }

    /// Resizes block `j`, at `off`, to `n` bytes: in place when it shrinks
    /// or when the free block after it makes up the difference, else by
    /// moving its data to a new block and freeing the old one.
    #[verifier::rlimit(60)]
    fn realloc_inner(&mut self, off: usize, n: usize, Ghost(j): Ghost<int>) -> (r: u64)
        requires
            old(self).wf(),
            0 <= j < old(self).blocks().len(),
            old(self).blocks()[j].0 == off,
            8 <= n <= HEAP_SIZE,
        ensures
            final(self).wf(),
            resize_post(
                old(self).blocks(),
                old(self).bytes(),
                j,
                n as int,
                r,
                final(self).blocks(),
                final(self).bytes(),
            ),
    {
        let ghost bs = self.blocks();
        let ghost m0 = self.bytes();
        proof {
            lemma_tiles_bounds(bs, j);
        }
        let (old_size, _flags) = self.read_hdr(off);
        assert(hdr_ok(m0, bs[j]));
        let old_size = old_size as usize;
        let ptr = HEAP_START + off as u64 + HDR as u64;
        if n <= old_size {
            let rem = old_size - n;
            if rem >= HDR + MIN_SPLIT {
                self.place(off, old_size, n, Ghost(j), Ghost(j + 1), Ghost(m0));
                let ghost m1 = self.bytes();
                let ghost l = self.blocks();
                self.coalesce(Ghost(m0), Ghost(off as int));
                proof {
                    lemma_splice_tiles(bs, j, j + 1, carved(off as int, old_size as int, n as int));
                    assert(l[j] == (off as int, n as int, false));
                    let q = lemma_coalesced_used(l, j);
                    let fin = self.blocks();
                    assert(fin[q] == l[j]);
                    assert forall|k: int| off + 8 <= k < off + 8 + n implies #[trigger] self.bytes()[k]
                        == m0[k] by {
                        assert(fin[q].0 + 8 <= k < blk_end(fin[q]));
                        assert(self.bytes()[k] == m1[k]);
                    }
                }
            }
            return ptr;
        }
        let next = off + HDR + old_size;
        proof {
            if j + 1 < bs.len() {
                lemma_tiles_bounds(bs, j + 1);
                assert(bs[j + 1].0 == blk_end(bs[j]));
            } else {
                assert(bs.last() == bs[j]);
            }
        }
        if next + HDR <= HEAP_SIZE {
            let (next_size, next_flags) = self.read_hdr(next);
            assert(hdr_ok(m0, bs[j + 1]));
            assert((next_flags & FLAG_FREE != 0) == (next_flags == 1)) by (bit_vector)
                requires
                    next_flags == 0 || next_flags == 1,
            ;
            if next_flags & FLAG_FREE != 0 {
                let combined = old_size + HDR + next_size as usize;
                if combined >= n {
                    self.place(off, combined, n, Ghost(j), Ghost(j + 2), Ghost(m0));
                    return ptr;
                }
            }
        }
        self.move_block(off, old_size, n, Ghost(j))
    }

    /// Moves block `j`, at `off` with `old_size` data bytes, to a first-fit
    /// block of `n` bytes: copies the data, frees the old block, coalesces.
    #[verifier::rlimit(100)]
    #[verifier::spinoff_prover]
    fn move_block(&mut self, off: usize, old_size: usize, n: usize, Ghost(j): Ghost<int>) -> (r: u64)
        requires
            old(self).wf(),
            0 <= j < old(self).blocks().len(),
            old(self).blocks()[j].0 == off,
            old(self).blocks()[j].1 == old_size,
            old_size < n <= HEAP_SIZE,
        ensures
            final(self).wf(),
            move_post(
                old(self).blocks(),
                old(self).bytes(),
                j,
                n as int,
                r,
                final(self).blocks(),
                final(self).bytes(),
            ),
    {
        let ghost bs = self.blocks();
        let ghost m0 = self.bytes();
        proof {
            lemma_tiles_bounds(bs, j);
        }
        proof {
            lemma_first_fit(bs, n as int, 0);
            if first_fit(bs, n as int, 0) < bs.len() {
                lemma_tiles_bounds(bs, first_fit(bs, n as int, 0));
            }
        }
        let new_ptr = self.alloc_inner(n);
        if new_ptr == 0 {
            return 0;
        }
        assert(first_fit(bs, n as int, 0) < bs.len());
        let new_off = (new_ptr - HEAP_START - HDR as u64) as usize;
        let ghost k = first_fit(bs, n as int, 0);
        let ghost l = self.blocks();
        let ghost m1 = self.bytes();
        proof {
            lemma_first_fit(bs, n as int, 0);
            assert(k != j);
            lemma_tiles_bounds(bs, k);
            if j < k {
                lemma_tiles_order(bs, j, k);
            } else {
                lemma_tiles_order(bs, k, j);
            }
            lemma_splice_tiles(bs, k, k + 1, carved(bs[k].0, bs[k].1, n as int));
        }
        self.mem.copy_bytes(off + HDR, new_off + HDR, old_size);
        let ghost m2 = self.bytes();
        let ghost cl = carved(bs[k].0, bs[k].1, n as int).len();
        let ghost jj = if j < k {
            j
        } else {
            j + cl - 1
        };
        proof {
            assert(l[k].0 == new_off);
            assert(l[jj] == bs[j]);
            lemma_data_write_wf(m1, m2, l, k, new_off + 8, new_off + 8 + old_size);
            lemma_data_write_keeps(
                m0,
                m1,
                m2,
                l,
                k,
                new_off + 8,
                new_off + 8 + old_size,
                new_off as int,
            );
        }
        self.set_free(off, Ghost(jj), Ghost(m0), Ghost(new_off as int));
        let ghost l2 = self.blocks();
        let ghost m3 = self.bytes();
        proof {
            assert forall|x: int| 0 <= x < l.len() implies #[trigger] mark_free(l, off as int)[x]
                == l2[x] by {
                if x < jj {
                    lemma_tiles_order(l, x, jj);
                } else if x > jj {
                    lemma_tiles_order(l, jj, x);
                }
            }
            assert(mark_free(l, off as int) =~= l2);
        }
        self.coalesce(Ghost(m0), Ghost(new_off as int));
        proof {
            let fin = self.blocks();
            assert(l2[k] == l[k]);
            let q = lemma_coalesced_used(l2, k);
            assert(fin[q] == l[k]);
            assert forall|t: int| 0 <= t < old_size implies #[trigger] self.bytes()[new_off + 8 + t]
                == m0[off + 8 + t] by {
                assert(fin[q].0 + 8 <= new_off + 8 + t < blk_end(fin[q]));
                assert(self.bytes()[new_off + 8 + t] == m3[new_off + 8 + t]);
                assert(m3[new_off + 8 + t] == m2[new_off + 8 + t]);
                assert(m2[new_off + 8 + t] == m1[off + 8 + t]);
                assert(m1[off + 8 + t] == m0[off + 8 + t]);
            }
            assert forall|t: int| old_size <= t < n implies #[trigger] self.bytes()[new_off + 8
                + t] == 0 by {
                assert(fin[q].0 + 8 <= new_off + 8 + t < blk_end(fin[q]));
                assert(self.bytes()[new_off + 8 + t] == m3[new_off + 8 + t]);
                assert(m3[new_off + 8 + t] == m2[new_off + 8 + t]);
                assert(m2[new_off + 8 + t] == m1[new_off + 8 + t]);
            }
        }
        new_ptr
    }

    /// Resizes the block whose data starts at `ptr` to `new_size` bytes and
    /// returns the address of its data, or 0 when that fails. `ptr == 0`
    /// allocates; `new_size == 0` frees `ptr` and returns 0; an address at
    /// which no block's data starts changes nothing and gives 0.
    pub fn realloc(&mut self, ptr: u64, new_size: usize) -> (r: u64)
        requires
            old(self).wf(),
        ensures
            final(self).wf(),
            realloc_post(
                old(self).blocks(),
                old(self).bytes(),
                ptr as int,
                new_size as int,
                r,
                final(self).blocks(),
                final(self).bytes(),
            ),
    {
        let ghost bs = self.blocks();
        if ptr == 0 {
            return self.malloc(new_size);
        }
        if new_size == 0 {
            self.free(ptr);
            return 0;
        }
        proof {
            lemma_block_of(bs, ptr as int, 0);
        }
        let (found, off) = self.find_block(ptr);
        if !found {
            return 0;
        }
        let ghost j = block_of(bs, ptr as int, 0);
        if new_size > HEAP_SIZE {
            proof {
                lemma_round8(new_size as int);
                lemma_tiles_bounds(bs, j);
                if j + 1 < bs.len() {
                    lemma_tiles_bounds(bs, j + 1);
                    assert(bs[j + 1].0 == blk_end(bs[j]));
                }
                lemma_first_fit_none(bs, round8(new_size as int), 0);
            }
            return 0;
        }
        let n = align8(new_size);
        self.realloc_inner(off, n, Ghost(j))
    }

    /// The byte at address `addr`, or `None` outside the heap.
    pub fn load(&self, addr: u64) -> (r: Option<u8>)
        requires
            self.wf(),
        ensures
            r == (if HEAP_START <= addr < HEAP_END {
                Some(self.bytes()[addr - HEAP_START])
            } else {
                None
            }),
    {
        if addr < HEAP_START || addr >= HEAP_END {
            return None;
        }
        Some(self.mem.read_u8((addr - HEAP_START) as usize))
    }

    /// A program's store into memory it was handed: writes `value` at
    /// `addr` when `addr` lies in the data of a used block, and says whether
    /// it did; otherwise nothing changes.
    pub fn store(&mut self, addr: u64, value: u8) -> (r: bool)
        requires
            old(self).wf(),
        ensures
            final(self).wf(),
            final(self).blocks() == old(self).blocks(),
            r == (HEAP_START <= addr && in_used_data(old(self).blocks(), addr - HEAP_START)),
            final(self).bytes() == (if r {
                old(self).bytes().update(addr - HEAP_START, value)
            } else {
                old(self).bytes()
            }),
    {
        let ghost bs = self.blocks();
        if addr < HEAP_START {
            return false;
        }
        let a = addr - HEAP_START;
        let mut off: usize = 0;
        let ghost mut i: int = 0;
        proof {
            lemma_tiles_bounds(bs, 0);
        }
        while off + HDR <= HEAP_SIZE
            invariant
                self.wf(),
                bs == self.blocks(),
                bs == old(self).blocks(),
                self.bytes() == old(self).bytes(),
                a == addr - HEAP_START,
                0 <= i <= bs.len(),
                off == (if i < bs.len() {
                    bs[i].0
                } else {
                    HEAP_SIZE as int
                }),
                off <= HEAP_SIZE,
                i < bs.len() ==> off + 8 <= HEAP_SIZE,
                forall|p: int|
                    0 <= p < i ==> !(!bs[p].2 && bs[p].0 + 8 <= a < blk_end(#[trigger] bs[p])),
            ensures
                i == bs.len(),
            decreases bs.len() - i,
        {
            proof {
                lemma_tiles_bounds(bs, i);
            }
            let (size, flags) = self.read_hdr(off);
            assert(hdr_ok(self.bytes(), bs[i]));
            let end = off + HDR + size as usize;
            if flags == 0 && (off + HDR) as u64 <= a && a < end as u64 {
                let ghost m0 = self.bytes();
                self.mem.write_u8(a as usize, value);
                proof {
                    lemma_data_write_wf(m0, self.bytes(), bs, i, a as int, a + 1);
                    assert(self.bytes() =~= m0.update(a as int, value));
                }
                return true;
            }
            proof {
                if i + 1 < bs.len() {
                    lemma_tiles_bounds(bs, i + 1);
                    assert(bs[i + 1].0 == blk_end(bs[i]));
                } else {
                    assert(bs.last() == bs[i]);
                }
                i = i + 1;
            }
            off = end;
        }
        false
    }

    /// Merges every pair of adjacent free blocks, scanning from the start and
    /// looking at a block again after it has absorbed its successor.
    fn coalesce(&mut self, Ghost(base): Ghost<Seq<u8>>, Ghost(ex): Ghost<int>)
        requires
            old(self).wf(),
            keeps_used_except(base, old(self).bytes(), old(self).blocks(), ex),
        ensures
            final(self).wf(),
            final(self).blocks() == coalesced(old(self).blocks()),
            keeps_used_except(base, final(self).bytes(), final(self).blocks(), ex),
            keeps_used(old(self).bytes(), final(self).bytes(), final(self).blocks()),
    {
        let ghost bs0 = self.blocks();
        let ghost mb = self.bytes();
        let mut addr: usize = 0;
        let ghost mut i: int = 0;
        proof {
            lemma_tiles_bounds(bs0, 0);
        }
        assert(self.blocks().skip(0) =~= self.blocks());
        assert(self.blocks().take(0) + coalesced(self.blocks().skip(0)) =~= coalesced(bs0));
        while addr + HDR <= HEAP_SIZE
            invariant
                self.wf(),
                keeps_used_except(base, self.bytes(), self.blocks(), ex),
                keeps_used(mb, self.bytes(), self.blocks()),
                0 <= i <= self.blocks().len(),
                addr == (if i < self.blocks().len() {
                    self.blocks()[i].0
                } else {
                    HEAP_SIZE as int
                }),
                coalesced(bs0) == self.blocks().take(i) + coalesced(self.blocks().skip(i)),
                addr <= HEAP_SIZE,
                i < self.blocks().len() ==> addr + 8 <= HEAP_SIZE,
            ensures
                i == self.blocks().len(),
            decreases self.blocks().len() - i,
        {
            let ghost bs = self.blocks();
            proof {
                lemma_tiles_bounds(bs, i);
            }
            let (size, flags) = self.read_hdr(addr);
            assert(hdr_ok(self.bytes(), bs[i]));
            if size == 0 {
                break;
            }
            let next = addr + HDR + size as usize;
            assert(flags == 0 || flags == 1);
            assert((flags & FLAG_FREE != 0) == (flags == 1)) by (bit_vector)
                requires
                    flags == 0 || flags == 1,
            ;
            proof {
                if i + 1 < bs.len() {
                    lemma_tiles_bounds(bs, i + 1);
                    assert(bs[i + 1].0 == blk_end(bs[i]));
                } else {
                    assert(bs.last() == bs[i]);
                }
            }
            if flags & FLAG_FREE != 0 && next + HDR <= HEAP_SIZE {
                let (next_size, next_flags) = self.read_hdr(next);
                assert(hdr_ok(self.bytes(), bs[i + 1]));
                assert((next_flags & FLAG_FREE != 0) == (next_flags == 1)) by (bit_vector)
                    requires
                        next_flags == 0 || next_flags == 1,
                ;
                if next_flags & FLAG_FREE != 0 {
                    let merged = size as usize + HDR + next_size as usize;
                    let ghost m0 = self.bytes();
                    self.write_hdr(addr, merged as u32, FLAG_FREE);
                    proof {
                        lemma_coalesce_merge(base, m0, self.bytes(), bs, i, ex, coalesced(bs0));
                        lemma_coalesce_merge(mb, m0, self.bytes(), bs, i, -1, coalesced(bs0));
                    }
                    self.blocks = Ghost(
                        splice(bs, i, i + 2, seq![(bs[i].0, bs[i].1 + 8 + bs[i + 1].1, true)]),
                    );
                    continue ;
                }
            }
            proof {
                lemma_coalesce_advance(bs, i, coalesced(bs0));
                i = i + 1;
            }
            addr = next;
        }
        assert(self.blocks().take(i) =~= self.blocks());
        assert(self.blocks().skip(i) =~= Seq::<(int, int, bool)>::empty());
    }
}

} // verus!
