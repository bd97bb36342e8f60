//! Physical memory manager: one bit per 4 KiB frame, set while the frame is in use.
//!
//! 64 bits encode 256 KiB of memory, 512 bits (a row of 8 words) encode
//! 2 MiB, and the 1024 rows cover 2 GiB: frames 0..524287.
use vstd::prelude::*;
use crate::mem::phys::{after_writes, PhysMemory};
use crate::mem::pages::lemma_table_indices;

verus! {

/// Number of frames the bitmap tracks.
pub const FRAME_COUNT: u32 = 524288;

/// Number of 64-bit words of the bitmap.
pub const WORD_COUNT: usize = 8192;

/// Frame size in bytes.
pub const FRAME_SIZE: u64 = 4096;

/// State of a physical page.
pub enum PhysicalPageStatus {
    FREE,
    USED,
    BAD,
}

/// Bit `bit` of `word` is set.
pub open spec fn bit_of(word: u64, bit: int) -> bool {
    (word >> (bit as u64)) & 1 == 1
}

/// Tests bit `bit` of `word`.
pub fn check_bit(word: u64, bit: u32) -> (r: bool)
    requires
        bit < 64,
    ensures
        r == bit_of(word, bit as int),
{
    let r = (word & (1u64 << bit)) != 0;
    assert(((word & (1u64 << bit)) != 0) == ((word >> (bit as u64)) & 1 == 1)) by (bit_vector)
        requires bit < 64;
    r
}

/// Sets bit `bit` of `*word`; the other bits keep their values.
pub fn set_bit(word: &mut u64, bit: u32)
    requires
        bit < 64,
    ensures
        forall|i: int| 0 <= i < 64 ==> #[trigger] bit_of(*final(word), i) == (i == bit || bit_of(*old(word), i)),
{
    let w = *word;
    *word = w | (1u64 << bit);
    assert forall|i: int| 0 <= i < 64 implies #[trigger] bit_of(*word, i) == (i == bit || bit_of(w, i)) by {
        let j = i as u64;
        assert((((w | (1u64 << bit)) >> j) & 1 == 1) == (j == bit as u64 || (w >> j) & 1 == 1)) by (bit_vector)
            requires bit < 64, j < 64;
    }
}

/// Clears bit `bit` of `*word`; the other bits keep their values.
pub fn clear_bit(word: &mut u64, bit: u32)
    requires
        bit < 64,
    ensures
        forall|i: int| 0 <= i < 64 ==> #[trigger] bit_of(*final(word), i) == (i != bit && bit_of(*old(word), i)),
{
    let w = *word;
    *word = w & !(1u64 << bit);
    assert forall|i: int| 0 <= i < 64 implies #[trigger] bit_of(*word, i) == (i != bit && bit_of(w, i)) by {
        let j = i as u64;
        assert((((w & !(1u64 << bit)) >> j) & 1 == 1) == (j != bit as u64 && (w >> j) & 1 == 1)) by (bit_vector)
            requires bit < 64, j < 64;
    }
}

/// The frame bitmap.
pub struct PhysicalBitmap {
    words: Vec<u64>,
}

impl PhysicalBitmap {
    /// The bitmap holds one word per 64 frames.
    pub closed spec fn wf(&self) -> bool {
        self.words@.len() == WORD_COUNT
    }

    /// Frame `f` is marked in use.
    pub closed spec fn spec_used(&self, f: int) -> bool {
        bit_of(self.words@[f / 64], f % 64)
    }

    /// The frames in use: entry `f` is true when frame `f` is in use.
    pub open spec fn view(&self) -> Seq<bool> {
        Seq::new(FRAME_COUNT as nat, |f: int| self.spec_used(f))
    }

    /// A bitmap in which every frame is free.
    pub fn new() -> (r: Self)
        ensures
            r.wf(),
            r@ == Seq::new(FRAME_COUNT as nat, |f: int| false),
    {
        let mut words: Vec<u64> = Vec::new();
        while words.len() < WORD_COUNT
            invariant
                words@.len() <= WORD_COUNT,
                forall|i: int| 0 <= i < words@.len() ==> words@[i] == 0,
            decreases WORD_COUNT - words@.len(),
        {
            words.push(0);
        }
        let r = PhysicalBitmap { words };
        assert forall|f: int| 0 <= f < FRAME_COUNT implies !r.spec_used(f) by {
            let b = (f % 64) as u64;
            assert((0u64 >> b) & 1 == 0) by (bit_vector);
        }
        assert(r@ =~= Seq::new(FRAME_COUNT as nat, |f: int| false));
        r
    }

    /// Some frame is free.
    pub fn has_free_frame(&self) -> (r: bool)
        requires
            self.wf(),
        ensures
            r == exists|g: int| is_lowest_free(self@, g),
    {
        let mut f: u32 = 0;
        while f < FRAME_COUNT
            invariant
                self.wf(),
                f <= FRAME_COUNT,
                forall|g: int| 0 <= g < f ==> #[trigger] self@[g],
            decreases FRAME_COUNT - f,
        {
            if !self.is_used(f) {
                assert(is_lowest_free(self@, f as int));
                return true;
            }
            f = f + 1;
        }
        assert forall|g: int| !is_lowest_free(self@, g) by {
            if is_lowest_free(self@, g) {
                assert(self@[g]);
            }
        }
        false
    }

    /// Frame `f` is in use.
    pub fn is_used(&self, frame_idx: u32) -> (r: bool)
        requires
            self.wf(),
            frame_idx < FRAME_COUNT,
        ensures
            r == self@[frame_idx as int],
    {
        check_bit(self.words[(frame_idx / 64) as usize], frame_idx % 64)
    }
}

proof fn lemma_frame_split(f: u32)
    requires
        f < FRAME_COUNT,
    ensures
        (f / 512) * 8 + (f % 512) / 64 == f / 64,
        (f % 512) % 64 == f % 64,
{
    assert((f / 512) * 8 + (f % 512) / 64 == f / 64) by (bit_vector) requires f < 524288u32;
    assert((f % 512) % 64 == f % 64) by (bit_vector);
}

proof fn lemma_frame_join(row: u64, col: u64, bit: u64)
    requires
        row < 1024,
        col < 8,
        bit < 64,
    ensures
        (row * 512 + col * 64 + bit) / 64 == row * 8 + col,
        (row * 512 + col * 64 + bit) % 64 == bit,
{
    assert((row * 512 + col * 64 + bit) / 64 == row * 8 + col) by (bit_vector)
        requires row < 1024, col < 8, bit < 64;
    assert((row * 512 + col * 64 + bit) % 64 == bit) by (bit_vector)
        requires row < 1024, col < 8, bit < 64;
}

/// Mark a frame by index (0..524287) as used or free; no other frame changes.
pub fn pmm_mark(bitmap: &mut PhysicalBitmap, frame_idx: u32, used: bool)
    requires
        old(bitmap).wf(),
        frame_idx < FRAME_COUNT,
    ensures
        final(bitmap).wf(),
        final(bitmap)@ == old(bitmap)@.update(frame_idx as int, used),
{
    let row = (frame_idx / (8 * 64)) as usize;
    let off = frame_idx % (8 * 64);
    let col = (off / 64) as usize;
    let bit = off % 64;
    let idx = row * 8 + col;
    proof { lemma_frame_split(frame_idx); }
    let mut w = bitmap.words[idx];
    if used {
        set_bit(&mut w, bit);
    } else {
        clear_bit(&mut w, bit);
    }
    bitmap.words.set(idx, w);
    proof {
        assert forall|f: int| 0 <= f < FRAME_COUNT implies #[trigger] bitmap@[f] == old(bitmap)@.update(frame_idx as int, used)[f] by {
            if f / 64 == idx {
                assert(bitmap.spec_used(f) == bit_of(w, f % 64));
            }
        }
        assert(bitmap@ =~= old(bitmap)@.update(frame_idx as int, used));
    }
}

/// `f` is the lowest free frame.
pub open spec fn is_lowest_free(frames: Seq<bool>, f: int) -> bool {
    &&& 0 <= f < frames.len()
    &&& !frames[f]
    &&& forall|g: int| 0 <= g < f ==> #[trigger] frames[g]
}

/// Allocates the lowest free frame: marks it used and returns its physical
/// address; None when every frame is in use.
pub fn pmm_alloc(bitmap: &mut PhysicalBitmap) -> (r: Option<u64>)
    requires
        old(bitmap).wf(),
    ensures
        final(bitmap).wf(),
        r is None ==> final(bitmap)@ == old(bitmap)@ && forall|f: int| 0 <= f < FRAME_COUNT ==> #[trigger] old(bitmap)@[f],
        r matches Some(addr) ==> {
            &&& addr % FRAME_SIZE == 0
            &&& is_lowest_free(old(bitmap)@, (addr / FRAME_SIZE) as int)
            &&& final(bitmap)@ == old(bitmap)@.update((addr / FRAME_SIZE) as int, true)
        },
{
    let mut row: usize = 0;
    while row < 1024
        invariant
            bitmap.wf(),
            bitmap@ == old(bitmap)@,
            row <= 1024,
            forall|g: int| 0 <= g < row * 512 ==> #[trigger] bitmap@[g],
        decreases 1024 - row,
    {
        let mut col: usize = 0;
        while col < 8
            invariant
                bitmap.wf(),
                bitmap@ == old(bitmap)@,
                bitmap.words@.len() == WORD_COUNT,
                row < 1024,
                col <= 8,
                forall|g: int| 0 <= g < row * 512 + col * 64 ==> #[trigger] bitmap@[g],
            decreases 8 - col,
        {
            let w = bitmap.words[row * 8 + col];
            if w != u64::MAX {
                let mut bit: u32 = 0;
                while bit < 64
                    invariant
                        bitmap.wf(),
                        bitmap@ == old(bitmap)@,
                        row < 1024,
                        col < 8,
                        w == bitmap.words@[row * 8 + col],
                        bit <= 64,
                        forall|g: int| 0 <= g < row * 512 + col * 64 + bit ==> #[trigger] bitmap@[g],
                    decreases 64 - bit,
                {
                    let ghost f = row * 512 + col * 64 + bit;
                    proof { lemma_frame_join(row as u64, col as u64, bit as u64); }
                    assert(bitmap@[f] == bit_of(w, bit as int));
                    if !check_bit(w, bit) {
                        let frame_idx = (row as u32) * (8 * 64) + (col as u32) * 64 + bit;
                        pmm_mark(bitmap, frame_idx, true);
                        let addr = (frame_idx as u64) << 12;
                        let x = frame_idx as u64;
                        assert(addr / 4096 == x && addr % 4096 == 0) by (bit_vector)
                            requires addr == x << 12, x < 524288;
                        return Some(addr);
                    }
                    bit = bit + 1;
                }
            } else {
                assert forall|i: int| 0 <= i < 64 implies #[trigger] bitmap@[row * 512 + col * 64 + i] by {
                    let j = i as u64;
                    lemma_frame_join(row as u64, col as u64, j);
                    assert((u64::MAX >> j) & 1 == 1) by (bit_vector) requires j < 64;
                }
                assert forall|g: int| 0 <= g < row * 512 + col * 64 + 64 implies #[trigger] bitmap@[g] by {
                    if g >= row * 512 + col * 64 {
                        let i = g - (row * 512 + col * 64);
                        assert(bitmap@[row * 512 + col * 64 + i]);
                    }
                }
            }
            col = col + 1;
        }
        row = row + 1;
    }
    None
}

/// Frees the frame that holds the physical address `phys`.
pub fn pmm_free(bitmap: &mut PhysicalBitmap, phys: u64)
    requires
        old(bitmap).wf(),
        phys / FRAME_SIZE < FRAME_COUNT,
    ensures
        final(bitmap).wf(),
        final(bitmap)@ == old(bitmap)@.update((phys / FRAME_SIZE) as int, false),
{
    let frame_idx = (phys >> 12) as u32;
    assert(phys >> 12 == phys / 4096) by (bit_vector);
    pmm_mark(bitmap, frame_idx, false);
}

/// Freeing the frame that `pmm_alloc` handed out gives back the bitmap as it
/// was before the allocation.
pub proof fn lemma_free_after_alloc(before: Seq<bool>, addr: u64)
    requires
        is_lowest_free(before, (addr / FRAME_SIZE) as int),
    ensures
        before.update((addr / FRAME_SIZE) as int, true).update((addr / FRAME_SIZE) as int, false) == before,
{
    assert(before.update((addr / FRAME_SIZE) as int, true).update((addr / FRAME_SIZE) as int, false) =~= before);
}

/// The physical-address bits of an entry that points at a table.
pub const ADDR_MASK_4K: u64 = 0x000F_FFFF_FFFF_F000;

/// The physical-address bits of an entry that maps a 2 MiB page.
pub const ADDR_MASK_2M: u64 = 0x000F_FFFF_FFE0_0000;

/// The address `pmm_alloc` hands out for a bitmap with frames `frames`
/// (the lowest free frame's), or 0 when every frame is in use.
pub open spec fn frame_or_zero(frames: Seq<bool>) -> u64 {
    if exists|f: int| is_lowest_free(frames, f) {
        ((choose|f: int| is_lowest_free(frames, f)) * 4096) as u64
    } else {
        0
    }
}

/// The frames after `pmm_alloc` on a bitmap with frames `frames`.
pub open spec fn frames_after_alloc(frames: Seq<bool>) -> Seq<bool> {
    if exists|f: int| is_lowest_free(frames, f) {
        frames.update(choose|f: int| is_lowest_free(frames, f), true)
    } else {
        frames
    }
}

/// There is only one lowest free frame.
proof fn lemma_lowest_free_unique(frames: Seq<bool>, f: int, g: int)
    requires
        is_lowest_free(frames, f),
        is_lowest_free(frames, g),
    ensures
        f == g,
{
    if f < g {
        assert(frames[f]);
    } else if g < f {
        assert(frames[g]);
    }
}

/// `pmm_alloc`, with the frame's address taken as 0 when there is none (the
/// address the framebuffer mapping then writes through).
fn alloc_or_zero(bitmap: &mut PhysicalBitmap) -> (r: u64)
    requires
        old(bitmap).wf(),
    ensures
        final(bitmap).wf(),
        r == frame_or_zero(old(bitmap)@),
        final(bitmap)@ == frames_after_alloc(old(bitmap)@),
        r % 4096 == 0,
        r < FRAME_COUNT * 4096,
{
    match pmm_alloc(bitmap) {
        Some(p) => {
            proof {
                let f = (p / FRAME_SIZE) as int;
                let g = choose|g: int| is_lowest_free(old(bitmap)@, g);
                lemma_lowest_free_unique(old(bitmap)@, f, g);
            }
            p
        },
        None => {
            proof {
                if exists|f: int| is_lowest_free(old(bitmap)@, f) {
                    let f = choose|f: int| is_lowest_free(old(bitmap)@, f);
                    assert(old(bitmap)@[f]);
                }
            }
            0
        },
    }
}

/// The writes that mapping the framebuffer makes, in order: P4 entry
/// `(virt >> 39) & 0x1FF` to the frame `l3`, entry `(virt >> 30) & 0x1FF` of
/// that table to the frame `l2`, and four 2 MiB entries from
/// `(virt >> 21) & 0x1FF` on in that one to `phys` onwards.
pub open spec fn framebuffer_writes(p4: u64, phys: u64, virt: u64, l3: u64, l2: u64) -> Seq<(int, u64)> {
    let i4 = ((virt >> 39u64) & 0x1FF) as int;
    let i3 = ((virt >> 30u64) & 0x1FF) as int;
    let i2 = ((virt >> 21u64) & 0x1FF) as int;
    seq![
        (p4 + 8 * i4, (l3 & ADDR_MASK_4K) | 3),
        (l3 + 8 * i3, (l2 & ADDR_MASK_4K) | 3),
        (l2 + 8 * i2, ((phys) & ADDR_MASK_2M) | 0x83),
        (l2 + 8 * (i2 + 1), (((phys + 0x200000) as u64) & ADDR_MASK_2M) | 0x83),
        (l2 + 8 * (i2 + 2), (((phys + 0x400000) as u64) & ADDR_MASK_2M) | 0x83),
        (l2 + 8 * (i2 + 3), (((phys + 0x600000) as u64) & ADDR_MASK_2M) | 0x83),
    ]
}

/// Maps 8 MiB of framebuffer at `phys` to `virt` with four 2 MiB pages,
/// through two new tables taken from the frame allocator and linked from
/// the P4 at `p4` (frame 0 stands in for one the allocator cannot give).
pub fn map_framebuffer<M: PhysMemory>(
    mem: &mut M,
    bitmap: &mut PhysicalBitmap,
    p4: u64,
    phys: u64,
    virt: u64,
)
    requires
        old(bitmap).wf(),
        p4 % 8 == 0,
        p4 + 4096 <= u64::MAX,
        phys + 0x600000 <= u64::MAX,
    ensures
        final(bitmap).wf(),
        final(bitmap)@ == frames_after_alloc(frames_after_alloc(old(bitmap)@)),
        forall|a: int|
            #[trigger] final(mem).word(a) == after_writes(
                |x: int| old(mem).word(x),
                framebuffer_writes(
                    p4,
                    phys,
                    virt,
                    frame_or_zero(old(bitmap)@),
                    frame_or_zero(frames_after_alloc(old(bitmap)@)),
                ),
                a,
            ),
{
    let ghost m0 = |x: int| mem.word(x);
    let p4_idx = (virt >> 39u64) & 0x1FF;
    let p3_idx = (virt >> 30u64) & 0x1FF;
    let p2_idx = (virt >> 21u64) & 0x1FF;
    proof {
        lemma_table_indices(virt);
    }
    let l3_frame = alloc_or_zero(bitmap);
    let l2_frame = alloc_or_zero(bitmap);
    let ghost ws = framebuffer_writes(p4, phys, virt, l3_frame, l2_frame);
    mem.write64(p4 + 8 * p4_idx, (l3_frame & ADDR_MASK_4K) | 3);
    assert(ws.take(1).last() == ws[0]);
    assert(ws[0] == (p4 + 8 * p4_idx, (l3_frame & ADDR_MASK_4K) | 3));
    assert forall|a: int| #[trigger] mem.word(a) == after_writes(m0, ws.take(1), a) by {
        assert(ws.take(1).drop_last() =~= Seq::<(int, u64)>::empty());
        assert(after_writes(m0, Seq::<(int, u64)>::empty(), a) == m0(a));
    }
    mem.write64(l3_frame + 8 * p3_idx, (l2_frame & ADDR_MASK_4K) | 3);
    assert forall|a: int| #[trigger] mem.word(a) == after_writes(m0, ws.take(2), a) by {
        assert(ws.take(2).drop_last() =~= ws.take(1));
    }
    let mut i: u64 = 0;
    while i < 4
        invariant
            i <= 4,
            p2_idx < 512,
            l2_frame % 4096 == 0,
            l2_frame < FRAME_COUNT * 4096,
            phys + 0x600000 <= u64::MAX,
            ws == framebuffer_writes(p4, phys, virt, l3_frame, l2_frame),
            p2_idx == (virt >> 21u64) & 0x1FF,
            forall|a: int| #[trigger] mem.word(a) == after_writes(m0, ws.take(2 + i), a),
        decreases 4 - i,
    {
        mem.write64(l2_frame + 8 * (p2_idx + i), ((phys + i * 0x200000) & ADDR_MASK_2M) | 0x83);
        assert forall|a: int| #[trigger] mem.word(a) == after_writes(m0, ws.take(3 + i), a) by {
            assert(ws.take(3 + i).drop_last() =~= ws.take(2 + i));
            assert(ws.take(3 + i).last() == ws[2 + i]);
        }
        i = i + 1;
    }
    assert(ws.take(6) =~= ws);
}

/// Marks frame 0 and every frame of the kernel image, from the frame of
/// `kernel_start` to that of `kernel_end` inclusive, as used.
pub fn reserve_initial_frames(bitmap: &mut PhysicalBitmap, kernel_start: u64, kernel_end: u64)
    requires
        old(bitmap).wf(),
        kernel_end / FRAME_SIZE < FRAME_COUNT,
    ensures
        final(bitmap).wf(),
        final(bitmap)@ == Seq::new(
            FRAME_COUNT as nat,
            |f: int|
                old(bitmap)@[f] || f == 0 || (kernel_start / FRAME_SIZE <= f <= kernel_end
                    / FRAME_SIZE),
        ),
{
    pmm_mark(bitmap, 0, true);
    let kstart = kernel_start >> 12;
    let kend = kernel_end >> 12;
    assert(kstart == kernel_start / 4096 && kend == kernel_end / 4096) by (bit_vector)
        requires
            kstart == kernel_start >> 12,
            kend == kernel_end >> 12,
    ;
    let mut f = kstart;
    assert(bitmap@ =~= Seq::new(
        FRAME_COUNT as nat,
        |g: int| old(bitmap)@[g] || g == 0 || (kstart <= g < f),
    ));
    if kstart > kend {
        assert(bitmap@ =~= Seq::new(
            FRAME_COUNT as nat,
            |g: int| old(bitmap)@[g] || g == 0 || (kernel_start / FRAME_SIZE <= g <= kernel_end / FRAME_SIZE),
        ));
        return;
    }
    while f <= kend
        invariant
            bitmap.wf(),
            kstart == kernel_start / FRAME_SIZE,
            kend == kernel_end / FRAME_SIZE,
            kend < FRAME_COUNT,
            kstart <= f,
            f <= kend + 1,
            bitmap@ == Seq::new(
                FRAME_COUNT as nat,
                |g: int| old(bitmap)@[g] || g == 0 || (kstart <= g < f),
            ),
        decreases kend + 1 - f,
    {
        let ghost before = bitmap@;
        pmm_mark(bitmap, f as u32, true);
        assert(bitmap@ =~= Seq::new(
            FRAME_COUNT as nat,
            |g: int| old(bitmap)@[g] || g == 0 || (kstart <= g < f + 1),
        ));
        f = f + 1;
    }
    assert(bitmap@ =~= Seq::new(
        FRAME_COUNT as nat,
        |g: int| old(bitmap)@[g] || g == 0 || (kernel_start / FRAME_SIZE <= g <= kernel_end / FRAME_SIZE),
    ));
}

/// The writes of one step of the physical map at `phys`, mapped at `virt`:
/// P4 entry to the frame `l3`, its entry to the frame `l2`, and that
/// table's entry to the 2 MiB page at `phys`.
pub open spec fn physmap_writes(p4: u64, phys: u64, virt: u64, l3: u64, l2: u64) -> Seq<(int, u64)> {
    let i4 = ((virt >> 39u64) & 0x1FF) as int;
    let i3 = ((virt >> 30u64) & 0x1FF) as int;
    let i2 = ((virt >> 21u64) & 0x1FF) as int;
    seq![
        (p4 + 8 * i4, (l3 & ADDR_MASK_4K) | 3),
        (l3 + 8 * i3, (l2 & ADDR_MASK_4K) | 3),
        (l2 + 8 * i2, (phys & ADDR_MASK_2M) | 0x83),
    ]
}

/// The first `k` steps of the physical map from frames `frames`: the
/// frames after them, the writes they make in order, and for each step
/// whether each of its two frames could be had.
pub open spec fn physmap_run(frames: Seq<bool>, p4: u64, base: u64, k: nat) -> (
    Seq<bool>,
    Seq<(int, u64)>,
    Seq<(bool, bool)>,
)
    decreases k,
{
    if k == 0 {
        (frames, Seq::empty(), Seq::empty())
    } else {
        let (f, ws, oks) = physmap_run(frames, p4, base, (k - 1) as nat);
        let phys = ((k - 1) * 0x20_0000) as u64;
        let f1 = frames_after_alloc(f);
        let l3 = frame_or_zero(f);
        let l2 = frame_or_zero(f1);
        (
            frames_after_alloc(f1),
            ws + physmap_writes(p4, phys, (base + phys) as u64, l3, l2),
            oks.push(
                (
                    exists|g: int| is_lowest_free(f, g),
                    exists|g: int| is_lowest_free(f1, g),
                ),
            ),
        )
    }
}

/// The run of `k` steps reports `k` steps.
proof fn lemma_physmap_len(frames: Seq<bool>, p4: u64, base: u64, k: nat)
    ensures
        physmap_run(frames, p4, base, k).2.len() == k,
    decreases k,
{
    if k > 0 {
        lemma_physmap_len(frames, p4, base, (k - 1) as nat);
    }
}

/// One step of the physical map as it was made: the physical address, the
/// virtual address, and whether each of the two table frames could be had.
pub struct PhysmapStep {
    pub phys: u64,
    pub virt: u64,
    pub l3_found: bool,
    pub l2_found: bool,
}

/// `pmm_alloc`, saying whether a frame was found and taking 0 when none was.
fn alloc_frame(bitmap: &mut PhysicalBitmap) -> (r: (u64, bool))
    requires
        old(bitmap).wf(),
    ensures
        final(bitmap).wf(),
        r.0 == frame_or_zero(old(bitmap)@),
        r.1 == exists|g: int| is_lowest_free(old(bitmap)@, g),
        final(bitmap)@ == frames_after_alloc(old(bitmap)@),
        r.0 % 4096 == 0,
        r.0 < FRAME_COUNT * 4096,
{
    let found = bitmap.has_free_frame();
    let a = alloc_or_zero(bitmap);
    (a, found)
}

/// Maps physical memory from 0 up to `phys_limit` (rounded down to 2 MiB)
/// at `base` onwards with 2 MiB pages: for each page two table frames are
/// taken from the allocator (frame 0 standing in for one it cannot give)
/// and linked from the P4 at `p4`. Returns the steps in order.
pub fn build_physmap_2m<M: PhysMemory>(
    mem: &mut M,
    bitmap: &mut PhysicalBitmap,
    p4: u64,
    phys_limit: u64,
    base: u64,
) -> (r: Vec<PhysmapStep>)
    requires
        old(bitmap).wf(),
        p4 % 8 == 0,
        p4 + 4096 <= u64::MAX,
        base + phys_limit <= u64::MAX,
    ensures
        final(bitmap).wf(),
        ({
            let n = (phys_limit / 0x20_0000) as nat;
            let run = physmap_run(old(bitmap)@, p4, base, n);
            &&& final(bitmap)@ == run.0
            &&& forall|a: int| #[trigger]
                final(mem).word(a) == after_writes(|x: int| old(mem).word(x), run.1, a)
            &&& r@.len() == n
            &&& forall|k: int|
                0 <= k < n ==> {
                    &&& (#[trigger] r@[k]).phys == k * 0x20_0000
                    &&& r@[k].virt == base + k * 0x20_0000
                    &&& r@[k].l3_found == run.2[k].0
                    &&& r@[k].l2_found == run.2[k].1
                }
        }),
{
    let ghost m0 = |x: int| mem.word(x);
    let ghost f0 = bitmap@;
    let limit = phys_limit & !0x1F_FFFFu64;
    assert(limit == phys_limit / 0x20_0000 * 0x20_0000 && limit <= phys_limit) by (bit_vector)
        requires
            limit == phys_limit & !0x1F_FFFFu64,
    ;
    let mut steps: Vec<PhysmapStep> = Vec::new();
    let mut phys: u64 = 0;
    let ghost mut k: nat = 0;
    let ghost mut ws: Seq<(int, u64)> = Seq::empty();
    while phys < limit
        invariant
            bitmap.wf(),
            p4 % 8 == 0,
            p4 + 4096 <= u64::MAX,
            base + phys_limit <= u64::MAX,
            limit == phys_limit / 0x20_0000 * 0x20_0000,
            limit <= phys_limit,
            phys == k * 0x20_0000,
            phys <= limit,
            physmap_run(f0, p4, base, k).0 == bitmap@,
            physmap_run(f0, p4, base, k).1 == ws,
            steps@.len() == k,
            forall|j: int|
                0 <= j < k ==> {
                    &&& (#[trigger] steps@[j]).phys == j * 0x20_0000
                    &&& steps@[j].virt == base + j * 0x20_0000
                    &&& steps@[j].l3_found == physmap_run(f0, p4, base, k).2[j].0
                    &&& steps@[j].l2_found == physmap_run(f0, p4, base, k).2[j].1
                },
            forall|a: int| #[trigger] mem.word(a) == after_writes(m0, ws, a),
        decreases limit - phys,
    {
        let virt = base + phys;
        let p4_idx = (virt >> 39u64) & 0x1FF;
        let p3_idx = (virt >> 30u64) & 0x1FF;
        let p2_idx = (virt >> 21u64) & 0x1FF;
        proof {
            lemma_table_indices(virt);
        }
        let ghost prev = physmap_run(f0, p4, base, k);
        let (l3_frame, l3_found) = alloc_frame(bitmap);
        let (l2_frame, l2_found) = alloc_frame(bitmap);
        let ghost step = physmap_writes(p4, phys, virt, l3_frame, l2_frame);
        let ghost w0 = ws;
        mem.write64(p4 + 8 * p4_idx, (l3_frame & ADDR_MASK_4K) | 3);
        let ghost w1 = w0.push(step[0]);
        assert forall|a: int| #[trigger] mem.word(a) == after_writes(m0, w1, a) by {
            assert(w1.drop_last() =~= w0);
        }
        mem.write64(l3_frame + 8 * p3_idx, (l2_frame & ADDR_MASK_4K) | 3);
        let ghost w2 = w1.push(step[1]);
        assert forall|a: int| #[trigger] mem.word(a) == after_writes(m0, w2, a) by {
            assert(w2.drop_last() =~= w1);
        }
        mem.write64(l2_frame + 8 * p2_idx, (phys & ADDR_MASK_2M) | 0x83);
        let ghost w3 = w2.push(step[2]);
        assert forall|a: int| #[trigger] mem.word(a) == after_writes(m0, w3, a) by {
            assert(w3.drop_last() =~= w2);
        }
        proof {
            ws = w3;
            assert(ws =~= prev.1 + step);
        }
        steps.push(PhysmapStep { phys, virt, l3_found, l2_found });
        proof {
            lemma_physmap_len(f0, p4, base, k);
            let next = physmap_run(f0, p4, base, k + 1);
            assert(next.2 == prev.2.push((l3_found, l2_found)));
            assert forall|j: int| 0 <= j < k + 1 implies {
                &&& (#[trigger] steps@[j]).phys == j * 0x20_0000
                &&& steps@[j].virt == base + j * 0x20_0000
                &&& steps@[j].l3_found == next.2[j].0
                &&& steps@[j].l2_found == next.2[j].1
            } by {
                if j < k {
                    assert(next.2[j] == prev.2[j]);
                }
            }
            k = k + 1;
        }
        phys = phys + 0x20_0000;
    }
    assert(k == phys_limit / 0x20_0000);
    steps
}

/// Points entry 510 of the P4 at `p4` back at the P4 itself (physical
/// address `p4_phys`), present and writable, so that the tables can be
/// reached through virtual addresses.
pub fn enable_recursive_mapping<M: PhysMemory>(mem: &mut M, p4: u64, p4_phys: u64)
    requires
        p4 % 8 == 0,
        p4 + 4096 <= u64::MAX,
    ensures
        forall|a: int| #[trigger]
            final(mem).word(a) == (if a == p4 + 8 * 510 {
                (p4_phys & ADDR_MASK_4K) | 3
            } else {
                old(mem).word(a)
            }),
{
    mem.write64(p4 + 8 * 510, (p4_phys & ADDR_MASK_4K) | 3);
}

} // verus!
