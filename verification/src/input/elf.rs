//! Starting user programs: the name of the executable, the segments of an
//! ELF64 image that may be loaded, and the argc/argv frame on the new stack.
use vstd::prelude::*;
use crate::fs::fat12::entry::{le16, le32, read_le16, read_le32};
use crate::init::boot::{le64, read_le64};
use crate::input::keyboard::{first_index, lemma_first_index, position};
use crate::fs::block::BlockDevice;
use crate::fs::fat12::fs::Fs;
use crate::fs::fat12::path::{chain_bytes, fat83, name83_of, read_chain};
use crate::mem::pages::{user_frame_phys, USER_FRAME_BASE, USER_FRAME_SIZE};

verus! {

/// Lowest virtual address a user segment may occupy.
pub const USERLAND_START: u64 = 0x600_000;

/// Highest virtual address (exclusive) a user segment may occupy.
pub const USERLAND_END: u64 = 0xA00_000;

/// Program header type of a loadable segment.
pub const PT_LOAD: u32 = 1;

/// At most this many arguments are passed.
pub const MAX_ARGS: usize = 8;

/// Whether the shell waits for the program.
#[derive(Clone, Copy, PartialEq, Eq, Structural)]
pub enum RunMode {
    Foreground,
    Background,
}

/// The file a typed program name refers to: the name itself when it has a
/// '.', otherwise its first 8 bytes with ".elf" added.
pub open spec fn elf_name_of(input: Seq<u8>) -> Seq<u8> {
    if first_index(input, 0x2e) < input.len() {
        input
    } else {
        input.take(if input.len() < 8 { input.len() as int } else { 8 }) + seq![0x2eu8, 0x65, 0x6c, 0x66]
    }
}

/// The file name of the program typed as `filename_input`; None when the
/// name is empty or longer than 12 bytes.
pub fn elf_file_name(filename_input: &[u8]) -> (r: Option<Vec<u8>>)
    ensures
        match r {
            Some(n) => 0 < filename_input@.len() <= 12 && n@ == elf_name_of(filename_input@),
            None => filename_input@.len() == 0 || filename_input@.len() > 12,
        },
{
    if filename_input.len() == 0 || filename_input.len() > 12 {
        return None;
    }
    let dot = position(filename_input, 0x2e);
    let mut out: Vec<u8> = Vec::new();
    if dot < filename_input.len() {
        let mut i: usize = 0;
        while i < filename_input.len()
            invariant
                i <= filename_input@.len(),
                out@ == filename_input@.take(i as int),
            decreases filename_input@.len() - i,
        {
            out.push(filename_input[i]);
            i = i + 1;
            assert(out@ =~= filename_input@.take(i as int));
        }
        assert(filename_input@.take(filename_input@.len() as int) =~= filename_input@);
    } else {
        let n = if filename_input.len() < 8 { filename_input.len() } else { 8 };
        let mut i: usize = 0;
        while i < n
            invariant
                n <= filename_input@.len(),
                i <= n,
                out@ == filename_input@.take(i as int),
            decreases n - i,
        {
            out.push(filename_input[i]);
            i = i + 1;
            assert(out@ =~= filename_input@.take(i as int));
        }
        out.push(0x2e);
        out.push(0x65);
        out.push(0x6c);
        out.push(0x66);
        assert(out@ =~= filename_input@.take(n as int) + seq![0x2eu8, 0x65, 0x6c, 0x66]);
    }
    Some(out)
}

/// The image starts with the ELF magic and the 64-bit class byte, and its
/// program header table lies inside it.
pub open spec fn elf_header_ok(image: Seq<u8>) -> bool {
    &&& image.len() >= 64
    &&& image[0] == 0x7f && image[1] == 0x45 && image[2] == 0x4c && image[3] == 0x46
    &&& image[4] == 2
    &&& le64(image, 32) + le16(image, 56) * 56 <= image.len()
}

/// Whether `image` is an ELF64 image whose program headers can be read.
pub fn check_elf_header(image: &[u8]) -> (r: bool)
    requires
        image@.len() <= 0x1_0000_0000,
    ensures
        r == elf_header_ok(image@),
{
    if image.len() < 64 {
        return false;
    }
    if !(image[0] == 0x7f && image[1] == 0x45 && image[2] == 0x4c && image[3] == 0x46 && image[4] == 2) {
        return false;
    }
    let phoff = read_le64(image, 32);
    let phnum = read_le16(image, 56) as u64;
    phoff <= 0x1_0000_0000 && phoff + phnum * 56 <= image.len() as u64
}

/// One loadable segment: copy `filesz` bytes from `offset` in the image to
/// `dst`, then zero `zero_len` bytes after them.
#[derive(Clone, Copy)]
pub struct SegmentLoad {
    pub index: u16,
    pub offset: u64,
    pub dst: u64,
    pub vaddr: u64,
    pub filesz: u64,
    pub zero_len: u64,
}

/// A program header at `off`: (type, offset, vaddr, filesz, memsz).
pub open spec fn phdr_at(image: Seq<u8>, off: int) -> (u32, u64, u64, u64, u64) {
    (le32(image, off) as u32, le64(image, off + 8) as u64, le64(image, off + 16) as u64,
        le64(image, off + 32) as u64, le64(image, off + 40) as u64)
}

/// The segment a program header describes is loadable: its type is
/// PT_LOAD and it lies inside the user region (its end saturating).
pub open spec fn phdr_loadable(p: (u32, u64, u64, u64, u64)) -> bool {
    let end = if p.2 + p.4 > u64::MAX { u64::MAX as int } else { p.2 + p.4 };
    p.0 == PT_LOAD && p.2 >= USERLAND_START && end <= USERLAND_END
}

/// The loads of the first `i` program headers.
pub open spec fn segment_loads(image: Seq<u8>, phys_offset: u64, i: int) -> Seq<SegmentLoad>
    decreases i,
{
    if i <= 0 {
        Seq::empty()
    } else {
        let prev = segment_loads(image, phys_offset, i - 1);
        let p = phdr_at(image, le64(image, 32) + (i - 1) * 56);
        if phdr_loadable(p) {
            prev.push(SegmentLoad {
                index: (i - 1) as u16,
                offset: p.1,
                dst: ((p.2 + phys_offset) % 0x1_0000_0000_0000_0000) as u64,
                vaddr: p.2,
                filesz: p.3,
                zero_len: if p.4 > p.3 { (p.4 - p.3) as u64 } else { 0 },
            })
        } else {
            prev
        }
    }
}

/// Where program header `j` starts in the image.
pub open spec fn phdr_offset(image: Seq<u8>, j: int) -> int {
    le64(image, 32) + j * 56
}

/// The loads planned for the first `n` program headers are exactly one per
/// header of type PT_LOAD (1) whose segment lies in the user region
/// (0x600000 up to 0xA00000, its end saturating), in header order; each
/// carries its header's index, file offset, address and file size, the
/// address moved by `phys_offset` as its destination, and the rest of the
/// memory size as bytes to zero.
pub proof fn lemma_loads_are_the_user_segments(image: Seq<u8>, phys_offset: u64, n: int)
    requires
        0 <= n <= 0x10000,
    ensures
        forall|k: int| 0 <= k < segment_loads(image, phys_offset, n).len() ==> {
            let l = #[trigger] segment_loads(image, phys_offset, n)[k];
            let off = phdr_offset(image, l.index as int);
            let vaddr = le64(image, off + 16);
            let memsz = le64(image, off + 40);
            let end = if vaddr + memsz > 0xFFFF_FFFF_FFFF_FFFF { 0xFFFF_FFFF_FFFF_FFFF } else { vaddr + memsz };
            &&& 0 <= l.index < n
            &&& le32(image, off) == 1 && vaddr >= 0x600000 && end <= 0xA00000
            &&& l.offset == le64(image, off + 8)
            &&& l.vaddr == vaddr
            &&& l.filesz == le64(image, off + 32)
            &&& l.dst == (vaddr + phys_offset) % 0x1_0000_0000_0000_0000
            &&& l.zero_len == if memsz > le64(image, off + 32) { memsz - le64(image, off + 32) } else { 0 }
        },
        forall|k1: int, k2: int| 0 <= k1 < k2 < segment_loads(image, phys_offset, n).len()
            ==> (#[trigger] segment_loads(image, phys_offset, n)[k1]).index
                < (#[trigger] segment_loads(image, phys_offset, n)[k2]).index,
        forall|j: int| #![trigger phdr_offset(image, j)] 0 <= j < n && ({
            let off = phdr_offset(image, j);
            let vaddr = le64(image, off + 16);
            let memsz = le64(image, off + 40);
            let end = if vaddr + memsz > 0xFFFF_FFFF_FFFF_FFFF { 0xFFFF_FFFF_FFFF_FFFF } else { vaddr + memsz };
            le32(image, off) == 1 && vaddr >= 0x600000 && end <= 0xA00000
        }) ==> exists|k: int| 0 <= k < segment_loads(image, phys_offset, n).len()
            && (#[trigger] segment_loads(image, phys_offset, n)[k]).index == j,
    decreases n,
{
    if n > 0 {
        lemma_loads_are_the_user_segments(image, phys_offset, n - 1);
        let prev = segment_loads(image, phys_offset, n - 1);
        let cur = segment_loads(image, phys_offset, n);
        let off = le64(image, 32) + (n - 1) * 56;
        let p = phdr_at(image, off);
        assert(0 <= le32(image, off) <= 0xFFFF_FFFF);
        assert(0 <= le64(image, off + 8) <= 0xFFFF_FFFF_FFFF_FFFF);
        assert(0 <= le64(image, off + 16) <= 0xFFFF_FFFF_FFFF_FFFF);
        assert(0 <= le64(image, off + 32) <= 0xFFFF_FFFF_FFFF_FFFF);
        assert(0 <= le64(image, off + 40) <= 0xFFFF_FFFF_FFFF_FFFF);
        if phdr_loadable(p) {
            assert forall|k: int| 0 <= k < prev.len() implies #[trigger] cur[k] == prev[k] by {}
            assert(cur[prev.len() as int].index == n - 1);
            assert forall|j: int| #![trigger phdr_offset(image, j)] 0 <= j < n && ({
                let off = phdr_offset(image, j);
                let vaddr = le64(image, off + 16);
                let memsz = le64(image, off + 40);
                let end = if vaddr + memsz > 0xFFFF_FFFF_FFFF_FFFF { 0xFFFF_FFFF_FFFF_FFFF } else { vaddr + memsz };
                le32(image, off) == 1 && vaddr >= 0x600000 && end <= 0xA00000
            }) implies exists|k: int| 0 <= k < cur.len() && (#[trigger] cur[k]).index == j by {
                if j < n - 1 {
                    let k = choose|k: int| 0 <= k < prev.len() && (#[trigger] prev[k]).index == j;
                    assert(cur[k] == prev[k]);
                } else {
                    assert(cur[prev.len() as int].index == j);
                }
            }
        } else {
            assert forall|j: int| #![trigger phdr_offset(image, j)] 0 <= j < n && ({
                let off = phdr_offset(image, j);
                let vaddr = le64(image, off + 16);
                let memsz = le64(image, off + 40);
                let end = if vaddr + memsz > 0xFFFF_FFFF_FFFF_FFFF { 0xFFFF_FFFF_FFFF_FFFF } else { vaddr + memsz };
                le32(image, off) == 1 && vaddr >= 0x600000 && end <= 0xA00000
            }) implies exists|k: int| 0 <= k < cur.len() && (#[trigger] cur[k]).index == j by {
                if j == n - 1 {
                    assert(phdr_loadable(p));
                }
            }
        }
    }
}

/// The entry point of an ELF64 image and the segments to load, each moved
/// by `phys_offset` (wrapping) into the program's own frame; segments
/// outside the user region are skipped.
#[verifier::rlimit(100)]
#[verifier::spinoff_prover]
pub fn load_elf64(image: &[u8], phys_offset: u64) -> (r: (u64, Vec<SegmentLoad>))
    requires
        elf_header_ok(image@),
        image@.len() <= 0x1_0000_0000,
    ensures
        r.0 == le64(image@, 24),
        r.1@ == segment_loads(image@, phys_offset, le16(image@, 56)),
{
    let entry = read_le64(image, 24);
    let phoff = read_le64(image, 32);
    let phnum = read_le16(image, 56);
    let mut out: Vec<SegmentLoad> = Vec::new();
    let mut i: u16 = 0;
    while i < phnum
        invariant
            elf_header_ok(image@),
            image@.len() <= 0x1_0000_0000,
            phoff == le64(image@, 32),
            phnum == le16(image@, 56),
            i <= phnum,
            out@ == segment_loads(image@, phys_offset, i as int),
        decreases phnum - i,
    {
        let off = (phoff + i as u64 * 56) as usize;
        let p_type = read_le32(image, off);
        let p_offset = read_le64(image, off + 8);
        let p_vaddr = read_le64(image, off + 16);
        let p_filesz = read_le64(image, off + 32);
        let p_memsz = read_le64(image, off + 40);
        let seg_end = p_vaddr.saturating_add(p_memsz);
        if p_type == PT_LOAD && !(p_vaddr < USERLAND_START || seg_end > USERLAND_END) {
            out.push(SegmentLoad {
                index: i,
                offset: p_offset,
                dst: p_vaddr.wrapping_add(phys_offset),
                vaddr: p_vaddr,
                filesz: p_filesz,
                zero_len: if p_memsz > p_filesz { p_memsz - p_filesz } else { 0 },
            });
        }
        i = i + 1;
    }
    (entry, out)
}

/// The arguments on a command line: its maximal runs of non-space bytes,
/// from position `i` on, at most MAX_ARGS of them counting `count` already taken.
pub open spec fn tokens_from(a: Seq<u8>, i: int, count: int) -> Seq<Seq<u8>>
    decreases a.len() + 1 - i,
{
    if i > a.len() || i < 0 || count >= MAX_ARGS {
        Seq::empty()
    } else {
        proof {
            lemma_first_index(a.skip(i), 0x20);
        }
        let j = i + first_index(a.skip(i), 0x20);
        if j > i {
            seq![a.subrange(i, j)] + tokens_from(a, j + 1, count + 1)
        } else {
            tokens_from(a, j + 1, count)
        }
    }
}

/// `s` without its trailing NUL bytes.
pub open spec fn trim_nuls(s: Seq<u8>) -> Seq<u8>
    decreases s.len(),
{
    if s.len() > 0 && s.last() == 0 {
        trim_nuls(s.drop_last())
    } else {
        s
    }
}

/// The arguments passed to a program for the command line `args`.
pub open spec fn arg_tokens(args: Seq<u8>) -> Seq<Seq<u8>> {
    tokens_from(trim_nuls(args), 0, 0)
}

/// Bytes taken by the first `k` argument strings, each with its NUL.
pub open spec fn strings_used(tokens: Seq<Seq<u8>>, k: int) -> int
    decreases k,
{
    if k <= 0 { 0 } else { strings_used(tokens, k - 1) + tokens[k - 1].len() + 1 }
}

/// The initial stack frame of a program: `rsp` points at argc, followed by
/// the argv pointers and a null pointer; the argument strings lie above.
pub struct ArgFrame {
    pub rsp: u64,
    pub argc: usize,
    /// Address of each argument string.
    pub argv: Vec<u64>,
    /// Address of the null pointer that ends argv.
    pub argv_end: u64,
    /// A zero word was added above the null pointer so that rsp is
    /// 16-aligned.
    pub padded: bool,
}

/// The addresses the frame for `tokens` under `top` uses: (string area
/// bottom, argv end slot, padded, rsp).
pub open spec fn frame_layout(tokens: Seq<Seq<u8>>, top: int) -> (int, int, bool, int) {
    let n = tokens.len() as int;
    let s1 = top - strings_used(tokens, n);
    let s2 = s1 - s1 % 8;
    let pad = (s2 - 8 * (n + 2)) % 16 != 0;
    let argv_end = if pad { s2 - 16 } else { s2 - 8 };
    (s1, argv_end, pad, argv_end - 8 * n - 8)
}

proof fn lemma_tokens_bound(a: Seq<u8>, i: int, count: int)
    requires
        0 <= count <= MAX_ARGS,
    ensures
        tokens_from(a, i, count).len() <= MAX_ARGS - count,
        forall|k: int| 0 <= k < tokens_from(a, i, count).len() ==> #[trigger] tokens_from(a, i, count)[k].len() <= a.len(),
    decreases a.len() + 1 - i,
{
    if !(i > a.len() || i < 0 || count >= MAX_ARGS) {
        lemma_first_index(a.skip(i), 0x20);
        let j = i + first_index(a.skip(i), 0x20);
        if j > i {
            lemma_tokens_bound(a, j + 1, count + 1);
            let rest = tokens_from(a, j + 1, count + 1);
            assert forall|k: int| 0 <= k < tokens_from(a, i, count).len() implies #[trigger] tokens_from(a, i, count)[k].len() <= a.len() by {
                if k > 0 {
                    assert(tokens_from(a, i, count)[k] == rest[k - 1]);
                }
            }
        } else {
            lemma_tokens_bound(a, j + 1, count);
        }
    }
}

/// `f` is the frame `push_user_args(top, args)` lays out.
pub open spec fn frame_ok(f: ArgFrame, top: u64, args: Seq<u8>) -> bool {
    &&& (f.argc == arg_tokens(args).len())
    &&& (f.argc == 0 ==> f.rsp == top && f.argv@.len() == 0)
    &&& (f.argc > 0 ==> {
        let (bottom, argv_end, pad, rsp) = frame_layout(arg_tokens(args), top as int);
        &&& f.rsp == rsp
        &&& f.argv_end == argv_end
        &&& f.padded == pad
        &&& f.argv@.len() == f.argc
        &&& f.rsp % 16 == 0
        &&& f.argv_end == f.rsp + 8 + 8 * f.argc
        &&& forall|k: int| 0 <= k < f.argc ==> #[trigger] f.argv@[k] == top - strings_used(arg_tokens(args), k + 1)
    })
}

/// Lays out the argc/argv frame of a new program under `stack_top`: each
/// argument string (with its NUL) is placed below the previous one, the
/// first highest; then, 8-aligned, a zero word if needed so that rsp ends
/// 16-aligned, a null pointer, the argv pointers with argv[0] at rsp + 8,
/// and argc at rsp. Without arguments the stack is left as it is.
pub fn push_user_args(stack_top: u64, args: &[u8]) -> (r: ArgFrame)
    requires
        stack_top >= 0x10000 + 9 * args@.len(),
        args@.len() <= 0x1000,
    ensures
        frame_ok(r, stack_top, args@),
{
    let mut n = args.len();
    assert(args@.take(n as int) =~= args@);
    while n > 0 && args[n - 1] == 0
        invariant
            n <= args@.len(),
            trim_nuls(args@) == trim_nuls(args@.take(n as int)),
        decreases n,
    {
        assert(args@.take(n as int).drop_last() =~= args@.take(n - 1));
        n = n - 1;
    }
    let a = &args[0..n];
    assert(trim_nuls(args@) == a@) by {
        assert(a@ == args@.take(n as int));
    }
    let ghost toks = tokens_from(a@, 0, 0);
    proof {
        lemma_tokens_bound(a@, 0, 0);
    }
    let mut argv: Vec<u64> = Vec::new();
    let mut sp: u64 = stack_top;
    let mut i: usize = 0;
    let mut argc: usize = 0;
    while i <= a.len() && argc < MAX_ARGS
        invariant
            a@.len() <= 0x1000,
            stack_top >= 0x10000 + 9 * a@.len(),
            i <= a@.len() + 1,
            argc <= MAX_ARGS,
            toks == tokens_from(a@, 0, 0),
            argv@.len() == argc,
            argc <= toks.len(),
            toks.take(argc as int) + tokens_from(a@, i as int, argc as int) == toks,
            sp == stack_top - strings_used(toks, argc as int),
            strings_used(toks, argc as int) <= i + argc,
            forall|k: int| 0 <= k < argc ==> #[trigger] argv@[k] == stack_top - strings_used(toks, k + 1),
        decreases a@.len() + 1 - i,
    {
        let mut j = i;
        while j < a.len() && a[j] != 0x20
            invariant
                i <= j <= a@.len(),
                forall|t: int| i <= t < j ==> a@[t] != 0x20,
            decreases a@.len() - j,
        {
            j = j + 1;
        }
        proof {
            let rest = a@.skip(i as int);
            lemma_first_index(rest, 0x20);
            if i <= a@.len() {
                assert forall|t: int| 0 <= t < j - i implies rest[t] != 0x20 by {
                    assert(rest[t] == a@[i + t]);
                }
                if j < a@.len() {
                    assert(rest[j - i] == 0x20);
                }
                assert(first_index(rest, 0x20) == j - i);
            }
        }
        if j > i {
            let len = j - i;
            let ghost tok = a@.subrange(i as int, j as int);
            proof {
                assert(tokens_from(a@, i as int, argc as int) == seq![tok] + tokens_from(a@, j + 1, argc + 1));
                assert(toks[argc as int] == tok) by {
                    assert((toks.take(argc as int) + tokens_from(a@, i as int, argc as int))[argc as int] == tok);
                }
                assert(strings_used(toks, argc + 1) == strings_used(toks, argc as int) + len + 1);
            }
            sp = sp - (len as u64 + 1);
            argv.push(sp);
            argc = argc + 1;
            proof {
                assert(toks.take(argc as int) + tokens_from(a@, j + 1, argc as int) =~= toks) by {
                    assert(toks.take(argc as int) =~= toks.take(argc - 1).push(tok));
                }
            }
        }
        i = j + 1;
    }
    proof {
        if argc < MAX_ARGS {
            assert(tokens_from(a@, i as int, argc as int) == Seq::<Seq<u8>>::empty());
        } else {
            assert(tokens_from(a@, i as int, argc as int) == Seq::<Seq<u8>>::empty());
        }
        assert(toks.take(argc as int) =~= toks);
    }
    if argc == 0 {
        return ArgFrame { rsp: stack_top, argc: 0, argv, argv_end: 0, padded: false };
    }
    let s1 = sp;
    let (argv_end, padded, rsp) = frame_below(s1, argc);
    ArgFrame { rsp, argc, argv, argv_end, padded }
}

/// The argv end slot, padding and rsp of a frame of `argc` pointers whose
/// strings end at `s1`.
fn frame_below(s1: u64, argc: usize) -> (r: (u64, bool, u64))
    requires
        s1 >= 0x1000,
        argc <= MAX_ARGS,
    ensures
        ({
            let s2 = s1 - s1 % 8;
            let pad = (s2 - 8 * (argc + 2)) % 16 != 0;
            let argv_end = if pad { s2 - 16 } else { s2 - 8 };
            &&& r.0 == argv_end
            &&& r.1 == pad
            &&& r.2 == argv_end - 8 * argc - 8
            &&& r.2 % 16 == 0
        }),
{
    let s2 = s1 - s1 % 8;
    let padded = (s2 - 8 * (argc as u64 + 2)) % 16 != 0;
    let argv_end = if padded { s2 - 16 } else { s2 - 8 };
    let rsp = argv_end - 8 * argc as u64 - 8;
    (argv_end, padded, rsp)
}

/// Where the file image of program slot `slot` (0..10) is read to.
pub open spec fn load_area(slot: int) -> u64 {
    seq![0x640_000u64, 0x680_000, 0x6c0_000, 0x700_000, 0x720_000, 0x740_000, 0x760_000, 0x780_000, 0x7A0_000, 0x7C0_000][slot]
}

/// The top of the stack of program slot `slot` (0..10): 128 KiB apart,
/// downward from 0x8F0_000.
pub open spec fn stack_area(slot: int) -> u64 {
    seq![0x8F0_000u64, 0x8D0_000, 0x8B0_000, 0x890_000, 0x870_000, 0x850_000, 0x830_000, 0x810_000, 0x7F0_000, 0x7D0_000][slot]
}

/// What starting a program needs, worked out before it runs.
pub struct ProgramPlan {
    /// The program slot (0..10).
    pub slot: usize,
    /// Where the file image is read to.
    pub load_addr: u64,
    /// The file's bytes, as read from its cluster chain.
    pub image: Vec<u8>,
    /// The entry point.
    pub entry: u64,
    /// The segments to load into the slot's frame.
    pub loads: Vec<SegmentLoad>,
    /// The top of the slot's stack.
    pub stack_top: u64,
    /// The argc/argv frame below it.
    pub frame: ArgFrame,
    /// The task name: base name, '.', extension.
    pub name: [u8; 12],
}

/// Why a program could not be started.
#[derive(Clone, Copy, Debug, PartialEq, Eq, Structural)]
pub enum StartError {
    /// The typed name is empty or longer than 12 bytes.
    BadName,
    /// No file of that name (a directory, or one without clusters, does not count).
    NotFound,
    /// The file is not an ELF64 image for this machine (or is over 4 GiB).
    BadImage,
}

/// Works out how program `filename_input` of directory `cwd` starts with
/// the command line `args`, as the `stack_no`-th program: the file (".elf"
/// added to a name without a '.') is looked up and its chain read (see
/// `chain_bytes`); the slot is `stack_no % 10`, which fixes the load area,
/// the physical frame (see `user_frame_phys`) and the stack; the image's
/// segments are moved into that frame (see `load_elf64`) and the argc/argv
/// frame is laid out under the stack's top (see `push_user_args`).
pub fn prepare_program<D: BlockDevice>(
    fs: &Fs<D>,
    cwd: u16,
    filename_input: &[u8],
    args: &[u8],
    stack_no: usize,
) -> (r: Result<ProgramPlan, StartError>)
    requires
        fs.wf(),
        args@.len() <= 0x1000,
    ensures
        (filename_input@.len() == 0 || filename_input@.len() > 12) <==> r == Err::<ProgramPlan, StartError>(StartError::BadName),
        0 < filename_input@.len() <= 12 ==> {
            let found = fs.spec_find_entry(cwd, name83_of(elf_name_of(filename_input@)));
            let e = found->0;
            let image = chain_bytes(fs, e.start_cluster, e.file_size as int);
            &&& (found is None || e.attr & 0x10 != 0 || e.start_cluster == 0) <==> r == Err::<ProgramPlan, StartError>(StartError::NotFound)
            &&& found is Some && e.attr & 0x10 == 0 && e.start_cluster != 0 ==> {
                &&& !(elf_header_ok(image) && image.len() <= 0xFFFF_FFFF) ==> r == Err::<ProgramPlan, StartError>(StartError::BadImage)
                &&& elf_header_ok(image) && image.len() <= 0xFFFF_FFFF ==> (r matches Ok(p) && {
                    let slot = (stack_no % 10) as int;
                    &&& p.slot == slot
                    &&& p.load_addr == load_area(slot)
                    &&& p.image@ == image
                    &&& p.entry == le64(image, 24)
                    &&& p.loads@ == segment_loads(image, (USER_FRAME_BASE + slot * USER_FRAME_SIZE - USERLAND_START) as u64, le16(image, 56))
                    &&& p.stack_top == stack_area(slot)
                    &&& frame_ok(p.frame, p.stack_top, args@)
                    &&& p.name@ == e.name@ + seq![0x2eu8] + e.ext@
                })
            }
        },
{
    let name = match elf_file_name(filename_input) {
        None => {
            return Err(StartError::BadName);
        },
        Some(n) => n,
    };
    let n83 = fat83(name.as_slice());
    let e = match fs.find_entry(cwd, &n83) {
        None => {
            return Err(StartError::NotFound);
        },
        Some(e) => e,
    };
    if e.attr & 0x10 != 0 || e.start_cluster == 0 {
        return Err(StartError::NotFound);
    }
    let image = read_chain(fs, e.start_cluster, e.file_size);
    if image.len() > 0xFFFF_FFFF || !check_elf_header(image.as_slice()) {
        return Err(StartError::BadImage);
    }
    let slot = stack_no % 10;
    let loads_at: [u64; 10] = [0x640_000, 0x680_000, 0x6c0_000, 0x700_000, 0x720_000, 0x740_000, 0x760_000, 0x780_000, 0x7A0_000, 0x7C0_000];
    let stacks: [u64; 10] = [0x8F0_000, 0x8D0_000, 0x8B0_000, 0x890_000, 0x870_000, 0x850_000, 0x830_000, 0x810_000, 0x7F0_000, 0x7D0_000];
    assert(loads_at@ =~= seq![0x640_000u64, 0x680_000, 0x6c0_000, 0x700_000, 0x720_000, 0x740_000, 0x760_000, 0x780_000, 0x7A0_000, 0x7C0_000]);
    assert(stacks@ =~= seq![0x8F0_000u64, 0x8D0_000, 0x8B0_000, 0x890_000, 0x870_000, 0x850_000, 0x830_000, 0x810_000, 0x7F0_000, 0x7D0_000]);
    let frame_phys = user_frame_phys(slot);
    let phys_offset = frame_phys - USERLAND_START;
    let (entry, loads) = load_elf64(image.as_slice(), phys_offset);
    let stack_top = stacks[slot];
    let frame = push_user_args(stack_top, args);
    let task_name: [u8; 12] = [e.name[0], e.name[1], e.name[2], e.name[3], e.name[4], e.name[5], e.name[6], e.name[7], 0x2e, e.ext[0], e.ext[1], e.ext[2]];
    assert(task_name@ =~= e.name@ + seq![0x2eu8] + e.ext@);
    Ok(ProgramPlan { slot, load_addr: loads_at[slot], image, entry, loads, stack_top, frame, name: task_name })
}

} // verus!
