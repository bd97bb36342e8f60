//! The decisions of the system call interface that do not touch user
//! memory or devices: which calls exist, which arguments are refused before
//! any work is done, and the small conversions the handlers share.
use vstd::prelude::*;
use crate::fs::vfs::{spec_resolve, try_fat12_absolute, FsType, VfsTable};
use crate::init::config::{trim_end, SystemConfig};

verus! {

/// Lowest address a user program may hand to the kernel.
pub const USERLAND_START: u64 = 0x600_000;

/// Highest address a user program may hand to the kernel (user stacks lie
/// just below it).
pub const USERLAND_END: u64 = 0xA00_000;

/// What a system call reports back in `rax`.
#[derive(Clone, Copy, PartialEq, Eq, Structural)]
pub enum SyscallReturnCode {
    Success,
    NotImplemented,
    InvalidInput,
    FilesystemError,
    FileNotFound,
    InvalidSyscall,
}

/// The number each return code is reported as.
pub open spec fn return_code_value(c: SyscallReturnCode) -> u64 {
    match c {
        SyscallReturnCode::Success => 0x00,
        SyscallReturnCode::NotImplemented => 0xfb,
        SyscallReturnCode::InvalidInput => 0xfc,
        SyscallReturnCode::FilesystemError => 0xfd,
        SyscallReturnCode::FileNotFound => 0xfe,
        SyscallReturnCode::InvalidSyscall => 0xff,
    }
}

impl SyscallReturnCode {
    /// The number the code is reported as.
    pub fn code(self) -> (r: u64)
        ensures
            r == return_code_value(self),
    {
        match self {
            SyscallReturnCode::Success => 0x00,
            SyscallReturnCode::NotImplemented => 0xfb,
            SyscallReturnCode::InvalidInput => 0xfc,
            SyscallReturnCode::FilesystemError => 0xfd,
            SyscallReturnCode::FileNotFound => 0xfe,
            SyscallReturnCode::InvalidSyscall => 0xff,
        }
    }
}

/// `addr` lies in the range user programs may pass pointers into.
pub open spec fn spec_in_userland(addr: u64) -> bool {
    USERLAND_START <= addr <= USERLAND_END
}

/// Whether `addr` lies in the range user programs may pass pointers into.
pub fn in_userland(addr: u64) -> (r: bool)
    ensures
        r == spec_in_userland(addr),
{
    USERLAND_START <= addr && addr <= USERLAND_END
}

/// The system call numbers the kernel serves.
pub open spec fn known_syscall(no: u64) -> bool {
    ||| no <= 0x05
    ||| no == 0x0a || no == 0x0b || no == 0x0f
    ||| 0x10 <= no <= 0x15
    ||| no == 0x1a || no == 0x1b || no == 0x1f
    ||| 0x20 <= no <= 0x37
}

/// The value a call returns at once, before doing any work, because its
/// number or its arguments are refused; None when it goes ahead.
pub open spec fn spec_precheck(no: u64, arg1: u64, arg2: u64) -> Option<u64> {
    let invalid = Some(return_code_value(SyscallReturnCode::InvalidInput));
    if !known_syscall(no) {
        Some(return_code_value(SyscallReturnCode::InvalidSyscall))
    } else if no == 0x24 || no == 0x25 || no == 0x26 || no == 0x29 {
        Some(return_code_value(SyscallReturnCode::NotImplemented))
    } else if no == 0x01 || no == 0x02 || no == 0x03 || no == 0x14 || no == 0x2b || no == 0x2c
        || no == 0x31 || no == 0x33 || no == 0x34 || no == 0x35 || no == 0x36 {
        if spec_in_userland(arg2) { None } else { invalid }
    } else if no == 0x1b {
        if spec_in_userland(arg2) && arg1 == 0x01 { None } else { invalid }
    } else if no == 0x10 || no == 0x13 || no == 0x2a || no == 0x2e || no == 0x2f {
        if spec_in_userland(arg1) { None } else { invalid }
    } else if no == 0x20 || no == 0x21 || no == 0x22 || no == 0x27 {
        if spec_in_userland(arg1) && spec_in_userland(arg2) { None } else { invalid }
    } else if no == 0x2d {
        if spec_in_userland(arg1) && spec_in_userland(arg2) { None } else { Some(u64::MAX) }
    } else if no == 0x23 {
        if spec_in_userland(arg1) && arg2 == 0 { None } else { invalid }
    } else if no == 0x11 || no == 0x1f {
        if arg1 == 0 && arg2 == 0 { None } else { invalid }
    } else if no == 0x1a {
        if 20 <= arg1 <= 20_000 { None } else { invalid }
    } else if no == 0x32 {
        if arg1 == 0x01 {
            if arg2 == 0 { None } else { invalid }
        } else if arg1 == 0x02 || arg1 == 0x03 {
            if spec_in_userland(arg2) { None } else { invalid }
        } else {
            invalid
        }
    } else {
        None
    }
}

/// The value a system call returns at once because its number or its
/// arguments are refused, or None when the call goes ahead.
pub fn precheck(no: u64, arg1: u64, arg2: u64) -> (r: Option<u64>)
    ensures
        r == spec_precheck(no, arg1, arg2),
{
    let invalid = Some(SyscallReturnCode::InvalidInput.code());
    let known = no <= 0x05 || no == 0x0a || no == 0x0b || no == 0x0f || (0x10 <= no && no <= 0x15)
        || no == 0x1a || no == 0x1b || no == 0x1f || (0x20 <= no && no <= 0x37);
    if !known {
        Some(SyscallReturnCode::InvalidSyscall.code())
    } else if no == 0x24 || no == 0x25 || no == 0x26 || no == 0x29 {
        Some(SyscallReturnCode::NotImplemented.code())
    } else if no == 0x01 || no == 0x02 || no == 0x03 || no == 0x14 || no == 0x2b || no == 0x2c
        || no == 0x31 || no == 0x33 || no == 0x34 || no == 0x35 || no == 0x36 {
        if in_userland(arg2) { None } else { invalid }
    } else if no == 0x1b {
        if in_userland(arg2) && arg1 == 0x01 { None } else { invalid }
    } else if no == 0x10 || no == 0x13 || no == 0x2a || no == 0x2e || no == 0x2f {
        if in_userland(arg1) { None } else { invalid }
    } else if no == 0x20 || no == 0x21 || no == 0x22 || no == 0x27 {
        if in_userland(arg1) && in_userland(arg2) { None } else { invalid }
    } else if no == 0x2d {
        if in_userland(arg1) && in_userland(arg2) { None } else { Some(u64::MAX) }
    } else if no == 0x23 {
        if in_userland(arg1) && arg2 == 0 { None } else { invalid }
    } else if no == 0x11 || no == 0x1f {
        if arg1 == 0 && arg2 == 0 { None } else { invalid }
    } else if no == 0x1a {
        if 20 <= arg1 && arg1 <= 20_000 { None } else { invalid }
    } else if no == 0x32 {
        if arg1 == 0x01 {
            if arg2 == 0 { None } else { invalid }
        } else if arg1 == 0x02 || arg1 == 0x03 {
            if in_userland(arg2) { None } else { invalid }
        } else {
            invalid
        }
    } else {
        None
    }
}

/// Capacity of the task list a caller of the task-listing call receives:
/// the requested count when it is 1 to 10, else 10.
pub fn task_list_capacity(requested: u64) -> (r: usize)
    ensures
        r == if 0 < requested <= 10 { requested as usize } else { 10 },
{
    if requested > 0 && requested <= 10 {
        requested as usize
    } else {
        10
    }
}

/// The text before the first NUL byte of `s` (all of `s` when it has none).
pub open spec fn until_nul(s: Seq<u8>) -> Seq<u8>
    decreases s.len(),
{
    if s.len() == 0 {
        s
    } else if s[0] == 0 {
        Seq::empty()
    } else {
        seq![s[0]] + until_nul(s.skip(1))
    }
}

/// The NUL-terminated string at the start of `s`, looking at most at `max` bytes.
pub fn nul_terminated_slice(s: &[u8], max: usize) -> (r: &[u8])
    ensures
        r@ == until_nul(s@.take(if max < s@.len() { max as int } else { s@.len() as int })),
{
    let n = if max < s.len() { max } else { s.len() };
    let t = &s[0..n];
    let mut i: usize = 0;
    assert(t@.skip(0) =~= t@);
    assert(t@.take(0) + until_nul(t@) =~= until_nul(t@));
    while i < n && t[i] != 0
        invariant
            n == t@.len(),
            i <= n,
            until_nul(t@) == t@.take(i as int) + until_nul(t@.skip(i as int)),
        decreases n - i,
    {
        proof {
            let rest = t@.skip(i as int);
            assert(rest.skip(1) =~= t@.skip(i + 1));
            assert(t@.take(i + 1) =~= t@.take(i as int) + seq![rest[0]]);
            assert(t@.take(i as int) + (seq![rest[0]] + until_nul(rest.skip(1)))
                =~= t@.take(i + 1) + until_nul(t@.skip(i + 1)));
        }
        i = i + 1;
    }
    proof {
        if i < n {
            assert(t@.skip(i as int)[0] == 0);
        } else {
            assert(t@.skip(i as int) =~= Seq::<u8>::empty());
        }
        assert(t@.take(i as int) + Seq::<u8>::empty() =~= t@.take(i as int));
    }
    &t[0..i]
}

/// ASCII upper case of `c`.
pub open spec fn upper(c: u8) -> u8 {
    if 0x61 <= c <= 0x7a { (c - 0x20) as u8 } else { c }
}

/// ASCII upper case of `c`.
pub fn to_ascii_upper(c: u8) -> (r: u8)
    ensures
        r == upper(c),
{
    if 0x61 <= c && c <= 0x7a { c - 0x20 } else { c }
}

/// `s` holds a '.'.
pub open spec fn has_dot(s: Seq<u8>) -> bool {
    exists|j: int| 0 <= j < s.len() && s[j] == 0x2e
}

/// The upper-cased characters of `s` after its first '.', dots left out.
pub open spec fn ext_chars(s: Seq<u8>) -> Seq<u8>
    decreases s.len(),
{
    if s.len() == 0 {
        Seq::empty()
    } else {
        let r = ext_chars(s.drop_last());
        if has_dot(s.drop_last()) && s.last() != 0x2e {
            r.push(upper(s.last()))
        } else {
            r
        }
    }
}

/// The 8.3 base name that `format_filename` makes of `s`: the upper-cased
/// characters before the first '.', padded with spaces.
pub open spec fn base_of(s: Seq<u8>, k: int) -> u8 {
    if k < s.len() && !has_dot(s.take(k + 1)) { upper(s[k]) } else { 0x20 }
}

/// Splits the NUL-terminated name at the start of `name` into an 8.3 base
/// name and extension, upper-cased and padded with spaces: the characters
/// before the first '.' fill the base (at most 8), the next three non-dot
/// characters after it fill the extension.
pub fn format_filename(name: &[u8]) -> (r: ([u8; 8], [u8; 3]))
    ensures
        forall|k: int| 0 <= k < 8 ==> r.0@[k] == base_of(until_nul(name@), k),
        forall|k: int| 0 <= k < 3 ==> r.1@[k] == if k < ext_chars(until_nul(name@)).len() {
            ext_chars(until_nul(name@))[k]
        } else {
            0x20
        },
{
    let s = nul_terminated_slice(name, name.len());
    assert(name@.take(name@.len() as int) =~= name@);
    let mut base = [0x20u8; 8];
    let mut ext = [0x20u8; 3];
    let mut i: usize = 0;
    let mut saw_dot = false;
    let mut ext_i: usize = 0;
    while i < s.len()
        invariant
            i <= s@.len(),
            saw_dot == has_dot(s@.take(i as int)),
            ext_i == if ext_chars(s@.take(i as int)).len() < 3 {
                ext_chars(s@.take(i as int)).len()
            } else {
                3
            },
            forall|k: int| 0 <= k < 8 ==> base@[k] == if k < i { base_of(s@, k) } else { 0x20 },
            forall|k: int| 0 <= k < 3 ==> ext@[k] == if k < ext_i {
                ext_chars(s@.take(i as int))[k]
            } else {
                0x20
            },
        decreases s@.len() - i,
    {
        let c = s[i];
        let ghost pre = s@.take(i as int);
        let ghost next = s@.take(i + 1);
        proof {
            assert(next.drop_last() =~= pre);
            assert(next.last() == c);
            assert(has_dot(next) == (has_dot(pre) || c == 0x2e)) by {
                if c == 0x2e {
                    assert(next[i as int] == 0x2e);
                }
                if has_dot(pre) {
                    let j = choose|j: int| 0 <= j < pre.len() && pre[j] == 0x2e;
                    assert(next[j] == 0x2e);
                }
                if has_dot(next) && c != 0x2e {
                    let j = choose|j: int| 0 <= j < next.len() && next[j] == 0x2e;
                    assert(pre[j] == 0x2e);
                }
            }
            if i < 8 {
                assert(base_of(s@, i as int) == if !saw_dot && c != 0x2e { upper(c) } else { 0x20 });
            }
        }
        if c == 0x2e {
            saw_dot = true;
        } else {
            if !saw_dot {
                if i < 8 {
                    base[i] = to_ascii_upper(c);
                }
            } else if ext_i < 3 {
                ext[ext_i] = to_ascii_upper(c);
                ext_i = ext_i + 1;
            }
        }
        i = i + 1;
    }
    assert(s@.take(s@.len() as int) =~= s@);
    (base, ext)
}

/// Where a file name given to a system call is looked up: under the FAT12
/// mount, the path relative to it from the root directory (cluster 0);
/// otherwise the name itself from the working directory `cwd`.
pub fn vfs_resolve_fat12<'a>(vfs: &VfsTable, path: &'a [u8], cwd: u16) -> (r: (&'a [u8], u16))
    requires
        vfs.wf(),
    ensures
        match spec_resolve(vfs@, path@) {
            Some((FsType::Fat12, rel)) => r.0@ == rel && r.1 == 0,
            _ => r.0@ == path@ && r.1 == cwd,
        },
{
    match try_fat12_absolute(vfs, path) {
        Some(rel) => (rel, 0),
        None => (path, cwd),
    }
}

/// The standard CGA colors, as 0x00RRGGBB.
pub open spec fn cga_color(i: int) -> u32 {
    seq![
        0x000000u32, 0x0000AA, 0x00AA00, 0x00AAAA, 0xAA0000, 0xAA00AA, 0xAA5500, 0xAAAAAA,
        0x555555, 0x5555FF, 0x55FF55, 0x55FFFF, 0xFF5555, 0xFF55FF, 0xFFFF55, 0xFFFFFF,
    ][i]
}

/// The BIOS default VGA palette, as 0x00RRGGBB: the 16 CGA colors, a
/// 6×6×6 color cube, then 24 shades of gray.
pub open spec fn spec_vga_default_color(idx: u8) -> u32 {
    if idx < 16 {
        cga_color(idx as int)
    } else if idx < 232 {
        let v = idx - 16;
        ((v / 36) * 51 * 65536 + ((v / 6) % 6) * 51 * 256 + (v % 6) * 51) as u32
    } else {
        let l = (idx - 232) * 10 + 8;
        (l * 65536 + l * 256 + l) as u32
    }
}

/// The BIOS default VGA palette entry `idx`, as 0x00RRGGBB.
pub fn vga_default_color(idx: u8) -> (r: u32)
    ensures
        r == spec_vga_default_color(idx),
{
    let cga: [u32; 16] = [
        0x000000, 0x0000AA, 0x00AA00, 0x00AAAA, 0xAA0000, 0xAA00AA, 0xAA5500, 0xAAAAAA,
        0x555555, 0x5555FF, 0x55FF55, 0x55FFFF, 0xFF5555, 0xFF55FF, 0xFFFF55, 0xFFFFFF,
    ];
    if idx < 16 {
        return cga[idx as usize];
    }
    if idx < 232 {
        let v = (idx - 16) as u32;
        let b = (v % 6) * 51;
        let g = ((v / 6) % 6) * 51;
        let r = (v / 36) * 51;
        return r * 65536 + g * 256 + b;
    }
    let l = (idx - 232) as u32 * 10 + 8;
    l * 65536 + l * 256 + l
}

/// The system information block a user program reads.
pub struct SysInfo {
    pub system_name: [u8; 32],
    pub system_user: [u8; 32],
    pub system_path: [u8; 32],
    pub system_version: [u8; 8],
    pub system_path_cluster: u32,
    pub system_uptime: u32,
}

/// `dst` with its first bytes replaced by `src`, when `src` fits in it;
/// otherwise `dst` unchanged.
pub open spec fn overlay(dst: Seq<u8>, src: Seq<u8>) -> Seq<u8> {
    if src.len() <= dst.len() { src + dst.skip(src.len() as int) } else { dst }
}

/// Puts `src` at the start of `dst` when it fits.
fn overlay_into<const N: usize>(dst: &mut [u8; N], src: &[u8])
    ensures
        final(dst)@ == overlay(old(dst)@, src@),
{
    if src.len() > N {
        return;
    }
    let mut i: usize = 0;
    while i < src.len()
        invariant
            src@.len() <= N,
            dst@.len() == N,
            i <= src@.len(),
            dst@ == src@.take(i as int) + old(dst)@.skip(i as int),
        decreases src@.len() - i,
    {
        dst[i] = src[i];
        i = i + 1;
        assert(dst@ =~= src@.take(i as int) + old(dst)@.skip(i as int));
    }
    assert(src@.take(src@.len() as int) =~= src@);
}

/// Call 0x01 with operation 1: the caller's information block gets the
/// host name, the user name, the working directory path and cluster, the
/// version (each, without trailing spaces, over the start of its field when
/// it fits) and the uptime in seconds; the rest of each field keeps its
/// bytes.
pub fn fill_sysinfo(info: &mut SysInfo, cfg: &SystemConfig, uptime: u32)
    ensures
        final(info).system_name@ == overlay(old(info).system_name@, trim_end(cfg.host@)),
        final(info).system_user@ == overlay(old(info).system_user@, trim_end(cfg.user@)),
        final(info).system_path@ == overlay(
            old(info).system_path@,
            trim_end(cfg.path@.take(if cfg.path_len < 32 { cfg.path_len as int } else { 32 })),
        ),
        final(info).system_version@ == overlay(old(info).system_version@, trim_end(cfg.version@)),
        final(info).system_path_cluster == cfg.path_cluster as u32,
        final(info).system_uptime == uptime,
{
    overlay_into(&mut info.system_name, cfg.get_host());
    overlay_into(&mut info.system_user, cfg.get_user());
    overlay_into(&mut info.system_path, cfg.get_path());
    info.system_path_cluster = cfg.path_cluster as u32;
    overlay_into(&mut info.system_version, cfg.get_version());
    info.system_uptime = uptime;
}

/// The real-time clock reading handed to user programs.
pub struct RTC {
    pub seconds: u8,
    pub minutes: u8,
    pub hours: u8,
    pub day: u8,
    pub month: u8,
    pub year: u16,
}

/// A TCP segment that a user program asks the kernel to send: the 20-byte
/// TCP header, the addresses and the payload length.
pub struct TcpPacketRequest {
    pub header: [u8; 20],
    pub src_ip: [u8; 4],
    pub dst_ip: [u8; 4],
    pub length: u16,
}

} // verus!
