//! The file system calls: what each does to the FAT12 file system and the
//! value it returns, once the handler has copied the caller's strings and
//! buffers out of user memory.
use vstd::prelude::*;
use crate::abi::syscall::{format_filename, return_code_value, until_nul, SyscallReturnCode};
use crate::fs::block::BlockDevice;
use crate::fs::fat12::check::{run_check, CheckReport};
use crate::fs::fat12::dir::{dir_created, file_deleted, file_renamed};
use crate::fs::fat12::entry::{le32, Entry};
use crate::fs::fat12::fs::{Fs, WriteStatus};
use crate::fs::fat12::path::{chain_bytes, fat83, name83_of, read_chain};
use crate::fs::iso9660::block::IsoDevice;
use crate::fs::iso9660::fs::{entry_matches, file_block, file_byte_ok, list_walk, lower, record_name, Iso9660, IsoEntry};
use crate::fs::vfs::{FsType, VfsTable};
use crate::input::nav::{fat_rest, iso_kind, iso_lookup, iso_rest};

verus! {

/// Where a name given to a file call is looked up on FAT12: under the
/// FAT12 mount, the rest of it from the root directory; otherwise the
/// name itself from the working directory `cwd`.
pub open spec fn fat_target(ms: Seq<(Seq<u8>, FsType)>, path: Seq<u8>, cwd: u16) -> (Seq<u8>, u16) {
    match fat_rest(ms, path) {
        Some(rel) => (rel, 0u16),
        None => (path, cwd),
    }
}

/// The value of a return code.
pub open spec fn code(c: SyscallReturnCode) -> u64 {
    return_code_value(c)
}

/// The FAT12 part of a path and its base directory (see `fat_target`).
fn fat_split<'a>(vfs: &VfsTable, path: &'a [u8], cwd: u16) -> (r: (&'a [u8], u16))
    requires
        vfs.wf(),
    ensures
        (r.0@, r.1) == fat_target(vfs@, path@, cwd),
{
    match vfs.resolve(path) {
        Some((FsType::Fat12, rel)) => (rel, 0),
        _ => (path, cwd),
    }
}

/// Whether the path lies on the ISO 9660 mount (the rest of it when so).
fn on_iso<'a>(vfs: &VfsTable, path: &'a [u8]) -> (r: Option<&'a [u8]>)
    requires
        vfs.wf(),
    ensures
        match r {
            Some(rel) => iso_rest(vfs@, path@) == Some(rel@),
            None => iso_rest(vfs@, path@) is None,
        },
{
    match vfs.resolve(path) {
        Some((FsType::Iso9660, rel)) => Some(rel),
        _ => None,
    }
}

/// The FAT12 directory a path names for a file call: its rest (see
/// `fat_target`) walked from its base, an empty rest being the base itself;
/// FileNotFound when nothing is there, InvalidInput for a file.
pub open spec fn fat_dir_of<D: BlockDevice>(fs: &Fs<D>, ms: Seq<(Seq<u8>, FsType)>, cwd: u16, path: Seq<u8>) -> Result<u16, u64> {
    let (rel, base) = fat_target(ms, path, cwd);
    if rel.len() == 0 {
        Ok(base)
    } else {
        match fs.path_walk(base, rel, None) {
            None => Err(code(SyscallReturnCode::FileNotFound)),
            Some(e) => if e.attr & 0x10 == 0 {
                Err(code(SyscallReturnCode::InvalidInput))
            } else {
                Ok(e.start_cluster)
            },
        }
    }
}

/// Finds the FAT12 directory a path names (see `fat_dir_of`).
fn find_fat_dir<D: BlockDevice>(fs: &Fs<D>, vfs: &VfsTable, cwd: u16, path: &[u8]) -> (r: Result<u16, u64>)
    requires
        fs.wf(),
        vfs.wf(),
    ensures
        r == fat_dir_of(fs, vfs@, cwd, path@),
{
    let (rel, base) = fat_split(vfs, path, cwd);
    if rel.len() == 0 {
        return Ok(base);
    }
    match fs.resolve_path_from(base, rel) {
        None => Err(SyscallReturnCode::FileNotFound.code()),
        Some(e) => if e.attr & 0x10 == 0 {
            Err(SyscallReturnCode::InvalidInput.code())
        } else {
            Ok(e.start_cluster)
        },
    }
}

/// Where call 0x2E (chdir) moves for `path`: on the CD-ROM the cluster
/// is 0 and the path must name a directory there (FileNotFound otherwise,
/// FilesystemError without a drive); on FAT12 the path is walked from its
/// base (see `fat_target`), an empty rest staying at the base, and must end
/// in a directory (FileNotFound when missing, InvalidInput for a file).
pub open spec fn spec_chdir<D: BlockDevice, I: IsoDevice>(
    fs: &Fs<D>,
    iso: Option<&Iso9660<I>>,
    ms: Seq<(Seq<u8>, FsType)>,
    cwd: u16,
    path: Seq<u8>,
) -> Result<u16, u64> {
    if iso_rest(ms, path) is Some {
        match iso {
            None => Err(code(SyscallReturnCode::FilesystemError)),
            Some(d) => match iso_kind(d, iso_rest(ms, path)->0) {
                Some((is_dir, _, _)) => if is_dir { Ok(0u16) } else { Err(code(SyscallReturnCode::FileNotFound)) },
                None => Err(code(SyscallReturnCode::FileNotFound)),
            },
        }
    } else {
        fat_dir_of(fs, ms, cwd, path)
    }
}

/// Call 0x2E: the cluster of the new working directory (its path is
/// `path`), or the code to return.
pub fn sys_chdir<D: BlockDevice, I: IsoDevice>(
    fs: &Fs<D>,
    iso: Option<&Iso9660<I>>,
    vfs: &VfsTable,
    cwd: u16,
    path: &[u8],
) -> (r: Result<u16, u64>)
    requires
        fs.wf(),
        vfs.wf(),
    ensures
        r == spec_chdir(fs, iso, vfs@, cwd, path@),
{
    match on_iso(vfs, path) {
        Some(rel) => {
            return match iso {
                None => Err(SyscallReturnCode::FilesystemError.code()),
                Some(d) => match d.resolve(rel) {
                    Some(e) => if e.is_dir { Ok(0) } else { Err(SyscallReturnCode::FileNotFound.code()) },
                    None => Err(SyscallReturnCode::FileNotFound.code()),
                },
            };
        },
        None => {},
    }
    find_fat_dir(fs, vfs, cwd, path)
}

/// Call 0x23: deletes the file `path` names. A path on the CD-ROM is
/// refused (InvalidInput); a name with no entry in use gives FileNotFound;
/// otherwise the entry is deleted (see `delete_file`) and the call
/// succeeds.
pub fn sys_delete<D: BlockDevice>(fs: &mut Fs<D>, vfs: &VfsTable, cwd: u16, path: &[u8]) -> (r: u64)
    requires
        old(fs).wf(),
        vfs.wf(),
    ensures
        final(fs).wf(),
        iso_rest(vfs@, path@) is Some ==> r == code(SyscallReturnCode::InvalidInput) && *final(fs) == *old(fs),
        iso_rest(vfs@, path@) is None ==> {
            let (rel, base) = fat_target(vfs@, path@, cwd);
            &&& old(fs).spec_find_entry(base, name83_of(rel)) is None ==> r == code(SyscallReturnCode::FileNotFound)
                && *final(fs) == *old(fs)
            &&& old(fs).spec_find_entry(base, name83_of(rel)) is Some ==> r == code(SyscallReturnCode::Success)
                && exists|ok: bool| file_deleted(*old(fs), *final(fs), base, name83_of(rel), ok)
        },
{
    if on_iso(vfs, path).is_some() {
        return SyscallReturnCode::InvalidInput.code();
    }
    let (rel, base) = fat_split(vfs, path, cwd);
    let n = fat83(rel);
    if fs.find_entry(base, &n).is_none() {
        return SyscallReturnCode::FileNotFound.code();
    }
    let _ = fs.delete_file(base, &n);
    SyscallReturnCode::Success.code()
}

/// Call 0x22: renames the file `old_path` names to `new_name` (in 8.3
/// form). A path on the CD-ROM is refused (InvalidInput); a name with no
/// entry in use gives FileNotFound; otherwise the entry is renamed (see
/// `rename_file`) and the call succeeds.
pub fn sys_rename<D: BlockDevice>(fs: &mut Fs<D>, vfs: &VfsTable, cwd: u16, old_path: &[u8], new_name: &[u8]) -> (r: u64)
    requires
        old(fs).wf(),
        vfs.wf(),
    ensures
        final(fs).wf(),
        iso_rest(vfs@, old_path@) is Some ==> r == code(SyscallReturnCode::InvalidInput) && *final(fs) == *old(fs),
        iso_rest(vfs@, old_path@) is None ==> {
            let (rel, base) = fat_target(vfs@, old_path@, cwd);
            &&& old(fs).spec_find_entry(base, name83_of(rel)) is None ==> r == code(SyscallReturnCode::FileNotFound)
                && *final(fs) == *old(fs)
            &&& old(fs).spec_find_entry(base, name83_of(rel)) is Some ==> r == code(SyscallReturnCode::Success)
                && exists|ok: bool| file_renamed(*old(fs), *final(fs), base, name83_of(rel), name83_of(new_name@), ok)
        },
{
    if on_iso(vfs, old_path).is_some() {
        return SyscallReturnCode::InvalidInput.code();
    }
    let (rel, base) = fat_split(vfs, old_path, cwd);
    let old83 = fat83(rel);
    let new83 = fat83(new_name);
    if fs.find_entry(base, &old83).is_none() {
        return SyscallReturnCode::FileNotFound.code();
    }
    let _ = fs.rename_file(base, &old83, &new83);
    SyscallReturnCode::Success.code()
}

/// Call 0x21: writes the 512 bytes of `buf` as the file `path` names. A
/// path on the CD-ROM is refused (InvalidInput); a directory whose table
/// or entries would leave the device gives FilesystemError; otherwise the
/// file is written (see `write_file`) and the call succeeds.
pub fn sys_write<D: BlockDevice>(fs: &mut Fs<D>, vfs: &VfsTable, cwd: u16, path: &[u8], buf: &[u8; 512]) -> (r: u64)
    requires
        old(fs).wf(),
        vfs.wf(),
    ensures
        final(fs).wf(),
        iso_rest(vfs@, path@) is Some ==> r == code(SyscallReturnCode::InvalidInput) && *final(fs) == *old(fs),
        iso_rest(vfs@, path@) is None ==> {
            let (rel, base) = fat_target(vfs@, path@, cwd);
            &&& !old(fs).write_ready(base) ==> r == code(SyscallReturnCode::FilesystemError) && *final(fs) == *old(fs)
            &&& old(fs).write_ready(base) ==> r == code(SyscallReturnCode::Success)
                && exists|st: WriteStatus| final(fs).wrote(old(fs), base, name83_of(rel), buf@, st)
        },
{
    if on_iso(vfs, path).is_some() {
        return SyscallReturnCode::InvalidInput.code();
    }
    let (rel, base) = fat_split(vfs, path, cwd);
    let n = fat83(rel);
    if !fs.can_write_in(base) {
        return SyscallReturnCode::FilesystemError.code();
    }
    let st = fs.write_file(base, &n, buf);
    assert(fs.wrote(old(fs), base, name83_of(rel@), buf@, st));
    assert(fat_target(vfs@, path@, cwd).0 == rel@ && fat_target(vfs@, path@, cwd).1 == base);
    SyscallReturnCode::Success.code()
}

/// The 8.3 name call 0x27 gives a new directory: the name up to its NUL,
/// base before the first '.', extension after it (see `format_filename`).
pub open spec fn mkdir_name(name: Seq<u8>) -> Seq<u8> {
    let s = until_nul(name);
    let ext = crate::abi::syscall::ext_chars(s);
    Seq::new(11, |k: int| if k < 8 {
        crate::abi::syscall::base_of(s, k)
    } else if k - 8 < ext.len() {
        ext[k - 8]
    } else {
        0x20u8
    })
}

/// Call 0x27: creates the subdirectory `name` in the directory `parent`
/// names. A parent on the CD-ROM is refused (InvalidInput); the parent is
/// walked on FAT12 from its base (an empty rest is the base itself) and
/// must be a directory (FileNotFound when missing, InvalidInput for a
/// file); a table that does not fit the device gives FilesystemError;
/// otherwise the directory is created (see `create_subdirectory`) and the
/// call succeeds.
pub fn sys_mkdir<D: BlockDevice>(fs: &mut Fs<D>, vfs: &VfsTable, cwd: u16, parent: &[u8], name: &[u8]) -> (r: u64)
    requires
        old(fs).wf(),
        vfs.wf(),
    ensures
        final(fs).wf(),
        iso_rest(vfs@, parent@) is Some ==> r == code(SyscallReturnCode::InvalidInput) && *final(fs) == *old(fs),
        iso_rest(vfs@, parent@) is None ==> match fat_dir_of(old(fs), vfs@, cwd, parent@) {
            Err(c) => r == c && *final(fs) == *old(fs),
            Ok(dir) => {
                &&& !old(fs).grow_ready() ==> r == code(SyscallReturnCode::FilesystemError) && *final(fs) == *old(fs)
                &&& old(fs).grow_ready() ==> r == code(SyscallReturnCode::Success)
                    && exists|c: u16| dir_created(*old(fs), *final(fs), mkdir_name(name@), dir, c)
            },
        },
{
    if on_iso(vfs, parent).is_some() {
        return SyscallReturnCode::InvalidInput.code();
    }
    let (base_name, ext) = format_filename(name);
    let filename: [u8; 11] = [
        base_name[0], base_name[1], base_name[2], base_name[3], base_name[4], base_name[5], base_name[6], base_name[7],
        ext[0], ext[1], ext[2],
    ];
    let dir = match find_fat_dir(fs, vfs, cwd, parent) {
        Err(c) => {
            return c;
        },
        Ok(d) => d,
    };
    if !fs.can_grow() {
        return SyscallReturnCode::FilesystemError.code();
    }
    let ghost before = *fs;
    assert(before == *old(fs));
    let c = fs.create_subdirectory(&filename, dir);
    assert(filename@ =~= mkdir_name(name@));
    assert(dir_created(*old(fs), *fs, mkdir_name(name@), dir, c));
    SyscallReturnCode::Success.code()
}

/// Call 0x2B: the check report's counts, in the order the caller's record
/// holds them: errors, orphan clusters, cross-linked clusters, invalid
/// entries.
pub fn sys_fsck<D: BlockDevice>(fs: &Fs<D>) -> (r: [u64; 4])
    requires
        fs.wf(),
        fs.fat_on_device(),
    ensures
        ({
            let rep = crate::fs::fat12::check::spec_run_check(fs);
            r@ == seq![rep.errors as u64, rep.orphan_clusters as u64, rep.cross_linked as u64, rep.invalid_entries as u64]
        }),
{
    let rep = run_check(fs);
    let r = [rep.errors as u64, rep.orphan_clusters as u64, rep.cross_linked as u64, rep.invalid_entries as u64];
    assert(r@ =~= seq![rep.errors as u64, rep.orphan_clusters as u64, rep.cross_linked as u64, rep.invalid_entries as u64]);
    r
}

/// The number call 0x2C gives a file system type.
pub open spec fn fs_type_code(t: FsType) -> u8 {
    match t {
        FsType::Empty => 0,
        FsType::Root => 1,
        FsType::Fat12 => 2,
        FsType::Iso9660 => 3,
    }
}

/// The 34-byte record call 0x2C writes for a mount: its path padded with
/// zeros to 32 bytes, the path's length and the type's number.
pub open spec fn mount_record(m: (Seq<u8>, FsType)) -> Seq<u8> {
    m.0 + Seq::new((32 - m.0.len()) as nat, |k: int| 0u8) + seq![m.0.len() as u8, fs_type_code(m.1)]
}

/// Call 0x2C: the record of each mount, in mounting order (the call
/// returns how many).
pub fn sys_mount_table(vfs: &VfsTable) -> (r: Vec<[u8; 34]>)
    requires
        vfs.wf(),
    ensures
        r@.len() == vfs@.len(),
        forall|i: int| 0 <= i < r@.len() ==> (#[trigger] r@[i])@ == mount_record(vfs@[i]),
{
    let mut out: Vec<[u8; 34]> = Vec::new();
    let n = vfs.count();
    let mut i: usize = 0;
    while i < n
        invariant
            vfs.wf(),
            n == vfs@.len(),
            i <= n,
            out@.len() == i,
            forall|k: int| 0 <= k < i ==> (#[trigger] out@[k])@ == mount_record(vfs@[k]),
        decreases n - i,
    {
        match vfs.get(i) {
            Some(m) => {
                let mut rec = [0u8; 34];
                let len = m.path_len;
                let mut k: usize = 0;
                while k < len
                    invariant
                        len == m.path_len,
                        len <= 32,
                        k <= len,
                        forall|j: int| 0 <= j < k ==> rec@[j] == m.path@[j],
                        forall|j: int| k <= j < 34 ==> rec@[j] == 0,
                    decreases len - k,
                {
                    rec[k] = m.path[k];
                    k = k + 1;
                }
                rec[32] = len as u8;
                rec[33] = match m.fs_type {
                    FsType::Empty => 0,
                    FsType::Root => 1,
                    FsType::Fat12 => 2,
                    FsType::Iso9660 => 3,
                };
                assert(rec@ =~= mount_record(vfs@[i as int]));
                out.push(rec);
            },
            None => {},
        }
        i = i + 1;
    }
    out
}

/// The bytes of `s` that are not spaces.
pub open spec fn no_spaces(s: Seq<u8>) -> Seq<u8>
    decreases s.len(),
{
    if s.len() == 0 {
        s
    } else if s.last() == 0x20 {
        no_spaces(s.drop_last())
    } else {
        no_spaces(s.drop_last()).push(s.last())
    }
}

proof fn lemma_no_spaces_len(s: Seq<u8>)
    ensures
        no_spaces(s).len() <= s.len(),
    decreases s.len(),
{
    if s.len() > 0 {
        lemma_no_spaces_len(s.drop_last());
    }
}

/// The name call 0x2D shows for a FAT12 entry: the base without spaces,
/// and for a file with an extension, '.' and the extension without spaces.
pub open spec fn listed_name(e: Entry) -> Seq<u8> {
    no_spaces(e.name@) + if e.attr & 0x10 == 0 && e.ext[0] != 0x20 {
        seq![0x2eu8] + no_spaces(e.ext@)
    } else {
        Seq::empty()
    }
}

/// The four little-endian bytes of `v`.
pub open spec fn le4(v: u32) -> Seq<u8> {
    seq![(v % 256) as u8, ((v / 256) % 256) as u8, ((v / 65536) % 256) as u8, ((v / 16777216) % 256) as u8]
}

/// The 38-byte record call 0x2D writes: a 32-byte name field, the name's
/// length, 1 for a directory, and the size, little-endian.
pub open spec fn path_record(name32: Seq<u8>, name_len: u8, is_dir: bool, size: u32) -> Seq<u8> {
    name32 + seq![name_len, if is_dir { 1u8 } else { 0u8 }] + le4(size)
}

/// The record of a FAT12 entry: its shown name padded with zeros.
pub open spec fn fat_record(e: Entry) -> Seq<u8> {
    let n = listed_name(e);
    path_record(n + Seq::new((32 - n.len()) as nat, |k: int| 0u8), n.len() as u8, e.attr & 0x10 != 0, e.file_size)
}

/// The record of an ISO 9660 entry.
pub open spec fn iso_record(e: IsoEntry) -> Seq<u8> {
    path_record(e.name@, e.name_len, e.is_dir, e.size)
}

/// The record of the ISO 9660 directory record at `off` of block `b`: its
/// name lower-cased (version suffix removed, at most 32 bytes, padded with
/// zeros), the name's length, whether it is a directory, and its size.
pub open spec fn iso_record_at(b: Seq<u8>, off: int) -> Seq<u8> {
    let st = record_name(b, off);
    let cl = if st.len() < 32 { st.len() as int } else { 32 };
    path_record(
        Seq::new(32, |i: int| if i < cl { lower(st[i]) } else { 0u8 }),
        cl as u8,
        b[off + 25] & 2 != 0,
        le32(b, off + 10) as u32,
    )
}

/// A FAT12 entry call 0x2D lists: in use and not the volume label.
pub open spec fn listed(e: Entry) -> bool {
    e.name[0] != 0 && e.name[0] != 0xE5 && e.attr & 0x08 == 0
}

/// The entries of `es` that call 0x2D lists, in order.
pub open spec fn listing(es: Seq<Entry>) -> Seq<Entry>
    decreases es.len(),
{
    if es.len() == 0 {
        es
    } else if listed(es.last()) {
        listing(es.drop_last()).push(es.last())
    } else {
        listing(es.drop_last())
    }
}

/// `s` cut to 32 items.
pub open spec fn first32<T>(s: Seq<T>) -> Seq<T> {
    if s.len() <= 32 { s } else { s.take(32) }
}

/// The shown name of a FAT12 entry's base or extension.
fn compact(s: &[u8]) -> (r: Vec<u8>)
    ensures
        r@ == no_spaces(s@),
{
    let mut out: Vec<u8> = Vec::new();
    let mut i: usize = 0;
    assert(s@.take(0) =~= Seq::<u8>::empty());
    while i < s.len()
        invariant
            i <= s@.len(),
            out@ == no_spaces(s@.take(i as int)),
        decreases s@.len() - i,
    {
        assert(s@.take(i + 1).drop_last() =~= s@.take(i as int));
        if s[i] != 0x20 {
            out.push(s[i]);
        }
        i = i + 1;
    }
    assert(s@.take(s@.len() as int) =~= s@);
    out
}

/// The record of `name32`, `name_len`, `is_dir` and `size`.
fn make_record(name32: &[u8; 32], name_len: u8, is_dir: bool, size: u32) -> (r: [u8; 38])
    ensures
        r@ == path_record(name32@, name_len, is_dir, size),
{
    let mut rec = [0u8; 38];
    let mut k: usize = 0;
    while k < 32
        invariant
            k <= 32,
            forall|j: int| 0 <= j < k ==> rec@[j] == name32@[j],
        decreases 32 - k,
    {
        rec[k] = name32[k];
        k = k + 1;
    }
    rec[32] = name_len;
    rec[33] = if is_dir { 1 } else { 0 };
    rec[34] = (size % 256) as u8;
    rec[35] = ((size / 256) % 256) as u8;
    rec[36] = ((size / 65536) % 256) as u8;
    rec[37] = ((size / 16777216) % 256) as u8;
    assert(rec@ =~= path_record(name32@, name_len, is_dir, size));
    rec
}

/// The record of a FAT12 entry.
fn fat_entry_record(e: &Entry) -> (r: [u8; 38])
    ensures
        r@ == fat_record(*e),
{
    let base = compact(e.name.as_slice());
    let mut n: Vec<u8> = base;
    if e.attr & 0x10 == 0 && e.ext[0] != 0x20 {
        n.push(0x2e);
        let ext = compact(e.ext.as_slice());
        let mut k: usize = 0;
        let ghost before = n@;
        while k < ext.len()
            invariant
                k <= ext@.len(),
                n@ == before + ext@.take(k as int),
            decreases ext@.len() - k,
        {
            n.push(ext[k]);
            k = k + 1;
            assert(n@ =~= before + ext@.take(k as int));
        }
        assert(ext@.take(ext@.len() as int) =~= ext@);
        assert(n@ =~= listed_name(*e));
    } else {
        assert(n@ =~= listed_name(*e));
    }
    proof {
        lemma_no_spaces_len(e.name@);
        lemma_no_spaces_len(e.ext@);
    }
    let mut name32 = [0u8; 32];
    let mut k: usize = 0;
    while k < n.len()
        invariant
            n@.len() <= 12,
            k <= n@.len(),
            forall|j: int| 0 <= j < k ==> name32@[j] == n@[j],
            forall|j: int| k <= j < 32 ==> name32@[j] == 0,
        decreases n@.len() - k,
    {
        name32[k] = n[k];
        k = k + 1;
    }
    assert(name32@ =~= n@ + Seq::new((32 - n@.len()) as nat, |k: int| 0u8));
    make_record(&name32, n.len() as u8, e.attr & 0x10 != 0, e.file_size)
}

/// The entries of `es` that call 0x2D lists, at most 32.
fn listing_of(es: &Vec<Entry>) -> (r: Vec<Entry>)
    ensures
        r@ == first32(listing(es@)),
{
    let mut out: Vec<Entry> = Vec::new();
    let mut i: usize = 0;
    assert(es@.take(0) =~= Seq::<Entry>::empty());
    while i < es.len()
        invariant
            i <= es@.len(),
            out@ == first32(listing(es@.take(i as int))),
        decreases es@.len() - i,
    {
        assert(es@.take(i + 1).drop_last() =~= es@.take(i as int));
        let e = es[i];
        if e.name[0] != 0 && e.name[0] != 0xE5 && e.attr & 0x08 == 0 {
            if out.len() < 32 {
                out.push(e);
            }
            proof {
                let l = listing(es@.take(i as int));
                assert(listing(es@.take(i + 1)) == l.push(e));
                if l.len() < 32 {
                    assert(first32(l.push(e)) =~= l.push(e));
                } else {
                    assert(first32(l.push(e)) =~= first32(l));
                }
            }
        }
        i = i + 1;
    }
    assert(es@.take(es@.len() as int) =~= es@);
    out
}

/// The bytes of each record.
pub open spec fn records(v: Seq<[u8; 38]>) -> Seq<Seq<u8>> {
    v.map_values(|a: [u8; 38]| a@)
}

/// What call 0x2D lists for `path`: on the CD-ROM the records of the
/// entries of the directory the path names, at most 32; on FAT12 those of
/// the entries in use, other than the volume label, of the directory it
/// names (see `fat_dir_of`), at most 32. None (the call returns u64::MAX)
/// when there is no CD-ROM drive, the path names no directory, or the
/// directory's entries would lie off the device.
pub open spec fn spec_list_path<D: BlockDevice, I: IsoDevice>(
    fs: &Fs<D>,
    iso: Option<&Iso9660<I>>,
    ms: Seq<(Seq<u8>, FsType)>,
    cwd: u16,
    path: Seq<u8>,
    r: Option<Seq<Seq<u8>>>,
) -> bool {
    if iso_rest(ms, path) is Some {
        match iso {
            None => r is None,
            Some(d) => match iso_kind(d, iso_rest(ms, path)->0) {
                Some((is_dir, lba, size)) => if is_dir {
                    let walk = list_walk(&d.device, lba, size as int, 0);
                    r matches Some(recs) && recs.len() == first32(walk).len() && forall|k: int| 0 <= k < recs.len() ==>
                        #[trigger] recs[k] == iso_record_at(d.device.block(walk[k].0)->0, walk[k].1)
                } else {
                    r is None
                },
                None => r is None,
            },
        }
    } else {
        match fat_dir_of(fs, ms, cwd, path) {
            Err(_) => r is None,
            Ok(dir) => if fs.dir_walk_on_device(dir) {
                r == Some(first32(listing(fs.dir_entries(dir))).map_values(|e: Entry| fat_record(e)))
            } else {
                r is None
            },
        }
    }
}

/// Call 0x2D: the records of the directory `path` names (see
/// `spec_list_path`).
pub fn sys_list_path<D: BlockDevice, I: IsoDevice>(
    fs: &Fs<D>,
    iso: Option<&Iso9660<I>>,
    vfs: &VfsTable,
    cwd: u16,
    path: &[u8],
) -> (r: Option<Vec<[u8; 38]>>)
    requires
        fs.wf(),
        vfs.wf(),
    ensures
        spec_list_path(fs, iso, vfs@, cwd, path@, match r {
            Some(v) => Some(records(v@)),
            None => None,
        }),
{
    match on_iso(vfs, path) {
        Some(rel) => {
            let d = match iso {
                None => {
                    return None;
                },
                Some(d) => d,
            };
            let (lba, size) = match iso_lookup(d, rel) {
                Some((is_dir, lba, size)) => {
                    if !is_dir {
                        return None;
                    }
                    (lba, size)
                },
                None => {
                    return None;
                },
            };
            let es = d.list_dir(lba, size);
            assert(es@.len() == list_walk(&d.device, lba, size as int, 0).len());
            assert forall|j: int| 0 <= j < es@.len() implies d.device.block(list_walk(&d.device, lba, size as int, 0)[j].0) is Some by {
                let x = es@[j];
                assert(entry_matches(x, d.device.block(list_walk(&d.device, lba, size as int, 0)[j].0)->0, list_walk(&d.device, lba, size as int, 0)[j].1));
            }
            let ghost walk = list_walk(&d.device, lba, size as int, 0);
            let n = if es.len() < 32 { es.len() } else { 32 };
            let mut out: Vec<[u8; 38]> = Vec::new();
            let mut k: usize = 0;
            while k < n
                invariant
                    n <= es@.len(),
                    n == if es@.len() < 32 { es@.len() as int } else { 32 },
                    es@.len() == walk.len(),
                    walk == list_walk(&d.device, lba, size as int, 0),
                    forall|j: int| 0 <= j < es@.len() ==> {
                        let (blba, off) = list_walk(&d.device, lba, size as int, 0)[j];
                        &&& d.device.block(blba) is Some
                        &&& entry_matches(#[trigger] es@[j], d.device.block(blba)->0, off)
                    },
                    k <= n,
                    out@.len() == k,
                    forall|j: int| 0 <= j < k ==> (#[trigger] out@[j])@ == iso_record(es@[j]),
                decreases n - k,
            {
                let e = es[k];
                out.push(make_record(&e.name, e.name_len, e.is_dir, e.size));
                k = k + 1;
            }
            proof {
                let recs = records(out@);
                assert forall|j: int| 0 <= j < recs.len() implies #[trigger] recs[j] == iso_record_at(d.device.block(walk[j].0)->0, walk[j].1) by {
                    let (blba, off) = walk[j];
                    let b = d.device.block(blba)->0;
                    let e = es@[j];
                    assert(entry_matches(e, b, off));
                    let st = record_name(b, off);
                    let cl = if st.len() < 32 { st.len() as int } else { 32 };
                    assert(e.name@ =~= Seq::new(32, |i: int| if i < cl { lower(st[i]) } else { 0u8 }));
                    assert(recs[j] == iso_record(e));
                }
            }
            Some(out)
        },
        None => {
            let dir = match find_fat_dir(fs, vfs, cwd, path) {
                Err(_) => {
                    return None;
                },
                Ok(dir) => dir,
            };
            if !fs.can_walk_dir(dir) {
                return None;
            }
            let es = fs.entries(dir);
            let shown = listing_of(&es);
            let mut out: Vec<[u8; 38]> = Vec::new();
            let mut k: usize = 0;
            while k < shown.len()
                invariant
                    k <= shown@.len(),
                    out@.len() == k,
                    forall|j: int| 0 <= j < k ==> (#[trigger] out@[j])@ == fat_record(shown@[j]),
                decreases shown@.len() - k,
            {
                out.push(fat_entry_record(&shown[k]));
                k = k + 1;
            }
            assert(records(out@) =~= shown@.map_values(|e: Entry| fat_record(e)));
            Some(out)
        },
    }
}

/// What call 0x20 reads for `path`: on the CD-ROM the file's bytes (see
/// `read_file`), size bytes in all, those past what could be read left 0;
/// on FAT12 the bytes of the file's chain (see `chain_bytes`). The errors:
/// no CD-ROM drive (FilesystemError), nothing of that name or, on FAT12,
/// a directory (FileNotFound), a directory on the CD-ROM (InvalidInput).
pub open spec fn spec_read<D: BlockDevice, I: IsoDevice>(
    fs: &Fs<D>,
    iso: Option<&Iso9660<I>>,
    ms: Seq<(Seq<u8>, FsType)>,
    cwd: u16,
    path: Seq<u8>,
    r: Result<Seq<u8>, u64>,
) -> bool {
    if iso_rest(ms, path) is Some {
        match iso {
            None => r == Err::<Seq<u8>, u64>(code(SyscallReturnCode::FilesystemError)),
            Some(d) => match iso_kind(d, iso_rest(ms, path)->0) {
                None => r == Err::<Seq<u8>, u64>(code(SyscallReturnCode::FileNotFound)),
                Some((is_dir, lba, size)) => if is_dir {
                    r == Err::<Seq<u8>, u64>(code(SyscallReturnCode::InvalidInput))
                } else {
                    r matches Ok(v) && v.len() == size && exists|n: int| {
                        &&& 0 <= n <= size
                        &&& (n == size || (n % 2048 == 0 && d.device.block(file_block(lba, n)) is None))
                        &&& forall|t: int| 0 <= t < n ==> file_byte_ok(&d.device, lba, t, #[trigger] v[t])
                        &&& forall|t: int| n <= t < size ==> #[trigger] v[t] == 0
                    }
                },
            },
        }
    } else {
        let (rel, base) = fat_target(ms, path, cwd);
        match fs.spec_find_entry(base, name83_of(rel)) {
            Some(e) => if e.attr & 0x10 == 0 {
                r == Ok::<Seq<u8>, u64>(chain_bytes(fs, e.start_cluster, e.file_size as int))
            } else {
                r == Err::<Seq<u8>, u64>(code(SyscallReturnCode::FileNotFound))
            },
            None => r == Err::<Seq<u8>, u64>(code(SyscallReturnCode::FileNotFound)),
        }
    }
}

/// Call 0x20: the bytes to copy to the caller's buffer, or the code to
/// return (see `spec_read`).
pub fn sys_read<D: BlockDevice, I: IsoDevice>(
    fs: &Fs<D>,
    iso: Option<&Iso9660<I>>,
    vfs: &VfsTable,
    cwd: u16,
    path: &[u8],
) -> (r: Result<Vec<u8>, u64>)
    requires
        fs.wf(),
        vfs.wf(),
    ensures
        spec_read(fs, iso, vfs@, cwd, path@, match r {
            Ok(v) => Ok::<Seq<u8>, u64>(v@),
            Err(c) => Err::<Seq<u8>, u64>(c),
        }),
{
    match on_iso(vfs, path) {
        Some(rel) => {
            let d = match iso {
                None => {
                    return Err(SyscallReturnCode::FilesystemError.code());
                },
                Some(d) => d,
            };
            match d.resolve(rel) {
                None => Err(SyscallReturnCode::FileNotFound.code()),
                Some(e) => {
                    assert(iso_kind(d, rel@) == Some((e.is_dir, e.lba, e.size)));
                    if e.is_dir {
                        return Err(SyscallReturnCode::InvalidInput.code());
                    }
                    let mut buf: Vec<u8> = Vec::new();
                    let mut k: u32 = 0;
                    while k < e.size
                        invariant
                            k <= e.size,
                            buf@.len() == k,
                            forall|t: int| 0 <= t < k ==> buf@[t] == 0,
                        decreases e.size - k,
                    {
                        buf.push(0);
                        k = k + 1;
                    }
                    let n = d.read_file(&e, buf.as_mut_slice());
                    assert(buf@.len() == e.size);
                    assert(forall|t: int| n <= t < e.size ==> #[trigger] buf@[t] == 0);
                    Ok(buf)
                },
            }
        },
        None => {
            let (rel, base) = fat_split(vfs, path, cwd);
            let n = fat83(rel);
            match fs.find_entry(base, &n) {
                Some(e) => {
                    if e.attr & 0x10 == 0 {
                        Ok(read_chain(fs, e.start_cluster, e.file_size))
                    } else {
                        Err(SyscallReturnCode::FileNotFound.code())
                    }
                },
                None => Err(SyscallReturnCode::FileNotFound.code()),
            }
        },
    }
}

/// A slot that the entry listing call reports: in use (its first byte is
/// neither 0x00, 0xE5 nor 0xFF) and not a volume label.
pub open spec fn call_lists(e: Entry) -> bool {
    e.name@[0] != 0x00 && e.name@[0] != 0xE5 && e.name@[0] != 0xFF && e.attr & 0x08 == 0
}

/// The first 32 entries of `es` that the entry listing call reports, in order.
pub open spec fn call_listing(es: Seq<Entry>) -> Seq<Entry>
    decreases es.len(),
{
    if es.len() == 0 {
        Seq::empty()
    } else {
        let prev = call_listing(es.drop_last());
        if call_lists(es.last()) && prev.len() < 32 {
            prev.push(es.last())
        } else {
            prev
        }
    }
}

/// The entry listing call: the first 32 entries of directory `cluster`
/// that are in use and are not volume labels, in directory order.
pub fn sys_list_entries<D: BlockDevice>(fs: &Fs<D>, cluster: u16) -> (r: Vec<Entry>)
    requires
        fs.wf(),
        fs.dir_walk_on_device(cluster),
    ensures
        r@ == call_listing(fs.dir_entries(cluster)),
        r@.len() <= 32,
{
    let es = fs.entries(cluster);
    let mut out: Vec<Entry> = Vec::new();
    let mut i: usize = 0;
    while i < es.len()
        invariant
            i <= es@.len(),
            out@ == call_listing(es@.take(i as int)),
            out@.len() <= 32,
        decreases es@.len() - i,
    {
        let e = es[i];
        assert(es@.take(i + 1).drop_last() =~= es@.take(i as int));
        assert(es@.take(i + 1).last() == e);
        if e.name[0] != 0x00 && e.name[0] != 0xE5 && e.name[0] != 0xFF && e.attr & 0x08 == 0 && out.len() < 32 {
            out.push(e);
        }
        i = i + 1;
    }
    assert(es@.take(es@.len() as int) =~= es@);
    out
}

} // verus!
