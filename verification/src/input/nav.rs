//! Where `cd` and `dir` go: a typed path, taken relative to the working
//! directory or through the mount table, becomes a FAT12 cluster or an
//! ISO 9660 extent.
use vstd::prelude::*;
use crate::app::editor::push_all;
use crate::fs::block::BlockDevice;
use crate::fs::fat12::entry::le32;
use crate::fs::fat12::fs::Fs;
use crate::fs::fat12::path::{dotdot_name, fat83};
use crate::fs::iso9660::block::IsoDevice;
use crate::fs::iso9660::fs::{resolve_walk, Iso9660};
use crate::fs::vfs::{spec_resolve, FsType, VfsTable};
use crate::input::cmd::{join_path, joined_path, parent_of, parent_path, spec_split_cmd, split_cmd};

verus! {

/// What an ISO 9660 path names: None when nothing, else whether it is a
/// directory and its extent (first block, size). The empty path names the
/// root directory.
pub open spec fn iso_kind<I: IsoDevice>(iso: &Iso9660<I>, path: Seq<u8>) -> Option<(bool, u32, u32)> {
    let p = if path.len() > 0 && path[0] == 0x2f { path.skip(1) } else { path };
    if p.len() == 0 {
        Some((true, iso.root_lba, iso.root_size))
    } else {
        match resolve_walk(&iso.device, iso.root_lba, iso.root_size, p, None) {
            None => None,
            Some((blba, off)) => {
                let b = iso.device.block(blba)->0;
                Some((b[off + 25] & 2 != 0, le32(b, off + 2) as u32, le32(b, off + 10) as u32))
            },
        }
    }
}

/// Looks an ISO 9660 path up (see `iso_kind`).
pub(crate) fn iso_lookup<I: IsoDevice>(iso: &Iso9660<I>, path: &[u8]) -> (r: Option<(bool, u32, u32)>)
    ensures
        r == iso_kind(iso, path@),
{
    match iso.resolve(path) {
        None => None,
        Some(e) => Some((e.is_dir, e.lba, e.size)),
    }
}

/// Why `cd` refused to move.
#[derive(Clone, Copy, Debug, PartialEq, Eq, Structural)]
pub enum CdError {
    /// The path lies on the CD-ROM and there is no drive.
    NoDevice,
    /// The path names nothing that is a directory there.
    NoSuchDirectory,
    /// The path names a file.
    NotADirectory,
    /// An absolute path under no FAT12 or ISO 9660 mount.
    UnknownMount,
}

/// The path is absolute and lies on the ISO 9660 mount: the rest of it.
pub open spec fn iso_rest(ms: Seq<(Seq<u8>, FsType)>, path: Seq<u8>) -> Option<Seq<u8>> {
    match spec_resolve(ms, path) {
        Some((t, rel)) => if t == FsType::Iso9660 { Some(rel) } else { None },
        None => None,
    }
}

/// The path lies on the FAT12 mount: the rest of it.
pub open spec fn fat_rest(ms: Seq<(Seq<u8>, FsType)>, path: Seq<u8>) -> Option<Seq<u8>> {
    match spec_resolve(ms, path) {
        Some((t, rel)) => if t == FsType::Fat12 { Some(rel) } else { None },
        None => None,
    }
}

/// `s` cut to 32 bytes.
pub open spec fn cut32(s: Seq<u8>) -> Seq<u8> {
    if s.len() <= 32 { s } else { s.take(32) }
}

/// Where `cd` with the arguments `arg` moves from the path `cur` and the
/// FAT12 directory `cwd`: the new path and cluster, or why it does not
/// move. Without an argument nothing changes; "/" goes to the root; an
/// absolute path on the CD-ROM must name a directory there (cluster 0);
/// ".." goes up (on FAT12 to the cluster of the ".." entry, 0 when there is
/// none); otherwise the path is walked on FAT12 from the root of the mount
/// (absolute) or from `cwd` (relative) and must end in a directory.
pub open spec fn spec_cd<D: BlockDevice, I: IsoDevice>(
    fs: &Fs<D>,
    iso: Option<&Iso9660<I>>,
    ms: Seq<(Seq<u8>, FsType)>,
    cur: Seq<u8>,
    cwd: u16,
    arg: Seq<u8>,
) -> Result<(Seq<u8>, u16), CdError> {
    let name = spec_split_cmd(arg).0;
    let slash = seq![0x2fu8];
    let absolute = name.len() > 0 && name[0] == 0x2f;
    if name.len() == 0 {
        Ok((cur, cwd))
    } else if name == slash {
        Ok((slash, 0))
    } else if absolute && iso_rest(ms, name) is Some {
        match iso {
            None => Err(CdError::NoDevice),
            Some(d) => match iso_kind(d, iso_rest(ms, name)->0) {
                Some((is_dir, _, _)) => if is_dir { Ok((cut32(name), 0)) } else { Err(CdError::NoSuchDirectory) },
                None => Err(CdError::NoSuchDirectory),
            },
        }
    } else if name == seq![0x2eu8, 0x2e] && iso_rest(ms, cur) is Some {
        Ok((parent_of(cur), 0))
    } else if name == seq![0x2eu8, 0x2e] {
        if cur == slash {
            Ok((cur, cwd))
        } else {
            Ok((parent_of(cur), match fs.spec_find_entry(cwd, dotdot_name()) {
                Some(e) => e.start_cluster,
                None => 0,
            }))
        }
    } else if absolute && fat_rest(ms, name) is None {
        Err(CdError::UnknownMount)
    } else {
        let (rel, base) = if absolute { (fat_rest(ms, name)->0, 0u16) } else { (name, cwd) };
        match fs.path_walk(base, rel, None) {
            None => Err(CdError::NoSuchDirectory),
            Some(e) => if e.attr & 0x10 == 0 {
                Err(CdError::NotADirectory)
            } else {
                Ok((if absolute { cut32(name) } else { joined_path(cur, name, 32) }, e.start_cluster))
            },
        }
    }
}

/// The copy of `s` cut to 32 bytes.
fn cut32_vec(s: &[u8]) -> (r: Vec<u8>)
    ensures
        r@ == cut32(s@),
{
    let n = if s.len() < 32 { s.len() } else { 32 };
    let mut out: Vec<u8> = Vec::new();
    let mut i: usize = 0;
    while i < n
        invariant
            n <= s@.len(),
            n == if s@.len() < 32 { s@.len() as int } else { 32 },
            i <= n,
            out@ == s@.take(i as int),
        decreases n - i,
    {
        out.push(s[i]);
        i = i + 1;
        assert(out@ =~= s@.take(i as int));
    }
    assert(s@.len() <= 32 ==> s@.take(n as int) =~= s@);
    out
}

/// A copy of `s`.
fn copy_of(s: &[u8]) -> (r: Vec<u8>)
    ensures
        r@ == s@,
{
    let mut out: Vec<u8> = Vec::new();
    push_all(&mut out, s);
    assert(out@ =~= s@);
    out
}

/// Whether `s` is "..".
fn is_dotdot(s: &[u8]) -> (r: bool)
    ensures
        r == (s@ == seq![0x2eu8, 0x2e]),
{
    let r = s.len() == 2 && s[0] == 0x2e && s[1] == 0x2e;
    proof {
        if r {
            assert(s@ =~= seq![0x2eu8, 0x2e]);
        }
        if s@ == seq![0x2eu8, 0x2e] {
            assert(s@.len() == 2 && s@[0] == 0x2e && s@[1] == 0x2e);
        }
    }
    r
}

/// Whether `s` is "/".
fn is_root(s: &[u8]) -> (r: bool)
    ensures
        r == (s@ == seq![0x2fu8]),
{
    let r = s.len() == 1 && s[0] == 0x2f;
    proof {
        if r {
            assert(s@ =~= seq![0x2fu8]);
        }
        if s@ == seq![0x2fu8] {
            assert(s@.len() == 1 && s@[0] == 0x2f);
        }
    }
    r
}

/// The part of `path` under the ISO 9660 mount, when it lies there.
fn iso_part<'a>(vfs: &VfsTable, path: &'a [u8]) -> (r: Option<&'a [u8]>)
    requires
        vfs.wf(),
    ensures
        match r {
            Some(rel) => iso_rest(vfs@, path@) == Some(rel@),
            None => iso_rest(vfs@, path@) is None,
        },
{
    match vfs.resolve(path) {
        Some((FsType::Iso9660, rel)) => Some(rel),
        _ => None,
    }
}

/// The part of `path` under the FAT12 mount, when it lies there.
fn fat_part<'a>(vfs: &VfsTable, path: &'a [u8]) -> (r: Option<&'a [u8]>)
    requires
        vfs.wf(),
    ensures
        match r {
            Some(rel) => fat_rest(vfs@, path@) == Some(rel@),
            None => fat_rest(vfs@, path@) is None,
        },
{
    match vfs.resolve(path) {
        Some((FsType::Fat12, rel)) => Some(rel),
        _ => None,
    }
}

/// Where `cd` with the arguments `arg` moves (see `spec_cd`).
pub fn cd_target<D: BlockDevice, I: IsoDevice>(
    fs: &Fs<D>,
    iso: Option<&Iso9660<I>>,
    vfs: &VfsTable,
    cur_path: &[u8],
    cwd: u16,
    arg: &[u8],
) -> (r: Result<(Vec<u8>, u16), CdError>)
    requires
        fs.wf(),
        vfs.wf(),
        cur_path@.len() <= 32,
    ensures
        match r {
            Ok((p, c)) => spec_cd(fs, iso, vfs@, cur_path@, cwd, arg@) == Ok::<(Seq<u8>, u16), CdError>((p@, c)),
            Err(e) => spec_cd(fs, iso, vfs@, cur_path@, cwd, arg@) == Err::<(Seq<u8>, u16), CdError>(e),
        },
{
    let (name, _) = split_cmd(arg);
    if name.len() == 0 {
        return Ok((copy_of(cur_path), cwd));
    }
    if is_root(name) {
        let mut p: Vec<u8> = Vec::new();
        p.push(0x2f);
        assert(p@ =~= seq![0x2fu8]);
        return Ok((p, 0));
    }
    let absolute = name[0] == 0x2f;
    if absolute {
        match iso_part(vfs, name) {
            Some(rel) => {
                match iso {
                    None => {
                        return Err(CdError::NoDevice);
                    },
                    Some(d) => {
                        return match iso_lookup(d, rel) {
                            Some((is_dir, _, _)) => if is_dir { Ok((cut32_vec(name), 0)) } else { Err(CdError::NoSuchDirectory) },
                            None => Err(CdError::NoSuchDirectory),
                        };
                    },
                }
            },
            None => {},
        }
    }
    if is_dotdot(name) {
        if iso_part(vfs, cur_path).is_some() {
            return Ok((parent_path(cur_path), 0));
        }
        if is_root(cur_path) {
            return Ok((copy_of(cur_path), cwd));
        }
        let dd: [u8; 11] = [0x2e, 0x2e, 0x20, 0x20, 0x20, 0x20, 0x20, 0x20, 0x20, 0x20, 0x20];
        assert(dd@ =~= dotdot_name());
        let parent = match fs.find_entry(cwd, &dd) {
            Some(e) => e.start_cluster,
            None => 0,
        };
        return Ok((parent_path(cur_path), parent));
    }
    let (rel, base): (&[u8], u16) = if absolute {
        match fat_part(vfs, name) {
            Some(rel) => (rel, 0),
            None => {
                return Err(CdError::UnknownMount);
            },
        }
    } else {
        (name, cwd)
    };
    match fs.resolve_path_from(base, rel) {
        None => Err(CdError::NoSuchDirectory),
        Some(e) => {
            if e.attr & 0x10 == 0 {
                Err(CdError::NotADirectory)
            } else {
                let p = if absolute { cut32_vec(name) } else { join_path(cur_path, name, 32) };
                Ok((p, e.start_cluster))
            }
        },
    }
}

/// The directory `dir` lists.
#[derive(Clone, Copy, Debug, PartialEq, Eq, Structural)]
pub enum DirTarget {
    /// The FAT12 directory at this cluster (0: the root directory).
    Fat(u16),
    /// The ISO 9660 directory extent: first block and size in bytes.
    Iso(u32, u32),
    /// The path lies on the CD-ROM and there is no drive.
    NoDevice,
    /// The path names nothing, or on FAT12 names a file.
    NoSuchDirectory,
    /// On the CD-ROM the path names a file.
    NotADirectory,
}

/// The absolute path `dir` lists for the argument `p`: the working
/// directory, `p` itself when absolute, else `p` under the working
/// directory (cut to 64 bytes).
pub open spec fn dir_path(cur: Seq<u8>, p: Seq<u8>) -> Seq<u8> {
    if p.len() == 0 {
        cur
    } else if p[0] == 0x2f {
        p
    } else {
        joined_path(cur, p, 64)
    }
}

/// What `dir` with the arguments `arg` lists from the path `cur` and the
/// FAT12 directory `cwd`: a path on the CD-ROM is looked up there; on FAT12
/// no argument lists `cwd`, a path under the FAT12 mount is walked from its
/// root and any other from `cwd`, and must end in a directory.
pub open spec fn spec_dir_target<D: BlockDevice, I: IsoDevice>(
    fs: &Fs<D>,
    iso: Option<&Iso9660<I>>,
    ms: Seq<(Seq<u8>, FsType)>,
    cur: Seq<u8>,
    cwd: u16,
    arg: Seq<u8>,
) -> DirTarget {
    let p = spec_split_cmd(arg).0;
    let abs = dir_path(cur, p);
    if iso_rest(ms, abs) is Some {
        match iso {
            None => DirTarget::NoDevice,
            Some(d) => match iso_kind(d, iso_rest(ms, abs)->0) {
                None => DirTarget::NoSuchDirectory,
                Some((is_dir, lba, size)) => if is_dir { DirTarget::Iso(lba, size) } else { DirTarget::NotADirectory },
            },
        }
    } else if p.len() == 0 {
        DirTarget::Fat(cwd)
    } else {
        let (base, rel) = match fat_rest(ms, abs) {
            Some(rel) => (0u16, rel),
            None => (cwd, p),
        };
        match fs.path_walk(base, rel, None) {
            Some(e) => if e.attr & 0x10 != 0 { DirTarget::Fat(e.start_cluster) } else { DirTarget::NoSuchDirectory },
            None => DirTarget::NoSuchDirectory,
        }
    }
}

/// What `dir` with the arguments `arg` lists (see `spec_dir_target`).
pub fn dir_target<D: BlockDevice, I: IsoDevice>(
    fs: &Fs<D>,
    iso: Option<&Iso9660<I>>,
    vfs: &VfsTable,
    cur_path: &[u8],
    cwd: u16,
    arg: &[u8],
) -> (r: DirTarget)
    requires
        fs.wf(),
        vfs.wf(),
        cur_path@.len() <= 64,
    ensures
        r == spec_dir_target(fs, iso, vfs@, cur_path@, cwd, arg@),
{
    let (p, _) = split_cmd(arg);
    let joined: Vec<u8>;
    let abs: &[u8] = if p.len() == 0 {
        cur_path
    } else if p[0] == 0x2f {
        p
    } else {
        joined = join_path(cur_path, p, 64);
        joined.as_slice()
    };
    assert(abs@ == dir_path(cur_path@, p@));
    match iso_part(vfs, abs) {
        Some(rel) => {
            return match iso {
                None => DirTarget::NoDevice,
                Some(d) => match iso_lookup(d, rel) {
                    None => DirTarget::NoSuchDirectory,
                    Some((is_dir, lba, size)) => if is_dir { DirTarget::Iso(lba, size) } else { DirTarget::NotADirectory },
                },
            };
        },
        None => {},
    }
    if p.len() == 0 {
        return DirTarget::Fat(cwd);
    }
    let (base, rel): (u16, &[u8]) = match fat_part(vfs, abs) {
        Some(rel) => (0, rel),
        None => (cwd, p),
    };
    match fs.resolve_path_from(base, rel) {
        Some(e) => if e.attr & 0x10 != 0 { DirTarget::Fat(e.start_cluster) } else { DirTarget::NoSuchDirectory },
        None => DirTarget::NoSuchDirectory,
    }
}

} // verus!
