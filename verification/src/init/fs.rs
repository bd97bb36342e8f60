//! Start-up of the file systems: the mount table and the floppy check.
use vstd::prelude::*;
use crate::fs::vfs::{FsType, VfsTable, MAX_MOUNTS};
use crate::init::config::{padded, SystemConfig};
use crate::init::result::InitResult;

verus! {

/// The mounts after mounting `t` at `p`: appended while the table has room.
pub open spec fn mounted(ms: Seq<(Seq<u8>, FsType)>, p: Seq<u8>, t: FsType) -> Seq<(Seq<u8>, FsType)> {
    if ms.len() < MAX_MOUNTS {
        ms.push((p, t))
    } else {
        ms
    }
}

/// The path "/".
pub open spec fn root_path() -> Seq<u8> {
    seq![0x2Fu8]
}

/// The path "/mnt/fat".
pub open spec fn fat_mount_path() -> Seq<u8> {
    seq![0x2Fu8, 0x6D, 0x6E, 0x74, 0x2F, 0x66, 0x61, 0x74]
}

/// The path "/mnt/iso".
pub open spec fn iso_mount_path() -> Seq<u8> {
    seq![0x2Fu8, 0x6D, 0x6E, 0x74, 0x2F, 0x69, 0x73, 0x6F]
}

/// Mounts the root file system at "/", the floppy's FAT12 at "/mnt/fat",
/// and, when a CD was found, its ISO 9660 file system at "/mnt/iso".
pub fn vfs_init(vfs: &mut VfsTable, iso_present: bool)
    requires
        old(vfs).wf(),
    ensures
        final(vfs).wf(),
        ({
            let base = mounted(mounted(old(vfs)@, root_path(), FsType::Root), fat_mount_path(), FsType::Fat12);
            final(vfs)@ == if iso_present { mounted(base, iso_mount_path(), FsType::Iso9660) } else { base }
        }),
{
    let root: [u8; 1] = [0x2F];
    let fat: [u8; 8] = [0x2F, 0x6D, 0x6E, 0x74, 0x2F, 0x66, 0x61, 0x74];
    let iso: [u8; 8] = [0x2F, 0x6D, 0x6E, 0x74, 0x2F, 0x69, 0x73, 0x6F];
    assert(root@.subrange(0, 1) =~= root_path());
    assert(fat@.subrange(0, 8) =~= fat_mount_path());
    assert(iso@.subrange(0, 8) =~= iso_mount_path());
    vfs.mount(&root, FsType::Root);
    vfs.mount(&fat, FsType::Fat12);
    if iso_present {
        vfs.mount(&iso, FsType::Iso9660);
    }
}

/// The outcome of the floppy check, given whether a FAT12 file system was
/// found on the drive; the working directory is reset to "/" (cluster 0).
pub fn floppy_check_init(fs_found: bool, cfg: &mut SystemConfig) -> (r: InitResult)
    ensures
        r == (if fs_found { InitResult::Passed } else { InitResult::Skipped }),
        final(cfg).path@ == padded(root_path(), 32),
        final(cfg).path_len == 1,
        final(cfg).path_cluster == 0,
        final(cfg).user == old(cfg).user,
        final(cfg).host == old(cfg).host,
        final(cfg).version == old(cfg).version,
{
    let root: [u8; 1] = [0x2F];
    assert(root@ =~= root_path());
    cfg.set_path(&root, 0);
    if fs_found {
        InitResult::Passed
    } else {
        InitResult::Skipped
    }
}

/// Mapping the kernel to the higher half needs no work here: the boot code
/// already did it.
pub fn map_kernel_high_half() -> (r: InitResult)
    ensures
        r == InitResult::Passed,
{
    InitResult::Passed
}

} // verus!
