use rou2exos::abi::syscall::{fill_sysinfo, SysInfo};
use rou2exos::abi::pipe::sys_pipe;
use rou2exos::input::irq::Receptors;
use rou2exos::abi::fs_calls::sys_mount_table;
use rou2exos::debug::{u64_to_dec_str, DebugLog};
use rou2exos::fs::vfs::{try_fat12_absolute, FsType, VfsTable};
use rou2exos::init::config::{get_prompt, trimmed_len, SystemConfig};
use rou2exos::init::fs::{floppy_check_init, map_kernel_high_half, vfs_init};
use rou2exos::init::result::InitResult;
use rou2exos::input::irq::Subscriber;
use rou2exos::mem::pmm::{pmm_alloc, pmm_free, pmm_mark, PhysicalBitmap};
use rou2exos::mem::pages::user_frame_phys;

#[test]
fn config_defaults() {
    let c = SystemConfig::new();
    assert_eq!(c.get_user(), b"root");
    assert_eq!(c.get_host(), b"rourex");
    assert_eq!(c.get_path(), b"/");
    assert_eq!(c.get_path_cluster(), 0);
    assert_eq!(c.get_version(), b"v0.11.3");
}

#[test]
fn config_set_then_get_roundtrip() {
    let mut c = SystemConfig::new();
    c.set_user(b"alice");
    c.set_host(b"box");
    c.set_path(b"/mnt/fat/docs", 17);
    assert_eq!(c.get_user(), b"alice");
    assert_eq!(c.get_host(), b"box");
    assert_eq!(c.get_path(), b"/mnt/fat/docs");
    assert_eq!(c.get_path_cluster(), 17);
}

#[test]
fn config_path_is_cut_to_32_bytes() {
    let mut c = SystemConfig::new();
    let long = [b'a'; 40];
    c.set_path(&long, 3);
    assert_eq!(c.get_path().len(), 32);
}

#[test]
fn prompt_format() {
    let c = SystemConfig::new();
    assert_eq!(get_prompt(Some(&c)), b"root@rourex:/ > ".to_vec());
    assert_eq!(get_prompt(None), b"$ ".to_vec());
}

#[test]
fn trimmed_len_drops_trailing_spaces() {
    assert_eq!(trimmed_len(b"abc   "), 3);
    assert_eq!(trimmed_len(b"   "), 0);
    assert_eq!(trimmed_len(b"a b"), 3);
}

#[test]
fn debug_log_appends_in_order() {
    let mut log = DebugLog::new();
    log.append(b"abc");
    log.append(b"def");
    assert_eq!(log.data(), b"abcdef");
    log.clear();
    assert_eq!(log.data(), b"");
}

#[test]
fn debug_log_drops_what_does_not_fit() {
    let mut log = DebugLog::new();
    let big = vec![b'x'; 8192];
    log.append(&big);
    assert_eq!(log.data().len(), 8192);
    log.append(b"more");
    assert_eq!(log.data().len(), 8192);
}

#[test]
fn decimal_strings() {
    let mut buf = [0u8; 20];
    assert_eq!(u64_to_dec_str(0, &mut buf), b"0");
    assert_eq!(u64_to_dec_str(1234567890, &mut buf), b"1234567890");
    assert_eq!(u64_to_dec_str(u64::MAX, &mut buf), b"18446744073709551615");
}

#[test]
fn vfs_resolves_longest_mount() {
    let mut v = VfsTable::new();
    vfs_init(&mut v, true);
    assert_eq!(v.count(), 3);
    match v.resolve(b"/mnt/fat/docs/a.txt") {
        Some((t, rel)) => {
            assert!(t == FsType::Fat12);
            assert_eq!(rel, b"docs/a.txt");
        }
        None => panic!("no mount"),
    }
    match v.resolve(b"/mnt/iso") {
        Some((t, rel)) => {
            assert!(t == FsType::Iso9660);
            assert_eq!(rel, b"");
        }
        None => panic!("no mount"),
    }
    // "/" serves only "/" itself: a mount point must end the path or be followed by '/'.
    assert!(v.resolve(b"/mnt/fatter").is_none());
    match v.resolve(b"/") {
        Some((t, rel)) => {
            assert!(t == FsType::Root);
            assert_eq!(rel, b"");
        }
        None => panic!("no mount"),
    }
    assert_eq!(try_fat12_absolute(&v, b"/mnt/fat/x"), Some(&b"x"[..]));
    assert_eq!(try_fat12_absolute(&v, b"/mnt/iso/x"), None);
}

#[test]
fn vfs_init_without_cd() {
    let mut v = VfsTable::new();
    vfs_init(&mut v, false);
    assert_eq!(v.count(), 2);
}

#[test]
fn umount_undoes_mount() {
    let mut v = VfsTable::new();
    vfs_init(&mut v, false);
    assert!(v.mount(b"/mnt/new", FsType::Fat12));
    assert!(v.umount(b"/mnt/new"));
    assert_eq!(v.count(), 2);
    assert!(!v.umount(b"/mnt/new"));
    assert!(v.resolve(b"/mnt/new/a").is_none());
}

#[test]
fn mount_table_is_bounded() {
    let mut v = VfsTable::new();
    for _ in 0..8 {
        assert!(v.mount(b"/x", FsType::Root));
    }
    assert!(!v.mount(b"/y", FsType::Root));
    assert_eq!(v.count(), 8);
}

#[test]
fn floppy_check_resets_path() {
    let mut c = SystemConfig::new();
    c.set_path(b"/deep/dir", 9);
    assert!(floppy_check_init(true, &mut c) == InitResult::Passed);
    assert_eq!(c.get_path(), b"/");
    assert_eq!(c.get_path_cluster(), 0);
    assert!(floppy_check_init(false, &mut c) == InitResult::Skipped);
    assert!(map_kernel_high_half() == InitResult::Passed);
}

#[test]
fn keyboard_ring_is_fifo() {
    let mut s = Subscriber::new();
    s.push_irq(b'a', false);
    s.push_irq(b'b', false);
    s.push_irq(b'c', false);
    assert_eq!(s.available(), 3);
    assert_eq!(s.copy_to_user(2), b"ab".to_vec());
    assert_eq!(s.available(), 1);
    assert_eq!(s.copy_to_user(10), b"c".to_vec());
    assert_eq!(s.available(), 0);
}

#[test]
fn keyboard_ring_keeps_255_bytes() {
    let mut s = Subscriber::new();
    for i in 0..300u32 {
        s.push_irq((i % 256) as u8, false);
    }
    assert_eq!(s.available(), 255);
    let got = s.copy_to_user(255);
    assert_eq!(got[0], 0);
    assert_eq!(got[254], 254);
}

#[test]
fn keyboard_mailbox_only_when_subscribed_and_empty() {
    let mut s = Subscriber::new();
    assert!(!s.push_irq(1, true));
    s.buf_ptr = 0x1000;
    assert!(s.push_irq(2, true));
    assert!(!s.push_irq(3, false));
}

#[test]
fn pmm_allocates_lowest_free_frame() {
    let mut b = PhysicalBitmap::new();
    assert_eq!(pmm_alloc(&mut b), Some(0));
    assert_eq!(pmm_alloc(&mut b), Some(0x1000));
    pmm_mark(&mut b, 2, true);
    assert_eq!(pmm_alloc(&mut b), Some(0x3000));
    pmm_free(&mut b, 0x1000);
    assert!(!b.is_used(1));
    assert_eq!(pmm_alloc(&mut b), Some(0x1000));
    assert!(b.is_used(1));
}

#[test]
fn user_frames_are_2mib_apart() {
    assert_eq!(user_frame_phys(0), 0x100_0000);
    assert_eq!(user_frame_phys(3), 0x100_0000 + 3 * 0x20_0000);
}

#[test]
fn keyboard_ring_keeps_at_most_255_bytes() {
    let mut s = Subscriber::new();
    for k in 0..300u32 {
        s.push_irq((k % 256) as u8, false);
    }
    assert_eq!(s.available(), 255);
    let first = s.copy_to_user(3);
    assert_eq!(first, vec![0, 1, 2]);
    assert_eq!(s.available(), 252);
    s.clear();
    assert_eq!(s.available(), 0);
}

#[test]
fn pipe_call_subscribes_reads_and_ignores_unknown_ops() {
    let mut rec = Receptors::new();
    assert_eq!(sys_pipe(&mut rec, 7, 1, 0x70_0000), (0, Vec::new()));
    assert_eq!(rec.slots[0].pid, 7);
    assert_eq!(rec.slots[0].buf_ptr, 0x70_0000);
    for b in 1..=20u8 {
        rec.slots[0].push_irq(b, false);
    }
    let (code, bytes) = sys_pipe(&mut rec, 7, 3, 0x70_0000);
    assert_eq!(code, 0);
    assert_eq!(bytes, (1..=16u8).collect::<Vec<u8>>());
    assert_eq!(rec.slots[0].available(), 4);
    assert_eq!(sys_pipe(&mut rec, 7, 4, 0x85_0000), (0, Vec::new()));
    assert_eq!(rec.slots[0].available(), 4);
    assert_eq!(sys_pipe(&mut rec, 9, 3, 0x70_0000), (0, Vec::new()));
    assert_eq!(sys_pipe(&mut rec, 7, 2, 0x70_0000), (0, Vec::new()));
    assert_eq!(rec.slots[0].pid, 0);
    assert_eq!(rec.slots[0].available(), 0);
}

#[test]
fn mount_table_call_writes_one_record_per_mount() {
    let mut v = VfsTable::new();
    assert!(v.mount(b"/", FsType::Root));
    assert!(v.mount(b"/mnt/fat", FsType::Fat12));
    let recs = sys_mount_table(&v);
    assert_eq!(recs.len(), 2);
    assert_eq!(recs[0][0], b'/');
    assert!(recs[0][1..32].iter().all(|&b| b == 0));
    assert_eq!((recs[0][32], recs[0][33]), (1, 1));
    assert_eq!(&recs[1][..8], b"/mnt/fat");
    assert_eq!((recs[1][32], recs[1][33]), (8, 2));
}

#[test]
fn sysinfo_call_fills_the_fields_that_fit() {
    let mut c = SystemConfig::new();
    c.set_path(b"/DOCS", 5);
    let mut info = SysInfo {
        system_name: [0xAA; 32],
        system_user: [0xAA; 32],
        system_path: [0xAA; 32],
        system_version: [0xAA; 8],
        system_path_cluster: 0,
        system_uptime: 0,
    };
    fill_sysinfo(&mut info, &c, 3725);
    assert_eq!(&info.system_name[..6], b"rourex");
    assert_eq!(info.system_name[6], 0xAA);
    assert_eq!(&info.system_user[..4], b"root");
    assert_eq!(&info.system_path[..5], b"/DOCS");
    assert_eq!(info.system_path[5], 0xAA);
    assert_eq!(&info.system_version[..7], b"v0.11.3");
    assert_eq!(info.system_version[7], 0xAA);
    assert_eq!(info.system_path_cluster, 5);
    assert_eq!(info.system_uptime, 3725);
}
