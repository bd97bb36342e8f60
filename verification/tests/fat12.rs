use rou2exos::input::elf::{prepare_program, StartError};
use rou2exos::abi::fs_calls::{sys_chdir, sys_delete, sys_fsck, sys_list_entries, sys_list_path, sys_mkdir, sys_read, sys_rename, sys_write};
use rou2exos::app::snake::{load_high_scores_fat12, load_level_by_number, save_high_scores_fat12, Point};
use rou2exos::fs::block::{BlockDevice, Floppy, MemDisk};
use rou2exos::fs::fat12::dir::print_name;
use rou2exos::fs::fat12::check::{is_valid_name, run_check, validate_chain, CheckReport};
use rou2exos::fs::fat12::entry::{read_le16, read_le32, Entry};
use rou2exos::fs::fat12::fs::{listing_entries, Fs, WriteStatus};
use rou2exos::fs::fat12::path::fat83;
use rou2exos::fs::iso9660::block::IsoImage;
use rou2exos::fs::iso9660::fs::Iso9660;
use rou2exos::fs::vfs::{FsType, VfsTable};
use rou2exos::input::nav::{cd_target, dir_target, CdError, DirTarget};

const SECTORS: usize = 2880;

fn floppy_image() -> Vec<u8> {
    let mut d = vec![0u8; SECTORS * 512];
    d[0] = 0xEB;
    d[1] = 0x3C;
    d[2] = 0x90;
    d[3..11].copy_from_slice(b"MSDOS5.0");
    d[11] = 0x00;
    d[12] = 0x02; // 512 bytes per sector
    d[13] = 1; // sectors per cluster
    d[14] = 1; // reserved sectors
    d[16] = 2; // FAT copies
    d[17] = 224; // root entries
    d[19] = (SECTORS % 256) as u8;
    d[20] = (SECTORS / 256) as u8;
    d[21] = 0xF0;
    d[22] = 9; // sectors per FAT
    d[24] = 18;
    d[26] = 2;
    d[54..62].copy_from_slice(b"FAT12   ");
    d[510] = 0x55;
    d[511] = 0xAA;
    // FAT: media descriptor and end mark for clusters 0 and 1.
    d[512] = 0xF0;
    d[513] = 0xFF;
    d[514] = 0xFF;
    d
}

fn fresh_fs() -> Fs<MemDisk> {
    match Fs::new(MemDisk::new(floppy_image())) {
        Ok(fs) => fs,
        Err(_) => panic!("image not recognised"),
    }
}

fn name11(s: &[u8]) -> [u8; 11] {
    let mut n = [0x20u8; 11];
    n.copy_from_slice(s);
    n
}

#[test]
fn new_reads_layout() {
    let fs = fresh_fs();
    assert_eq!(fs.fat_start_lba, 1);
    assert_eq!(fs.root_dir_start_lba, 19);
    assert_eq!(fs.data_start_lba, 33);
    assert_eq!(fs.sectors_per_cluster, 1);
    assert_eq!(fs.boot_sector.root_entry_count, 224);
    assert_eq!(fs.boot_sector.total_sectors_16, 2880);
}

#[test]
fn new_refuses_disk_without_label() {
    let r = Fs::new(MemDisk::new(vec![0u8; 4 * 512]));
    assert!(r.is_err());
}

#[test]
fn fat_entry_write_then_read_back() {
    let mut fs = fresh_fs();
    fs.write_fat12_entry(2, 0x123);
    fs.write_fat12_entry(3, 0xABC);
    assert_eq!(fs.read_fat12_entry(2), 0x123);
    assert_eq!(fs.read_fat12_entry(3), 0xABC);
    fs.write_fat12_entry(2, 0xFFF);
    assert_eq!(fs.read_fat12_entry(2), 0xFFF);
    assert_eq!(fs.read_fat12_entry(3), 0xABC);
    assert_eq!(fs.read_fat12_entry(0), 0xFF0);
}

#[test]
fn write_file_then_list_and_read() {
    let mut fs = fresh_fs();
    assert!(fs.can_write_in(0));
    let name = name11(b"HELLO   TXT");
    let st = fs.write_file(0, &name, b"hello world");
    assert!(st == WriteStatus::Written(2));
    assert_eq!(fs.read_fat12_entry(2), 0xFFF);
    let es = fs.entries(0);
    assert_eq!(es.len(), 224);
    assert_eq!(&es[0].name, b"HELLO   ");
    assert_eq!(&es[0].ext, b"TXT");
    assert_eq!(es[0].attr, 0x20);
    assert_eq!(es[0].start_cluster, 2);
    assert_eq!(es[0].file_size, 11);
    let mut buf = [0u8; 512];
    fs.read_file(2, &mut buf);
    assert_eq!(&buf[..11], b"hello world");
    assert!(buf[11..].iter().all(|&b| b == 0));
    let (status, shown) = fs.list_dir(0, &name11(b"           "));
    assert_eq!(status, -1);
    assert_eq!(shown.len(), 1);
    let (status, _) = fs.list_dir(0, &name);
    assert_eq!(status, -1);
}

#[test]
fn write_file_spanning_clusters_links_them() {
    let mut fs = fresh_fs();
    let data = vec![0x41u8; 1000];
    let st = fs.write_file(0, &name11(b"BIG     BIN"), &data);
    assert!(st == WriteStatus::Written(2));
    assert_eq!(fs.read_fat12_entry(2), 3);
    assert_eq!(fs.read_fat12_entry(3), 0xFFF);
    let es = fs.entries(0);
    assert_eq!(es[0].file_size, 1000);
}

#[test]
fn rewriting_a_file_frees_its_old_clusters() {
    let mut fs = fresh_fs();
    let name = name11(b"A       TXT");
    assert!(fs.write_file(0, &name, &vec![1u8; 1024]) == WriteStatus::Written(2));
    assert!(fs.write_file(0, &name, b"x") == WriteStatus::Written(2));
    assert_eq!(fs.read_fat12_entry(3), 0);
    let es = fs.entries(0);
    assert_eq!(&es[0].name, b"A       ");
    assert_eq!(es[0].file_size, 1);
    assert_eq!(es[1].name[0], 0);
}

#[test]
fn delete_file_marks_first_match() {
    let mut fs = fresh_fs();
    let name = name11(b"GONE    TXT");
    fs.write_file(0, &name, b"bye");
    assert!(fs.delete_file(0, &name));
    let es = fs.entries(0);
    assert_eq!(es[0].name[0], 0xE5);
    assert!(!fs.delete_file(0, &name));
}

#[test]
fn delete_file_missing_is_false() {
    let mut fs = fresh_fs();
    assert!(!fs.delete_file(0, &name11(b"NOPE    TXT")));
}

#[test]
fn rename_file_rewrites_name() {
    let mut fs = fresh_fs();
    fs.write_file(0, &name11(b"OLD     TXT"), b"data");
    assert!(fs.rename_file(0, &name11(b"OLD     TXT"), &name11(b"NEW     DAT")));
    let es = fs.entries(0);
    assert_eq!(&es[0].name, b"NEW     ");
    assert_eq!(&es[0].ext, b"DAT");
    assert_eq!(es[0].start_cluster, 2);
    assert!(!fs.rename_file(0, &name11(b"OLD     TXT"), &name11(b"X       TXT")));
}

#[test]
fn insert_directory_entry_takes_first_unused_slot() {
    let mut fs = fresh_fs();
    fs.write_file(0, &name11(b"FIRST   TXT"), b"1");
    let e = Entry {
        name: *b"SECOND  ",
        ext: *b"TXT",
        attr: 0x20,
        reserved: [0u8; 14],
        start_cluster: 9,
        file_size: 77,
    };
    assert!(fs.insert_directory_entry(0, &e));
    let es = fs.entries(0);
    assert_eq!(&es[1].name, b"SECOND  ");
    assert_eq!(es[1].start_cluster, 9);
    assert_eq!(es[1].file_size, 77);
}

#[test]
fn create_subdirectory_writes_dot_entries() {
    let mut fs = fresh_fs();
    assert!(fs.can_grow());
    let c = fs.create_subdirectory(&name11(b"DOCS       "), 0);
    assert_eq!(c, 2);
    assert_eq!(fs.read_fat12_entry(2), 0xFFF);
    let root = fs.entries(0);
    assert_eq!(&root[0].name, b"DOCS    ");
    assert_eq!(root[0].attr, 0x10);
    assert_eq!(root[0].start_cluster, 2);
    assert!(fs.can_walk_dir(2));
    let sub = fs.entries(2);
    assert_eq!(sub.len(), 16);
    assert_eq!(&sub[0].name, b".       ");
    assert_eq!(sub[0].start_cluster, 2);
    assert_eq!(&sub[1].name, b"..      ");
    assert_eq!(sub[1].start_cluster, 0);
    assert_eq!(sub[2].name[0], 0);
}

#[test]
fn files_written_into_a_subdirectory() {
    let mut fs = fresh_fs();
    let d = fs.create_subdirectory(&name11(b"SUB        "), 0);
    assert!(fs.can_write_in(d));
    let st = fs.write_file(d, &name11(b"IN      TXT"), b"inside");
    assert!(st == WriteStatus::Written(3));
    let sub = fs.entries(d);
    assert_eq!(&sub[2].name, b"IN      ");
    assert_eq!(sub[2].start_cluster, 3);
}

#[test]
fn entry_bytes_roundtrip() {
    let e = Entry {
        name: *b"KERNEL  ",
        ext: *b"BIN",
        attr: 0x21,
        reserved: [7u8; 14],
        start_cluster: 0x1234,
        file_size: 0x0A0B0C0D,
    };
    let b = e.to_bytes();
    assert_eq!(&b[0..8], b"KERNEL  ");
    assert_eq!(&b[8..11], b"BIN");
    assert_eq!(b[11], 0x21);
    assert_eq!(b[26], 0x34);
    assert_eq!(b[27], 0x12);
    assert_eq!(&b[28..32], &[0x0D, 0x0C, 0x0B, 0x0A]);
    let back = Entry::from_bytes(&b, 0);
    assert_eq!(back.name, e.name);
    assert_eq!(back.start_cluster, 0x1234);
    assert_eq!(back.file_size, 0x0A0B0C0D);
    assert_eq!(read_le16(&b, 26), 0x1234);
    assert_eq!(read_le32(&b, 28), 0x0A0B0C0D);
}

#[test]
fn check_of_fresh_disk_counts_unused_root_slots() {
    let fs = fresh_fs();
    let r = run_check(&fs);
    assert_eq!(r.invalid_entries, 224);
    assert_eq!(r.errors, 0);
    assert_eq!(r.cross_linked, 0);
    assert_eq!(r.orphan_clusters, 0);
}

#[test]
fn check_claims_file_chains_and_reports_orphans() {
    let mut fs = fresh_fs();
    fs.write_file(0, &name11(b"F       TXT"), &vec![3u8; 600]);
    // Cluster 10 is allocated but no file reaches it.
    fs.write_fat12_entry(10, 0xFFF);
    let r = run_check(&fs);
    assert_eq!(r.invalid_entries, 223);
    assert_eq!(r.orphan_clusters, 1);
    assert_eq!(r.cross_linked, 0);
    assert_eq!(r.errors, 0);
}

#[test]
fn validate_chain_counts_cross_links_and_broken_links() {
    let mut fat = vec![0u16; 16];
    fat[2] = 3;
    fat[3] = 0xFFF;
    fat[5] = 3;
    fat[7] = 0;
    let mut used = [false; 4096];
    let mut rep = CheckReport { errors: 0, orphan_clusters: 0, cross_linked: 0, invalid_entries: 0 };
    validate_chain(2, &fat, &mut used, &mut rep);
    assert!(used[2] && used[3]);
    assert_eq!(rep.cross_linked, 0);
    validate_chain(5, &fat, &mut used, &mut rep);
    assert!(used[5]);
    assert_eq!(rep.cross_linked, 1);
    validate_chain(7, &fat, &mut used, &mut rep);
    assert!(used[7]);
    assert_eq!(rep.errors, 1);
}

#[test]
fn valid_names() {
    assert!(is_valid_name(b"README  TXT"));
    assert!(is_valid_name(b"A-B_C~1 $$$"));
    assert!(!is_valid_name(b"readme  txt"));
    assert!(!is_valid_name(b"A.B     TXT"));
}

#[test]
fn floppy_chs() {
    assert_eq!(Floppy.lba_to_chs(0), (0, 0, 1));
    assert_eq!(Floppy.lba_to_chs(17), (0, 0, 18));
    assert_eq!(Floppy.lba_to_chs(18), (0, 1, 1));
    assert_eq!(Floppy.lba_to_chs(36), (1, 0, 1));
    assert_eq!(Floppy.lba_to_chs(2879), (79, 1, 18));
}

#[test]
fn deleted_slot_is_reused_by_insertion() {
    let mut fs = fresh_fs();
    fs.write_file(0, &name11(b"ONE     TXT"), b"1");
    fs.write_file(0, &name11(b"TWO     TXT"), b"2");
    assert!(fs.delete_file(0, &name11(b"ONE     TXT")));
    let e = Entry {
        name: *b"THREE   ",
        ext: *b"TXT",
        attr: 0x20,
        reserved: [0u8; 14],
        start_cluster: 4,
        file_size: 1,
    };
    assert!(fs.insert_directory_entry(0, &e));
    let es = fs.entries(0);
    assert_eq!(&es[0].name, b"THREE   ");
    assert_eq!(&es[1].name, b"TWO     ");
}

#[test]
fn high_scores_saved_and_loaded_through_the_disk() {
    let mut fs = fresh_fs();
    assert_eq!(load_high_scores_fat12(&fs, 0), None);
    let st = save_high_scores_fat12(&mut fs, 0, &[500, 400, 300, 200, 100]);
    assert!(st == WriteStatus::Written(2));
    assert_eq!(load_high_scores_fat12(&fs, 0), Some([500, 400, 300, 200, 100]));
    let st = save_high_scores_fat12(&mut fs, 0, &[0x1234_5678, 70000, 3, 2, 1]);
    assert!(matches!(st, WriteStatus::Written(_)));
    assert_eq!(load_high_scores_fat12(&fs, 0), Some([0x1234_5678, 70000, 3, 2, 1]));
}

#[test]
fn levels_loaded_from_their_file() {
    let mut fs = fresh_fs();
    fs.write_file(0, &name11(b"LEVEL03 TXT"), b"1,2\n10,20\n99,1\n");
    let (walls, n) = load_level_by_number(&fs, 0, 3);
    // (99, 1) is off the screen; the zeros after the text read as one more
    // wall at (0, 0).
    assert_eq!(n, 3);
    assert!(walls[0] == Point { x: 1, y: 2 });
    assert!(walls[1] == Point { x: 10, y: 20 });
    assert!(walls[2] == Point { x: 0, y: 0 });
    let (walls, n) = load_level_by_number(&fs, 0, 4);
    assert_eq!(n, 1);
    assert!(walls[0] == Point { x: 0, y: 0 });
}

#[test]
fn chain_checks() {
    let mut fs = fresh_fs();
    fs.write_file(0, &name11(b"C       TXT"), b"c");
    assert!(fs.chain_ok(2));
    assert!(!fs.chain_ok(0));
    assert!(!fs.chain_ok(1));
}

#[test]
fn listing_names() {
    let mut e = Entry {
        name: *b"README  ",
        ext: *b"TXT",
        attr: 0x20,
        reserved: [0u8; 14],
        start_cluster: 2,
        file_size: 0,
    };
    assert_eq!(print_name(&e), b"README.TXT".to_vec());
    e.ext = *b"   ";
    assert_eq!(print_name(&e), b"README".to_vec());
    e.ext = *b" A ";
    assert_eq!(print_name(&e), b"README.".to_vec());
}

#[test]
fn write_file_reports_disk_full() {
    let mut fs = fresh_fs();
    for c in 2..2880u16 {
        fs.write_fat12_entry(c, 0xFFF);
    }
    assert!(fs.write_file(0, &name11(b"A       TXT"), b"hi") == WriteStatus::DiskFull);
}

#[test]
fn write_file_reports_disk_full_mid_write() {
    let mut fs = fresh_fs();
    for c in 2..2879u16 {
        fs.write_fat12_entry(c, 0xFFF);
    }
    let data = vec![7u8; 1024];
    assert!(fs.write_file(0, &name11(b"BIG     BIN"), &data) == WriteStatus::DiskFullMidWrite);
    assert_eq!(fs.read_fat12_entry(2879), 0xFFF);
}

#[test]
fn write_file_reports_no_dir_slot() {
    let mut fs = fresh_fs();
    for k in 0..16u8 {
        let mut name = name11(b"F0      TXT");
        name[1] = b'A' + k;
        assert!(matches!(fs.write_file(0, &name, b"x"), WriteStatus::Written(_)));
    }
    assert!(fs.write_file(0, &name11(b"LAST    TXT"), b"x") == WriteStatus::NoDirSlot);
}

fn nav_fixture() -> (Fs<MemDisk>, VfsTable, u16, u16) {
    let mut fs = fresh_fs();
    let docs = fs.create_subdirectory(&name11(b"DOCS       "), 0);
    assert!(docs != 0);
    let sub = fs.create_subdirectory(&name11(b"SUB        "), docs);
    assert!(sub != 0);
    assert!(matches!(fs.write_file(0, &name11(b"A       TXT"), b"hello"), WriteStatus::Written(_)));
    let mut v = VfsTable::new();
    assert!(v.mount(b"/", FsType::Root));
    assert!(v.mount(b"/mnt/fat", FsType::Fat12));
    assert!(v.mount(b"/mnt/cd", FsType::Iso9660));
    (fs, v, docs, sub)
}

#[test]
fn fat83_forms() {
    assert_eq!(&fat83(b"a.txt"), b"A       TXT");
    assert_eq!(&fat83(b"docs"), b"DOCS       ");
    assert_eq!(&fat83(b".."), b"..         ");
    assert_eq!(&fat83(b"."), b".          ");
}

#[test]
fn resolve_path_walks_components() {
    let (fs, _, docs, sub) = nav_fixture();
    assert_eq!(fs.resolve_path_from(0, b"docs").map(|e| e.start_cluster), Some(docs));
    assert_eq!(fs.resolve_path_from(0, b"DOCS/SUB").map(|e| e.start_cluster), Some(sub));
    assert_eq!(fs.resolve_path_from(0, b"/DOCS//SUB/").map(|e| e.start_cluster), Some(sub));
    assert_eq!(fs.resolve_path_from(docs, b"SUB").map(|e| e.start_cluster), Some(sub));
    assert!(fs.resolve_path_from(0, b"A.TXT/SUB").is_none());
    assert!(fs.resolve_path_from(0, b"NOPE").is_none());
    assert!(fs.resolve_path_from(0, b"").is_none());
    assert_eq!(fs.find_entry(sub, b"..         ").map(|e| e.start_cluster), Some(docs));
}

#[test]
fn cd_moves_through_fat_directories() {
    let (fs, v, docs, sub) = nav_fixture();
    let none: Option<&Iso9660<IsoImage>> = None;
    assert_eq!(cd_target(&fs, none, &v, b"/", 0, b"DOCS"), Ok((b"/DOCS".to_vec(), docs)));
    assert_eq!(cd_target(&fs, none, &v, b"/DOCS", docs, b"SUB"), Ok((b"/DOCS/SUB".to_vec(), sub)));
    assert_eq!(cd_target(&fs, none, &v, b"/", 0, b"DOCS/SUB"), Ok((b"/DOCS/SUB".to_vec(), sub)));
    assert_eq!(cd_target(&fs, none, &v, b"/", 0, b"/mnt/fat/DOCS"), Ok((b"/mnt/fat/DOCS".to_vec(), docs)));
    assert_eq!(cd_target(&fs, none, &v, b"/DOCS/SUB", sub, b".."), Ok((b"/DOCS".to_vec(), docs)));
    assert_eq!(cd_target(&fs, none, &v, b"/DOCS", docs, b".."), Ok((b"/".to_vec(), 0)));
    assert_eq!(cd_target(&fs, none, &v, b"/", 0, b".."), Ok((b"/".to_vec(), 0)));
    assert_eq!(cd_target(&fs, none, &v, b"/DOCS", docs, b""), Ok((b"/DOCS".to_vec(), docs)));
    assert_eq!(cd_target(&fs, none, &v, b"/DOCS", docs, b"/"), Ok((b"/".to_vec(), 0)));
    assert_eq!(cd_target(&fs, none, &v, b"/", 0, b"NOPE"), Err(CdError::NoSuchDirectory));
    assert_eq!(cd_target(&fs, none, &v, b"/", 0, b"A.TXT"), Err(CdError::NotADirectory));
    assert_eq!(cd_target(&fs, none, &v, b"/", 0, b"/DOCS"), Err(CdError::UnknownMount));
    assert_eq!(cd_target(&fs, none, &v, b"/", 0, b"/mnt/cd/X"), Err(CdError::NoDevice));
}

#[test]
fn dir_picks_the_directory_to_list() {
    let (fs, v, docs, sub) = nav_fixture();
    let none: Option<&Iso9660<IsoImage>> = None;
    assert!(dir_target(&fs, none, &v, b"/DOCS", docs, b"") == DirTarget::Fat(docs));
    assert!(dir_target(&fs, none, &v, b"/", 0, b"DOCS") == DirTarget::Fat(docs));
    assert!(dir_target(&fs, none, &v, b"/DOCS", docs, b"SUB") == DirTarget::Fat(sub));
    assert!(dir_target(&fs, none, &v, b"/", 0, b"/mnt/fat/DOCS/SUB") == DirTarget::Fat(sub));
    assert!(dir_target(&fs, none, &v, b"/", 0, b"A.TXT") == DirTarget::NoSuchDirectory);
    assert!(dir_target(&fs, none, &v, b"/", 0, b"/mnt/cd") == DirTarget::NoDevice);
}

#[test]
fn file_calls_act_on_the_named_file() {
    let (mut fs, v, docs, sub) = nav_fixture();
    let none: Option<&Iso9660<IsoImage>> = None;
    assert_eq!(sys_chdir(&fs, none, &v, 0, b"/mnt/fat/DOCS/SUB"), Ok(sub));
    assert_eq!(sys_chdir(&fs, none, &v, 0, b"/mnt/fat"), Ok(0));
    assert_eq!(sys_chdir(&fs, none, &v, 0, b"DOCS"), Ok(docs));
    assert_eq!(sys_chdir(&fs, none, &v, 0, b"NOPE"), Err(0xfe));
    assert_eq!(sys_chdir(&fs, none, &v, 0, b"A.TXT"), Err(0xfc));
    assert_eq!(sys_chdir(&fs, none, &v, 0, b"/mnt/cd/X"), Err(0xfd));

    let listed = sys_list_path(&fs, none, &v, 0, b"/mnt/fat").unwrap();
    assert_eq!(listed.len(), 2);
    assert_eq!(&listed[0][..4], b"DOCS");
    assert_eq!((listed[0][32], listed[0][33]), (4, 1));
    assert_eq!(&listed[1][..5], b"A.TXT");
    assert_eq!((listed[1][32], listed[1][33]), (5, 0));
    assert_eq!(&listed[1][34..38], &[5, 0, 0, 0]);
    assert!(sys_list_path(&fs, none, &v, 0, b"A.TXT").is_none());
    assert!(sys_list_path(&fs, none, &v, 0, b"/mnt/cd").is_none());

    let mut buf = [0u8; 512];
    buf[..3].copy_from_slice(b"abc");
    assert_eq!(sys_write(&mut fs, &v, docs, b"B.TXT", &buf), 0);
    assert!(fs.find_entry(docs, b"B       TXT").is_some());
    assert_eq!(sys_write(&mut fs, &v, 0, b"/mnt/cd/B.TXT", &buf), 0xfc);

    assert_eq!(sys_rename(&mut fs, &v, docs, b"B.TXT", b"C.TXT"), 0);
    assert!(fs.find_entry(docs, b"C       TXT").is_some());
    assert!(fs.find_entry(docs, b"B       TXT").is_none());
    assert_eq!(sys_rename(&mut fs, &v, docs, b"B.TXT", b"D.TXT"), 0xfe);

    assert_eq!(sys_delete(&mut fs, &v, docs, b"C.TXT"), 0);
    assert!(fs.find_entry(docs, b"C       TXT").is_none());
    assert_eq!(sys_delete(&mut fs, &v, docs, b"C.TXT"), 0xfe);

    assert_eq!(sys_mkdir(&mut fs, &v, 0, b"/mnt/fat/DOCS", b"new.d\0"), 0);
    let made = fs.find_entry(docs, b"NEW     D  ").unwrap();
    assert!(made.attr & 0x10 != 0);
    assert_eq!(sys_mkdir(&mut fs, &v, 0, b"/mnt/fat/NOPE", b"x\0"), 0xfe);
    assert_eq!(sys_mkdir(&mut fs, &v, 0, b"A.TXT", b"x\0"), 0xfc);

    let big: Vec<u8> = (0..1300u32).map(|k| (k % 251) as u8).collect();
    assert!(matches!(fs.write_file(docs, b"BIG     BIN", &big), WriteStatus::Written(_)));
    let back = sys_read(&fs, none, &v, docs, b"BIG.BIN").unwrap();
    assert_eq!(back.len(), 3 * 512);
    assert_eq!(&back[..1300], &big[..]);
    assert!(back[1300..].iter().all(|&b| b == 0));
    assert_eq!(sys_read(&fs, none, &v, 0, b"/mnt/fat/A.TXT").unwrap()[..5], b"hello"[..]);
    assert_eq!(sys_read(&fs, none, &v, 0, b"NOPE.TXT"), Err(0xfe));
    assert_eq!(sys_read(&fs, none, &v, 0, b"DOCS"), Err(0xfe));
    assert_eq!(sys_read(&fs, none, &v, 0, b"/mnt/cd/A.TXT"), Err(0xfd));

    let counts = sys_fsck(&fs);
    assert_eq!(counts[0], 0);
}

fn tiny_elf() -> Vec<u8> {
    let mut img = vec![0u8; 200];
    img[..4].copy_from_slice(&[0x7f, b'E', b'L', b'F']);
    img[4] = 2;
    img[24..32].copy_from_slice(&0x60_1000u64.to_le_bytes());
    img[32..40].copy_from_slice(&64u64.to_le_bytes());
    img[56..58].copy_from_slice(&1u16.to_le_bytes());
    img[64..68].copy_from_slice(&1u32.to_le_bytes());
    img[80..88].copy_from_slice(&0x60_0000u64.to_le_bytes());
    img[96..104].copy_from_slice(&120u64.to_le_bytes());
    img[104..112].copy_from_slice(&200u64.to_le_bytes());
    img
}

#[test]
fn program_start_is_planned_from_the_file() {
    let (mut fs, _, _, _) = nav_fixture();
    assert!(matches!(fs.write_file(0, b"HELLO   ELF", &tiny_elf()), WriteStatus::Written(_)));
    let p = match prepare_program(&fs, 0, b"hello", b"hello a", 13) {
        Ok(p) => p,
        Err(e) => panic!("not started: {:?}", e),
    };
    assert_eq!(p.slot, 3);
    assert_eq!(p.load_addr, 0x70_0000);
    assert_eq!(p.stack_top, 0x89_0000);
    assert_eq!(p.image.len(), 512);
    assert_eq!(&p.image[..200], &tiny_elf()[..]);
    assert_eq!(p.entry, 0x60_1000);
    assert_eq!(p.loads.len(), 1);
    assert_eq!(p.loads[0].vaddr, 0x60_0000);
    assert_eq!(p.loads[0].dst, 0x160_0000);
    assert_eq!(p.loads[0].filesz, 120);
    assert_eq!(p.loads[0].zero_len, 80);
    assert_eq!(p.frame.argc, 2);
    assert_eq!(p.frame.rsp % 16, 0);
    assert_eq!(&p.name, b"HELLO   .ELF");
    assert!(matches!(prepare_program(&fs, 0, b"", b"", 0), Err(StartError::BadName)));
    assert!(matches!(prepare_program(&fs, 0, b"nope", b"nope", 0), Err(StartError::NotFound)));
    assert!(matches!(prepare_program(&fs, 0, b"docs.", b"docs", 0), Err(StartError::NotFound)));
    assert!(matches!(prepare_program(&fs, 0, b"a.txt", b"a.txt", 0), Err(StartError::BadImage)));
}

#[test]
fn write_file_sectors_hold_blocks_then_zeros() {
    let mut fs = fresh_fs();
    let data: Vec<u8> = (0..1100u32).map(|i| (i % 251) as u8 + 1).collect();
    let st = fs.write_file(0, &name11(b"BLOCKS  BIN"), &data);
    assert!(st == WriteStatus::Written(2));
    assert_eq!(fs.read_fat12_entry(2), 3);
    assert_eq!(fs.read_fat12_entry(3), 4);
    assert_eq!(fs.read_fat12_entry(4), 0xFFF);
    assert_eq!(fs.read_fat12_entry(5), 0);
    let mut buf = [0u8; 512];
    fs.device.read_sector(33, &mut buf);
    assert_eq!(&buf[..], &data[0..512]);
    fs.device.read_sector(34, &mut buf);
    assert_eq!(&buf[..], &data[512..1024]);
    fs.device.read_sector(35, &mut buf);
    assert_eq!(&buf[..76], &data[1024..1100]);
    assert!(buf[76..].iter().all(|&b| b == 0));
}

#[test]
fn empty_file_gets_one_cluster() {
    let mut fs = fresh_fs();
    let st = fs.write_file(0, &name11(b"EMPTY   TXT"), b"");
    assert!(st == WriteStatus::Written(2));
    assert_eq!(fs.read_fat12_entry(2), 0xFFF);
    assert_eq!(fs.read_fat12_entry(3), 0);
    assert_eq!(fs.entries(0)[0].file_size, 0);
}

#[test]
fn rewrite_into_earlier_slot_leaves_old_entry_deleted() {
    let mut fs = fresh_fs();
    let two = name11(b"TWO     TXT");
    assert!(fs.write_file(0, &name11(b"ONE     TXT"), b"1") == WriteStatus::Written(2));
    assert!(fs.write_file(0, &two, &vec![7u8; 600]) == WriteStatus::Written(3));
    assert!(fs.delete_file(0, &name11(b"ONE     TXT")));
    // the deleted ONE keeps cluster 2; TWO's clusters 3 and 4 are freed
    // and the rewrite takes the lowest of them
    assert!(fs.write_file(0, &two, b"z") == WriteStatus::Written(3));
    assert_eq!(fs.read_fat12_entry(2), 0xFFF);
    assert_eq!(fs.read_fat12_entry(3), 0xFFF);
    assert_eq!(fs.read_fat12_entry(4), 0);
    let es = fs.entries(0);
    assert_eq!(&es[0].name, b"TWO     ");
    assert_eq!(es[0].start_cluster, 3);
    assert_eq!(es[0].file_size, 1);
    assert_eq!(es[1].name[0], 0xE5);
}

#[test]
fn listing_skips_unused_and_deleted_slots() {
    let mut fs = fresh_fs();
    fs.write_file(0, &name11(b"KEEP    TXT"), b"k");
    fs.write_file(0, &name11(b"GONE    TXT"), b"g");
    assert!(fs.delete_file(0, &name11(b"GONE    TXT")));
    let shown = listing_entries(&fs.entries(0));
    assert_eq!(shown.len(), 1);
    assert_eq!(&shown[0].name, b"KEEP    ");
}

#[test]
fn entry_listing_call_skips_labels_and_deleted_slots() {
    let mut fs = fresh_fs();
    let label = Entry {
        name: *b"VOLUME  ",
        ext: *b"   ",
        attr: 0x08,
        reserved: [0u8; 14],
        start_cluster: 0,
        file_size: 0,
    };
    assert!(fs.insert_directory_entry(0, &label));
    fs.write_file(0, &name11(b"A       TXT"), b"a");
    fs.write_file(0, &name11(b"B       TXT"), b"b");
    assert!(fs.delete_file(0, &name11(b"A       TXT")));
    let listed = sys_list_entries(&fs, 0);
    assert_eq!(listed.len(), 1);
    assert_eq!(&listed[0].name, b"B       ");
    assert_eq!(listed[0].file_size, 1);
}

#[test]
fn read_file_gives_the_last_block_of_a_written_file() {
    let mut fs = fresh_fs();
    let data: Vec<u8> = (0..1100u32).map(|i| (i % 7) as u8 + 1).collect();
    assert!(fs.write_file(0, &name11(b"BACK    BIN"), &data) == WriteStatus::Written(2));
    assert!(fs.chain_ok(2));
    let mut buf = [0u8; 512];
    fs.read_file(2, &mut buf);
    assert_eq!(&buf[..76], &data[1024..1100]);
    assert!(buf[76..].iter().all(|&b| b == 0));
}
