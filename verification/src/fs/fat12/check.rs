//! A consistency check of a FAT12 volume: every file's cluster chain is
//! followed through the table, clusters claimed twice are cross-linked,
//! and allocated clusters that no file reaches are orphans.
use vstd::prelude::*;
use crate::fs::block::BlockDevice;
use super::entry::{Entry, ATTR_DIRECTORY, ATTR_VOLUME_ID};
use super::fs::Fs;

verus! {

/// Number of clusters the check can track.
pub const TRACKED_CLUSTERS: usize = 4096;

/// Deepest directory nesting the check descends into.
pub const MAX_DEPTH: usize = 64;

/// The counts a check reports.
#[derive(Clone, Copy, PartialEq, Eq, Structural)]
pub struct CheckReport {
    /// Directories with a non-zero size, nesting deeper than MAX_DEPTH, and
    /// chains that run into a free table entry.
    pub errors: usize,
    /// Allocated clusters that no file's chain reaches.
    pub orphan_clusters: usize,
    /// Chains that run into a cluster already claimed.
    pub cross_linked: usize,
    /// Directory slots that are unused (never used or deleted).
    pub invalid_entries: usize,
}

/// `x + 1`, wrapping like the counters of a release build.
pub open spec fn bump(x: usize) -> usize {
    vstd::wrapping::usize_specs::wrapping_add(x, 1)
}

/// The report with one more error.
pub open spec fn with_error(r: CheckReport) -> CheckReport {
    CheckReport { errors: bump(r.errors), ..r }
}

/// The clusters claimed and the report after following the chain from `c`
/// through `fat`, at most `fuel` links: each cluster in 2..fat.len()
/// (and below 0xFF8) is claimed in turn; one already claimed is a
/// cross-link, a free table entry an error, an end mark the end.
pub open spec fn chain_mark(fat: Seq<u16>, used: Seq<bool>, c: u16, rep: CheckReport, fuel: nat) -> (Seq<bool>, CheckReport)
    decreases fuel,
{
    if fuel == 0 || !(2 <= c < fat.len() && c < 0xFF8) {
        (used, rep)
    } else if c >= used.len() {
        (used, with_error(rep))
    } else if used[c as int] {
        (used, CheckReport { cross_linked: bump(rep.cross_linked), ..rep })
    } else {
        let u2 = used.update(c as int, true);
        let next = fat[c as int];
        if next == 0 {
            (u2, with_error(rep))
        } else if next >= 0xFF8 {
            (u2, rep)
        } else {
            chain_mark(fat, u2, next, rep, (fuel - 1) as nat)
        }
    }
}

/// Follows the chain from `start` through the table `fat`, claiming its
/// clusters in `used` and counting cross-links and broken links in `report`.
pub fn validate_chain(start: u16, fat: &Vec<u16>, used: &mut [bool; 4096], report: &mut CheckReport)
    ensures
        (final(used)@, *final(report)) == chain_mark(fat@, old(used)@, start, *old(report), TRACKED_CLUSTERS as nat),
{
    let mut cluster = start;
    let mut fuel: usize = TRACKED_CLUSTERS;
    while fuel > 0 && 2 <= cluster && (cluster as usize) < fat.len() && cluster < 0xFF8
        invariant
            used@.len() == 4096,
            chain_mark(fat@, used@, cluster, *report, fuel as nat)
                == chain_mark(fat@, old(used)@, start, *old(report), TRACKED_CLUSTERS as nat),
        decreases fuel,
    {
        if cluster as usize >= used.len() {
            report.errors = report.errors.wrapping_add(1);
            return;
        }
        if used[cluster as usize] {
            report.cross_linked = report.cross_linked.wrapping_add(1);
            return;
        }
        used[cluster as usize] = true;
        let next = fat[cluster as usize];
        if next == 0 {
            report.errors = report.errors.wrapping_add(1);
            return;
        }
        if next >= 0xFF8 {
            return;
        }
        cluster = next;
        fuel = fuel - 1;
    }
}

/// The validity rule for 8.3 names: upper-case letters, digits, spaces and
/// the punctuation `!#$%&'()-@^_`{}~`.
pub open spec fn name_char_ok(c: u8) -> bool {
    (0x41 <= c <= 0x5A) || (0x30 <= c <= 0x39) || c == 0x20 || c == 0x21 || c == 0x23 || c == 0x24
        || c == 0x25 || c == 0x26 || c == 0x27 || c == 0x28 || c == 0x29 || c == 0x2D || c == 0x40
        || c == 0x5E || c == 0x5F || c == 0x60 || c == 0x7B || c == 0x7D || c == 0x7E
}

/// Whether every byte of an 8.3 name is allowed.
pub fn is_valid_name(name: &[u8; 11]) -> (r: bool)
    ensures
        r == forall|i: int| 0 <= i < 11 ==> #[trigger] name_char_ok(name@[i]),
{
    let mut i: usize = 0;
    while i < 11
        invariant
            i <= 11,
            forall|j: int| 0 <= j < i ==> #[trigger] name_char_ok(name@[j]),
        decreases 11 - i,
    {
        let c = name[i];
        let ok = (c >= 0x41 && c <= 0x5A) || (c >= 0x30 && c <= 0x39) || c == 0x20 || c == 0x21 || c == 0x23
            || c == 0x24 || c == 0x25 || c == 0x26 || c == 0x27 || c == 0x28 || c == 0x29 || c == 0x2D
            || c == 0x40 || c == 0x5E || c == 0x5F || c == 0x60 || c == 0x7B || c == 0x7D || c == 0x7E;
        if !ok {
            assert(!name_char_ok(name@[i as int]));
            return false;
        }
        i = i + 1;
    }
    true
}

/// The result of visiting entry `e` of directory `dir` at nesting `depth`:
/// an unused slot is invalid, a volume label is passed over, a directory
/// with a size is an error; an entry with a cluster below 2, the entry of
/// `dir` itself, and ".." are passed over; a subdirectory is scanned, a
/// file's chain followed.
pub open spec fn scan_entry<D: BlockDevice>(
    fs: &Fs<D>,
    fat: Seq<u16>,
    dir: u16,
    e: Entry,
    used: Seq<bool>,
    rep: CheckReport,
    depth: nat,
) -> (Seq<bool>, CheckReport)
    decreases 65 - depth, 0nat,
{
    if e.name@[0] == 0x00 || e.name@[0] == 0xE5 {
        (used, CheckReport { invalid_entries: bump(rep.invalid_entries), ..rep })
    } else if e.attr & ATTR_VOLUME_ID != 0 {
        (used, rep)
    } else {
        let rep2 = if e.attr & ATTR_DIRECTORY != 0 && e.file_size != 0 { with_error(rep) } else { rep };
        if e.start_cluster < 2 || e.start_cluster == dir || (e.name@[0] == 0x2E && e.name@[1] == 0x2E) {
            (used, rep2)
        } else if e.attr & ATTR_DIRECTORY != 0 {
            if depth < 65 {
                scan_dir(fs, fat, e.start_cluster, used, rep2, depth + 1)
            } else {
                (used, rep2)
            }
        } else {
            chain_mark(fat, used, e.start_cluster, rep2, TRACKED_CLUSTERS as nat)
        }
    }
}

/// The result of visiting the entries `es[i..]` of directory `dir` in order.
pub open spec fn scan_entries<D: BlockDevice>(
    fs: &Fs<D>,
    fat: Seq<u16>,
    dir: u16,
    es: Seq<Entry>,
    i: nat,
    used: Seq<bool>,
    rep: CheckReport,
    depth: nat,
) -> (Seq<bool>, CheckReport)
    decreases 65 - depth, es.len() - i + 1,
{
    if i >= es.len() {
        (used, rep)
    } else {
        let (u2, r2) = scan_entry(fs, fat, dir, es[i as int], used, rep, depth);
        scan_entries(fs, fat, dir, es, i + 1, u2, r2, depth)
    }
}

/// The result of scanning directory `dir` at nesting `depth`: nesting
/// deeper than MAX_DEPTH is an error; a directory whose walk would leave
/// the device is passed over; otherwise its entries are visited in order.
pub open spec fn scan_dir<D: BlockDevice>(
    fs: &Fs<D>,
    fat: Seq<u16>,
    dir: u16,
    used: Seq<bool>,
    rep: CheckReport,
    depth: nat,
) -> (Seq<bool>, CheckReport)
    decreases 65 - depth, fs.dir_entries(dir).len() + 2,
{
    if depth > MAX_DEPTH {
        (used, with_error(rep))
    } else if !fs.dir_walk_on_device(dir) {
        (used, rep)
    } else {
        scan_entries(fs, fat, dir, fs.dir_entries(dir), 0, used, rep, depth)
    }
}

proof fn lemma_chain_keeps_orphans(fat: Seq<u16>, used: Seq<bool>, c: u16, rep: CheckReport, fuel: nat)
    ensures
        chain_mark(fat, used, c, rep, fuel).1.orphan_clusters == rep.orphan_clusters,
    decreases fuel,
{
    if fuel > 0 && 2 <= c < fat.len() && c < 0xFF8 && c < used.len() && !used[c as int] {
        let next = fat[c as int];
        if next != 0 && next < 0xFF8 {
            lemma_chain_keeps_orphans(fat, used.update(c as int, true), next, rep, (fuel - 1) as nat);
        }
    }
}

proof fn lemma_entry_keeps_orphans<D: BlockDevice>(
    fs: &Fs<D>,
    fat: Seq<u16>,
    dir: u16,
    e: Entry,
    used: Seq<bool>,
    rep: CheckReport,
    depth: nat,
)
    ensures
        scan_entry(fs, fat, dir, e, used, rep, depth).1.orphan_clusters == rep.orphan_clusters,
    decreases 65 - depth, 0nat,
{
    if !(e.name@[0] == 0x00 || e.name@[0] == 0xE5) && e.attr & ATTR_VOLUME_ID == 0 {
        let rep2 = if e.attr & ATTR_DIRECTORY != 0 && e.file_size != 0 { with_error(rep) } else { rep };
        if !(e.start_cluster < 2 || e.start_cluster == dir || (e.name@[0] == 0x2E && e.name@[1] == 0x2E)) {
            if e.attr & ATTR_DIRECTORY != 0 {
                if depth < 65 {
                    lemma_dir_keeps_orphans(fs, fat, e.start_cluster, used, rep2, depth + 1);
                }
            } else {
                lemma_chain_keeps_orphans(fat, used, e.start_cluster, rep2, TRACKED_CLUSTERS as nat);
            }
        }
    }
}

proof fn lemma_entries_keep_orphans<D: BlockDevice>(
    fs: &Fs<D>,
    fat: Seq<u16>,
    dir: u16,
    es: Seq<Entry>,
    i: nat,
    used: Seq<bool>,
    rep: CheckReport,
    depth: nat,
)
    ensures
        scan_entries(fs, fat, dir, es, i, used, rep, depth).1.orphan_clusters == rep.orphan_clusters,
    decreases 65 - depth, es.len() - i + 1,
{
    if i < es.len() {
        lemma_entry_keeps_orphans(fs, fat, dir, es[i as int], used, rep, depth);
        let (u2, r2) = scan_entry(fs, fat, dir, es[i as int], used, rep, depth);
        lemma_entries_keep_orphans(fs, fat, dir, es, i + 1, u2, r2, depth);
    }
}

proof fn lemma_dir_keeps_orphans<D: BlockDevice>(
    fs: &Fs<D>,
    fat: Seq<u16>,
    dir: u16,
    used: Seq<bool>,
    rep: CheckReport,
    depth: nat,
)
    ensures
        scan_dir(fs, fat, dir, used, rep, depth).1.orphan_clusters == rep.orphan_clusters,
    decreases 65 - depth, fs.dir_entries(dir).len() + 2,
{
    if depth <= MAX_DEPTH && fs.dir_walk_on_device(dir) {
        lemma_entries_keep_orphans(fs, fat, dir, fs.dir_entries(dir), 0, used, rep, depth);
    }
}

/// Scans directory `dir` at nesting `depth` (see `scan_dir`): unused slots,
/// sized directories and broken chains are counted in `report`, and the
/// clusters of every file reached are claimed in `used`.
pub fn scan_directory<D: BlockDevice>(
    fs: &Fs<D>,
    dir: u16,
    fat: &Vec<u16>,
    used: &mut [bool; 4096],
    report: &mut CheckReport,
    depth: usize,
)
    requires
        fs.wf(),
        depth <= 65,
    ensures
        (final(used)@, *final(report)) == scan_dir(fs, fat@, dir, old(used)@, *old(report), depth as nat),
    decreases 65 - depth,
{
    if depth > MAX_DEPTH {
        report.errors = report.errors.wrapping_add(1);
        return;
    }
    if !fs.can_walk_dir(dir) {
        return;
    }
    let es = fs.entries(dir);
    let mut i: usize = 0;
    while i < es.len()
        invariant
            fs.wf(),
            depth <= 64,
            es@ == fs.dir_entries(dir),
            i <= es@.len(),
            scan_entries(fs, fat@, dir, es@, i as nat, used@, *report, depth as nat)
                == scan_dir(fs, fat@, dir, old(used)@, *old(report), depth as nat),
        decreases es.len() - i,
    {
        let e = es[i];
        let ghost u0 = used@;
        let ghost r0 = *report;
        if e.name[0] == 0x00 || e.name[0] == 0xE5 {
            report.invalid_entries = report.invalid_entries.wrapping_add(1);
        } else if e.attr & ATTR_VOLUME_ID != 0 {
        } else {
            if e.attr & ATTR_DIRECTORY != 0 && e.file_size != 0 {
                report.errors = report.errors.wrapping_add(1);
            }
            if e.start_cluster < 2 || e.start_cluster == dir || (e.name[0] == 0x2E && e.name[1] == 0x2E) {
            } else if e.attr & ATTR_DIRECTORY != 0 {
                scan_directory(fs, e.start_cluster, fat, used, report, depth + 1);
            } else {
                validate_chain(e.start_cluster, fat, used, report);
            }
        }
        assert((used@, *report) == scan_entry(fs, fat@, dir, e, u0, r0, depth as nat));
        assert(scan_entries(fs, fat@, dir, es@, i as nat, u0, r0, depth as nat)
            == scan_entries(fs, fat@, dir, es@, (i + 1) as nat, used@, *report, depth as nat));
        i = i + 1;
    }
}

/// Entries of the table that the check reads: clusters below
/// total_sectors_16, and below 0xFF8.
pub open spec fn fat_len<D: BlockDevice>(fs: &Fs<D>) -> nat {
    if fs.boot_sector.total_sectors_16 < 0xFF8 { fs.boot_sector.total_sectors_16 as nat } else { 0xFF8 }
}

/// The table as the check reads it.
pub open spec fn fat_table<D: BlockDevice>(fs: &Fs<D>) -> Seq<u16> {
    Seq::new(fat_len(fs), |c: int| fs.fat_entry(c as u16))
}

/// Reads the table entries of clusters 0..fat_len.
pub fn load_fat<D: BlockDevice>(fs: &Fs<D>) -> (r: Vec<u16>)
    requires
        fs.wf(),
        fs.fat_on_device(),
    ensures
        r@ == fat_table(fs),
{
    let total = fs.boot_sector.total_sectors_16;
    let n: u16 = if total < 0xFF8 { total } else { 0xFF8 };
    let mut out: Vec<u16> = Vec::new();
    let mut c: u16 = 0;
    while c < n
        invariant
            fs.wf(),
            fs.fat_on_device(),
            n == fat_len(fs),
            c <= n,
            out@ =~= fat_table(fs).subrange(0, c as int),
        decreases n - c,
    {
        let v = fs.read_fat12_entry(c);
        out.push(v);
        c = c + 1;
    }
    out
}

/// Number of clusters in c..fat.len() that the table allocates and no
/// chain claimed.
pub open spec fn orphans(fat: Seq<u16>, used: Seq<bool>, c: int) -> nat
    decreases fat.len() - c,
{
    if c >= fat.len() {
        0
    } else {
        (if fat[c] != 0 && !used[c] { 1nat } else { 0nat }) + orphans(fat, used, c + 1)
    }
}

/// A report with every count 0.
pub open spec fn empty_report() -> CheckReport {
    CheckReport { errors: 0, orphan_clusters: 0, cross_linked: 0, invalid_entries: 0 }
}

/// The report of a check of `fs`: the scan of the directory tree from the
/// root, with the orphan clusters counted over the whole table.
pub open spec fn spec_run_check<D: BlockDevice>(fs: &Fs<D>) -> CheckReport {
    let fat = fat_table(fs);
    let scanned = scan_dir(fs, fat, 0, Seq::new(4096, |i: int| false), empty_report(), 0);
    CheckReport { orphan_clusters: orphans(fat, scanned.0, 2) as usize, ..scanned.1 }
}

/// Checks the volume: scans the root directory and everything below it,
/// then counts the allocated clusters that no file's chain claimed.
pub fn run_check<D: BlockDevice>(fs: &Fs<D>) -> (r: CheckReport)
    requires
        fs.wf(),
        fs.fat_on_device(),
    ensures
        r == spec_run_check(fs),
{
    let fat = load_fat(fs);
    let mut report = CheckReport { errors: 0, orphan_clusters: 0, cross_linked: 0, invalid_entries: 0 };
    let mut used = [false; 4096];
    assert(used@ =~= Seq::new(4096, |i: int| false));
    scan_directory(fs, 0, &fat, &mut used, &mut report, 0);
    proof {
        lemma_dir_keeps_orphans(fs, fat@, 0, Seq::new(4096, |i: int| false), empty_report(), 0);
    }
    let ghost scanned = report;
    let n = fat.len();
    let mut cluster: usize = 2;
    while cluster < n
        invariant
            n == fat@.len(),
            n <= 0xFF8,
            used@.len() == 4096,
            2 <= cluster,
            cluster <= n || n < 2,
            report.orphan_clusters <= cluster,
            report.orphan_clusters + orphans(fat@, used@, cluster as int) == orphans(fat@, used@, 2),
            report == (CheckReport { orphan_clusters: report.orphan_clusters, ..scanned }),
        decreases n - cluster,
    {
        if fat[cluster] != 0 && !used[cluster] {
            report.orphan_clusters = report.orphan_clusters + 1;
        }
        cluster = cluster + 1;
    }
    proof {
        if n >= 2 {
            assert(orphans(fat@, used@, cluster as int) == 0);
        } else {
            assert(orphans(fat@, used@, 2) == 0);
        }
    }
    report
}

} // verus!
