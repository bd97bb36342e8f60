//! The snake game: the snake's movement, food placement, levels read from
//! wall files, the high score table, and the game loop's decisions.
use vstd::prelude::*;
use crate::fs::block::BlockDevice;
use crate::fs::fat12::entry::Entry;
use crate::fs::fat12::fs::{chain_in_data, chain_last, Fs, WriteStatus, CHAIN_LIMIT};

verus! {

pub const WIDTH: usize = 80;
pub const HEIGHT: usize = 25;
pub const MAX_LEN: usize = 64;
pub const MAX_WALLS: usize = 128;
pub const SCORE_LEN: usize = 5;

/// A cell of the 80×25 text screen.
#[derive(Clone, Copy, PartialEq, Eq, Structural)]
pub struct Point {
    pub x: usize,
    pub y: usize,
}

/// The direction the snake moves in.
#[derive(Clone, Copy, PartialEq, Eq, Structural)]
pub enum Dir {
    Up,
    Down,
    Left,
    Right,
}

/// The direction opposite to `d`.
pub open spec fn opposite(d: Dir) -> Dir {
    match d {
        Dir::Up => Dir::Down,
        Dir::Down => Dir::Up,
        Dir::Left => Dir::Right,
        Dir::Right => Dir::Left,
    }
}

/// The snake: segment `i` is at (x[i], y[i]); segment 0 is the head.
pub struct Snake {
    pub x: [usize; 64],
    pub y: [usize; 64],
    pub len: usize,
    pub dir: Dir,
}

/// The head position after one step in direction `d`, stopping at the edges.
pub open spec fn moved(x: usize, y: usize, d: Dir) -> (usize, usize) {
    match d {
        Dir::Up => (x, if y > 0 { (y - 1) as usize } else { y }),
        Dir::Down => (x, if y < HEIGHT - 1 { (y + 1) as usize } else { y }),
        Dir::Left => (if x > 0 { (x - 1) as usize } else { x }, y),
        Dir::Right => (if x < WIDTH - 1 { (x + 1) as usize } else { x }, y),
    }
}

impl Snake {
    /// The snake's length stays between 3 and 64.
    pub open spec fn wf(&self) -> bool {
        3 <= self.len <= MAX_LEN
    }

    /// A snake of length 3 heading right, its head at (40, 12); the other
    /// segments start at (0, 0).
    pub fn new() -> (r: Self)
        ensures
            r.wf(),
            r.len == 3,
            r.dir == Dir::Right,
            r.x@[0] == 40 && r.y@[0] == 12,
            forall|i: int| 1 <= i < 64 ==> r.x@[i] == 0 && r.y@[i] == 0,
    {
        let mut x = [0usize; 64];
        let mut y = [0usize; 64];
        x[0] = 40;
        y[0] = 12;
        Snake { x, y, len: 3, dir: Dir::Right }
    }

    /// Moves the snake one cell: every segment takes the place of the one
    /// before it and the head moves in the snake's direction, stopping at
    /// the screen's edge.
    pub fn step(&mut self)
        requires
            old(self).wf(),
        ensures
            final(self).len == old(self).len,
            final(self).dir == old(self).dir,
            (final(self).x@[0], final(self).y@[0]) == moved(old(self).x@[0], old(self).y@[0], old(self).dir),
            forall|i: int| 1 <= i < old(self).len ==> final(self).x@[i] == old(self).x@[i - 1]
                && final(self).y@[i] == old(self).y@[i - 1],
            forall|i: int| old(self).len <= i < 64 ==> final(self).x@[i] == old(self).x@[i]
                && final(self).y@[i] == old(self).y@[i],
    {
        let mut i = self.len - 1;
        while i > 0
            invariant
                self.len == old(self).len,
                self.dir == old(self).dir,
                3 <= self.len <= 64,
                i < self.len,
                forall|j: int| 0 <= j <= i ==> self.x@[j] == old(self).x@[j] && self.y@[j] == old(self).y@[j],
                forall|j: int| i < j < self.len ==> self.x@[j] == old(self).x@[j - 1] && self.y@[j] == old(self).y@[j - 1],
                forall|j: int| self.len <= j < 64 ==> self.x@[j] == old(self).x@[j] && self.y@[j] == old(self).y@[j],
            decreases i,
        {
            let px = self.x[i - 1];
            let py = self.y[i - 1];
            self.x[i] = px;
            self.y[i] = py;
            i = i - 1;
        }
        match self.dir {
            Dir::Up => {
                if self.y[0] > 0 {
                    self.y[0] = self.y[0] - 1;
                }
            },
            Dir::Down => {
                if self.y[0] < HEIGHT - 1 {
                    self.y[0] = self.y[0] + 1;
                }
            },
            Dir::Left => {
                if self.x[0] > 0 {
                    self.x[0] = self.x[0] - 1;
                }
            },
            Dir::Right => {
                if self.x[0] < WIDTH - 1 {
                    self.x[0] = self.x[0] + 1;
                }
            },
        }
    }

    /// Turns the snake to `new`, unless that would reverse it.
    pub fn set_dir(&mut self, new: Dir)
        ensures
            final(self).dir == if new != opposite(old(self).dir) { new } else { old(self).dir },
            final(self).x == old(self).x,
            final(self).y == old(self).y,
            final(self).len == old(self).len,
    {
        if (self.dir == Dir::Up && new != Dir::Down) || (self.dir == Dir::Down && new != Dir::Up)
            || (self.dir == Dir::Left && new != Dir::Right) || (self.dir == Dir::Right && new != Dir::Left) {
            self.dir = new;
        }
    }
}

/// The hash food placement draws from: `(x ^ 0x5f5f5f5f) * 2654435761`,
/// wrapping at the width of `usize`.
pub open spec fn spec_simple_hash(x: usize) -> usize {
    vstd::wrapping::usize_specs::wrapping_mul(x ^ 0x5f5f5f5f, 2654435761)
}

/// The hash food placement draws from.
pub fn simple_hash(x: usize) -> (r: usize)
    ensures
        r == spec_simple_hash(x),
{
    (x ^ 0x5f5f5f5f).wrapping_mul(2654435761)
}

/// The food position tried on attempt `crt` after the head reached (x, y).
pub open spec fn food_try(x: usize, y: usize, crt: usize) -> (usize, usize) {
    let seed = (x * 13 + y * 31 + crt) as usize;
    ((spec_simple_hash(seed) % WIDTH) as usize, (spec_simple_hash((seed + 1) as usize) % HEIGHT) as usize)
}

/// The attempts food placement makes before it gives up looking for a
/// position off the top row and the left column.
pub const FOOD_TRIES: usize = 0x1_0000;

/// `r` is where food goes after the snake ate at (x, y): the first try
/// whose position is off the top row and the left column, or the last try.
pub open spec fn food_placed(x: usize, y: usize, r: (usize, usize)) -> bool {
    exists|crt: usize| crt < FOOD_TRIES && #[trigger] food_try(x, y, crt) == r
        && (r.0 != 0 && r.1 != 0 || crt == FOOD_TRIES - 1)
        && forall|c: usize| c < crt ==> (#[trigger] food_try(x, y, c)).0 == 0 || food_try(x, y, c).1 == 0
}

/// Places new food after the snake's head at (x, y) ate it: the first
/// attempt `crt` = 0, 1, … whose position is off the top row and the left
/// column, or the last attempt when none of FOOD_TRIES is. (Positions on
/// walls are not avoided.)
pub fn place_food(x: usize, y: usize) -> (r: (usize, usize))
    requires
        x < WIDTH,
        y < HEIGHT,
    ensures
        food_placed(x, y, r),
{
    let mut crt: usize = 0;
    loop
        invariant
            x < WIDTH,
            y < HEIGHT,
            crt < FOOD_TRIES,
            forall|c: usize| c < crt ==> (#[trigger] food_try(x, y, c)).0 == 0 || food_try(x, y, c).1 == 0,
        decreases FOOD_TRIES - crt,
    {
        let seed = x * 13 + y * 31 + crt;
        let fx = simple_hash(seed) % WIDTH;
        let fy = simple_hash(seed + 1) % HEIGHT;
        assert(food_try(x, y, crt) == (fx, fy));
        if (fx != 0 && fy != 0) || crt == FOOD_TRIES - 1 {
            return (fx, fy);
        }
        crt = crt + 1;
    }
}

/// The walls of a level file: lines "x,y" (bytes other than digits are
/// ignored); a wall is kept when it lies on the screen; at most
/// MAX_WALLS walls.
pub open spec fn walls_from(buf: Seq<u8>, i: int, acc: Seq<Point>) -> Seq<Point>
    decreases (if 512 >= i { 513 - i } else { 0 }),
{
    if i >= 512 || acc.len() >= MAX_WALLS || i < 0 {
        acc
    } else {
        let (x, i1) = read_number(buf, i, 0x2c, 0);
        let (y, i2) = read_number(buf, i1 + 1, 0x0a, 0);
        proof {
            lemma_read_number(buf, i, 0x2c, 0);
            lemma_read_number(buf, i1 + 1, 0x0a, 0);
        }
        let acc2 = if x < WIDTH && y < HEIGHT { acc.push(Point { x: x as usize, y: y as usize }) } else { acc };
        walls_from(buf, i2 + 1, acc2)
    }
}

/// The number written by the digits from `i` up to the byte `stop` (or the
/// end of the 512-byte buffer), other bytes ignored, wrapping at the width
/// of `usize`: (value, where it stopped).
pub open spec fn read_number(buf: Seq<u8>, i: int, stop: u8, acc: usize) -> (usize, int)
    decreases (if 512 >= i { 512 - i } else { 0 }),
{
    if i >= 512 || i < 0 || buf[i] == stop {
        (acc, i)
    } else if 0x30 <= buf[i] <= 0x39 {
        read_number(
            buf,
            i + 1,
            stop,
            vstd::wrapping::usize_specs::wrapping_add(
                vstd::wrapping::usize_specs::wrapping_mul(acc, 10),
                (buf[i] - 0x30) as usize,
            ),
        )
    } else {
        read_number(buf, i + 1, stop, acc)
    }
}

/// Where reading a number stops.
pub proof fn lemma_read_number(buf: Seq<u8>, i: int, stop: u8, acc: usize)
    ensures
        i <= 512 ==> i <= read_number(buf, i, stop, acc).1 <= 512,
        i > 512 ==> read_number(buf, i, stop, acc).1 == i,
    decreases (if 512 >= i { 512 - i } else { 0 }),
{
    if !(i >= 512 || i < 0 || buf[i] == stop) {
        if 0x30 <= buf[i] <= 0x39 {
            lemma_read_number(
                buf,
                i + 1,
                stop,
                vstd::wrapping::usize_specs::wrapping_add(
                    vstd::wrapping::usize_specs::wrapping_mul(acc, 10),
                    (buf[i] - 0x30) as usize,
                ),
            );
        } else {
            lemma_read_number(buf, i + 1, stop, acc);
        }
    }
}

/// Reads a number from `buf` at `i` up to `stop` (see `read_number`).
fn parse_number(buf: &[u8; 512], i: usize, stop: u8) -> (r: (usize, usize))
    requires
        i <= 512,
    ensures
        (r.0, r.1 as int) == read_number(buf@, i as int, stop, 0),
        i <= r.1 <= 512,
{
    let mut v: usize = 0;
    let mut k = i;
    proof {
        lemma_read_number(buf@, i as int, stop, 0);
    }
    while k < 512 && buf[k] != stop
        invariant
            i <= k <= 512,
            read_number(buf@, i as int, stop, 0) == read_number(buf@, k as int, stop, v),
        decreases 512 - k,
    {
        if 0x30 <= buf[k] && buf[k] <= 0x39 {
            let d = (buf[k] - 0x30) as usize;
            v = v.wrapping_mul(10).wrapping_add(d);
        }
        k = k + 1;
    }
    proof {
        lemma_read_number(buf@, k as int, stop, v);
    }
    (v, k)
}

/// The walls listed in a level file's first sector.
pub fn parse_level(buf: &[u8; 512]) -> (r: Vec<Point>)
    ensures
        r@ == walls_from(buf@, 0, Seq::empty()),
{
    let mut walls: Vec<Point> = Vec::new();
    let mut i: usize = 0;
    while i < 512 && walls.len() < MAX_WALLS
        invariant
            i <= 513,
            walls_from(buf@, 0, Seq::empty()) == walls_from(buf@, i as int, walls@),
        decreases 513 - i,
    {
        let (x, i1) = parse_number(buf, i, 0x2c);
        let j = if i1 < 512 { i1 + 1 } else { 513 };
        proof {
            if i1 >= 512 {
                lemma_read_number(buf@, i1 + 1, 0x0a, 0);
            }
        }
        let (y, i2) = if j <= 512 { parse_number(buf, j, 0x0a) } else { (0, j) };
        assert((y, i2 as int) == read_number(buf@, i1 + 1, 0x0a, 0));
        if x < WIDTH && y < HEIGHT {
            walls.push(Point { x, y });
        }
        i = if i2 < 512 { i2 + 1 } else { 513 };
        proof {
            if i2 >= 512 {
                assert(walls_from(buf@, i2 + 1, walls@) == walls@);
                assert(walls_from(buf@, i as int, walls@) == walls@);
            }
        }
    }
    walls
}

/// The name of level `n`'s wall file: "LEVEL" and two digits.
pub open spec fn level_name(n: u8) -> Seq<u8> {
    seq![0x4cu8, 0x45, 0x56, 0x45, 0x4c, (0x30 + n / 10) as u8, (0x30 + n % 10) as u8]
}

/// The base name of level `n`'s wall file.
pub fn level_file_name(n: u8) -> (r: [u8; 7])
    requires
        n <= 99,
    ensures
        r@ == level_name(n),
{
    let r: [u8; 7] = [0x4c, 0x45, 0x56, 0x45, 0x4c, 0x30 + n / 10, 0x30 + n % 10];
    assert(r@ =~= level_name(n));
    r
}

/// The entry is a file whose base name starts with `name` and whose
/// extension starts with `ext`: in use, not deleted, not a directory.
pub open spec fn names_file(e: Entry, name: Seq<u8>, ext: Seq<u8>) -> bool {
    &&& e.name@[0] != 0x00
    &&& e.name@[0] != 0xE5
    &&& e.attr & 0x10 == 0
    &&& e.name@.take(name.len() as int) == name
    &&& e.ext@.take(ext.len() as int) == ext
}

/// Index of the last of `es` naming that file, or -1.
pub open spec fn last_named(es: Seq<Entry>, name: Seq<u8>, ext: Seq<u8>) -> int
    decreases es.len(),
{
    if es.len() == 0 {
        -1
    } else if names_file(es.last(), name, ext) {
        es.len() - 1
    } else {
        last_named(es.drop_last(), name, ext)
    }
}

/// Whether `e` names the file `name`.`ext` (see `names_file`).
fn entry_names_file(e: &Entry, name: &[u8], ext: &[u8]) -> (r: bool)
    requires
        name@.len() <= 8,
        ext@.len() <= 3,
    ensures
        r == names_file(*e, name@, ext@),
{
    if e.name[0] == 0x00 || e.name[0] == 0xE5 || e.attr & 0x10 != 0 {
        return false;
    }
    let mut i: usize = 0;
    while i < name.len()
        invariant
            name@.len() <= 8,
            i <= name@.len(),
            forall|j: int| 0 <= j < i ==> e.name@[j] == name@[j],
        decreases name.len() - i,
    {
        if e.name[i] != name[i] {
            assert(e.name@.take(name@.len() as int)[i as int] != name@[i as int]);
            return false;
        }
        i = i + 1;
    }
    let mut k: usize = 0;
    while k < ext.len()
        invariant
            ext@.len() <= 3,
            k <= ext@.len(),
            forall|j: int| 0 <= j < k ==> e.ext@[j] == ext@[j],
        decreases ext.len() - k,
    {
        if e.ext[k] != ext[k] {
            assert(e.ext@.take(ext@.len() as int)[k as int] != ext@[k as int]);
            return false;
        }
        k = k + 1;
    }
    assert(e.name@.take(name@.len() as int) =~= name@);
    assert(e.ext@.take(ext@.len() as int) =~= ext@);
    true
}

/// The index of the last entry naming the file `name`.`ext`.
fn last_named_entry(es: &Vec<Entry>, name: &[u8], ext: &[u8]) -> (r: Option<usize>)
    requires
        name@.len() <= 8,
        ext@.len() <= 3,
    ensures
        match r {
            Some(i) => i == last_named(es@, name@, ext@) && i < es@.len(),
            None => last_named(es@, name@, ext@) == -1,
        },
{
    let mut i = es.len();
    assert(es@.take(i as int) =~= es@);
    while i > 0
        invariant
            i <= es@.len(),
            forall|j: int| i <= j < es@.len() ==> !names_file(#[trigger] es@[j], name@, ext@),
            last_named(es@, name@, ext@) == last_named(es@.take(i as int), name@, ext@),
            name@.len() <= 8,
            ext@.len() <= 3,
        decreases i,
    {
        assert(es@.take(i as int).drop_last() =~= es@.take(i - 1));
        if entry_names_file(&es[i - 1], name, ext) {
            return Some(i - 1);
        }
        i = i - 1;
    }
    None
}

/// The base name "SKSCORE" and extension "DAT" of the high score file.
pub open spec fn score_file() -> (Seq<u8>, Seq<u8>) {
    (seq![0x53u8, 0x4B, 0x53, 0x43, 0x4F, 0x52, 0x45], seq![0x44u8, 0x41, 0x54])
}

/// The high score table in directory `cwd`: read from the last entry
/// naming SKSCORE.DAT; None when there is none, when its first cluster is
/// 0, or when its chain leaves the device.
pub fn load_high_scores_fat12<D: BlockDevice>(fs: &Fs<D>, cwd: u16) -> (r: Option<[u32; 5]>)
    requires
        fs.wf(),
        fs.dir_walk_on_device(cwd),
    ensures
        ({
            let es = fs.dir_entries(cwd);
            let i = last_named(es, score_file().0, score_file().1);
            if i < 0 || es[i].start_cluster == 0 || !chain_in_data(fs, es[i].start_cluster, (CHAIN_LIMIT - 1) as nat) {
                r is None
            } else {
                let sec = fs.disk()[fs.spec_cluster_lba(chain_last(fs, es[i].start_cluster, (CHAIN_LIMIT - 1) as nat))];
                r matches Some(sc) && forall|k: int| 0 <= k < 5 ==> sc@[k] == stored_score(sec, k)
            }
        }),
{
    let name: [u8; 7] = [0x53, 0x4B, 0x53, 0x43, 0x4F, 0x52, 0x45];
    let ext: [u8; 3] = [0x44, 0x41, 0x54];
    assert(name@ =~= score_file().0);
    assert(ext@ =~= score_file().1);
    let es = fs.entries(cwd);
    let cluster = match last_named_entry(&es, &name, &ext) {
        Some(i) => es[i].start_cluster,
        None => 0,
    };
    if cluster == 0 || !fs.chain_ok(cluster) {
        return None;
    }
    let mut sector_buf = [0u8; 512];
    fs.read_file(cluster, &mut sector_buf);
    parse_scores_from_sector(&sector_buf)
}

/// Saves the high score table as SKSCORE.DAT in directory `cwd`: five
/// little-endian 32-bit words.
pub fn save_high_scores_fat12<D: BlockDevice>(fs: &mut Fs<D>, cwd: u16, scores: &[u32; 5]) -> (r: WriteStatus)
    requires
        old(fs).wf(),
        old(fs).write_ready(cwd),
    ensures
        exists|bytes: Seq<u8>| {
            &&& bytes.len() == 20
            &&& forall|i: int, k: int| 0 <= i < 5 && 0 <= k < 4 ==> #[trigger] bytes[4 * i + k] == (scores@[i] as int / pow256(k)) % 256
            &&& final(fs).wrote(old(fs), cwd, score_file_name(), bytes, r)
        },
{
    let buf = scores_to_bytes(scores);
    let name: [u8; 11] = [0x53, 0x4B, 0x53, 0x43, 0x4F, 0x52, 0x45, 0x20, 0x44, 0x41, 0x54];
    assert(name@ =~= score_file_name());
    let r = fs.write_file(cwd, &name, &buf);
    assert(buf@.len() == 20);
    r
}

/// The 8.3 name "SKSCORE DAT".
pub open spec fn score_file_name() -> Seq<u8> {
    score_file().0 + seq![0x20u8] + score_file().1
}

/// The sector a level file is read into: that of the last entry naming
/// the file whose chain stays on the device (each such entry is read in
/// turn into the same buffer), or zeros when there is none.
pub open spec fn level_sector<D: BlockDevice>(fs: &Fs<D>, es: Seq<Entry>, name: Seq<u8>) -> Seq<u8>
    decreases es.len(),
{
    if es.len() == 0 {
        Seq::new(512, |i: int| 0u8)
    } else {
        let e = es.last();
        if names_file(e, name, seq![0x54u8, 0x58, 0x54]) && chain_in_data(fs, e.start_cluster, (CHAIN_LIMIT - 1) as nat) {
            fs.disk()[fs.spec_cluster_lba(chain_last(fs, e.start_cluster, (CHAIN_LIMIT - 1) as nat))]
        } else {
            level_sector(fs, es.drop_last(), name)
        }
    }
}

/// The walls of the level file `filename`.TXT in directory `cwd`, and
/// their number.
pub fn load_level_from_file<D: BlockDevice>(fs: &Fs<D>, cwd: u16, filename: &[u8; 7]) -> (r: (Vec<Point>, usize))
    requires
        fs.wf(),
        fs.dir_walk_on_device(cwd),
    ensures
        r.0@ == walls_from(level_sector(fs, fs.dir_entries(cwd), filename@), 0, Seq::empty()),
        r.1 == r.0@.len(),
{
    let ext: [u8; 3] = [0x54, 0x58, 0x54];
    assert(ext@ =~= seq![0x54u8, 0x58, 0x54]);
    let es = fs.entries(cwd);
    let mut buf = [0u8; 512];
    assert(buf@ =~= level_sector(fs, Seq::<Entry>::empty(), filename@));
    let mut i: usize = 0;
    while i < es.len()
        invariant
            fs.wf(),
            es@ == fs.dir_entries(cwd),
            i <= es@.len(),
            ext@ == seq![0x54u8, 0x58, 0x54],
            buf@ == level_sector(fs, es@.take(i as int), filename@),
        decreases es.len() - i,
    {
        let e = es[i];
        assert(es@.take(i + 1).drop_last() =~= es@.take(i as int));
        assert(es@.take(i + 1).last() == e);
        if entry_names_file(&e, filename, &ext) && fs.chain_ok(e.start_cluster) {
            fs.read_file(e.start_cluster, &mut buf);
        }
        i = i + 1;
    }
    assert(es@.take(es@.len() as int) =~= es@);
    let walls = parse_level(&buf);
    let n = walls.len();
    (walls, n)
}

/// The walls of level `level_number` (file LEVELnn.TXT in directory `cwd`).
pub fn load_level_by_number<D: BlockDevice>(fs: &Fs<D>, cwd: u16, level_number: u8) -> (r: (Vec<Point>, usize))
    requires
        fs.wf(),
        fs.dir_walk_on_device(cwd),
        level_number <= 99,
    ensures
        r.0@ == walls_from(level_sector(fs, fs.dir_entries(cwd), level_name(level_number)), 0, Seq::empty()),
        r.1 == r.0@.len(),
{
    let filename = level_file_name(level_number);
    load_level_from_file(fs, cwd, &filename)
}

/// The high scores stored in a sector: five little-endian 32-bit values in
/// bytes 0..20.
pub open spec fn stored_score(s: Seq<u8>, i: int) -> u32 {
    (s[4 * i] + 256 * s[4 * i + 1] + 65536 * s[4 * i + 2] + 16777216 * s[4 * i + 3]) as u32
}

/// Reads the high score table from the first sector of its file.
pub fn parse_scores_from_sector(sector_buf: &[u8; 512]) -> (r: Option<[u32; 5]>)
    ensures
        r matches Some(sc) && forall|i: int| 0 <= i < 5 ==> sc@[i] == stored_score(sector_buf@, i),
{
    let mut scores = [0u32; 5];
    let mut i: usize = 0;
    while i < SCORE_LEN
        invariant
            i <= 5,
            forall|j: int| 0 <= j < i ==> scores@[j] == stored_score(sector_buf@, j),
        decreases 5 - i,
    {
        let off = i * 4;
        scores[i] = sector_buf[off] as u32 + (sector_buf[off + 1] as u32) * 256 + (sector_buf[off + 2] as u32) * 65536
            + (sector_buf[off + 3] as u32) * 16777216;
        i = i + 1;
    }
    Some(scores)
}

/// Reading back what is saved gives the saved scores: the bytes that
/// `scores_to_bytes` writes for a score are read as that score.
pub proof fn lemma_score_bytes_roundtrip(s: Seq<u8>, scores: Seq<u32>)
    requires
        s.len() >= 20,
        scores.len() == 5,
        forall|i: int, k: int| 0 <= i < 5 && 0 <= k < 4 ==> #[trigger] s[4 * i + k] == (scores[i] as int / pow256(k)) % 256,
    ensures
        forall|i: int| 0 <= i < 5 ==> #[trigger] stored_score(s, i) == scores[i],
{
    assert forall|i: int| 0 <= i < 5 implies #[trigger] stored_score(s, i) == scores[i] by {
        let x = scores[i] as int;
        assert(s[4 * i + 0] == (x / pow256(0)) % 256);
        assert(s[4 * i + 1] == (x / pow256(1)) % 256);
        assert(s[4 * i + 2] == (x / pow256(2)) % 256);
        assert(s[4 * i + 3] == (x / pow256(3)) % 256);
        assert(4 * i + 0 == 4 * i);
        assert(x % 256 + 256 * ((x / 256) % 256) + 65536 * ((x / 65536) % 256) + 16777216 * ((x / 16777216) % 256) == x)
            by (nonlinear_arith)
            requires
                0 <= x < 0x1_0000_0000,
        {
            assert(x == 256 * (x / 256) + x % 256);
            assert(x / 256 == 256 * (x / 65536) + (x / 256) % 256);
            assert(x / 65536 == 256 * (x / 16777216) + (x / 65536) % 256);
            assert(x / 16777216 < 256);
        }
    }
}

/// `s` with `v` inserted before its first element smaller than `v`.
pub open spec fn insert_desc(s: Seq<u32>, v: u32) -> Seq<u32>
    decreases s.len(),
{
    if s.len() == 0 {
        seq![v]
    } else if v >= s[0] {
        seq![v] + s
    } else {
        seq![s[0]] + insert_desc(s.skip(1), v)
    }
}

/// `s` sorted from the highest value down (by insertion).
pub open spec fn sort_desc(s: Seq<u32>) -> Seq<u32>
    decreases s.len(),
{
    if s.len() == 0 {
        s
    } else {
        insert_desc(sort_desc(s.drop_last()), s.last())
    }
}

/// The values of `s` run from the highest down.
pub open spec fn is_desc(s: Seq<u32>) -> bool {
    forall|i: int, j: int| 0 <= i < j < s.len() ==> s[i] >= s[j]
}

proof fn lemma_insert_desc(s: Seq<u32>, v: u32)
    requires
        is_desc(s),
    ensures
        is_desc(insert_desc(s, v)),
        insert_desc(s, v).len() == s.len() + 1,
        insert_desc(s, v).to_multiset() == s.to_multiset().insert(v),
    decreases s.len(),
{
    broadcast use vstd::seq_lib::group_seq_properties;
    if s.len() == 0 {
        assert(seq![v].to_multiset() =~= Seq::<u32>::empty().to_multiset().insert(v));
    } else if v >= s[0] {
        assert(seq![v] + s =~= s.insert(0, v));
    } else {
        let t = s.skip(1);
        assert forall|i: int, j: int| 0 <= i < j < t.len() implies t[i] >= t[j] by {
            assert(s[i + 1] >= s[j + 1]);
        }
        lemma_insert_desc(t, v);
        let r = insert_desc(t, v);
        assert(seq![s[0]] + r =~= r.insert(0, s[0]));
        assert(s =~= t.insert(0, s[0]));
        assert forall|i: int, j: int| 0 <= i < j < (seq![s[0]] + r).len() implies (seq![s[0]] + r)[i] >= (seq![s[0]] + r)[j] by {
            if i == 0 {
                let m = (seq![s[0]] + r)[j];
                assert(r.to_multiset().count(m) > 0) by {
                    assert(r[j - 1] == m);
                }
                assert(m == v || t.to_multiset().count(m) > 0);
                if m != v {
                    let k = choose|k: int| 0 <= k < t.len() && t[k] == m;
                    assert(s[0] >= s[k + 1]);
                }
            }
        }
    }
}

proof fn lemma_sort_desc(s: Seq<u32>)
    ensures
        is_desc(sort_desc(s)),
        sort_desc(s).len() == s.len(),
        sort_desc(s).to_multiset() == s.to_multiset(),
    decreases s.len(),
{
    broadcast use vstd::seq_lib::group_seq_properties;
    if s.len() == 0 {
    } else {
        lemma_sort_desc(s.drop_last());
        lemma_insert_desc(sort_desc(s.drop_last()), s.last());
        assert(s =~= s.drop_last().push(s.last()));
    }
}

/// Inserts `v` into the descending array prefix `a[..n]`.
fn insert_sorted(a: &mut Vec<u32>, v: u32)
    ensures
        final(a)@ == insert_desc(old(a)@, v),
{
    let ghost s = a@;
    let mut i: usize = 0;
    assert(s.take(0) + insert_desc(s.skip(0), v) =~= insert_desc(s, v)) by {
        assert(s.skip(0) =~= s);
    }
    while i < a.len() && v < a[i]
        invariant
            a@ == s,
            i <= s.len(),
            forall|j: int| 0 <= j < i ==> v < s[j],
            insert_desc(s, v) == s.take(i as int) + insert_desc(s.skip(i as int), v),
        decreases s.len() - i,
    {
        proof {
            let t = s.skip(i as int);
            assert(t.skip(1) =~= s.skip(i + 1));
            assert(s.take(i + 1) =~= s.take(i as int) + seq![s[i as int]]);
            assert(s.take(i as int) + (seq![t[0]] + insert_desc(t.skip(1), v))
                =~= s.take(i + 1) + insert_desc(s.skip(i + 1), v));
        }
        i = i + 1;
    }
    proof {
        if i < s.len() {
            assert(insert_desc(s.skip(i as int), v) == seq![v] + s.skip(i as int));
        } else {
            assert(s.skip(i as int) =~= Seq::<u32>::empty());
        }
    }
    a.insert(i, v);
    assert(a@ =~= s.take(i as int) + insert_desc(s.skip(i as int), v));
}

/// The high score table after a game scoring `score`: the five highest of
/// the stored scores and the new one, highest first; with no table yet,
/// the new score followed by zeros.
pub open spec fn new_high_scores(loaded: Option<Seq<u32>>, score: u32) -> Seq<u32> {
    match loaded {
        Some(s) => sort_desc(sort_desc(s).push(score)).take(5),
        None => seq![score, 0u32, 0u32, 0u32, 0u32],
    }
}

/// Merges the score of a finished game into the high score table.
pub fn update_high_scores(loaded: Option<[u32; 5]>, score: u32) -> (r: [u32; 5])
    ensures
        r@ == new_high_scores(
            match loaded {
                Some(a) => Some(a@),
                None => None,
            },
            score,
        ),
{
    match loaded {
        Some(scores) => {
            let mut sorted: Vec<u32> = Vec::new();
            let mut i: usize = 0;
            while i < 5
                invariant
                    i <= 5,
                    sorted@ == sort_desc(scores@.take(i as int)),
                decreases 5 - i,
            {
                assert(scores@.take(i + 1).drop_last() =~= scores@.take(i as int));
                insert_sorted(&mut sorted, scores[i]);
                i = i + 1;
            }
            assert(scores@.take(5) =~= scores@);
            proof {
                lemma_sort_desc(scores@);
            }
            let mut all: Vec<u32> = Vec::new();
            let mut k: usize = 0;
            while k < 6
                invariant
                    k <= 6,
                    sorted@.len() == 5,
                    all@ == sort_desc(sorted@.push(score).take(k as int)),
                decreases 6 - k,
            {
                let v = if k < 5 { sorted[k] } else { score };
                assert(sorted@.push(score).take(k + 1).drop_last() =~= sorted@.push(score).take(k as int));
                assert(sorted@.push(score).take(k + 1).last() == v);
                insert_sorted(&mut all, v);
                k = k + 1;
            }
            assert(sorted@.push(score).take(6) =~= sorted@.push(score));
            proof {
                lemma_sort_desc(sorted@.push(score));
            }
            let r: [u32; 5] = [all[0], all[1], all[2], all[3], all[4]];
            assert(r@ =~= all@.take(5));
            r
        },
        None => {
            let r: [u32; 5] = [score, 0, 0, 0, 0];
            assert(r@ =~= seq![score, 0u32, 0u32, 0u32, 0u32]);
            r
        },
    }
}

/// The new high score table runs from the highest score down, and holds
/// the five highest of the old table and the new score.
pub proof fn lemma_high_scores_sorted(s: Seq<u32>, score: u32)
    requires
        s.len() == 5,
    ensures
        is_desc(new_high_scores(Some(s), score)),
        new_high_scores(Some(s), score).len() == 5,
        sort_desc(sort_desc(s).push(score)).to_multiset() == s.to_multiset().insert(score),
{
    broadcast use vstd::seq_lib::group_seq_properties;
    lemma_sort_desc(s);
    lemma_sort_desc(sort_desc(s).push(score));
    let t = sort_desc(sort_desc(s).push(score));
    assert(sort_desc(s).push(score).to_multiset() == sort_desc(s).to_multiset().insert(score));
}

/// The bytes the high score table is saved as: each score as four
/// little-endian bytes.
pub fn scores_to_bytes(scores: &[u32; 5]) -> (r: [u8; 20])
    ensures
        forall|i: int, k: int| 0 <= i < 5 && 0 <= k < 4 ==> #[trigger] r@[4 * i + k] == (scores@[i] as int / pow256(k)) % 256,
{
    let mut buf = [0u8; 20];
    let mut i: usize = 0;
    while i < 5
        invariant
            i <= 5,
            forall|j: int, k: int| 0 <= j < i && 0 <= k < 4 ==> #[trigger] buf@[4 * j + k] == (scores@[j] as int / pow256(k)) % 256,
        decreases 5 - i,
    {
        let v = scores[i];
        buf[4 * i] = (v % 256) as u8;
        buf[4 * i + 1] = ((v / 256) % 256) as u8;
        buf[4 * i + 2] = ((v / 65536) % 256) as u8;
        buf[4 * i + 3] = (v / 16777216) as u8;
        assert forall|j: int, k: int| 0 <= j < i + 1 && 0 <= k < 4 implies #[trigger] buf@[4 * j + k] == (scores@[j] as int / pow256(k)) % 256 by {
            if j == i {
                assert(pow256(0) == 1 && pow256(1) == 256 && pow256(2) == 65536 && pow256(3) == 16777216);
            }
        }
        i = i + 1;
    }
    buf
}

/// 256 to the power `k`, for k < 4.
pub open spec fn pow256(k: int) -> int {
    if k == 0 { 1 } else if k == 1 { 256 } else if k == 2 { 65536 } else { 16777216 }
}

/// What the game loop does after a scan code.
#[derive(Clone, Copy, PartialEq, Eq, Structural)]
pub enum SnakeAction {
    /// Wait for the second byte of an extended key.
    AwaitKey,
    /// Load the walls of this level, then hand them to `set_walls`.
    LoadLevel(u8),
    /// Draw the frame and wait for the next key.
    Draw,
    /// Esc: save this score and leave.
    Quit(u32),
    /// The snake ran into a wall: save this score and leave.
    GameOver(u32),
}

/// Where the game loop stands.
#[derive(Clone, Copy, PartialEq, Eq, Structural)]
pub enum SnakePhase {
    /// Waiting for a key.
    Ready,
    /// 0xE0 was read; the next byte names an arrow key.
    Extended,
    /// A new level's walls are awaited.
    AwaitWalls,
}

/// The state of a game.
pub struct SnakeGame {
    pub snake: Snake,
    pub score: u32,
    pub level: u32,
    pub move_count: u32,
    pub food_x: usize,
    pub food_y: usize,
    pub walls: Vec<Point>,
    pub phase: SnakePhase,
}

/// The direction after the arrow key with scan code `code` is pressed.
pub open spec fn turned(d: Dir, code: u8) -> Dir {
    let new = if code == 0x48 {
        Some(Dir::Up)
    } else if code == 0x50 {
        Some(Dir::Down)
    } else if code == 0x4B {
        Some(Dir::Left)
    } else if code == 0x4D {
        Some(Dir::Right)
    } else {
        None
    };
    match new {
        Some(n) => if n != opposite(d) { n } else { d },
        None => d,
    }
}

/// The snake's head is on a wall.
pub open spec fn hits_wall(walls: Seq<Point>, x: usize, y: usize) -> bool {
    exists|i: int| 0 <= i < walls.len() && walls[i].x == x && walls[i].y == y
}

/// One frame of the game from `g0` to `g1`, with result `r`: the snake
/// steps (`Snake::step`); when its head reaches the food it grows by one
/// (up to 64) and scores a point, and new food is placed; the frame is
/// over when the head is on a wall.
pub open spec fn frame_done(g0: SnakeGame, g1: SnakeGame, r: SnakeAction) -> bool {
    let (hx, hy) = moved(g0.snake.x@[0], g0.snake.y@[0], g0.snake.dir);
    let eats = hx == g0.food_x && hy == g0.food_y;
    let grows = eats && g0.snake.len < MAX_LEN;
    &&& g1.phase == SnakePhase::Ready
    &&& g1.move_count == g0.move_count + 1
    &&& g1.walls@ == g0.walls@
    &&& g1.level == g0.level
    &&& g1.snake.dir == g0.snake.dir
    &&& g1.snake.x@[0] == hx && g1.snake.y@[0] == hy
    &&& forall|i: int| 1 <= i < g0.snake.len ==> g1.snake.x@[i] == g0.snake.x@[i - 1] && g1.snake.y@[i] == g0.snake.y@[i - 1]
    &&& forall|i: int| g0.snake.len <= i < 64 ==> g1.snake.x@[i] == g0.snake.x@[i] && g1.snake.y@[i] == g0.snake.y@[i]
    &&& g1.snake.len == if grows { g0.snake.len + 1 } else { g0.snake.len as int }
    &&& g1.score == if grows && g0.score < 64 * 0x1_0000 { g0.score + 1 } else { g0.score as int }
    &&& eats ==> food_placed(hx, hy, (g1.food_x, g1.food_y))
    &&& !eats ==> g1.food_x == g0.food_x && g1.food_y == g0.food_y
    &&& r == if hits_wall(g1.walls@, hx, hy) { SnakeAction::GameOver(g1.score) } else { SnakeAction::Draw }
}

/// The score calls for the next level: a multiple of 30 reached by a
/// snake that has grown.
pub open spec fn level_up(g: SnakeGame) -> bool {
    g.score % 30 == 0 && g.snake.len != 3
}

/// `g1` is `g0` at the start of its next level: a new snake of length 3 at
/// (40, 12) heading right, the level number set, and the walls asked for.
pub open spec fn leveled(g0: SnakeGame, g1: SnakeGame) -> bool {
    &&& g1.level == g0.score / 30 + 1
    &&& g1.phase == SnakePhase::AwaitWalls
    &&& g1.snake.len == 3 && g1.snake.dir == Dir::Right
    &&& g1.snake.x@[0] == 40 && g1.snake.y@[0] == 12
    &&& forall|i: int| 1 <= i < 64 ==> g1.snake.x@[i] == 0 && g1.snake.y@[i] == 0
    &&& g1.score == g0.score && g1.move_count == g0.move_count
    &&& g1.food_x == g0.food_x && g1.food_y == g0.food_y
    &&& g1.walls@ == g0.walls@
}

/// A frame started from `g0`: the next level begins when the score calls
/// for it, else the frame runs (`frame_done`).
pub open spec fn frame_started(g0: SnakeGame, g1: SnakeGame, r: SnakeAction) -> bool {
    if level_up(g0) {
        r == SnakeAction::LoadLevel((g0.score / 30 + 1) as u8) && leveled(g0, g1)
    } else {
        frame_done(g0, g1, r)
    }
}

impl SnakeGame {
    /// The snake is well formed, the head and the food are on the screen,
    /// and the counters cannot overflow before the game would.
    pub open spec fn wf(&self) -> bool {
        &&& self.snake.wf()
        &&& self.snake.x@[0] < WIDTH && self.snake.y@[0] < HEIGHT
        &&& self.score <= 64 * 0x1_0000
        &&& self.move_count < u32::MAX
        &&& self.level <= 64 * 0x1_0000
    }

    /// A new game on level 1 with the walls `walls`: food at (20, 10).
    pub fn new(walls: Vec<Point>) -> (r: Self)
        ensures
            r.wf(),
            r.score == 0 && r.level == 1 && r.move_count == 0,
            r.food_x == 20 && r.food_y == 10,
            r.walls@ == walls@,
            r.phase == SnakePhase::Ready,
            r.snake.len == 3 && r.snake.dir == Dir::Right,
    {
        SnakeGame {
            snake: Snake::new(),
            score: 0,
            level: 1,
            move_count: 0,
            food_x: 20,
            food_y: 10,
            walls,
            phase: SnakePhase::Ready,
        }
    }

    /// Moves the snake, feeds it and checks the walls.
    fn finish_frame(&mut self) -> (r: SnakeAction)
        requires
            old(self).wf(),
            old(self).move_count < u32::MAX - 1,
        ensures
            final(self).wf() || r is GameOver,
            frame_done(*old(self), *final(self), r),
    {
        self.phase = SnakePhase::Ready;
        self.move_count = self.move_count + 1;
        self.snake.step();
        let hx = self.snake.x[0];
        let hy = self.snake.y[0];
        if hx == self.food_x && hy == self.food_y {
            if self.snake.len < MAX_LEN {
                self.snake.len = self.snake.len + 1;
                if self.score < 64 * 0x1_0000 {
                    self.score = self.score + 1;
                }
            }
            let (fx, fy) = place_food(hx, hy);
            self.food_x = fx;
            self.food_y = fy;
        }
        let ghost snap = *self;
        let mut i: usize = 0;
        while i < self.walls.len()
            invariant
                *self == snap,
                snap.phase == SnakePhase::Ready,
                snap.move_count == old(self).move_count + 1,
                snap.walls@ == old(self).walls@,
                snap.snake.dir == old(self).snake.dir,
                frame_done(*old(self), snap, if hits_wall(snap.walls@, hx, hy) { SnakeAction::GameOver(snap.score) } else { SnakeAction::Draw }),
                snap.wf(),
                hx == snap.snake.x@[0],
                hy == snap.snake.y@[0],
                i <= self.walls@.len(),
                forall|j: int| 0 <= j < i ==> !(self.walls@[j].x == hx && self.walls@[j].y == hy),
            decreases self.walls@.len() - i,
        {
            if self.walls[i].x == hx && self.walls[i].y == hy {
                assert(hits_wall(self.walls@, hx, hy));
                return SnakeAction::GameOver(self.score);
            }
            i = i + 1;
        }
        SnakeAction::Draw
    }

    /// Starts a frame: when the score has reached a multiple of 30 and the
    /// snake has grown, the next level begins with a new snake and its walls
    /// are asked for; otherwise the frame goes on.
    fn start_frame(&mut self) -> (r: SnakeAction)
        requires
            old(self).wf(),
            old(self).move_count < u32::MAX - 1,
        ensures
            final(self).wf() || r is GameOver,
            frame_started(*old(self), *final(self), r),
    {
        if self.score % 30 == 0 && self.snake.len != 3 {
            self.level = self.score / 30 + 1;
            self.snake = Snake::new();
            self.phase = SnakePhase::AwaitWalls;
            return SnakeAction::LoadLevel(self.level as u8);
        }
        self.finish_frame()
    }

    /// Feeds one scan code to the game loop: Esc quits with the score; 0xE0
    /// announces an arrow key, which turns the snake (never back on
    /// itself); then the frame runs (see `start_frame`).
    pub fn on_scancode(&mut self, code: u8) -> (r: SnakeAction)
        requires
            old(self).wf(),
            old(self).phase != SnakePhase::AwaitWalls,
            old(self).move_count < u32::MAX - 1,
        ensures
            final(self).wf() || r is GameOver,
            final(self).walls@ == old(self).walls@,
            old(self).phase == SnakePhase::Ready && code == 0x01 ==> r == SnakeAction::Quit(old(self).score)
                && *final(self) == *old(self),
            old(self).phase == SnakePhase::Ready && code == 0xE0 ==> r == SnakeAction::AwaitKey
                && *final(self) == (SnakeGame { phase: SnakePhase::Extended, ..*old(self) }),
            old(self).phase == SnakePhase::Ready && code != 0x01 && code != 0xE0 ==> frame_started(*old(self), *final(self), r),
            old(self).phase == SnakePhase::Extended ==> frame_started(
                (SnakeGame { snake: Snake { dir: turned(old(self).snake.dir, code), ..old(self).snake }, ..*old(self) }),
                *final(self),
                r,
            ),
            r is AwaitKey ==> final(self).phase == SnakePhase::Extended,
            r is LoadLevel ==> final(self).phase == SnakePhase::AwaitWalls,
    {
        if self.phase == SnakePhase::Ready {
            if code == 0x01 {
                return SnakeAction::Quit(self.score);
            }
            if code == 0xE0 {
                self.phase = SnakePhase::Extended;
                return SnakeAction::AwaitKey;
            }
        } else {
            if code == 0x48 {
                self.snake.set_dir(Dir::Up);
            } else if code == 0x50 {
                self.snake.set_dir(Dir::Down);
            } else if code == 0x4B {
                self.snake.set_dir(Dir::Left);
            } else if code == 0x4D {
                self.snake.set_dir(Dir::Right);
            }
        }
        self.start_frame()
    }

    /// Hands the walls of the new level to the game and runs the rest of
    /// the frame.
    pub fn set_walls(&mut self, walls: Vec<Point>) -> (r: SnakeAction)
        requires
            old(self).wf(),
            old(self).phase == SnakePhase::AwaitWalls,
            old(self).move_count < u32::MAX - 1,
        ensures
            final(self).wf() || r is GameOver,
            final(self).walls@ == walls@,
            frame_done((SnakeGame { walls: walls, ..*old(self) }), *final(self), r),
    {
        self.walls = walls;
        self.finish_frame()
    }
}

/// The score line `prefix` followed by the decimal digits of `score`.
pub open spec fn score_text(prefix: Seq<u8>, score: u32) -> Seq<u8> {
    prefix + crate::debug::dec_str(score as nat)
}

/// Writes the score line into `buf`, as much of it as fits, and returns its
/// length; 0 when it does not fit with room to spare.
pub fn sprintf_score(prefix: &[u8], buf: &mut [u8], score: u32) -> (r: usize)
    ensures
        ({
            let t = score_text(prefix@, score);
            let n = if t.len() < old(buf)@.len() { t.len() as int } else { old(buf)@.len() as int };
            &&& final(buf)@ == t.take(n) + old(buf)@.skip(n)
            &&& r == if t.len() < old(buf)@.len() { t.len() } else { 0 }
        }),
{
    let mut digits = [0u8; 20];
    let d = crate::debug::u64_to_dec_str(score as u64, &mut digits);
    let ghost t = score_text(prefix@, score);
    let ghost start = buf@;
    let len = buf.len();
    let mut i: usize = 0;
    let mut k: usize = 0;
    while k < prefix.len()
        invariant
            len == buf@.len(),
            len == start.len(),
            t == prefix@ + d@,
            k <= prefix@.len(),
            i == if k < len { k } else { len },
            buf@ == t.take(i as int) + start.skip(i as int),
        decreases prefix.len() - k,
    {
        if i < len {
            buf[i] = prefix[k];
            i = i + 1;
            assert(buf@ =~= t.take(i as int) + start.skip(i as int));
        }
        k = k + 1;
    }
    let mut j: usize = 0;
    while j < d.len()
        invariant
            len == buf@.len(),
            len == start.len(),
            t == prefix@ + d@,
            j <= d@.len(),
            i == if prefix@.len() + j < len { prefix@.len() + j } else { len as int },
            buf@ == t.take(i as int) + start.skip(i as int),
        decreases d.len() - j,
    {
        if i < len {
            buf[i] = d[j];
            i = i + 1;
            assert(buf@ =~= t.take(i as int) + start.skip(i as int));
        }
        j = j + 1;
    }
    if i >= len {
        0
    } else {
        i
    }
}

} // verus!
