//! A full-screen text editor of at most 100 lines of 80 columns, with
//! insert and overwrite modes, and the key handling of an editing session.
use vstd::prelude::*;
use crate::fs::fat12::entry::Entry;
use crate::init::config::{lemma_trim_padded, padded, trim_end, trimmed_len, SPACE};
use crate::input::keyboard::{first_index, lemma_first_index, position, skip_spaces, KeyboardState};

verus! {

pub const MAX_LINES: usize = 100;
pub const MAX_LINE_LEN: usize = 80;

/// Appends `s` to `out`.
pub fn push_all(out: &mut Vec<u8>, s: &[u8])
    ensures
        final(out)@ == old(out)@ + s@,
{
    let ghost start = out@;
    let mut i: usize = 0;
    while i < s.len()
        invariant
            i <= s@.len(),
            out@ == start + s@.take(i as int),
        decreases s@.len() - i,
    {
        out.push(s[i]);
        i = i + 1;
        assert(out@ =~= start + s@.take(i as int));
    }
    assert(s@.take(s@.len() as int) =~= s@);
}

/// The text being edited: 100 lines of 80 columns, padded with spaces.
pub struct Editor {
    pub buffer: [[u8; 80]; 100],
    pub line_count: usize,
    pub cursor_x: usize,
    pub cursor_y: usize,
    pub insert_mode: bool,
}

/// The text that `save` writes: each of the first `n` lines without its
/// trailing spaces, followed by a newline; a count past the last line adds nothing.
pub open spec fn saved_text(lines: Seq<Seq<u8>>, n: int) -> Seq<u8>
    decreases n,
{
    if n <= 0 {
        Seq::empty()
    } else if n > lines.len() {
        saved_text(lines, n - 1)
    } else {
        saved_text(lines, n - 1) + trim_end(lines[n - 1]) + seq![0x0au8]
    }
}

proof fn lemma_saved_text_prefix(lines: Seq<Seq<u8>>, a: int, b: int)
    requires
        0 <= a <= b,
    ensures
        saved_text(lines, a).len() <= saved_text(lines, b).len(),
        saved_text(lines, b).take(saved_text(lines, a).len() as int) == saved_text(lines, a),
    decreases b - a,
{
    if a < b {
        lemma_saved_text_prefix(lines, a, b - 1);
        let sa = saved_text(lines, a);
        let sb1 = saved_text(lines, b - 1);
        assert(saved_text(lines, b).take(sb1.len() as int) =~= sb1);
        assert(saved_text(lines, b).take(sa.len() as int) =~= sb1.take(sa.len() as int));
    } else {
        assert(saved_text(lines, b).take(saved_text(lines, b).len() as int) =~= saved_text(lines, b));
    }
}

/// The lines after `data` is loaded: (lines, line, column, stopped).
/// Bytes go to the current line while it has room; a newline or carriage
/// return starts the next line; loading stops after the last line.
pub open spec fn load_fold(lines: Seq<Seq<u8>>, data: Seq<u8>) -> (Seq<Seq<u8>>, int, int, bool)
    decreases data.len(),
{
    if data.len() == 0 {
        (lines, 0, 0, false)
    } else {
        let (b, l, c, stop) = load_fold(lines, data.drop_last());
        let x = data.last();
        if stop {
            (b, l, c, stop)
        } else if x == 0x0a || x == 0x0d {
            (b, l + 1, 0, l + 1 >= 100)
        } else if c < 80 && l < 100 {
            (b.update(l, b[l].update(c, x)), l, c + 1, false)
        } else {
            (b, l, c, false)
        }
    }
}

proof fn lemma_load_fold(lines: Seq<Seq<u8>>, data: Seq<u8>)
    requires
        lines.len() == 100,
        forall|y: int| 0 <= y < 100 ==> #[trigger] lines[y].len() == 80,
    ensures
        ({
            let (b, l, c, stop) = load_fold(lines, data);
            &&& b.len() == 100
            &&& forall|y: int| 0 <= y < 100 ==> #[trigger] b[y].len() == 80
            &&& 0 <= l <= 100
            &&& 0 <= c <= 80
            &&& (stop <==> l >= 100)
        }),
    decreases data.len(),
{
    if data.len() > 0 {
        lemma_load_fold(lines, data.drop_last());
    }
}

/// `row` with `b` typed at column `x`: in insert mode the rest of the row
/// moves one column right and its last character is lost.
pub open spec fn typed_row(row: Seq<u8>, x: int, b: u8, insert: bool) -> Seq<u8> {
    if insert {
        row.take(x) + seq![b] + row.subrange(x, 79)
    } else {
        row.update(x, b)
    }
}

/// Typing `b` at column `x` of an 80-column row: in insert mode column `x`
/// gets `b` and every character from the cursor on moves one column right
/// (the last one is lost); in overwrite mode only column `x` changes.
/// Columns before the cursor keep their characters in both modes.
pub proof fn lemma_typed_row(row: Seq<u8>, x: int, b: u8)
    requires
        row.len() == 80,
        0 <= x < 80,
    ensures
        typed_row(row, x, b, true).len() == 80,
        typed_row(row, x, b, true)[x] == b,
        forall|j: int| 0 <= j < x ==> #[trigger] typed_row(row, x, b, true)[j] == row[j],
        forall|j: int| x <= j < 79 ==> #[trigger] typed_row(row, x, b, true)[j + 1] == row[j],
        typed_row(row, x, b, false).len() == 80,
        typed_row(row, x, b, false)[x] == b,
        forall|j: int| 0 <= j < 80 && j != x ==> #[trigger] typed_row(row, x, b, false)[j] == row[j],
{
    let r = typed_row(row, x, b, true);
    assert forall|j: int| x <= j < 79 implies #[trigger] r[j + 1] == row[j] by {
        assert(r[j + 1] == row.subrange(x, 79)[j - x]);
    }
}

/// Two decimal digits of `n`.
pub open spec fn two_digits(n: int) -> Seq<u8> {
    seq![(0x30 + n / 10) as u8, (0x30 + n % 10) as u8]
}

/// The shown part of a name field: up to its first space.
pub open spec fn field_text(s: Seq<u8>) -> Seq<u8> {
    s.take(first_index(s, 0x20))
}

/// "MODE: "
pub open spec fn mode_label() -> Seq<u8> {
    seq![0x4du8, 0x4f, 0x44, 0x45, 0x3a, 0x20]
}

/// "INSERT"
pub open spec fn insert_label() -> Seq<u8> {
    seq![0x49u8, 0x4e, 0x53, 0x45, 0x52, 0x54]
}

/// "OVERWRITE"
pub open spec fn overwrite_label() -> Seq<u8> {
    seq![0x4fu8, 0x56, 0x45, 0x52, 0x57, 0x52, 0x49, 0x54, 0x45]
}

/// " | CURSOR: "
pub open spec fn cursor_label() -> Seq<u8> {
    seq![0x20u8, 0x7c, 0x20, 0x43, 0x55, 0x52, 0x53, 0x4f, 0x52, 0x3a, 0x20]
}

/// " | Ctrl+S=Save  Ctrl+Q=Quit | "
pub open spec fn keys_label() -> Seq<u8> {
    seq![
        0x20u8, 0x7c, 0x20, 0x43, 0x74, 0x72, 0x6c, 0x2b, 0x53, 0x3d, 0x53, 0x61, 0x76, 0x65, 0x20,
        0x20, 0x43, 0x74, 0x72, 0x6c, 0x2b, 0x51, 0x3d, 0x51, 0x75, 0x69, 0x74, 0x20, 0x7c, 0x20,
    ]
}

/// The rows shown by `render`: each of the first `n` lines, all 80
/// columns, followed by a newline; a count past the last line shows an
/// empty row.
pub open spec fn shown_rows(lines: Seq<Seq<u8>>, n: int) -> Seq<u8>
    decreases n,
{
    if n <= 0 {
        Seq::empty()
    } else if n > lines.len() {
        shown_rows(lines, n - 1) + seq![0x0au8]
    } else {
        shown_rows(lines, n - 1) + lines[n - 1] + seq![0x0au8]
    }
}

/// The status bar under the text.
pub open spec fn status_bar(insert: bool, cx: int, cy: int, filename: Seq<u8>) -> Seq<u8> {
    seq![0x0au8] + mode_label() + (if insert { insert_label() } else { overwrite_label() })
        + cursor_label() + two_digits(cy) + seq![0x3au8] + two_digits(cx) + keys_label()
        + field_text(filename.subrange(0, 8)) + seq![0x2eu8] + field_text(filename.subrange(8, 11))
}

impl Editor {
    /// The 100 lines of the text.
    pub open spec fn lines(&self) -> Seq<Seq<u8>> {
        Seq::new(100, |y: int| self.buffer@[y]@)
    }

    /// The cursor is inside a row, on a line or on the one past the last
    /// (where typing does nothing); the line count is at least 1 and at most
    /// one past the last line (a load that ends on the hundredth line break
    /// counts a line after it).
    pub open spec fn wf(&self) -> bool {
        &&& 1 <= self.line_count <= MAX_LINES + 1
        &&& self.cursor_y <= MAX_LINES
        &&& self.cursor_x < MAX_LINE_LEN
    }

    /// An empty text of one line, cursor at the top left, overwrite mode.
    pub fn new() -> (r: Self)
        ensures
            r.wf(),
            r.lines() == Seq::new(100, |y: int| Seq::new(80, |x: int| SPACE)),
            r.line_count == 1,
            r.cursor_x == 0,
            r.cursor_y == 0,
            !r.insert_mode,
    {
        let row = [SPACE; 80];
        let r = Self { buffer: [row; 100], line_count: 1, cursor_x: 0, cursor_y: 0, insert_mode: false };
        assert(row@ =~= Seq::new(80, |x: int| SPACE));
        assert(r.lines() =~= Seq::new(100, |y: int| Seq::new(80, |x: int| SPACE)));
        r
    }

    /// Loads `data` into the lines: bytes fill the current line while it
    /// has room, a newline or carriage return starts the next line, and
    /// loading stops after the last line. The cursor is left where it was.
    pub fn load(&mut self, data: &[u8])
        requires
            old(self).wf(),
        ensures
            final(self).wf(),
            final(self).lines() == load_fold(old(self).lines(), data@).0,
            final(self).line_count == if load_fold(old(self).lines(), data@).1 < 100 {
                load_fold(old(self).lines(), data@).1 + 1
            } else {
                101
            },
            final(self).cursor_x == old(self).cursor_x,
            final(self).cursor_y == old(self).cursor_y,
            final(self).insert_mode == old(self).insert_mode,
    {
        let mut line: usize = 0;
        let mut col: usize = 0;
        let mut i: usize = 0;
        let ghost start = self.lines();
        proof {
            assert forall|y: int| 0 <= y < 100 implies #[trigger] start[y].len() == 80 by {}
        }
        while i < data.len()
            invariant
                i <= data@.len(),
                start == old(self).lines(),
                old(self).wf(),
                self.line_count == old(self).line_count,
                start.len() == 100,
                forall|y: int| 0 <= y < 100 ==> #[trigger] start[y].len() == 80,
                ({
                    let (b, l, c, stop) = load_fold(start, data@.take(i as int));
                    &&& self.lines() == b
                    &&& line == l
                    &&& col == c
                    &&& !stop
                }),
                self.cursor_x == old(self).cursor_x,
                self.cursor_y == old(self).cursor_y,
                self.insert_mode == old(self).insert_mode,
                line < 100,
                col <= 80,
            decreases data@.len() - i,
        {
            let byte = data[i];
            assert(data@.take(i + 1).drop_last() =~= data@.take(i as int));
            proof { lemma_load_fold(start, data@.take(i as int)); }
            assert(data@.take(i + 1).last() == byte);
            if byte == 0x0a || byte == 0x0d {
                line = line + 1;
                col = 0;
                assert(load_fold(start, data@.take(i + 1)) == (self.lines(), line as int, 0int, line >= 100));
                if line >= MAX_LINES {
                    i = i + 1;
                    proof {
                        lemma_load_rest(start, data@, i as int);
                        assert(start == old(self).lines());
                        assert(self.lines() == load_fold(start, data@).0);
                        assert(load_fold(start, data@).1 == 100);
                    }
                    self.line_count = line + 1;
                    return;
                }
            } else if col < MAX_LINE_LEN {
                let mut row = self.buffer[line];
                row[col] = byte;
                self.buffer[line] = row;
                col = col + 1;
                assert(self.lines() =~= load_fold(start, data@.take(i + 1)).0);
            } else {
                assert(load_fold(start, data@.take(i + 1)) == (self.lines(), line as int, col as int, false));
            }
            i = i + 1;
        }
        assert(data@.take(data@.len() as int) =~= data@);
        self.line_count = line + 1;
    }

    /// Writes the text into `out` (see `saved_text`), cut to the length of
    /// `out`; returns how many bytes were written. The rest of `out` is left alone.
    pub fn save(&self, out: &mut [u8]) -> (r: usize)
        requires
            self.wf(),
        ensures
            r == if saved_text(self.lines(), self.line_count as int).len() <= old(out)@.len() {
                saved_text(self.lines(), self.line_count as int).len() as int
            } else {
                old(out)@.len() as int
            },
            final(out)@.len() == old(out)@.len(),
            final(out)@.take(r as int) == saved_text(self.lines(), self.line_count as int).take(r as int),
            final(out)@.skip(r as int) == old(out)@.skip(r as int),
    {
        let ghost lines = self.lines();
        let ghost n = self.line_count as int;
        let ghost orig = out@;
        let cap = out.len();
        let mut idx: usize = 0;
        let mut y: usize = 0;
        while y < self.line_count
            invariant
                self.wf(),
                lines == self.lines(),
                n == self.line_count,
                cap == out@.len(),
                orig.len() == cap,
                orig == old(out)@,
                y <= n,
                idx == saved_text(lines, y as int).len(),
                n <= 101,
                lines.len() == 100,
                idx <= cap,
                out@.take(idx as int) == saved_text(lines, y as int),
                out@.skip(idx as int) == orig.skip(idx as int),
            decreases n - y,
        {
            if y >= MAX_LINES {
                y = y + 1;
                continue;
            }
            let row = self.buffer[y];
            let end = trimmed_len(row.as_slice());
            let ghost before = out@;
            let ghost base = saved_text(lines, y as int);
            let ghost full = base + trim_end(lines[y as int]) + seq![0x0au8];
            assert(row@ == lines[y as int]);
            let mut k: usize = 0;
            while k < end
                invariant
                    end <= 80,
                    y < n <= 101,
                    y < 100,
                    lines.len() == 100,
                    lines == self.lines(),
                    n == self.line_count,
                    self.wf(),
                    row@.take(end as int) == trim_end(lines[y as int]),
                    row@.len() == 80,
                    cap == out@.len(),
                    orig.len() == cap,
                    orig == old(out)@,
                    base == saved_text(lines, y as int),
                    k <= end,
                    idx == base.len() + k,
                    idx <= cap,
                    full == base + trim_end(lines[y as int]) + seq![0x0au8],
                    out@.take(idx as int) == full.take(idx as int),
                    out@.skip(idx as int) == orig.skip(idx as int),
                decreases end - k,
            {
                if idx >= cap {
                    proof {
                        lemma_saved_text_prefix(lines, y + 1, n);
                        assert(saved_text(lines, y + 1) == full);
                        assert(full.take(idx as int) =~= saved_text(lines, n).take(idx as int));
                    }
                    return idx;
                }
                let ghost prev = out@;
                out[idx] = row[k];
                proof {
                    assert(full[idx as int] == row@[k as int]);
                    lemma_write_extends(prev, out@, orig, full, idx as int);
                }
                idx = idx + 1;
                k = k + 1;
            }
            if idx < cap {
                let ghost prev = out@;
                out[idx] = 0x0a;
                proof {
                    assert(full.len() == idx + 1);
                    assert(full[idx as int] == 0x0a);
                    lemma_write_extends(prev, out@, orig, full, idx as int);
                    assert(full.take(idx + 1) =~= full);
                }
                idx = idx + 1;
                y = y + 1;
            } else {
                proof {
                    lemma_saved_text_prefix(lines, y + 1, n);
                    assert(saved_text(lines, y + 1) == full);
                    assert(full.take(idx as int) =~= saved_text(lines, n).take(idx as int));
                }
                return idx;
            }
        }
        proof {
            assert(saved_text(lines, n).take(idx as int) =~= saved_text(lines, n));
        }
        idx
    }

    /// The bytes drawn for the editor: every used line in full, then the
    /// status bar with the mode, the cursor and the file name.
    #[verifier::rlimit(40)]
    pub fn render(&self, filename: &[u8; 12]) -> (r: Vec<u8>)
        requires
            self.wf(),
        ensures
            r@ == shown_rows(self.lines(), self.line_count as int) + status_bar(
                self.insert_mode,
                self.cursor_x as int,
                self.cursor_y as int,
                filename@,
            ),
    {
        let mut out: Vec<u8> = Vec::new();
        let mut y: usize = 0;
        while y < self.line_count
            invariant
                self.wf(),
                y <= self.line_count,
                out@ == shown_rows(self.lines(), y as int),
            decreases self.line_count - y,
        {
            if y < MAX_LINES {
                let row = self.buffer[y];
                push_all(&mut out, row.as_slice());
            }
            out.push(0x0a);
            y = y + 1;
        }
        let ghost rows = out@;
        out.push(0x0a);
        let mode: [u8; 6] = [0x4d, 0x4f, 0x44, 0x45, 0x3a, 0x20];
        push_all(&mut out, mode.as_slice());
        if self.insert_mode {
            let t: [u8; 6] = [0x49, 0x4e, 0x53, 0x45, 0x52, 0x54];
            push_all(&mut out, t.as_slice());
        } else {
            let t: [u8; 9] = [0x4f, 0x56, 0x45, 0x52, 0x57, 0x52, 0x49, 0x54, 0x45];
            push_all(&mut out, t.as_slice());
        }
        let cur: [u8; 11] = [0x20, 0x7c, 0x20, 0x43, 0x55, 0x52, 0x53, 0x4f, 0x52, 0x3a, 0x20];
        push_all(&mut out, cur.as_slice());
        let cy = self.cursor_y as u8;
        let cx = self.cursor_x as u8;
        out.push(0x30 + cy / 10);
        out.push(0x30 + cy % 10);
        out.push(0x3a);
        out.push(0x30 + cx / 10);
        out.push(0x30 + cx % 10);
        let keys: [u8; 30] = [
            0x20, 0x7c, 0x20, 0x43, 0x74, 0x72, 0x6c, 0x2b, 0x53, 0x3d, 0x53, 0x61, 0x76, 0x65, 0x20,
            0x20, 0x43, 0x74, 0x72, 0x6c, 0x2b, 0x51, 0x3d, 0x51, 0x75, 0x69, 0x74, 0x20, 0x7c, 0x20,
        ];
        push_all(&mut out, keys.as_slice());
        let base = &filename.as_slice()[0..8];
        let bl = position(base, 0x20);
        proof { lemma_first_index(base@, 0x20); }
        push_all(&mut out, &base[0..bl]);
        out.push(0x2e);
        let ext = &filename.as_slice()[8..11];
        let el = position(ext, 0x20);
        proof { lemma_first_index(ext@, 0x20); }
        push_all(&mut out, &ext[0..el]);
        proof {
            assert(mode@ == mode_label());
            assert(cur@ == cursor_label());
            assert(keys@ == keys_label());
            assert(base@ == filename@.subrange(0, 8));
            assert(ext@ == filename@.subrange(8, 11));
            let s = status_bar(self.insert_mode, self.cursor_x as int, self.cursor_y as int, filename@);
            assert(out@ =~= rows + s);
        }
        out
    }

    /// Applies one typed character: Enter moves to the start of the next
    /// line (adding it to the text), Backspace blanks the character left of
    /// the cursor, anything else is typed at the cursor (see `typed_row`).
    pub fn handle_key(&mut self, key: u8)
        requires
            old(self).wf(),
        ensures
            final(self).wf(),
            final(self).insert_mode == old(self).insert_mode,
            (key == 0x0a || key == 0x0d) ==> {
                &&& old(self).cursor_y + 1 < MAX_LINES ==> {
                    &&& final(self).cursor_y == old(self).cursor_y + 1
                    &&& final(self).cursor_x == 0
                    &&& final(self).line_count == if old(self).cursor_y + 1 >= old(self).line_count {
                        old(self).cursor_y + 2
                    } else {
                        old(self).line_count as int
                    }
                }
                &&& old(self).cursor_y + 1 >= MAX_LINES ==> *final(self) == *old(self)
                &&& final(self).lines() == old(self).lines()
            },
            key == 8 ==> {
                &&& final(self).line_count == old(self).line_count
                &&& final(self).cursor_y == old(self).cursor_y
                &&& old(self).cursor_x > 0 ==> final(self).cursor_x == old(self).cursor_x - 1
                    && final(self).lines() == if old(self).cursor_y < MAX_LINES {
                        old(self).lines().update(
                            old(self).cursor_y as int,
                            old(self).lines()[old(self).cursor_y as int].update(old(self).cursor_x - 1, SPACE),
                        )
                    } else {
                        old(self).lines()
                    }
                &&& old(self).cursor_x == 0 ==> *final(self) == *old(self)
            },
            !(key == 0x0a || key == 0x0d || key == 8) && old(self).cursor_y >= MAX_LINES ==> *final(self) == *old(self),
            !(key == 0x0a || key == 0x0d || key == 8) && old(self).cursor_y < MAX_LINES ==> {
                &&& final(self).line_count == old(self).line_count
                &&& final(self).cursor_y == old(self).cursor_y
                &&& final(self).cursor_x == if old(self).cursor_x + 1 < MAX_LINE_LEN {
                    old(self).cursor_x + 1
                } else {
                    old(self).cursor_x as int
                }
                &&& final(self).lines() == old(self).lines().update(
                    old(self).cursor_y as int,
                    typed_row(old(self).lines()[old(self).cursor_y as int], old(self).cursor_x as int, key, old(self).insert_mode),
                )
            },
    {
        if key == 0x0a || key == 0x0d {
            if self.cursor_y + 1 < MAX_LINES {
                self.cursor_y = self.cursor_y + 1;
                self.cursor_x = 0;
                if self.cursor_y >= self.line_count {
                    self.line_count = self.cursor_y + 1;
                }
            }
        } else if key == 8 {
            if self.cursor_x > 0 {
                self.cursor_x = self.cursor_x - 1;
                let y = self.cursor_y;
                if y < MAX_LINES {
                    let mut row = self.buffer[y];
                    row[self.cursor_x] = SPACE;
                    self.buffer[y] = row;
                    assert(self.lines() =~= old(self).lines().update(
                        y as int,
                        old(self).lines()[y as int].update(old(self).cursor_x - 1, SPACE),
                    ));
                }
            }
        } else if self.cursor_y < MAX_LINES {
            let y = self.cursor_y;
            let x = self.cursor_x;
            let mut row = self.buffer[y];
            let ghost old_row = row@;
            if self.insert_mode {
                let mut i: usize = MAX_LINE_LEN - 1;
                while i > x
                    invariant
                        x < 80,
                        x <= i <= 79,
                        row@.len() == 80,
                        old_row.len() == 80,
                        forall|j: int| 0 <= j <= i ==> row@[j] == old_row[j],
                        forall|j: int| i < j < 80 ==> row@[j] == old_row[j - 1],
                    decreases i,
                {
                    row[i] = row[i - 1];
                    i = i - 1;
                }
            }
            row[x] = key;
            self.buffer[y] = row;
            if x + 1 < MAX_LINE_LEN {
                self.cursor_x = x + 1;
            }
            assert(row@ =~= typed_row(old_row, x as int, key, self.insert_mode));
            assert(self.lines() =~= old(self).lines().update(y as int, typed_row(old_row, x as int, key, self.insert_mode)));
        }
    }
}

/// Writing the next byte of `full` at `idx` extends the part of `cur`
/// that agrees with `full` and keeps the rest as in `orig`.
proof fn lemma_write_extends(prev: Seq<u8>, cur: Seq<u8>, orig: Seq<u8>, full: Seq<u8>, idx: int)
    requires
        prev.len() == cur.len(),
        prev.len() == orig.len(),
        0 <= idx < prev.len(),
        idx < full.len(),
        prev.take(idx) == full.take(idx),
        prev.skip(idx) == orig.skip(idx),
        cur == prev.update(idx, full[idx]),
    ensures
        cur.take(idx + 1) == full.take(idx + 1),
        cur.skip(idx + 1) == orig.skip(idx + 1),
{
    assert forall|j: int| 0 <= j < idx implies cur[j] == full[j] by {
        assert(prev.take(idx)[j] == prev[j]);
        assert(full.take(idx)[j] == full[j]);
        assert(prev.take(idx)[j] == full.take(idx)[j]);
        assert(cur[j] == prev[j]);
    }
    assert(cur.take(idx + 1) =~= full.take(idx + 1));
    assert forall|j: int| idx + 1 <= j < cur.len() implies cur[j] == orig[j] by {
        assert(prev.skip(idx)[j - idx] == orig.skip(idx)[j - idx]);
    }
    assert(cur.skip(idx + 1) =~= orig.skip(idx + 1));
}

/// Once loading has stopped, further bytes change nothing.
proof fn lemma_load_rest(lines: Seq<Seq<u8>>, data: Seq<u8>, i: int)
    requires
        0 <= i <= data.len(),
        load_fold(lines, data.take(i)).3,
    ensures
        load_fold(lines, data) == load_fold(lines, data.take(i)),
    decreases data.len() - i,
{
    if i < data.len() {
        assert(data.take(i + 1).drop_last() =~= data.take(i));
        lemma_load_rest(lines, data, i + 1);
    } else {
        assert(data.take(i) =~= data);
    }
}

/// The name typed to the editor (up to its first NUL) split at its first
/// '.' into base name and extension, spaces at the start of the extension
/// left out; without a '.', all of it is the base name.
pub open spec fn spec_split_filename(input: Seq<u8>) -> (Seq<u8>, Seq<u8>) {
    let t = input.take(first_index(input, 0));
    let p = first_index(t, 0x2e);
    if p < t.len() {
        (t.take(p), skip_spaces(t.skip(p + 1)))
    } else {
        (t, Seq::empty())
    }
}

/// Splits a typed file name into base name and extension.
pub fn split_filename(input: &[u8]) -> (r: (&[u8], &[u8]))
    ensures
        r.0@ == spec_split_filename(input@).0,
        r.1@ == spec_split_filename(input@).1,
{
    let len = position(input, 0);
    proof { lemma_first_index(input@, 0); }
    let trimmed = &input[0..len];
    let pos = position(trimmed, 0x2e);
    proof { lemma_first_index(trimmed@, 0x2e); }
    if pos < trimmed.len() {
        let name = &trimmed[0..pos];
        let mut rest = &trimmed[pos + 1..trimmed.len()];
        while rest.len() > 0 && rest[0] == 0x20
            invariant
                skip_spaces(rest@) == skip_spaces(trimmed@.skip(pos + 1)),
            decreases rest@.len(),
        {
            assert(rest@.skip(1) =~= rest@.subrange(1, rest@.len() as int));
            rest = &rest[1..rest.len()];
        }
        (name, rest)
    } else {
        (trimmed, &[])
    }
}

/// The file an editing session opens: the start cluster of the last used,
/// non-directory entry whose name starts with `name`; 0 when there is none.
pub open spec fn file_cluster(es: Seq<Entry>, name: Seq<u8>) -> u16
    decreases es.len(),
{
    if es.len() == 0 {
        0
    } else {
        let e = es.last();
        if e.name@[0] != 0x00 && e.name@[0] != 0xE5 && e.attr & 0x10 == 0 && name.len() <= 8
            && e.name@.take(name.len() as int) == name {
            e.start_cluster
        } else {
            file_cluster(es.drop_last(), name)
        }
    }
}

/// Looks up the cluster of the file to edit among the directory entries.
pub fn find_file_cluster(entries: &[Entry], name: &[u8]) -> (r: u16)
    ensures
        r == file_cluster(entries@, name@),
{
    let mut cluster: u16 = 0;
    let mut i: usize = 0;
    while i < entries.len()
        invariant
            i <= entries@.len(),
            cluster == file_cluster(entries@.take(i as int), name@),
        decreases entries@.len() - i,
    {
        let e = entries[i];
        assert(entries@.take(i + 1).drop_last() =~= entries@.take(i as int));
        let mut starts = name.len() <= 8;
        if starts {
            let mut k: usize = 0;
            while k < name.len()
                invariant
                    name@.len() <= 8,
                    k <= name@.len(),
                    starts == forall|t: int| 0 <= t < k ==> e.name@[t] == name@[t],
                decreases name@.len() - k,
            {
                if e.name[k] != name[k] {
                    starts = false;
                }
                k = k + 1;
            }
            proof {
                if starts {
                    assert(e.name@.take(name@.len() as int) =~= name@);
                } else {
                    let t = choose|t: int| 0 <= t < name@.len() && e.name@[t] != name@[t];
                    assert(e.name@.take(name@.len() as int)[t] != name@[t]);
                }
            }
        }
        if e.name[0] != 0x00 && e.name[0] != 0xE5 && e.attr & 0x10 == 0 && starts {
            cluster = e.start_cluster;
        }
        i = i + 1;
    }
    assert(entries@.take(entries@.len() as int) =~= entries@);
    cluster
}

/// The 8.3 name the editor saves under: the base name and the extension,
/// each padded with spaces; None when either is too long.
pub fn save_name(name: &[u8], ext: &[u8]) -> (r: Option<[u8; 11]>)
    ensures
        match r {
            Some(f) => name@.len() <= 8 && ext@.len() <= 3 && f@ == Seq::new(11, |i: int|
                if i < name@.len() {
                    name@[i]
                } else if i < 8 {
                    SPACE
                } else if i - 8 < ext@.len() {
                    ext@[i - 8]
                } else {
                    SPACE
                }),
            None => name@.len() > 8 || ext@.len() > 3,
        },
{
    if name.len() > 8 || ext.len() > 3 {
        return None;
    }
    let mut f = [SPACE; 11];
    let mut i: usize = 0;
    while i < 11
        invariant
            name@.len() <= 8,
            ext@.len() <= 3,
            i <= 11,
            forall|j: int| 0 <= j < i ==> f@[j] == (if j < name@.len() {
                name@[j]
            } else if j < 8 {
                SPACE
            } else if j - 8 < ext@.len() {
                ext@[j - 8]
            } else {
                SPACE
            }),
            forall|j: int| i <= j < 11 ==> f@[j] == SPACE,
        decreases 11 - i,
    {
        if i < name.len() {
            f[i] = name[i];
        } else if i >= 8 && i - 8 < ext.len() {
            f[i] = ext[i - 8];
        }
        i = i + 1;
    }
    assert(f@ =~= Seq::new(11, |i: int|
        if i < name@.len() {
            name@[i]
        } else if i < 8 {
            SPACE
        } else if i - 8 < ext@.len() {
            ext@[i - 8]
        } else {
            SPACE
        }));
    Some(f)
}

/// What the editing loop does after a key.
#[derive(Clone, Copy, PartialEq, Eq, Structural)]
pub enum EditorAction {
    /// Redraw and wait for the next key.
    Continue,
    /// Save the text (Ctrl+S), then go on.
    Save,
    /// Leave the editor (Esc).
    Quit,
}

/// An editing session: the text, whether Ctrl is held, and the Shift and
/// Caps Lock state of the editor's own key decoding.
pub struct EditorSession {
    pub editor: Editor,
    pub ctrl_down: bool,
    pub keys: KeyboardState,
}

impl EditorSession {
    /// A session on `editor` with no key held.
    pub fn new(editor: Editor) -> (r: Self)
        ensures
            r.editor == editor,
            !r.ctrl_down,
            !r.keys.shift_pressed && !r.keys.caps_lock_on,
    {
        EditorSession { editor, ctrl_down: false, keys: KeyboardState::new() }
    }

    /// Handles one scan code: releases (high bit set) only end Ctrl; Esc
    /// quits; Ctrl marks itself held; Ctrl+S saves (a plain S types 's');
    /// Insert toggles the mode; the arrows move the cursor within the text;
    /// any other key is decoded and typed.
    pub fn on_scancode(&mut self, key: u8) -> (r: EditorAction)
        requires
            old(self).editor.wf(),
        ensures
            final(self).editor.wf(),
            key & 0x80 != 0 ==> r == EditorAction::Continue
                && final(self).ctrl_down == (old(self).ctrl_down && key & 0x7F != 0x1D)
                && final(self).editor == old(self).editor,
            key & 0x80 == 0 && key == 0x01 ==> r == EditorAction::Quit && *final(self) == *old(self),
            key & 0x80 == 0 && key == 0x1D ==> r == EditorAction::Continue && final(self).ctrl_down
                && final(self).editor == old(self).editor,
            key & 0x80 == 0 && key == 0x1F && old(self).ctrl_down ==> r == EditorAction::Save
                && *final(self) == *old(self),
            key & 0x80 == 0 && key == 0x52 ==> r == EditorAction::Continue
                && final(self).editor.insert_mode == !old(self).editor.insert_mode
                && final(self).editor.lines() == old(self).editor.lines()
                && final(self).editor.cursor_x == old(self).editor.cursor_x
                && final(self).editor.cursor_y == old(self).editor.cursor_y,
            key & 0x80 == 0 && key == 0x4B ==> final(self).editor.cursor_x == if old(self).editor.cursor_x > 0 {
                old(self).editor.cursor_x - 1
            } else {
                0
            },
            key & 0x80 == 0 && key == 0x4D ==> final(self).editor.cursor_x == if old(self).editor.cursor_x + 1 < MAX_LINE_LEN {
                old(self).editor.cursor_x + 1
            } else {
                old(self).editor.cursor_x as int
            },
            key & 0x80 == 0 && key == 0x48 ==> final(self).editor.cursor_y == if old(self).editor.cursor_y > 0 {
                old(self).editor.cursor_y - 1
            } else {
                0
            },
            key & 0x80 == 0 && key == 0x50 ==> final(self).editor.cursor_y == if old(self).editor.cursor_y + 1 < old(self).editor.line_count {
                old(self).editor.cursor_y + 1
            } else {
                old(self).editor.cursor_y as int
            },
            r == EditorAction::Quit <==> (key & 0x80 == 0 && key == 0x01),
            r == EditorAction::Save <==> (key & 0x80 == 0 && key == 0x1F && old(self).ctrl_down),
    {
        if key & 0x80 != 0 {
            if key & 0x7F == 0x1D {
                self.ctrl_down = false;
            }
            return EditorAction::Continue;
        }
        if key == 0x01 {
            return EditorAction::Quit;
        }
        if key == 0x1D {
            self.ctrl_down = true;
        } else if key == 0x1F {
            if self.ctrl_down {
                return EditorAction::Save;
            }
            self.editor.handle_key(0x73);
        } else if key == 0x52 {
            self.editor.insert_mode = !self.editor.insert_mode;
        } else if key == 0x4B {
            if self.editor.cursor_x > 0 {
                self.editor.cursor_x = self.editor.cursor_x - 1;
            }
        } else if key == 0x4D {
            if self.editor.cursor_x + 1 < MAX_LINE_LEN {
                self.editor.cursor_x = self.editor.cursor_x + 1;
            }
        } else if key == 0x48 {
            if self.editor.cursor_y > 0 {
                self.editor.cursor_y = self.editor.cursor_y - 1;
            }
        } else if key == 0x50 {
            if self.editor.cursor_y + 1 < self.editor.line_count {
                self.editor.cursor_y = self.editor.cursor_y + 1;
            }
        } else {
            match self.keys.scancode_to_ascii(key) {
                Some(c) => self.editor.handle_key(c),
                None => {},
            }
        }
        EditorAction::Continue
    }
}

/// The 100 lines of an empty text.
pub open spec fn blank_lines() -> Seq<Seq<u8>> {
    Seq::new(100, |y: int| Seq::new(80, |x: int| SPACE))
}

proof fn lemma_load_one_line(data: Seq<u8>)
    requires
        data.len() <= 80,
        forall|i: int| 0 <= i < data.len() ==> data[i] != 0x0a && data[i] != 0x0d,
    ensures
        load_fold(blank_lines(), data) == (blank_lines().update(0, padded(data, 80)), 0int, data.len() as int, false),
    decreases data.len(),
{
    if data.len() == 0 {
        assert(padded(data, 80) =~= Seq::new(80, |x: int| SPACE));
        assert(blank_lines().update(0, padded(data, 80)) =~= blank_lines());
    } else {
        let d = data.drop_last();
        lemma_load_one_line(d);
        let b = blank_lines().update(0, padded(d, 80));
        assert(b.update(0, b[0].update(d.len() as int, data.last())) =~= blank_lines().update(0, padded(data, 80))) by {
            assert(b[0].update(d.len() as int, data.last()) =~= padded(data, 80));
        }
    }
}

/// A line of at most 80 bytes, with no newline or carriage return and no
/// trailing space, loaded into an empty text is saved back as itself
/// followed by a newline: `load` leaves one line in use holding it, and
/// `save` writes that line without its padding.
pub proof fn lemma_line_load_save(data: Seq<u8>)
    requires
        data.len() <= 80,
        forall|i: int| 0 <= i < data.len() ==> data[i] != 0x0a && data[i] != 0x0d,
        data.len() == 0 || data.last() != SPACE,
    ensures
        load_fold(blank_lines(), data).1 == 0,
        saved_text(load_fold(blank_lines(), data).0, 1) == data + seq![0x0au8],
{
    lemma_load_one_line(data);
    let b = blank_lines().update(0, padded(data, 80));
    lemma_trim_padded(data, 80);
    assert(saved_text(b, 0) =~= Seq::<u8>::empty());
    assert(saved_text(b, 1) =~= data + seq![0x0au8]);
}

} // verus!
