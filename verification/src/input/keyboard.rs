//! Keyboard input: scan codes to characters (with Shift and Caps Lock),
//! the hardware cursor position, and splitting of the command line.
use vstd::prelude::*;
use crate::fs::fat12::entry::Entry;

verus! {

pub const INPUT_BUFFER_SIZE: usize = 128;

/// The lower-case letter of a letter key's scan code.
pub open spec fn letter_of(sc: u8) -> Option<u8> {
    match sc {
        0x10 => Some(0x71u8), 0x11 => Some(0x77u8), 0x12 => Some(0x65u8), 0x13 => Some(0x72u8),
        0x14 => Some(0x74u8), 0x15 => Some(0x79u8), 0x16 => Some(0x75u8), 0x17 => Some(0x69u8),
        0x18 => Some(0x6fu8), 0x19 => Some(0x70u8),
        0x1E => Some(0x61u8), 0x1F => Some(0x73u8), 0x20 => Some(0x64u8), 0x21 => Some(0x66u8),
        0x22 => Some(0x67u8), 0x23 => Some(0x68u8), 0x24 => Some(0x6au8), 0x25 => Some(0x6bu8),
        0x26 => Some(0x6cu8),
        0x2C => Some(0x7au8), 0x2D => Some(0x78u8), 0x2E => Some(0x63u8), 0x2F => Some(0x76u8),
        0x30 => Some(0x62u8), 0x31 => Some(0x6eu8), 0x32 => Some(0x6du8),
        _ => None,
    }
}

/// The (unshifted, shifted) characters of the number-row and punctuation keys.
pub open spec fn symbol_of(sc: u8) -> Option<(u8, u8)> {
    match sc {
        0x02 => Some((0x31u8, 0x21u8)), 0x03 => Some((0x32u8, 0x40u8)),
        0x04 => Some((0x33u8, 0x23u8)), 0x05 => Some((0x34u8, 0x24u8)),
        0x06 => Some((0x35u8, 0x25u8)), 0x07 => Some((0x36u8, 0x5eu8)),
        0x08 => Some((0x37u8, 0x26u8)), 0x09 => Some((0x38u8, 0x2au8)),
        0x0A => Some((0x39u8, 0x28u8)), 0x0B => Some((0x30u8, 0x29u8)),
        0x0C => Some((0x2du8, 0x5fu8)), 0x0D => Some((0x3du8, 0x2bu8)),
        0x1A => Some((0x5bu8, 0x7bu8)), 0x1B => Some((0x5du8, 0x7du8)),
        0x27 => Some((0x3bu8, 0x3au8)), 0x28 => Some((0x27u8, 0x22u8)),
        0x29 => Some((0x60u8, 0x7eu8)), 0x2B => Some((0x5cu8, 0x7cu8)),
        0x33 => Some((0x2cu8, 0x3cu8)), 0x34 => Some((0x2eu8, 0x3eu8)),
        0x35 => Some((0x2fu8, 0x3fu8)),
        _ => None,
    }
}

/// The character a key press gives with the modifier state `shift`, `caps`.
pub open spec fn key_char(sc: u8, shift: bool, caps: bool) -> Option<u8> {
    if letter_of(sc) is Some {
        let lower = letter_of(sc)->0;
        Some(if caps != shift { (lower - 0x20) as u8 } else { lower })
    } else if symbol_of(sc) is Some {
        let (plain, shifted) = symbol_of(sc)->0;
        Some(if shift { shifted } else { plain })
    } else if sc == 0x0E {
        Some(8u8)
    } else if sc == 0x1C {
        Some(0x0au8)
    } else if sc == 0x39 {
        Some(0x20u8)
    } else {
        None
    }
}

/// The state of the modifier keys.
pub struct KeyboardState {
    pub shift_pressed: bool,
    pub caps_lock_on: bool,
}

fn letter(sc: u8) -> (r: Option<u8>)
    ensures
        r == letter_of(sc),
{
    match sc {
        0x10 => Some(0x71), 0x11 => Some(0x77), 0x12 => Some(0x65), 0x13 => Some(0x72),
        0x14 => Some(0x74), 0x15 => Some(0x79), 0x16 => Some(0x75), 0x17 => Some(0x69),
        0x18 => Some(0x6f), 0x19 => Some(0x70),
        0x1E => Some(0x61), 0x1F => Some(0x73), 0x20 => Some(0x64), 0x21 => Some(0x66),
        0x22 => Some(0x67), 0x23 => Some(0x68), 0x24 => Some(0x6a), 0x25 => Some(0x6b),
        0x26 => Some(0x6c),
        0x2C => Some(0x7a), 0x2D => Some(0x78), 0x2E => Some(0x63), 0x2F => Some(0x76),
        0x30 => Some(0x62), 0x31 => Some(0x6e), 0x32 => Some(0x6d),
        _ => None,
    }
}

fn symbol(sc: u8) -> (r: Option<(u8, u8)>)
    ensures
        r == symbol_of(sc),
{
    match sc {
        0x02 => Some((0x31, 0x21)), 0x03 => Some((0x32, 0x40)),
        0x04 => Some((0x33, 0x23)), 0x05 => Some((0x34, 0x24)),
        0x06 => Some((0x35, 0x25)), 0x07 => Some((0x36, 0x5e)),
        0x08 => Some((0x37, 0x26)), 0x09 => Some((0x38, 0x2a)),
        0x0A => Some((0x39, 0x28)), 0x0B => Some((0x30, 0x29)),
        0x0C => Some((0x2d, 0x5f)), 0x0D => Some((0x3d, 0x2b)),
        0x1A => Some((0x5b, 0x7b)), 0x1B => Some((0x5d, 0x7d)),
        0x27 => Some((0x3b, 0x3a)), 0x28 => Some((0x27, 0x22)),
        0x29 => Some((0x60, 0x7e)), 0x2B => Some((0x5c, 0x7c)),
        0x33 => Some((0x2c, 0x3c)), 0x34 => Some((0x2e, 0x3e)),
        0x35 => Some((0x2f, 0x3f)),
        _ => None,
    }
}

impl KeyboardState {
    /// No modifier held, Caps Lock off.
    pub fn new() -> (r: Self)
        ensures
            !r.shift_pressed,
            !r.caps_lock_on,
    {
        KeyboardState { shift_pressed: false, caps_lock_on: false }
    }

    /// Feeds one scan code: Shift presses and releases and Caps Lock change
    /// the modifier state and give no character; any other code gives the
    /// character of its key under the current modifiers, if it has one.
    pub fn scancode_to_ascii(&mut self, sc: u8) -> (r: Option<u8>)
        ensures
            (sc == 0x2A || sc == 0x36) ==> r is None && final(self).shift_pressed
                && final(self).caps_lock_on == old(self).caps_lock_on,
            (sc == 0xAA || sc == 0xB6) ==> r is None && !final(self).shift_pressed
                && final(self).caps_lock_on == old(self).caps_lock_on,
            sc == 0x3A ==> r is None && final(self).caps_lock_on == !old(self).caps_lock_on
                && final(self).shift_pressed == old(self).shift_pressed,
            !(sc == 0x2A || sc == 0x36 || sc == 0xAA || sc == 0xB6 || sc == 0x3A) ==> {
                &&& r == key_char(sc, old(self).shift_pressed, old(self).caps_lock_on)
                &&& final(self).shift_pressed == old(self).shift_pressed
                &&& final(self).caps_lock_on == old(self).caps_lock_on
            },
    {
        if sc == 0x2A || sc == 0x36 {
            self.shift_pressed = true;
            return None;
        }
        if sc == 0xAA || sc == 0xB6 {
            self.shift_pressed = false;
            return None;
        }
        if sc == 0x3A {
            self.caps_lock_on = !self.caps_lock_on;
            return None;
        }
        let shifted = self.shift_pressed;
        let caps = self.caps_lock_on;
        match letter(sc) {
            Some(lower) => {
                let upper = lower - 0x20;
                return Some(if caps != shifted { upper } else { lower });
            },
            None => {},
        }
        match symbol(sc) {
            Some((plain, sh)) => {
                return Some(if shifted { sh } else { plain });
            },
            None => {},
        }
        if sc == 0x0E {
            Some(8)
        } else if sc == 0x1C {
            Some(0x0a)
        } else if sc == 0x39 {
            Some(0x20)
        } else {
            None
        }
    }
}

/// The cell under a text-mode buffer offset (two bytes per cell, 80
/// columns) as (row, column).
pub fn move_cursor_index(vga_index: isize) -> (r: (u16, u16))
    requires
        0 <= vga_index < 2 * 80 * 65536,
    ensures
        r.0 == (vga_index / 2) / 80,
        r.1 == (vga_index / 2) % 80,
{
    let cell = vga_index / 2;
    ((cell / 80) as u16, (cell % 80) as u16)
}

/// The port writes that move the hardware cursor to (row, col): the index
/// register 0x3D4 selects the high (0x0E) and low (0x0F) byte of the cell
/// number, which is written to the data register 0x3D5.
pub fn move_cursor(row: u16, col: u16) -> (r: [(u16, u8); 4])
    requires
        row * 80 + col < 0x10000,
    ensures
        r[0] == (0x3D4u16, 0x0Eu8),
        r[1] == (0x3D5u16, ((row * 80 + col) / 256) as u8),
        r[2] == (0x3D4u16, 0x0Fu8),
        r[3] == (0x3D5u16, ((row * 80 + col) % 256) as u8),
{
    let pos: u16 = row * 80 + col;
    [(0x3D4, 0x0E), (0x3D5, (pos / 256) as u8), (0x3D4, 0x0F), (0x3D5, (pos % 256) as u8)]
}

/// Index of the first `b` in `s`, or `s.len()`.
pub open spec fn first_index(s: Seq<u8>, b: u8) -> int
    decreases s.len(),
{
    if s.len() == 0 {
        0
    } else if s[0] == b {
        0
    } else {
        1 + first_index(s.skip(1), b)
    }
}

/// Where the first occurrence of a byte lies.
pub proof fn lemma_first_index(s: Seq<u8>, b: u8)
    ensures
        0 <= first_index(s, b) <= s.len(),
        forall|j: int| 0 <= j < first_index(s, b) ==> s[j] != b,
        first_index(s, b) < s.len() ==> s[first_index(s, b)] == b,
    decreases s.len(),
{
    if s.len() > 0 && s[0] != b {
        lemma_first_index(s.skip(1), b);
        assert forall|j: int| 0 <= j < first_index(s, b) implies s[j] != b by {
            if j > 0 {
                assert(s[j] == s.skip(1)[j - 1]);
            }
        }
    }
}

/// Index of the first `b` in `s`, or `s.len()` when there is none.
pub fn position(s: &[u8], b: u8) -> (r: usize)
    ensures
        r == first_index(s@, b),
{
    let mut i: usize = 0;
    proof {
        lemma_first_index(s@, b);
    }
    while i < s.len() && s[i] != b
        invariant
            i <= s@.len(),
            forall|j: int| 0 <= j < i ==> s@[j] != b,
            0 <= first_index(s@, b) <= s@.len(),
            forall|j: int| 0 <= j < first_index(s@, b) ==> s@[j] != b,
            first_index(s@, b) < s@.len() ==> s@[first_index(s@, b)] == b,
        decreases s@.len() - i,
    {
        i = i + 1;
    }
    i
}

/// `s` without its leading spaces.
pub open spec fn skip_spaces(s: Seq<u8>) -> Seq<u8>
    decreases s.len(),
{
    if s.len() > 0 && s[0] == 0x20 {
        skip_spaces(s.skip(1))
    } else {
        s
    }
}

/// The command line in `input` (up to its first NUL) split at its first
/// space into the command and its arguments, with the spaces that start
/// the arguments left out; without a space, all of it is the command.
pub open spec fn spec_split_cmd(input: Seq<u8>) -> (Seq<u8>, Seq<u8>) {
    let t = input.take(first_index(input, 0));
    let p = first_index(t, 0x20);
    if p < t.len() {
        (t.take(p), skip_spaces(t.skip(p + 1)))
    } else {
        (t, Seq::empty())
    }
}

/// Splits the command line in `input` (up to its first NUL) into the
/// command and its arguments.
pub fn split_cmd(input: &[u8]) -> (r: (&[u8], &[u8]))
    ensures
        r.0@ == spec_split_cmd(input@).0,
        r.1@ == spec_split_cmd(input@).1,
{
    let len = position(input, 0);
    proof {
        lemma_first_index(input@, 0);
    }
    let trimmed = &input[0..len];
    let pos = position(trimmed, 0x20);
    proof {
        lemma_first_index(trimmed@, 0x20);
    }
    if pos < trimmed.len() {
        let cmd = &trimmed[0..pos];
        let mut rest = &trimmed[pos + 1..trimmed.len()];
        while rest.len() > 0 && rest[0] == 0x20
            invariant
                skip_spaces(rest@) == skip_spaces(trimmed@.skip(pos + 1)),
            decreases rest@.len(),
        {
            assert(rest@.skip(1) =~= rest@.subrange(1, rest@.len() as int));
            rest = &rest[1..rest.len()];
        }
        (cmd, rest)
    } else {
        (trimmed, &[])
    }
}

/// The command line in `input` (up to its first NUL) split at its first
/// space; without a space, all of it is the second part.
pub open spec fn spec_split_cmd_raw(input: Seq<u8>) -> (Seq<u8>, Seq<u8>) {
    let t = input.take(first_index(input, 0));
    let p = first_index(t, 0x20);
    if p < t.len() {
        (t.take(p), t.skip(p + 1))
    } else {
        (Seq::empty(), t)
    }
}

/// Splits the command line in `input` (up to its first NUL) at its first
/// space; without a space the whole line is returned as the second part.
pub fn _split_cmd(input: &[u8]) -> (r: (&[u8], &[u8]))
    ensures
        r.0@ == spec_split_cmd_raw(input@).0,
        r.1@ == spec_split_cmd_raw(input@).1,
{
    let len = position(input, 0);
    proof {
        lemma_first_index(input@, 0);
    }
    let trimmed = &input[0..len];
    let pos = position(trimmed, 0x20);
    proof {
        lemma_first_index(trimmed@, 0x20);
    }
    if pos < trimmed.len() {
        let first = &trimmed[0..pos];
        let second: &[u8] = if pos + 1 < trimmed.len() {
            &trimmed[pos + 1..trimmed.len()]
        } else {
            &[]
        };
        assert(second@ =~= trimmed@.skip(pos + 1));
        (first, second)
    } else {
        (&[], trimmed)
    }
}

/// ASCII upper case.
pub open spec fn upper(c: u8) -> u8 {
    if 0x61 <= c <= 0x7a { (c - 0x20) as u8 } else { c }
}

/// The 11-byte FAT name pattern of a typed prefix: characters are
/// upper-cased and placed from the start; a '.' jumps to the extension at
/// position 8; the rest is spaces.
pub open spec fn pad_state(prefix: Seq<u8>) -> (Seq<u8>, int)
    decreases prefix.len(),
{
    if prefix.len() == 0 {
        (Seq::new(11, |i: int| 0x20u8), 0)
    } else {
        let (p, j) = pad_state(prefix.drop_last());
        if j >= 11 {
            (p, j)
        } else if prefix.last() == 0x2e {
            (p, 8)
        } else {
            (p.update(j, upper(prefix.last())), j + 1)
        }
    }
}

proof fn lemma_pad_state(prefix: Seq<u8>)
    ensures
        pad_state(prefix).0.len() == 11,
        0 <= pad_state(prefix).1 <= 11,
    decreases prefix.len(),
{
    if prefix.len() > 0 {
        lemma_pad_state(prefix.drop_last());
    }
}

/// Pads a typed file name prefix to the 11-byte FAT name layout.
pub fn pad_prefix(prefix: &[u8]) -> (r: [u8; 11])
    ensures
        r@ == pad_state(prefix@).0,
{
    let mut padded = [0x20u8; 11];
    let mut i: usize = 0;
    let mut j: usize = 0;
    assert(prefix@.take(0) =~= Seq::<u8>::empty());
    assert(padded@ =~= Seq::new(11, |i: int| 0x20u8));
    while i < prefix.len() && j < 11
        invariant
            i <= prefix@.len(),
            j <= 11,
            (padded@, j as int) == pad_state(prefix@.take(i as int)),
        decreases prefix@.len() - i,
    {
        assert(prefix@.take(i + 1).drop_last() =~= prefix@.take(i as int));
        proof {
            lemma_pad_state(prefix@.take(i as int));
        }
        if prefix[i] == 0x2e {
            j = 8;
        } else {
            let c = prefix[i];
            padded[j] = if 0x61 <= c && c <= 0x7a { c - 0x20 } else { c };
            j = j + 1;
        }
        i = i + 1;
    }
    proof {
        if i < prefix@.len() {
            lemma_pad_rest(prefix@, i as int);
        }
        assert(prefix@.take(prefix@.len() as int) =~= prefix@);
    }
    padded
}

/// Once the pattern is full, further characters change nothing.
proof fn lemma_pad_rest(prefix: Seq<u8>, i: int)
    requires
        0 <= i <= prefix.len(),
        pad_state(prefix.take(i)).1 >= 11,
    ensures
        pad_state(prefix).0 == pad_state(prefix.take(i)).0,
        pad_state(prefix).1 >= 11,
    decreases prefix.len() - i,
{
    if i < prefix.len() {
        assert(prefix.take(i + 1).drop_last() =~= prefix.take(i));
        lemma_pad_rest(prefix, i + 1);
    } else {
        assert(prefix.take(i) =~= prefix);
    }
}

/// The command is `cd`.
pub open spec fn is_cd(cmd: Seq<u8>) -> bool {
    cmd == seq![0x63u8, 0x64]
}

/// Length of an entry's base name (up to its first space).
pub open spec fn name_end(e: Entry) -> int {
    first_index(e.name@, 0x20)
}

/// Length of an entry's extension (up to its first space).
pub open spec fn ext_end(e: Entry) -> int {
    first_index(e.ext@, 0x20)
}

/// The 12-byte text shown for an entry: base name, '.', extension, zero
/// filled; for `cd` a name without extension gets no '.'.
pub open spec fn clean_name(e: Entry, cd: bool) -> Seq<u8> {
    let ne = name_end(e);
    let ee = ext_end(e);
    Seq::new(12, |k: int|
        if k < ne {
            e.name@[k]
        } else if k == ne {
            if !cd || ee != 0 { 0x2eu8 } else { 0u8 }
        } else if k < ne + 1 + ee {
            e.ext@[k - ne - 1]
        } else {
            0u8
        })
}

/// How much of the shown text goes into the command line.
pub open spec fn clean_len(e: Entry) -> int {
    if ext_end(e) > 0 { name_end(e) + 1 + ext_end(e) } else { name_end(e) }
}

/// An entry completes the prefix: it is in use, has a name, its name starts
/// with the padded prefix, and for `cd` it is a directory.
pub open spec fn completes(e: Entry, padded: Seq<u8>, plen: int, cd: bool) -> bool {
    &&& e.name@[0] != 0x00 && e.name@[0] != 0xE5
    &&& name_end(e) != 0
    &&& e.name@.take(plen) == padded.take(plen)
    &&& !(cd && e.attr & 0x10 == 0)
}

/// The command line buffer after completion with entry `e`: the command
/// written back at the start and the completed name after the space.
pub open spec fn completed_buffer(buf: Seq<u8>, cmd: Seq<u8>, e: Entry, cd: bool) -> Seq<u8> {
    let c = cmd.len() as int;
    let cl = clean_len(e);
    Seq::new(128, |k: int|
        if k < c {
            cmd[k]
        } else if c + 1 <= k < c + 1 + cl {
            clean_name(e, cd)[k - c - 1]
        } else {
            buf[k]
        })
}

/// The command line (buffer, length) and the names shown after the
/// entries `es` are tried, one after the other, against `prefix`.
pub open spec fn tab_fold(buf: Seq<u8>, len: int, cmd: Seq<u8>, prefix: Seq<u8>, es: Seq<Entry>) -> (Seq<u8>, int, Seq<Seq<u8>>)
    decreases es.len(),
{
    if es.len() == 0 {
        (buf, len, Seq::empty())
    } else {
        let (b, l, shown) = tab_fold(buf, len, cmd, prefix, es.drop_last());
        let e = es.last();
        let cd = is_cd(cmd);
        if completes(e, pad_state(prefix).0, prefix.len() as int, cd) {
            let l1 = if l >= prefix.len() { l - prefix.len() } else { 0 };
            let shown2 = shown.push(clean_name(e, cd));
            if cmd.len() > 10 {
                (b, l1, shown2)
            } else {
                (completed_buffer(b, cmd, e, cd), l1 + cmd.len() + 1 + clean_len(e), shown2)
            }
        } else {
            (b, l, shown)
        }
    }
}

/// What the Tab key did.
pub enum TabCompletion {
    /// No prefix was typed: the help text is shown instead.
    ShowHelp,
    /// The prefix is longer than a base name: nothing happens.
    TooLong,
    /// The names that were completed and shown, in directory order.
    Shown(Vec<[u8; 12]>),
}

proof fn lemma_tab_fold_len(buf: Seq<u8>, len: int, cmd: Seq<u8>, prefix: Seq<u8>, es: Seq<Entry>)
    requires
        buf.len() == 128,
        0 <= len,
    ensures
        tab_fold(buf, len, cmd, prefix, es).0.len() == 128,
        0 <= tab_fold(buf, len, cmd, prefix, es).1 <= len + 24 * es.len(),
    decreases es.len(),
{
    if es.len() > 0 {
        lemma_tab_fold_len(buf, len, cmd, prefix, es.drop_last());
        let e = es.last();
        lemma_first_index(e.name@, 0x20);
        lemma_first_index(e.ext@, 0x20);
    }
}

/// Completes the last word of the command line from the directory entries
/// `entries`: every entry whose name starts with the typed prefix (a
/// directory, for `cd`) replaces the prefix on screen and in the command
/// line, in directory order.
pub fn handle_tab_completion(input_buffer: &mut [u8; 128], input_len: &mut usize, entries: &[Entry]) -> (r: TabCompletion)
    requires
        *old(input_len) <= 0x1_0000,
        entries@.len() <= 0x1_0000,
    ensures
        ({
            let (cmd, prefix) = spec_split_cmd(old(input_buffer)@);
            match r {
                TabCompletion::ShowHelp => prefix.len() == 0 && final(input_buffer)@ == old(input_buffer)@
                    && *final(input_len) == *old(input_len),
                TabCompletion::TooLong => prefix.len() > 8 && final(input_buffer)@ == old(input_buffer)@
                    && *final(input_len) == *old(input_len),
                TabCompletion::Shown(names) => {
                    let (b, l, shown) = tab_fold(old(input_buffer)@, *old(input_len) as int, cmd, prefix, entries@);
                    &&& 0 < prefix.len() <= 8
                    &&& final(input_buffer)@ == b
                    &&& *final(input_len) == l
                    &&& names@.len() == shown.len()
                    &&& forall|k: int| 0 <= k < shown.len() ==> #[trigger] names@[k]@ == shown[k]
                },
            }
        }),
{
    let copy: [u8; 128] = *input_buffer;
    let (cmd, prefix) = split_cmd(copy.as_slice());
    if prefix.len() == 0 {
        return TabCompletion::ShowHelp;
    }
    if prefix.len() > 8 {
        return TabCompletion::TooLong;
    }
    let padded = pad_prefix(prefix);
    let cd = cmd.len() == 2 && cmd[0] == 0x63 && cmd[1] == 0x64;
    assert(cd == is_cd(cmd@)) by {
        if cmd@.len() == 2 && cmd@[0] == 0x63 && cmd@[1] == 0x64 {
            assert(cmd@ =~= seq![0x63u8, 0x64]);
        }
    }
    let mut shown: Vec<[u8; 12]> = Vec::new();
    let mut i: usize = 0;
    let ghost buf0 = input_buffer@;
    let ghost len0 = *input_len as int;
    proof {
        lemma_first_index(buf0, 0);
        lemma_first_index(buf0.take(first_index(buf0, 0)), 0x20);
    }
    while i < entries.len()
        invariant
            copy@ == buf0,
            buf0.len() == 128,
            0 <= len0 <= 0x1_0000,
            entries@.len() <= 0x1_0000,
            (cmd@, prefix@) == spec_split_cmd(buf0),
            0 < prefix@.len() <= 8,
            cmd@.len() <= 128,
            padded@ == pad_state(prefix@).0,
            cd == is_cd(cmd@),
            i <= entries@.len(),
            ({
                let (b, l, sh) = tab_fold(buf0, len0, cmd@, prefix@, entries@.take(i as int));
                &&& input_buffer@ == b
                &&& *input_len == l
                &&& shown@.len() == sh.len()
                &&& forall|k: int| 0 <= k < sh.len() ==> #[trigger] shown@[k]@ == sh[k]
            }),
        decreases entries@.len() - i,
    {
        let e = entries[i];
        proof {
            assert(entries@.take(i + 1).drop_last() =~= entries@.take(i as int));
            assert(entries@.take(i + 1).last() == e);
            lemma_tab_fold_len(buf0, len0, cmd@, prefix@, entries@.take(i as int));
            lemma_first_index(e.name@, 0x20);
            lemma_first_index(e.ext@, 0x20);
        }
        let ne = position(e.name.as_slice(), 0x20);
        let ee = position(e.ext.as_slice(), 0x20);
        let mut clean = [0u8; 12];
        let mut k: usize = 0;
        while k < 12
            invariant
                ne == name_end(e),
                ee == ext_end(e),
                ne <= 8,
                ee <= 3,
                k <= 12,
                cd == is_cd(cmd@),
                forall|t: int| 0 <= t < k ==> clean@[t] == clean_name(e, cd)[t],
                forall|t: int| k <= t < 12 ==> clean@[t] == 0,
            decreases 12 - k,
        {
            if k < ne {
                clean[k] = e.name[k];
            } else if k == ne {
                if !cd || ee != 0 {
                    clean[k] = 0x2e;
                }
            } else if k < ne + 1 + ee {
                clean[k] = e.ext[k - ne - 1];
            }
            k = k + 1;
        }
        assert(clean@ =~= clean_name(e, cd));
        let mut prefix_ok = true;
        let mut t: usize = 0;
        while t < prefix.len()
            invariant
                prefix@.len() <= 8,
                t <= prefix@.len(),
                padded@.len() == 11,
                prefix_ok == forall|u: int| 0 <= u < t ==> e.name@[u] == padded@[u],
            decreases prefix@.len() - t,
        {
            if e.name[t] != padded[t] {
                prefix_ok = false;
            }
            t = t + 1;
        }
        proof {
            if prefix_ok {
                assert(e.name@.take(prefix@.len() as int) =~= padded@.take(prefix@.len() as int));
            } else {
                let u = choose|u: int| 0 <= u < prefix@.len() && e.name@[u] != padded@[u];
                assert(e.name@.take(prefix@.len() as int)[u] != padded@.take(prefix@.len() as int)[u]);
            }
        }
        let hit = e.name[0] != 0x00 && e.name[0] != 0xE5 && ne != 0 && prefix_ok && !(cd && e.attr & 0x10 == 0);
        if hit {
            let cur = *input_len;
            *input_len = if cur >= prefix.len() { cur - prefix.len() } else { 0 };
            shown.push(clean);
            if cmd.len() <= 10 {
                let c = cmd.len();
                let cl = if ee > 0 { ne + 1 + ee } else { ne };
                let ghost before = input_buffer@;
                let mut w: usize = 0;
                while w < 128
                    invariant
                        c == cmd@.len(),
                        c <= 10,
                        cl == clean_len(e),
                        cl <= 12,
                        clean@ == clean_name(e, cd),
                        before.len() == 128,
                        w <= 128,
                        input_buffer@.len() == 128,
                        forall|u: int| 0 <= u < w ==> input_buffer@[u] == completed_buffer(before, cmd@, e, cd)[u],
                        forall|u: int| w <= u < 128 ==> input_buffer@[u] == before[u],
                    decreases 128 - w,
                {
                    if w < c {
                        input_buffer[w] = cmd[w];
                    } else if c + 1 <= w && w < c + 1 + cl {
                        input_buffer[w] = clean[w - c - 1];
                    }
                    w = w + 1;
                }
                assert(input_buffer@ =~= completed_buffer(before, cmd@, e, cd));
                *input_len = *input_len + c + 1 + cl;
            }
        }
        i = i + 1;
        proof {
            let (b, l, sh) = tab_fold(buf0, len0, cmd@, prefix@, entries@.take(i as int));
            assert(hit == completes(e, pad_state(prefix@).0, prefix@.len() as int, cd));
            assert(shown@.len() == sh.len());
            assert forall|k: int| 0 <= k < sh.len() implies #[trigger] shown@[k]@ == sh[k] by {}
        }
    }
    assert(entries@.take(entries@.len() as int) =~= entries@);
    TabCompletion::Shown(shown)
}

/// What the shell does after a key: nothing visible, clear the screen and
/// show a fresh prompt, erase the last character on screen, run a line,
/// complete the file name being typed, or draw a character.
pub enum KeyAction {
    Nothing,
    ClearScreen,
    Erase,
    Submit(Vec<u8>),
    Complete,
    Echo(u8),
}

/// The command line being typed: the modifier keys, the characters typed so
/// far (`buffer[..len]`) and whether Ctrl is held.
pub struct LineEditor {
    pub keys: KeyboardState,
    pub buffer: [u8; 128],
    pub len: usize,
    pub ctrl_down: bool,
}

impl LineEditor {
    /// The characters typed so far.
    pub open spec fn line(&self) -> Seq<u8> {
        self.buffer@.subrange(0, self.len as int)
    }

    /// An empty line, no modifier held.
    pub fn new() -> (r: Self)
        ensures
            r.len == 0,
            r.buffer@ == Seq::new(128, |i: int| 0u8),
            !r.ctrl_down,
            !r.keys.shift_pressed,
            !r.keys.caps_lock_on,
    {
        LineEditor { keys: KeyboardState::new(), buffer: [0u8; 128], len: 0, ctrl_down: false }
    }

    /// Feeds one scan code. A release (bit 7 set) only updates Ctrl and the
    /// modifiers; Ctrl goes down on 0x1D; Ctrl+L (0x26) empties the line and
    /// clears the screen; Backspace (0x0E) drops the last character; Enter
    /// (0x1C) hands the line over and empties it; Tab (0x0F) asks for
    /// completion; any other key with a character appends it while the line
    /// has room.
    pub fn on_scancode(&mut self, key: u8) -> (r: KeyAction)
        requires
            old(self).len <= INPUT_BUFFER_SIZE,
        ensures
            final(self).len <= INPUT_BUFFER_SIZE,
            key >= 0x80 ==> {
                &&& r is Nothing
                &&& final(self).ctrl_down == (old(self).ctrl_down && key != 0x9D)
                &&& final(self).line() == old(self).line()
                &&& final(self).keys.shift_pressed == (if key == 0xAA || key == 0xB6 {
                    false
                } else {
                    old(self).keys.shift_pressed
                })
                &&& final(self).keys.caps_lock_on == old(self).keys.caps_lock_on
            },
            key == 0x1D ==> r is Nothing && final(self).ctrl_down && final(self).line() == old(
                self,
            ).line() && final(self).keys == old(self).keys,
            key == 0x26 && old(self).ctrl_down ==> r is ClearScreen && final(self).len == 0
                && final(self).ctrl_down && final(self).keys == old(self).keys,
            key == 0x0E ==> {
                &&& r is Erase <==> old(self).len > 0
                &&& !(r is Erase) ==> r is Nothing
                &&& final(self).line() == (if old(self).len > 0 {
                    old(self).line().drop_last()
                } else {
                    old(self).line()
                })
                &&& final(self).ctrl_down == old(self).ctrl_down
                &&& final(self).keys == old(self).keys
            },
            key == 0x1C ==> {
                &&& r matches KeyAction::Submit(l) && l@ == old(self).line()
                &&& final(self).len == 0
                &&& final(self).ctrl_down == old(self).ctrl_down
                &&& final(self).keys == old(self).keys
            },
            key == 0x0F ==> r is Complete && final(self).line() == old(self).line()
                && final(self).ctrl_down == old(self).ctrl_down && final(self).keys == old(
                self,
            ).keys,
            (key < 0x80 && key != 0x1D && !(key == 0x26 && old(self).ctrl_down) && key != 0x0E
                && key != 0x1C && key != 0x0F) ==> {
                let c = if key == 0x2A || key == 0x36 || key == 0x3A {
                    None
                } else {
                    key_char(key, old(self).keys.shift_pressed, old(self).keys.caps_lock_on)
                };
                &&& final(self).ctrl_down == old(self).ctrl_down
                &&& final(self).keys.shift_pressed == (if key == 0x2A || key == 0x36 {
                    true
                } else {
                    old(self).keys.shift_pressed
                })
                &&& final(self).keys.caps_lock_on == (if key == 0x3A {
                    !old(self).keys.caps_lock_on
                } else {
                    old(self).keys.caps_lock_on
                })
                &&& if c is Some && old(self).len < INPUT_BUFFER_SIZE {
                    &&& r == KeyAction::Echo(c->0)
                    &&& final(self).line() == old(self).line().push(c->0)
                } else {
                    &&& r is Nothing
                    &&& final(self).line() == old(self).line()
                }
            },
    {
        let ghost before = self.line();
        if key & 0x80 != 0 {
            assert(key & 0x80 != 0 ==> key >= 0x80 && (key & 0x7F == 0x1D) == (key == 0x9D))
                by (bit_vector);
            let released = key & 0x7F;
            if released == 0x1D {
                self.ctrl_down = false;
            }
            let _ = self.keys.scancode_to_ascii(key);
            return KeyAction::Nothing;
        }
        assert(key & 0x80 == 0 ==> key < 0x80) by (bit_vector);
        if key == 0x1D {
            self.ctrl_down = true;
            return KeyAction::Nothing;
        }
        if key == 0x26 && self.ctrl_down {
            self.buffer = [0u8; 128];
            self.len = 0;
            return KeyAction::ClearScreen;
        }
        if key == 0x0E {
            if self.len > 0 {
                self.len = self.len - 1;
                assert(self.line() =~= before.drop_last());
                return KeyAction::Erase;
            }
            return KeyAction::Nothing;
        }
        if key == 0x1C {
            let mut line: Vec<u8> = Vec::new();
            let mut i: usize = 0;
            while i < self.len
                invariant
                    self.len <= INPUT_BUFFER_SIZE,
                    i <= self.len,
                    line@ == self.buffer@.subrange(0, i as int),
                decreases self.len - i,
            {
                line.push(self.buffer[i]);
                i = i + 1;
                assert(line@ =~= self.buffer@.subrange(0, i as int));
            }
            self.buffer = [0u8; 128];
            self.len = 0;
            return KeyAction::Submit(line);
        }
        if key == 0x0F {
            return KeyAction::Complete;
        }
        match self.keys.scancode_to_ascii(key) {
            Some(ascii) => {
                if self.len < INPUT_BUFFER_SIZE {
                    self.buffer[self.len] = ascii;
                    self.len = self.len + 1;
                    assert(self.line() =~= before.push(ascii));
                    KeyAction::Echo(ascii)
                } else {
                    KeyAction::Nothing
                }
            },
            None => KeyAction::Nothing,
        }
    }
}

} // verus!
