//! MIDI: the notes of a format-0 file, their pitches, and the speaker
//! program a tune becomes.
use vstd::prelude::*;

verus! {

/// A note to play: its MIDI number (0 is a rest) and how long, in ms.
#[derive(Clone, Copy)]
pub struct MidiEvent {
    pub note: u8,
    pub duration: u16,
}

/// A parsed format-0 MIDI file: its time division and its first notes.
pub struct MidiFile<'a> {
    pub division: u16,
    pub events: [MidiEvent; 256],
    pub event_count: usize,
    pub raw: &'a [u8],
}

/// The pitch in Hz of each MIDI note number (note 69, A4, is 440 Hz;
/// each semitone is a factor of 2^(1/12)).
pub open spec fn freq_table() -> Seq<u16> {
    seq![
        8u16, 8, 8, 9, 9, 10, 10, 11, 12, 13, 14, 15,
        16, 17, 18, 19, 21, 22, 23, 25, 26, 28, 29, 31,
        33, 35, 37, 39, 41, 44, 46, 49, 52, 55, 58, 62,
        65, 69, 73, 78, 82, 87, 92, 98, 104, 110, 117, 123,
        131, 139, 147, 156, 165, 175, 185, 196, 208, 220, 233, 247,
        262, 277, 294, 311, 330, 349, 370, 392, 415, 440, 466, 494,
        523, 554, 587, 622, 659, 698, 740, 784, 831, 880, 932, 988,
        1047, 1109, 1175, 1245, 1319, 1397, 1480, 1568, 1661, 1760, 1865, 1976,
        2093, 2217, 2349, 2489, 2637, 2794, 2960, 3136, 3322, 3520, 3729, 3951,
        4186, 4435, 4699, 4978, 5274, 5588, 5920, 6272, 6645, 7040, 7458, 7902,
        8372, 8869, 9397, 9956, 10548, 11175, 11840, 12544,
    ]
}

/// The pitch in Hz of MIDI note `note`.
pub fn midi_note_to_freq(note: u8) -> (r: u16)
    requires
        note < 128,
    ensures
        r == freq_table()[note as int],
        r >= 8,
{
    let table: [u16; 128] = [
        8, 8, 8, 9, 9, 10, 10, 11, 12, 13, 14, 15,
        16, 17, 18, 19, 21, 22, 23, 25, 26, 28, 29, 31,
        33, 35, 37, 39, 41, 44, 46, 49, 52, 55, 58, 62,
        65, 69, 73, 78, 82, 87, 92, 98, 104, 110, 117, 123,
        131, 139, 147, 156, 165, 175, 185, 196, 208, 220, 233, 247,
        262, 277, 294, 311, 330, 349, 370, 392, 415, 440, 466, 494,
        523, 554, 587, 622, 659, 698, 740, 784, 831, 880, 932, 988,
        1047, 1109, 1175, 1245, 1319, 1397, 1480, 1568, 1661, 1760, 1865, 1976,
        2093, 2217, 2349, 2489, 2637, 2794, 2960, 3136, 3322, 3520, 3729, 3951,
        4186, 4435, 4699, 4978, 5274, 5588, 5920, 6272, 6645, 7040, 7458, 7902,
        8372, 8869, 9397, 9956, 10548, 11175, 11840, 12544,
    ];
    assert(table@ == freq_table());
    table[note as usize]
}

/// The programmable timer's divisor for a tone of `freq` Hz.
pub fn pit_divisor(freq: u32) -> (r: u32)
    requires
        freq > 0,
    ensures
        r == 1_193_180u32 / freq,
{
    1_193_180 / freq
}

/// One step of a speaker program: the tone to sound (None for silence)
/// and how long to wait, in ms.
pub struct Tone {
    pub freq: Option<u16>,
    pub wait_ms: u16,
}

/// The tune played at start-up: (note, duration in ms).
pub open spec fn test_melody() -> Seq<(u8, u16)> {
    seq![(69u8, 200u16), (0, 50), (71, 200), (0, 50), (72, 200), (0, 50), (74, 200), (0, 50), (76, 400)]
}

/// The speaker program of a list of notes: each note sounds its pitch (a
/// rest is silence) for its duration.
pub open spec fn tones_of(notes: Seq<(u8, u16)>, k: int) -> (Option<u16>, u16) {
    let (note, ms) = notes[k];
    (if note != 0 { Some(freq_table()[note as int]) } else { None }, ms)
}

/// The start-up tune as a speaker program.
pub fn play_melody() -> (r: Vec<Tone>)
    ensures
        r@.len() == test_melody().len(),
        forall|k: int| 0 <= k < r@.len() ==> ((#[trigger] r@[k]).freq, r@[k].wait_ms) == tones_of(test_melody(), k),
{
    let melody: [(u8, u16); 9] = [(69, 200), (0, 50), (71, 200), (0, 50), (72, 200), (0, 50), (74, 200), (0, 50), (76, 400)];
    assert(melody@ == test_melody());
    let mut out: Vec<Tone> = Vec::new();
    let mut i: usize = 0;
    while i < 9
        invariant
            i <= 9,
            melody@ == test_melody(),
            out@.len() == i,
            forall|k: int| 0 <= k < i ==> ((#[trigger] out@[k]).freq, out@[k].wait_ms) == tones_of(test_melody(), k),
        decreases 9 - i,
    {
        let (note, ms) = melody[i];
        let freq = if note != 0 { Some(midi_note_to_freq(note)) } else { None };
        out.push(Tone { freq, wait_ms: ms });
        i = i + 1;
    }
    out
}

/// The speaker program of a parsed file: each event sounds its note (a
/// zero note is silence) for its duration.
pub fn play_midi(midi: &MidiFile) -> (r: Vec<Tone>)
    requires
        midi.event_count <= 256,
        forall|k: int| 0 <= k < midi.event_count ==> (#[trigger] midi.events@[k]).note < 128,
    ensures
        r@.len() == midi.event_count,
        forall|k: int| 0 <= k < r@.len() ==> {
            &&& (#[trigger] r@[k]).wait_ms == midi.events@[k].duration
            &&& r@[k].freq == if midi.events@[k].note > 0 { Some(freq_table()[midi.events@[k].note as int]) } else { None }
        },
{
    let mut out: Vec<Tone> = Vec::new();
    let mut i: usize = 0;
    while i < midi.event_count
        invariant
            midi.event_count <= 256,
            forall|k: int| 0 <= k < midi.event_count ==> (#[trigger] midi.events@[k]).note < 128,
            i <= midi.event_count,
            out@.len() == i,
            forall|k: int| 0 <= k < i ==> {
                &&& (#[trigger] out@[k]).wait_ms == midi.events@[k].duration
                &&& out@[k].freq == if midi.events@[k].note > 0 { Some(freq_table()[midi.events@[k].note as int]) } else { None }
            },
        decreases midi.event_count - i,
    {
        let e = midi.events[i];
        let freq = if e.note > 0 { Some(midi_note_to_freq(e.note)) } else { None };
        out.push(Tone { freq, wait_ms: e.duration });
        i = i + 1;
    }
    out
}

/// The length in ms of `ticks` at 500000 µs per quarter note and
/// `division` ticks per quarter note (cut to 16 bits).
pub open spec fn spec_ticks_to_ms(ticks: u32, division: u16) -> u16 {
    (((ticks as int * 500_000) / division as int) / 1000) as u16
}

/// The length in ms of `ticks` (see `spec_ticks_to_ms`).
pub fn ticks_to_ms(ticks: u32, division: u16) -> (r: u16)
    requires
        division > 0,
    ensures
        r == spec_ticks_to_ms(ticks, division),
{
    let micros = (ticks as u64 * 500_000) / division as u64;
    (micros / 1000) as u16
}

/// A variable-length quantity at `pos`: seven bits per byte, most
/// significant first, the last byte without the high bit; the value keeps
/// its low 32 bits. None when the bytes run out first.
pub open spec fn varlen_from(data: Seq<u8>, pos: int, acc: u32) -> Option<(u32, int)>
    decreases data.len() - pos,
{
    if pos < 0 || pos >= data.len() {
        None
    } else {
        let b = data[pos];
        let next = (((acc as int * 128) % 0x1_0000_0000) as u32) | ((b & 0x7F) as u32);
        if b & 0x80 == 0 {
            Some((next, pos + 1))
        } else {
            varlen_from(data, pos + 1, next)
        }
    }
}

/// Reading a quantity consumes at least one byte and stays in the data.
pub proof fn lemma_varlen(data: Seq<u8>, pos: int, acc: u32)
    ensures
        varlen_from(data, pos, acc) matches Some((v, q)) ==> pos < q <= data.len(),
    decreases data.len() - pos,
{
    if 0 <= pos < data.len() {
        let b = data[pos];
        let next = (((acc as int * 128) % 0x1_0000_0000) as u32) | ((b & 0x7F) as u32);
        if b & 0x80 != 0 {
            lemma_varlen(data, pos + 1, next);
        }
    }
}

/// Reading a quantity from a suffix of the data reads the same bytes.
proof fn lemma_varlen_shift(data: Seq<u8>, pos: int, j: int, acc: u32)
    requires
        0 <= pos <= data.len(),
        0 <= j,
    ensures
        varlen_from(data.subrange(pos, data.len() as int), j, acc) == match varlen_from(data, pos + j, acc) {
            None => None,
            Some((v, q)) => Some((v, q - pos)),
        },
    decreases data.len() - pos - j,
{
    let sub = data.subrange(pos, data.len() as int);
    if pos + j < data.len() {
        let b = data[pos + j];
        assert(sub[j] == b);
        let next = (((acc as int * 128) % 0x1_0000_0000) as u32) | ((b & 0x7F) as u32);
        if b & 0x80 != 0 {
            lemma_varlen_shift(data, pos, j + 1, next);
        }
    }
}

/// Reads the variable-length quantity at the start of `data`: (value,
/// bytes read).
pub fn read_varlen(data: &[u8]) -> (r: (u32, usize))
    requires
        varlen_from(data@, 0, 0) is Some,
    ensures
        (r.0, r.1 as int) == varlen_from(data@, 0, 0)->0,
{
    let mut result: u32 = 0;
    let mut i: usize = 0;
    loop
        invariant_except_break
            i < data@.len(),
            varlen_from(data@, 0, 0) == varlen_from(data@, i as int, result),
        invariant
            varlen_from(data@, 0, 0) is Some,
        ensures
            (result, i as int) == varlen_from(data@, 0, 0)->0,
        decreases data@.len() - i,
    {
        let byte = data[i];
        let shifted = result << 7;
        assert(shifted == ((result as int * 128) % 0x1_0000_0000) as u32) by (bit_vector)
            requires shifted == result << 7;
        result = shifted | (byte & 0x7F) as u32;
        i = i + 1;
        if byte & 0x80 == 0 {
            break;
        }
    }
    (result, i)
}

/// Big-endian 16-bit value at `off`.
pub open spec fn be16(s: Seq<u8>, off: int) -> int {
    s[off] * 256 + s[off + 1]
}

/// Big-endian 32-bit value at `off`.
pub open spec fn be32(s: Seq<u8>, off: int) -> int {
    be16(s, off) * 65536 + be16(s, off + 2)
}

/// The length every note gets: 240 ticks.
pub open spec fn note_event(note: u8, division: u16) -> MidiEvent {
    MidiEvent { note, duration: spec_ticks_to_ms(240, division) }
}

/// The notes of a track from `pos` (before `end`), at most 256: each event
/// has a delta time, a status byte (or the previous one repeated), and its
/// data; a Note On with nonzero velocity adds its note, lasting 240
/// ticks; meta events are skipped by their length; other events take two
/// data bytes. None where the walk would read past the data, overflow the
/// running time, or divide by a zero division.
pub open spec fn midi_walk(data: Seq<u8>, pos: int, end: int, time: int, last: u8, events: Seq<MidiEvent>, division: u16) -> Option<Seq<MidiEvent>>
    decreases (if end > pos { end - pos } else { 0 }),
{
    if !(pos < end && events.len() < 256) || pos >= data.len() || pos < 0 {
        Some(events)
    } else {
        proof {
            lemma_varlen(data, pos, 0);
        }
        match varlen_from(data, pos, 0) {
            None => None,
            Some((delta, p1)) => {
                if time + delta > u32::MAX || p1 >= data.len() {
                    None
                } else {
                    let b = data[p1];
                    let st = if b < 0x80 { last } else { b };
                    let p2 = if b < 0x80 { p1 } else { p1 + 1 };
                    if st & 0xF0 == 0x90 {
                        if p2 + 1 >= data.len() {
                            None
                        } else if data[p2 + 1] > 0 && division == 0 {
                            None
                        } else {
                            let ev2 = if data[p2 + 1] > 0 { events.push(note_event(data[p2], division)) } else { events };
                            midi_walk(data, p2 + 2, end, time + delta, st, ev2, division)
                        }
                    } else if st & 0xF0 == 0x80 {
                        midi_walk(data, p2 + 2, end, time + delta, st, events, division)
                    } else if st == 0xFF {
                        if p2 >= data.len() {
                            None
                        } else {
                            proof {
                                lemma_varlen(data, p2 + 1, 0);
                            }
                            match varlen_from(data, p2 + 1, 0) {
                                None => None,
                                Some((l, q)) => if q + l > usize::MAX {
                                    None
                                } else {
                                    midi_walk(data, q + l, end, time + delta, st, events, division)
                                },
                            }
                        }
                    } else {
                        midi_walk(data, p2 + 2, end, time + delta, st, events, division)
                    }
                }
            },
        }
    }
}

/// A Note On whose velocity is 0 ends a note instead of starting one: the
/// walk passes over such an event (whatever its delta time, channel and
/// note, its status byte written out or repeated) with the notes it had.
pub proof fn lemma_silent_note_on_adds_nothing(
    data: Seq<u8>,
    pos: int,
    end: int,
    time: int,
    last: u8,
    events: Seq<MidiEvent>,
    division: u16,
    delta: u32,
    p1: int,
)
    requires
        0 <= pos < end,
        pos < data.len(),
        events.len() < 256,
        varlen_from(data, pos, 0) == Some((delta, p1)),
        time + delta <= u32::MAX,
        p1 < data.len(),
        (if data[p1] < 0x80 { last } else { data[p1] }) & 0xF0 == 0x90,
        (if data[p1] < 0x80 { p1 } else { p1 + 1 }) + 1 < data.len(),
        data[(if data[p1] < 0x80 { p1 } else { p1 + 1 }) + 1] == 0,
    ensures
        midi_walk(data, pos, end, time, last, events, division) == midi_walk(
            data,
            (if data[p1] < 0x80 { p1 } else { p1 + 1 }) + 2,
            end,
            time + delta,
            if data[p1] < 0x80 { last } else { data[p1] },
            events,
            division,
        ),
{
}

/// A Note On with a nonzero velocity adds its note, lasting 240 ticks at
/// the file's division (500000 µs per quarter note), and the walk goes on
/// after it.
pub proof fn lemma_sounding_note_on_adds_its_note(
    data: Seq<u8>,
    pos: int,
    end: int,
    time: int,
    last: u8,
    events: Seq<MidiEvent>,
    division: u16,
    delta: u32,
    p1: int,
)
    requires
        0 <= pos < end,
        pos < data.len(),
        events.len() < 256,
        division > 0,
        varlen_from(data, pos, 0) == Some((delta, p1)),
        time + delta <= u32::MAX,
        p1 < data.len(),
        (if data[p1] < 0x80 { last } else { data[p1] }) & 0xF0 == 0x90,
        (if data[p1] < 0x80 { p1 } else { p1 + 1 }) + 1 < data.len(),
        data[(if data[p1] < 0x80 { p1 } else { p1 + 1 }) + 1] > 0,
    ensures
        midi_walk(data, pos, end, time, last, events, division) == midi_walk(
            data,
            (if data[p1] < 0x80 { p1 } else { p1 + 1 }) + 2,
            end,
            time + delta,
            if data[p1] < 0x80 { last } else { data[p1] },
            events.push(MidiEvent {
                note: data[if data[p1] < 0x80 { p1 } else { p1 + 1 }],
                duration: (((240int * 500_000) / division as int) / 1000) as u16,
            }),
            division,
        ),
{
}

/// A track of one Note On of velocity 0 (a delta time of one byte, any
/// channel, any note) adds no note: the walk ends with the notes it had.
pub proof fn lemma_silent_track_has_no_notes(
    data: Seq<u8>,
    pos: int,
    time: int,
    last: u8,
    events: Seq<MidiEvent>,
    division: u16,
)
    requires
        0 <= pos,
        pos + 4 <= data.len(),
        events.len() < 256,
        0 <= time <= u32::MAX - 127,
        data[pos] < 0x80,
        data[pos + 1] & 0xF0 == 0x90,
        data[pos + 3] == 0,
    ensures
        midi_walk(data, pos, pos + 4, time, last, events, division) == Some(events),
{
    let b = data[pos];
    let next = (((0u32 as int * 128) % 0x1_0000_0000) as u32) | ((b & 0x7F) as u32);
    assert(b & 0x80 == 0 && (0u32 | ((b & 0x7F) as u32)) < 128) by (bit_vector)
        requires b < 0x80;
    assert(varlen_from(data, pos, 0) == Some((next, pos + 1)));
    let st = data[pos + 1];
    assert(st >= 0x80) by (bit_vector)
        requires st & 0xF0 == 0x90;
    lemma_silent_note_on_adds_nothing(data, pos, pos + 4, time, last, events, division, next, pos + 1);
}

/// "MThd"
pub open spec fn mthd() -> Seq<u8> {
    seq![0x4du8, 0x54, 0x68, 0x64]
}

/// "MTrk"
pub open spec fn mtrk() -> Seq<u8> {
    seq![0x4du8, 0x54, 0x72, 0x6b]
}

/// What `parse_midi_format0` makes of `data`: None where it would read
/// past the data or overflow; Some(None) for a file that is not a
/// single-track format-0 file; else the division and the notes.
pub open spec fn midi_parse(data: Seq<u8>) -> Option<Option<(u16, Seq<MidiEvent>)>> {
    if data.len() < 4 {
        None
    } else if data.take(4) != mthd() {
        Some(None)
    } else if data.len() < 8 {
        None
    } else if be32(data, 4) != 6 {
        Some(None)
    } else if data.len() < 10 {
        None
    } else if be16(data, 8) != 0 {
        Some(None)
    } else if data.len() < 12 {
        None
    } else if be16(data, 10) != 1 {
        Some(None)
    } else if data.len() < 18 {
        None
    } else if data.subrange(14, 18) != mtrk() {
        Some(None)
    } else if data.len() < 22 {
        None
    } else if 22 + be32(data, 18) > usize::MAX {
        None
    } else {
        let division = be16(data, 12) as u16;
        match midi_walk(data, 22, 22 + be32(data, 18), 0, 0, Seq::empty(), division) {
            None => None,
            Some(evs) => Some(Some((division, evs))),
        }
    }
}

fn read_be16(data: &[u8], off: usize) -> (r: u16)
    requires
        off + 2 <= data@.len(),
    ensures
        r == be16(data@, off as int),
{
    (data[off] as u16) * 256 + data[off + 1] as u16
}

fn read_be32(data: &[u8], off: usize) -> (r: u32)
    requires
        off + 4 <= data@.len(),
    ensures
        r == be32(data@, off as int),
{
    let n = data.len();
    (read_be16(data, off) as u32) * 65536 + read_be16(data, off + 2) as u32
}

fn magic_at(data: &[u8], off: usize, m: [u8; 4]) -> (r: bool)
    requires
        off + 4 <= data@.len(),
    ensures
        r == (data@.subrange(off as int, off + 4) == m@),
{
    let r = data[off] == m[0] && data[off + 1] == m[1] && data[off + 2] == m[2] && data[off + 3] == m[3];
    if r {
        assert(data@.subrange(off as int, off + 4) =~= m@);
    } else {
        assert(data@.subrange(off as int, off + 4) != m@) by {
            if data@.subrange(off as int, off + 4) == m@ {
                assert(data@.subrange(off as int, off + 4)[0] == data@[off as int]);
                assert(data@.subrange(off as int, off + 4)[1] == data@[off + 1]);
                assert(data@.subrange(off as int, off + 4)[2] == data@[off + 2]);
                assert(data@.subrange(off as int, off + 4)[3] == data@[off + 3]);
            }
        }
    }
    r
}

/// Parses a single-track format-0 MIDI file into its division and notes
/// (see `midi_parse`); None when it is not one.
pub fn parse_midi_format0(data: &[u8]) -> (r: Option<MidiFile>)
    requires
        midi_parse(data@) is Some,
        data@.len() <= 0x7fff_ffff,
    ensures
        match midi_parse(data@)->0 {
            None => r is None,
            Some((division, evs)) => r matches Some(m) && m.division == division && m.event_count == evs.len()
                && m.raw@ == data@ && forall|k: int| 0 <= k < evs.len() ==> {
                    &&& (#[trigger] m.events@[k]).note == evs[k].note
                    &&& m.events@[k].duration == evs[k].duration
                },
        },
{
    let thd: [u8; 4] = [0x4d, 0x54, 0x68, 0x64];
    let trk: [u8; 4] = [0x4d, 0x54, 0x72, 0x6b];
    assert(thd@ == mthd());
    assert(trk@ == mtrk());
    assert(data@.take(4) == data@.subrange(0, 4));
    if !magic_at(data, 0, thd) {
        return None;
    }
    if read_be32(data, 4) != 6 {
        return None;
    }
    if read_be16(data, 8) != 0 {
        return None;
    }
    if read_be16(data, 10) != 1 {
        return None;
    }
    let division = read_be16(data, 12);
    if !magic_at(data, 14, trk) {
        return None;
    }
    let track_len = read_be32(data, 18) as usize;
    let mut pos: usize = 22;
    let track_end = pos + track_len;
    let mut time: u32 = 0;
    let mut last_status: u8 = 0;
    let mut events = [MidiEvent { note: 0, duration: 0 }; 256];
    let mut out_idx: usize = 0;
    let ghost goal = midi_walk(data@, 22, track_end as int, 0, 0, Seq::empty(), division);
    let ghost mut evs: Seq<MidiEvent> = Seq::empty();
    assert(midi_parse(data@) == Some(Some((division, goal->0))));
    while pos < track_end && out_idx < 256
        invariant
            data@.len() <= 0x7fff_ffff,
            goal is Some,
            midi_parse(data@) == Some(Some((division, goal->0))),
            goal == midi_walk(data@, pos as int, track_end as int, time as int, last_status, evs, division),
            out_idx == evs.len(),
            out_idx <= 256,
            forall|k: int| 0 <= k < evs.len() ==> (#[trigger] events@[k]).note == evs[k].note
                && events@[k].duration == evs[k].duration,
        ensures
            goal == Some(evs),
            out_idx == evs.len(),
            forall|k: int| 0 <= k < evs.len() ==> (#[trigger] events@[k]).note == evs[k].note
                && events@[k].duration == evs[k].duration,
        decreases usize::MAX - pos,
    {
        if pos >= data.len() {
            break;
        }
        let ghost p0 = pos as int;
        let ghost t0 = time as int;
        proof {
            lemma_varlen(data@, pos as int, 0);
            lemma_varlen_shift(data@, pos as int, 0, 0);
        }
        let (delta, delta_len) = read_varlen(&data[pos..data.len()]);
        pos = pos + delta_len;
        time = time + delta;
        let mut status = data[pos];
        let b = status;
        if status < 0x80 {
            status = last_status;
        } else {
            pos = pos + 1;
            last_status = status;
        }
        if status & 0xF0 == 0x90 {
            let note = data[pos];
            let velocity = data[pos + 1];
            pos = pos + 2;
            if velocity > 0 {
                let ms = ticks_to_ms(240, division);
                events[out_idx] = MidiEvent { note, duration: ms };
                out_idx = out_idx + 1;
                proof {
                    evs = evs.push(note_event(note, division));
                }
            }
        } else if status & 0xF0 == 0x80 {
            pos = pos + 2;
        } else if status == 0xFF {
            let _meta_type = data[pos];
            proof {
                lemma_varlen(data@, pos + 1, 0);
                lemma_varlen_shift(data@, pos + 1, 0, 0);
            }
            let (len, len_len) = read_varlen(&data[pos + 1..data.len()]);
            pos = pos + 1 + len_len + len as usize;
        } else {
            pos = pos + 2;
        }
    }
    Some(MidiFile { division, events, event_count: out_idx, raw: data })
}

} // verus!
