//! The outcome of a start-up step and its line in the boot log.
use vstd::prelude::*;
use crate::init::buffer::{Buffer, BUFFER_SIZE};
use crate::init::color::Color;

verus! {

/// The outcome of one start-up step.
#[derive(Clone, Copy, PartialEq, Eq, Structural)]
pub enum InitResult {
    Unknown,
    Passed,
    Failed,
    Skipped,
}

/// The six-character label of each outcome.
pub open spec fn result_label(r: InitResult) -> Seq<u8> {
    match r {
        InitResult::Unknown => seq![0x55u8, 0x4e, 0x4b, 0x4e, 0x57, 0x4e],
        InitResult::Passed => seq![0x20u8, 0x20, 0x4f, 0x4b, 0x20, 0x20],
        InitResult::Failed => seq![0x20u8, 0x46, 0x41, 0x49, 0x4c, 0x20],
        InitResult::Skipped => seq![0x20u8, 0x53, 0x4b, 0x49, 0x50, 0x20],
    }
}

/// The color each outcome is shown in.
pub open spec fn result_color(r: InitResult) -> Color {
    match r {
        InitResult::Unknown => Color::Cyan,
        InitResult::Passed => Color::Green,
        InitResult::Failed => Color::Red,
        InitResult::Skipped => Color::Yellow,
    }
}

impl InitResult {
    /// The label ("UNKNWN", "  OK  ", " FAIL ", " SKIP ") and color of the outcome.
    pub fn format(&self) -> (r: ([u8; 6], Color))
        ensures
            r.0@ == result_label(*self),
            r.1 == result_color(*self),
    {
        let r: ([u8; 6], Color) = match self {
            InitResult::Unknown => ([0x55, 0x4e, 0x4b, 0x4e, 0x57, 0x4e], Color::Cyan),
            InitResult::Passed => ([0x20, 0x20, 0x4f, 0x4b, 0x20, 0x20], Color::Green),
            InitResult::Failed => ([0x20, 0x46, 0x41, 0x49, 0x4c, 0x20], Color::Red),
            InitResult::Skipped => ([0x20, 0x53, 0x4b, 0x49, 0x50, 0x20], Color::Yellow),
        };
        assert(r.0@ =~= result_label(*self));
        r
    }
}

/// Width that every message is padded to with dots.
pub const MAX_MSG_LEN: usize = 60;

/// The boot log line of a step: the message, dots up to 60 columns, then
/// ` [LABEL]` and a newline.
pub open spec fn result_line(message: Seq<u8>, r: InitResult) -> Seq<u8> {
    message + Seq::new((MAX_MSG_LEN - message.len()) as nat, |i: int| 0x2eu8) + seq![0x20u8, 0x5b]
        + result_label(r) + seq![0x5du8, 0x0a]
}

/// Appends the boot log line of `message` and `result` to `buffer`, as far
/// as it fits.
pub fn print_result(buffer: &mut Buffer, message: &[u8], result: InitResult)
    requires
        message@.len() <= MAX_MSG_LEN,
        old(buffer).pos <= BUFFER_SIZE,
    ensures
        final(buffer).pos <= BUFFER_SIZE,
        final(buffer)@ == old(buffer)@ + result_line(message@, result).take(
            if result_line(message@, result).len() <= BUFFER_SIZE - old(buffer).pos {
                result_line(message@, result).len() as int
            } else {
                BUFFER_SIZE - old(buffer).pos
            },
        ),
{
    let mut line: Vec<u8> = Vec::new();
    let mut i: usize = 0;
    while i < message.len()
        invariant
            i <= message@.len(),
            line@ == message@.take(i as int),
        decreases message@.len() - i,
    {
        line.push(message[i]);
        i = i + 1;
        assert(line@ =~= message@.take(i as int));
    }
    let mut k: usize = 0;
    let dots = MAX_MSG_LEN - message.len();
    while k < dots
        invariant
            dots == MAX_MSG_LEN - message@.len(),
            k <= dots,
            line@ == message@ + Seq::new(k as nat, |j: int| 0x2eu8),
        decreases dots - k,
    {
        line.push(0x2e);
        k = k + 1;
        assert(line@ =~= message@ + Seq::new(k as nat, |j: int| 0x2eu8));
    }
    let label = result.format().0;
    line.push(0x20);
    line.push(0x5b);
    let mut t: usize = 0;
    let ghost head = line@;
    while t < 6
        invariant
            t <= 6,
            label@ == result_label(result),
            line@ == head + label@.take(t as int),
        decreases 6 - t,
    {
        line.push(label[t]);
        t = t + 1;
        assert(line@ =~= head + label@.take(t as int));
    }
    line.push(0x5d);
    line.push(0x0a);
    assert(line@ =~= result_line(message@, result));
    buffer.append(line.as_slice());
}

} // verus!
