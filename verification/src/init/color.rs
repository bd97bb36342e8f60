//! The sixteen text-mode colors.
use vstd::prelude::*;

verus! {

/// A VGA text-mode color.
#[derive(Clone, Copy, PartialEq, Eq, Structural)]
pub enum Color {
    Black,
    Blue,
    Green,
    Cyan,
    Red,
    Purple,
    DarkYellow,
    LightGray,
    DarkGray,
    LightBlue,
    LightGreen,
    DarkCyan,
    LightRed,
    Pink,
    Yellow,
    White,
}

/// The palette index of each color.
pub open spec fn color_code(c: Color) -> u8 {
    match c {
        Color::Black => 0x0,
        Color::Blue => 0x1,
        Color::Green => 0x2,
        Color::Cyan => 0x3,
        Color::Red => 0x4,
        Color::Purple => 0x5,
        Color::DarkYellow => 0x6,
        Color::LightGray => 0x7,
        Color::DarkGray => 0x8,
        Color::LightBlue => 0x9,
        Color::LightGreen => 0xa,
        Color::DarkCyan => 0xb,
        Color::LightRed => 0xc,
        Color::Pink => 0xd,
        Color::Yellow => 0xe,
        Color::White => 0xf,
    }
}

impl Color {
    /// The palette index of the color.
    pub fn code(self) -> (r: u8)
        ensures
            r == color_code(self),
    {
        match self {
            Color::Black => 0x0,
            Color::Blue => 0x1,
            Color::Green => 0x2,
            Color::Cyan => 0x3,
            Color::Red => 0x4,
            Color::Purple => 0x5,
            Color::DarkYellow => 0x6,
            Color::LightGray => 0x7,
            Color::DarkGray => 0x8,
            Color::LightBlue => 0x9,
            Color::LightGreen => 0xa,
            Color::DarkCyan => 0xb,
            Color::LightRed => 0xc,
            Color::Pink => 0xd,
            Color::Yellow => 0xe,
            Color::White => 0xf,
        }
    }
}

/// The attribute byte of a character cell: background in the high nibble,
/// foreground in the low one.
pub open spec fn attribute(fg: Color, bg: Color) -> u8 {
    (color_code(bg) * 16 + color_code(fg)) as u8
}

/// The attribute byte for `fg` on `bg`.
pub fn color_attribute(fg: Color, bg: Color) -> (r: u8)
    ensures
        r == attribute(fg, bg),
{
    bg.code() * 16 + fg.code()
}

} // verus!
