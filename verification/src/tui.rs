//! The text-mode user interface: the 80x25 screen of character cells and
//! the events a keyboard scancode becomes.
use vstd::prelude::*;

verus! {

/// Columns of the text screen.
pub const SCREEN_WIDTH: usize = 80;

/// Rows of the text screen.
pub const SCREEN_HEIGHT: usize = 25;

/// What a key press means to an application.
#[derive(Clone, Copy, PartialEq, Eq, Structural)]
pub enum TuiEvent {
    Key(u8),
    Quit,
}

impl TuiEvent {
    /// Escape (scancode 0x01) quits; every other scancode is a key.
    pub fn from_scancode(scancode: u8) -> (r: TuiEvent)
        ensures
            r == (if scancode == 0x01 { TuiEvent::Quit } else { TuiEvent::Key(scancode) }),
    {
        if scancode == 0x01 {
            TuiEvent::Quit
        } else {
            TuiEvent::Key(scancode)
        }
    }
}

/// The text screen: cell (x, y) is the character byte at offset
/// `2 * (y * 80 + x)` of video memory, its attribute byte right after.
pub struct Screen;

/// Offset of the character byte of cell (x, y).
pub open spec fn cell_offset(x: int, y: int) -> int {
    2 * (y * 80 + x)
}

/// The byte writes that `clear` makes, for the first `n` cells in order.
pub open spec fn clear_writes(n: int, attr: u8) -> Seq<(usize, u8)>
    decreases n,
{
    if n <= 0 {
        Seq::empty()
    } else {
        clear_writes(n - 1, attr).push(((2 * (n - 1)) as usize, 0x20u8)).push(((2 * (n - 1) + 1) as usize, attr))
    }
}

impl Screen {
    /// The two byte writes that put `chr` with attribute `attr` in cell (x, y).
    pub fn write_char(x: usize, y: usize, chr: u8, attr: u8) -> (r: [(usize, u8); 2])
        requires
            cell_offset(x as int, y as int) + 1 <= usize::MAX,
        ensures
            r@ == seq![(cell_offset(x as int, y as int) as usize, chr), ((cell_offset(x as int, y as int) + 1) as usize, attr)],
    {
        assert(0 <= y * 80 + x) by (nonlinear_arith);
        let offset = 2 * (y * SCREEN_WIDTH + x);
        [(offset, chr), (offset + 1, attr)]
    }

    /// The byte writes that fill every cell with a space in attribute
    /// `attr`, row by row.
    pub fn clear(attr: u8) -> (r: Vec<(usize, u8)>)
        ensures
            r@ == clear_writes(2000, attr),
    {
        let mut out: Vec<(usize, u8)> = Vec::new();
        let mut y: usize = 0;
        while y < SCREEN_HEIGHT
            invariant
                y <= 25,
                out@ == clear_writes((y * 80) as int, attr),
            decreases 25 - y,
        {
            let mut x: usize = 0;
            while x < SCREEN_WIDTH
                invariant
                    y < 25,
                    x <= 80,
                    out@ == clear_writes((y * 80 + x) as int, attr),
                decreases 80 - x,
            {
                let w = Self::write_char(x, y, 0x20, attr);
                out.push(w[0]);
                out.push(w[1]);
                x = x + 1;
            }
            y = y + 1;
        }
        out
    }
}

/// A piece of the interface: it draws itself and takes events.
pub trait Widget {
    /// The screen writes that draw the widget with its top-left corner at
    /// cell (x, y).
    fn render(&self, x: usize, y: usize) -> Vec<(usize, u8)>;

    /// Takes one event.
    fn handle_event(&mut self, event: TuiEvent);
}

/// An application: a root widget driven by key presses until Escape.
pub struct TuiApp<W: Widget> {
    pub root: Option<W>,
}

impl<W: Widget> TuiApp<W> {
    /// An application without a root widget.
    pub fn new() -> (r: Self)
        ensures
            r.root is None,
    {
        TuiApp { root: None }
    }

    /// Makes `root` the widget the application draws and feeds.
    pub fn set_root(&mut self, root: W)
        ensures
            final(self).root == Some(root),
    {
        self.root = Some(root);
    }

    /// The first frame: the cleared screen and the root drawn at (0, 0).
    pub fn start(&self) -> (r: Vec<(usize, u8)>)
        ensures
            r@.len() >= 4000,
            r@.subrange(0, 4000) == clear_writes(2000, 0x07),
            self.root is None ==> r@.len() == 4000,
            self.root matches Some(root) ==> exists|d: Vec<(usize, u8)>| call_ensures(W::render, (&root, 0usize, 0usize), d)
                && r@ == clear_writes(2000, 0x07) + d@,
    {
        self.frame()
    }

    fn frame(&self) -> (r: Vec<(usize, u8)>)
        ensures
            r@.len() >= 4000,
            r@.subrange(0, 4000) == clear_writes(2000, 0x07),
            self.root is None ==> r@ == clear_writes(2000, 0x07),
            self.root matches Some(root) ==> exists|d: Vec<(usize, u8)>| call_ensures(W::render, (&root, 0usize, 0usize), d)
                && r@ == clear_writes(2000, 0x07) + d@,
    {
        let mut out = Screen::clear(0x07);
        proof {
            lemma_clear_writes_len(2000, 0x07);
        }
        let ghost cleared = out@;
        match &self.root {
            Some(root) => {
                let mut drawn = root.render(0, 0);
                let ghost d = drawn;
                out.append(&mut drawn);
                assert(out@.subrange(0, 4000) =~= cleared);
                assert(out@ =~= cleared + d@);
            },
            None => {
                assert(out@.subrange(0, 4000) =~= cleared);
                assert(out@ =~= cleared);
            },
        }
        out
    }

    /// One turn of the application's loop: the scancode becomes an event
    /// (Escape quits) and goes to the root widget; after Escape the loop
    /// ends (None), else the next frame follows: the cleared screen and the
    /// root drawn again.
    pub fn step(&mut self, scancode: u8) -> (r: Option<Vec<(usize, u8)>>)
        ensures
            r is None <==> scancode == 0x01,
            final(self).root is Some <==> old(self).root is Some,
            r matches Some(w) ==> w@.len() >= 4000 && w@.subrange(0, 4000) == clear_writes(
                2000,
                0x07,
            ),
            r matches Some(w) ==> (final(self).root matches Some(rt) ==> exists|d: Vec<(usize, u8)>|
                call_ensures(W::render, (&rt, 0usize, 0usize), d) && w@ == clear_writes(2000, 0x07) + d@),
            final(self).root is None ==> (r matches Some(w) ==> w@ == clear_writes(2000, 0x07)),
            old(self).root matches Some(r0) ==> exists|m: &mut W| *m == r0 && final(self).root == Some(mut_ref_future(m))
                && call_ensures(W::handle_event, (m, if scancode == 0x01 { TuiEvent::Quit } else { TuiEvent::Key(scancode) }), ()),
    {
        let event = TuiEvent::from_scancode(scancode);
        match &mut self.root {
            Some(root) => {
                root.handle_event(event);
            },
            None => {},
        }
        if scancode == 0x01 {
            return None;
        }
        Some(self.frame())
    }
}

/// `clear_writes(n, attr)` holds two writes per cell.
pub proof fn lemma_clear_writes_len(n: int, attr: u8)
    requires
        n >= 0,
    ensures
        clear_writes(n, attr).len() == 2 * n,
    decreases n,
{
    if n > 0 {
        lemma_clear_writes_len(n - 1, attr);
    }
}

} // verus!
