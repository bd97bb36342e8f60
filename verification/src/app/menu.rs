//! The snake menu: its framed window and its items as the character cells
//! they set, and the moves of the selection.
use vstd::prelude::*;

verus! {

/// A character cell set on the text screen: column, row, character, attribute.
pub type Cell = (usize, usize, u8, u8);


/// The cells of the top and bottom borders for columns 1..=n.
pub open spec fn horizontal_cells(x: int, y: int, h: int, n: int) -> Seq<Cell>
    decreases n,
{
    if n <= 0 {
        Seq::empty()
    } else {
        horizontal_cells(x, y, h, n - 1).push(((x + n) as usize, y as usize, 0xCDu8, 0x0Eu8)).push(
            ((x + n) as usize, (y + h - 1) as usize, 0xCDu8, 0x0Eu8),
        )
    }
}

/// The cells of the left and right borders for rows 1..=n.
pub open spec fn vertical_cells(x: int, y: int, w: int, n: int) -> Seq<Cell>
    decreases n,
{
    if n <= 0 {
        Seq::empty()
    } else {
        vertical_cells(x, y, w, n - 1).push((x as usize, (y + n) as usize, 0xBAu8, 0x0Eu8)).push(
            ((x + w - 1) as usize, (y + n) as usize, 0xBAu8, 0x0Eu8),
        )
    }
}

/// The cells of the first `n` title bytes from column `start`.
pub open spec fn title_text_cells(start: int, y: int, title: Seq<u8>, n: int) -> Seq<Cell>
    decreases n,
{
    if n <= 0 {
        Seq::empty()
    } else {
        title_text_cells(start, y, title, n - 1).push(((start + n - 1) as usize, y as usize, title[n - 1], 0x0Eu8))
    }
}

/// Column where a title of `len` bytes starts, centered in the window.
pub open spec fn title_start(x: int, w: int, len: int) -> int {
    x + (w - len) / 2
}

/// The cells of a centered title "[ title ]" on the top border.
pub open spec fn title_cells(x: int, y: int, w: int, title: Seq<u8>) -> Seq<Cell> {
    let s = title_start(x, w, title.len() as int);
    seq![((s - 2) as usize, y as usize, 0x5Bu8, 0x0Eu8), ((s - 1) as usize, y as usize, 0x20u8, 0x0Eu8)]
        + title_text_cells(s, y, title, title.len() as int)
        + seq![((s + title.len()) as usize, y as usize, 0x20u8, 0x0Eu8), ((s + title.len() + 1) as usize, y as usize, 0x5Du8, 0x0Eu8)]
}

/// All the cells of a window at (x, y) of `w` by `h` cells, in the order
/// they are set: corners, horizontal borders, vertical borders, title.
pub open spec fn window_cells(x: int, y: int, w: int, h: int, title: Option<Seq<u8>>) -> Seq<Cell> {
    let corners = seq![
        (x as usize, y as usize, 0xC9u8, 0x0Eu8),
        ((x + w - 1) as usize, y as usize, 0xBBu8, 0x0Eu8),
        (x as usize, (y + h - 1) as usize, 0xC8u8, 0x0Eu8),
        ((x + w - 1) as usize, (y + h - 1) as usize, 0xBCu8, 0x0Eu8),
    ];
    let frame = corners + horizontal_cells(x, y, h, w - 2) + vertical_cells(x, y, w, h - 2);
    match title {
        Some(t) => frame + title_cells(x, y, w, t),
        None => frame,
    }
}

/// A window that can be drawn: at least 2 by 2, coordinates that fit, and
/// a title no wider than the window that leaves room for its brackets.
pub open spec fn window_fits(x: int, y: int, w: int, h: int, title: Option<Seq<u8>>) -> bool {
    &&& w >= 2 && h >= 2
    &&& x + w + 2 <= usize::MAX && y + h <= usize::MAX
    &&& title matches Some(t) ==> t.len() <= w && title_start(x, w, t.len() as int) >= 2
}

/// The cells that drawing a framed window sets, with an optional title
/// centered in brackets on its top border.
pub fn draw_window(x: usize, y: usize, width: usize, height: usize, title: Option<&str>) -> (r: Vec<Cell>)
    requires
        title matches Some(t) ==> t.is_ascii(),
        window_fits(x as int, y as int, width as int, height as int, match title {
            Some(t) => Some(t@.map_values(|c: char| c as u8)),
            None => None,
        }),
    ensures
        r@ == window_cells(x as int, y as int, width as int, height as int, match title {
            Some(t) => Some(t@.map_values(|c: char| c as u8)),
            None => None,
        }),
{
    let mut out: Vec<Cell> = Vec::new();
    out.push((x, y, 0xC9, 0x0E));
    out.push((x + width - 1, y, 0xBB, 0x0E));
    out.push((x, y + height - 1, 0xC8, 0x0E));
    out.push((x + width - 1, y + height - 1, 0xBC, 0x0E));
    let ghost corners = out@;
    let mut i: usize = 1;
    while i < width - 1
        invariant
            width >= 2, height >= 2,
            x + width + 2 <= usize::MAX, y + height <= usize::MAX,
            1 <= i <= width - 1,
            out@ == corners + horizontal_cells(x as int, y as int, height as int, i - 1),
        decreases width - i,
    {
        out.push((x + i, y, 0xCD, 0x0E));
        out.push((x + i, y + height - 1, 0xCD, 0x0E));
        assert(out@ =~= corners + horizontal_cells(x as int, y as int, height as int, i as int));
        i = i + 1;
    }
    let ghost frame_h = out@;
    i = 1;
    while i < height - 1
        invariant
            width >= 2, height >= 2,
            x + width + 2 <= usize::MAX, y + height <= usize::MAX,
            1 <= i <= height - 1,
            out@ == frame_h + vertical_cells(x as int, y as int, width as int, i - 1),
        decreases height - i,
    {
        out.push((x, y + i, 0xBA, 0x0E));
        out.push((x + width - 1, y + i, 0xBA, 0x0E));
        assert(out@ =~= frame_h + vertical_cells(x as int, y as int, width as int, i as int));
        i = i + 1;
    }
    proof {
        assert(out@ =~= corners + horizontal_cells(x as int, y as int, height as int, width - 2)
            + vertical_cells(x as int, y as int, width as int, height - 2));
    }
    match title {
        Some(t) => {
            let bytes = t.as_bytes();
            let ghost tb = t@.map_values(|c: char| c as u8);
            assert(bytes@ =~= tb);
            let ghost frame = out@;
            let start = x + (width - bytes.len()) / 2;
            out.push((start - 2, y, 0x5B, 0x0E));
            out.push((start - 1, y, 0x20, 0x0E));
            let ghost head = out@;
            let mut j: usize = 0;
            while j < bytes.len()
                invariant
                    bytes@ == tb,
                    start == title_start(x as int, width as int, tb.len() as int),
                    tb.len() <= width,
                    x + width + 2 <= usize::MAX,
                    j <= bytes@.len(),
                    out@ == head + title_text_cells(start as int, y as int, tb, j as int),
                decreases bytes.len() - j,
            {
                out.push((start + j, y, bytes[j], 0x0E));
                assert(out@ =~= head + title_text_cells(start as int, y as int, tb, j + 1));
                j = j + 1;
            }
            out.push((start + j, y, 0x20, 0x0E));
            out.push((start + j + 1, y, 0x5D, 0x0E));
            proof {
                assert(out@ =~= frame + title_cells(x as int, y as int, width as int, tb));
            }
        },
        None => {},
    }
    out
}

/// Scan code of the Up arrow.
pub const KEY_UP: u8 = 0x48;

/// Scan code of the Down arrow.
pub const KEY_DOWN: u8 = 0x50;

/// Scan code of Escape.
pub const KEY_ESC: u8 = 0x01;

/// Scan code of Enter.
pub const KEY_ENTER: u8 = 0x1C;

/// Number of entries of the menu: new game, high scores, exit.
pub const MENU_ITEMS: usize = 3;

/// What the menu does after a key: draw itself again, start a game, show
/// the high scores, or leave.
pub enum MenuAction {
    Redraw,
    NewGame,
    HighScores,
    Exit,
}

/// The menu's selected entry.
pub struct SnakeMenu {
    pub selected: usize,
}

impl SnakeMenu {
    /// The first entry selected.
    pub fn new() -> (r: Self)
        ensures
            r.selected == 0,
    {
        SnakeMenu { selected: 0 }
    }

    /// Down and Up move the selection round the three entries; Enter on
    /// the first starts a game, on the second asks for the high scores and
    /// on the last leaves, selecting the first entry again; Escape leaves
    /// as it is; any other key only redraws.
    pub fn on_key(&mut self, scancode: u8) -> (r: MenuAction)
        requires
            old(self).selected < MENU_ITEMS,
        ensures
            final(self).selected < MENU_ITEMS,
            scancode == KEY_DOWN ==> r is Redraw && final(self).selected == (old(self).selected + 1)
                % 3,
            scancode == KEY_UP ==> r is Redraw && final(self).selected == (if old(self).selected
                == 0 {
                2
            } else {
                old(self).selected - 1
            }),
            scancode == KEY_ENTER ==> {
                &&& old(self).selected == 0 ==> r is NewGame && final(self).selected == 0
                &&& old(self).selected == 1 ==> r is HighScores && final(self).selected == 1
                &&& old(self).selected == 2 ==> r is Exit && final(self).selected == 0
            },
            scancode == KEY_ESC ==> r is Exit && final(self).selected == old(self).selected,
            !(scancode == KEY_DOWN || scancode == KEY_UP || scancode == KEY_ENTER || scancode
                == KEY_ESC) ==> r is Redraw && final(self).selected == old(self).selected,
    {
        if scancode == KEY_DOWN {
            self.selected = (self.selected + 1) % MENU_ITEMS;
            MenuAction::Redraw
        } else if scancode == KEY_UP {
            if self.selected == 0 {
                self.selected = MENU_ITEMS - 1;
            } else {
                self.selected = self.selected - 1;
            }
            MenuAction::Redraw
        } else if scancode == KEY_ENTER {
            if self.selected == 0 {
                MenuAction::NewGame
            } else if self.selected == 1 {
                MenuAction::HighScores
            } else {
                self.selected = 0;
                MenuAction::Exit
            }
        } else if scancode == KEY_ESC {
            MenuAction::Exit
        } else {
            MenuAction::Redraw
        }
    }

    /// The high scores were shown: the first entry is selected again.
    pub fn scores_shown(&mut self)
        ensures
            final(self).selected == 0,
    {
        self.selected = 0;
    }
}

/// The cells of the first `n` bytes of item `i` at row `y + 2 i`: before
/// each byte the selection mark two columns left of `x` (an arrow on the
/// selected item, a blank otherwise), then the byte, highlighted on the
/// selected item.
pub open spec fn item_cells(x: int, y: int, item: Seq<u8>, i: int, selected: int, n: int) -> Seq<Cell>
    decreases n,
{
    if n <= 0 {
        Seq::empty()
    } else {
        let row = (y + 2 * i) as usize;
        let mark: Cell = if i == selected {
            ((x - 2) as usize, row, 0x1Au8, 0x0Eu8)
        } else {
            ((x - 2) as usize, row, 0x20u8, 0x07u8)
        };
        let text: Cell = ((x + n - 1) as usize, row, item[n - 1], if i == selected {
            0xE0u8
        } else {
            0x07u8
        });
        item_cells(x, y, item, i, selected, n - 1) + seq![mark, text]
    }
}

/// The cells of the first `k` items.
pub open spec fn menu_cells(x: int, y: int, items: Seq<Seq<u8>>, selected: int, k: int) -> Seq<Cell>
    decreases k,
{
    if k <= 0 {
        Seq::empty()
    } else {
        menu_cells(x, y, items, selected, k - 1) + item_cells(
            x,
            y,
            items[k - 1],
            k - 1,
            selected,
            items[k - 1].len() as int,
        )
    }
}

/// The cells that drawing the items at (x, y), one every other row, sets.
pub fn draw_menu(x: usize, y: usize, items: &[&str], selected: usize) -> (r: Vec<Cell>)
    requires
        x >= 2,
        y + 2 * items@.len() <= usize::MAX,
        forall|i: int| 0 <= i < items@.len() ==> (#[trigger] items@[i]).is_ascii(),
        forall|i: int| 0 <= i < items@.len() ==> x + (#[trigger] items@[i])@.len() <= usize::MAX,
    ensures
        r@ == menu_cells(
            x as int,
            y as int,
            Seq::new(items@.len(), |i: int| items@[i]@.map_values(|c: char| c as u8)),
            selected as int,
            items@.len() as int,
        ),
{
    let ghost all = Seq::new(items@.len(), |i: int| items@[i]@.map_values(|c: char| c as u8));
    let mut out: Vec<Cell> = Vec::new();
    let mut i: usize = 0;
    while i < items.len()
        invariant
            x >= 2,
            y + 2 * items@.len() <= usize::MAX,
            forall|k: int| 0 <= k < items@.len() ==> (#[trigger] items@[k]).is_ascii(),
            forall|k: int| 0 <= k < items@.len() ==> x + (#[trigger] items@[k])@.len() <= usize::MAX,
            all == Seq::new(items@.len(), |k: int| items@[k]@.map_values(|c: char| c as u8)),
            i <= items@.len(),
            out@ == menu_cells(x as int, y as int, all, selected as int, i as int),
        decreases items.len() - i,
    {
        let item = items[i];
        let bytes = item.as_bytes();
        assert(bytes@ =~= all[i as int]);
        let row = y + 2 * i;
        let ghost before = out@;
        let mut j: usize = 0;
        while j < bytes.len()
            invariant
                x >= 2,
                x + bytes@.len() <= usize::MAX,
                bytes@ == all[i as int],
                row == y + 2 * i,
                j <= bytes@.len(),
                out@ == before + item_cells(x as int, y as int, all[i as int], i as int, selected as int, j as int),
            decreases bytes.len() - j,
        {
            if i == selected {
                out.push((x - 2, row, 0x1A, 0x0E));
            } else {
                out.push((x - 2, row, 0x20, 0x07));
            }
            let attr: u8 = if i == selected {
                0xE0
            } else {
                0x07
            };
            out.push((x + j, row, bytes[j], attr));
            assert(out@ =~= before + item_cells(x as int, y as int, all[i as int], i as int, selected as int, j + 1));
            j = j + 1;
        }
        i = i + 1;
    }
    out
}

} // verus!
