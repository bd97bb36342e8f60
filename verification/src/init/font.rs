//! PC Screen Font (PSF1 and PSF2) headers, and the pixels a glyph lights
//! in a linear 32-bit framebuffer whose lines are 1024 pixels long.
use vstd::prelude::*;
use crate::fs::fat12::entry::le32;

verus! {

/// Pixels per framebuffer line: the 4096-byte pitch over 4-byte pixels.
pub const LINE_PIXELS: usize = 1024;

/// A font: the glyph bitmaps, one after another, and their geometry.
pub struct PsfFont<'a> {
    pub glyphs: &'a [u8],
    pub bytes_per_glyph: usize,
    pub height: usize,
    pub width: usize,
}

/// `s` starts with the PSF1 magic 0x36 0x04.
pub open spec fn is_psf1(s: Seq<u8>) -> bool {
    s.len() >= 2 && s[0] == 0x36 && s[1] == 0x04
}

/// `s` starts with the PSF2 magic 0x72 0xB5 0x4A 0x86.
pub open spec fn is_psf2(s: Seq<u8>) -> bool {
    s.len() >= 4 && s[0] == 0x72 && s[1] == 0xB5 && s[2] == 0x4A && s[3] == 0x86
}

/// A font file whose header can be read: a PSF1 file holds its 4-byte
/// header, a PSF2 file its 32-byte header and no header length beyond its end.
pub open spec fn psf_readable(s: Seq<u8>) -> bool {
    &&& is_psf1(s) ==> s.len() >= 4
    &&& !is_psf1(s) && is_psf2(s) ==> s.len() >= 32 && le32(s, 8) <= s.len()
}

fn read_u32_le(s: &[u8], off: usize) -> (r: u32)
    requires
        off + 4 <= s@.len(),
    ensures
        r == le32(s@, off as int),
{
    let lo = s[off] as u32 + (s[off + 1] as u32) * 256;
    let hi = s[off + 2] as u32 + (s[off + 3] as u32) * 256;
    lo + hi * 65536
}

/// Reads the header of a PSF1 or PSF2 font: PSF1 glyphs follow a 4-byte
/// header, are 8 pixels wide and one byte per row, byte 3 giving their
/// size; PSF2 gives the header length, the glyph size, the height and the
/// width as little-endian words at 8, 20, 24 and 28. None for another magic.
pub fn parse_psf(psf: &[u8]) -> (r: Option<PsfFont<'_>>)
    requires
        psf_readable(psf@),
    ensures
        r is Some <==> is_psf1(psf@) || is_psf2(psf@),
        is_psf1(psf@) ==> (r matches Some(f) && f.glyphs@ == psf@.subrange(4, psf@.len() as int)
            && f.bytes_per_glyph == psf@[3] && f.height == psf@[3] && f.width == 8),
        !is_psf1(psf@) && is_psf2(psf@) ==> (r matches Some(f)
            && f.glyphs@ == psf@.subrange(le32(psf@, 8), psf@.len() as int)
            && f.bytes_per_glyph == le32(psf@, 20) && f.height == le32(psf@, 24) && f.width == le32(psf@, 28)),
{
    if psf.len() >= 2 && psf[0] == 0x36 && psf[1] == 0x04 {
        let glyph_size = psf[3] as usize;
        Some(PsfFont { glyphs: slice_from(psf, 4), bytes_per_glyph: glyph_size, height: glyph_size, width: 8 })
    } else if psf.len() >= 4 && psf[0] == 0x72 && psf[1] == 0xb5 && psf[2] == 0x4a && psf[3] == 0x86 {
        let header_len = read_u32_le(psf, 8) as usize;
        let glyph_size = read_u32_le(psf, 20) as usize;
        let height = read_u32_le(psf, 24) as usize;
        let width = read_u32_le(psf, 28) as usize;
        Some(PsfFont { glyphs: slice_from(psf, header_len), bytes_per_glyph: glyph_size, height, width })
    } else {
        None
    }
}

fn slice_from(s: &[u8], start: usize) -> (r: &[u8])
    requires
        start <= s@.len(),
    ensures
        r@ == s@.subrange(start as int, s@.len() as int),
{
    vstd::slice::slice_subrange(s, start, s.len())
}

/// Bit `7 - col` of a glyph row: the pixel in column `col` is lit.
pub open spec fn lit(row_byte: u8, col: int) -> bool {
    (row_byte >> ((7 - col) as u8)) & 1 != 0
}

/// The glyph of `ch` lies wholly within the font's glyph data.
pub open spec fn glyph_present(font: &PsfFont, ch: u8) -> bool {
    ch * font.bytes_per_glyph + font.bytes_per_glyph <= font.glyphs@.len()
}

/// Framebuffer index written for the pixel in row `row`, column `col` of
/// a glyph drawn at (`x`, `y`): one past the pixel's own index.
pub open spec fn pixel_index(x: int, y: int, row: int, col: int) -> int {
    (y + row) * 1024 + (x + col) + 1
}

/// The indices written for the first `n` pixels of the glyph of `ch`, row
/// by row: those whose bit is set.
pub open spec fn glyph_pixels(font: &PsfFont, ch: u8, x: int, y: int, n: int) -> Seq<usize>
    decreases n,
{
    if n <= 0 || font.width == 0 {
        Seq::empty()
    } else {
        let k = n - 1;
        let row = k / font.width as int;
        let col = k % font.width as int;
        let prev = glyph_pixels(font, ch, x, y, k);
        if lit(font.glyphs@[ch * font.bytes_per_glyph + row], col) {
            prev.push(pixel_index(x, y, row, col) as usize)
        } else {
            prev
        }
    }
}

/// The indices the glyph of `ch` lights when drawn at (`x`, `y`); none
/// when the glyph is missing from the font.
pub open spec fn char_pixels(font: &PsfFont, ch: u8, x: int, y: int) -> Seq<usize> {
    if glyph_present(font, ch) {
        glyph_pixels(font, ch, x, y, font.height * font.width)
    } else {
        Seq::empty()
    }
}

/// A glyph can be drawn at (`x`, `y`): at most 8 columns, no more rows
/// than bytes per glyph, and every index fits a `usize`.
pub open spec fn drawable(font: &PsfFont, x: int, y: int) -> bool {
    &&& font.width <= 8
    &&& font.height <= font.bytes_per_glyph
    &&& (y + font.height) * 1024 + x + font.width + 1 <= usize::MAX
}

/// The framebuffer indices that drawing `ch` at (`x`, `y`) sets to the
/// color, in the order they are written.
pub fn draw_char_psf(font: &PsfFont, ch: u8, x: usize, y: usize) -> (r: Vec<usize>)
    requires
        drawable(font, x as int, y as int),
    ensures
        r@ == char_pixels(font, ch, x as int, y as int),
{
    let mut out: Vec<usize> = Vec::new();
    let glyph_len = font.glyphs.len();
    let bpg = font.bytes_per_glyph;
    let start = match (ch as usize).checked_mul(bpg) {
        Some(v) => v,
        None => {
            proof {
                assert(ch * bpg + bpg > font.glyphs@.len()) by (nonlinear_arith)
                    requires ch * bpg > usize::MAX, font.glyphs@.len() <= usize::MAX;
            }
            return out;
        },
    };
    if start > font.glyphs.len() || bpg > font.glyphs.len() - start {
        return out;
    }
    let w = font.width;
    let h = font.height;
    if w == 0 {
        assert(char_pixels(font, ch, x as int, y as int) =~= Seq::<usize>::empty());
        return out;
    }
    let mut row: usize = 0;
    while row < h
        invariant
            drawable(font, x as int, y as int),
            glyph_present(font, ch),
            glyph_len == font.glyphs@.len(),
            start == ch * bpg,
            bpg == font.bytes_per_glyph,
            w == font.width,
            h == font.height,
            w > 0,
            row <= h,
            out@ == glyph_pixels(font, ch, x as int, y as int, row * w),
        decreases h - row,
    {
        let row_byte = font.glyphs[start + row];
        let mut col: usize = 0;
        while col < w
            invariant
                drawable(font, x as int, y as int),
                glyph_present(font, ch),
                start == ch * bpg,
                bpg == font.bytes_per_glyph,
                w == font.width,
                h == font.height,
                w > 0,
                row < h,
                col <= w,
                row_byte == font.glyphs@[start + row],
                out@ == glyph_pixels(font, ch, x as int, y as int, row * w + col),
            decreases w - col,
        {
            let ghost k = row * w + col;
            assert(k / w as int == row && k % w as int == col) by (nonlinear_arith)
                requires k == row * w + col, col < w, w > 0;
            assert((y + row) * 1024 + (x + col) + 1 <= (y + h) * 1024 + x + w + 1) by (nonlinear_arith)
                requires row < h, col < w;
            if (row_byte >> ((7 - col) as u8)) & 1 != 0 {
                out.push((y + row) * LINE_PIXELS + (x + col) + 1);
            }
            assert(row * w + col + 1 == k + 1);
            col = col + 1;
        }
        assert((row + 1) * w == row * w + w) by (nonlinear_arith);
        row = row + 1;
    }
    out
}

/// The indices lit by the first `n` characters of `text`, the character
/// `i` drawn at (`x + i * width`, `y`).
pub open spec fn text_pixels(font: &PsfFont, text: Seq<u8>, x: int, y: int, n: int) -> Seq<usize>
    decreases n,
{
    if n <= 0 {
        Seq::empty()
    } else {
        text_pixels(font, text, x, y, n - 1) + char_pixels(font, text[n - 1], x + (n - 1) * font.width, y)
    }
}

/// The framebuffer indices that drawing `text` from (`x`, `y`) sets to the
/// color, character after character, each `width` pixels right of the last.
pub fn draw_text_psf(text: &[u8], font: &PsfFont, x: usize, y: usize) -> (r: Vec<usize>)
    requires
        font.width <= 8,
        font.height <= font.bytes_per_glyph,
        (y + font.height) * 1024 + x + text@.len() * font.width + 1 <= usize::MAX,
    ensures
        r@ == text_pixels(font, text@, x as int, y as int, text@.len() as int),
{
    let mut out: Vec<usize> = Vec::new();
    let mut cx = x;
    let mut i: usize = 0;
    while i < text.len()
        invariant
            font.width <= 8,
            font.height <= font.bytes_per_glyph,
            (y + font.height) * 1024 + x + text@.len() * font.width + 1 <= usize::MAX,
            i <= text@.len(),
            cx == x + i * font.width,
            out@ == text_pixels(font, text@, x as int, y as int, i as int),
        decreases text.len() - i,
    {
        assert(cx + font.width <= x + text@.len() * font.width) by (nonlinear_arith)
            requires cx == x + i * font.width, i < text@.len();
        let px = draw_char_psf(font, text[i], cx, y);
        out.append(&mut px.clone());
        assert((i + 1) * font.width == i * font.width + font.width) by (nonlinear_arith);
        cx = cx + font.width;
        i = i + 1;
    }
    out
}

} // verus!
