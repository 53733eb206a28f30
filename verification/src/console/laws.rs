//! What holds of the screen: where text goes, and what it looks like there.

use crate::console::framebuffer::{
    draw_glyph, glyph_from, glyph_of, is_control, lemma_at, lit, scrolled, TermView,
};
use vstd::prelude::*;

verus! {

/// The highest bit of a row of a glyph is its leftmost pixel.
pub proof fn lemma_lit(row: u8, col: u8)
    requires
        col < 8,
    ensures
        lit(row, col as int) == ((row >> (7 - col) as u8) & 1 == 1),
{
    let s = (7 - col) as u8;
    assert((row & (1u8 << s) != 0) == ((row >> s) & 1 == 1)) by (bit_vector)
        requires
            s < 8,
    ;
}

/// The glyph of a character is the first one of the font for it.
pub proof fn lemma_glyph_found(font: Seq<(u32, Seq<u8>)>, c: u32, k: int)
    requires
        0 <= k <= font.len(),
    ensures
        match glyph_from(font, c, k) {
            Some(rows) => exists|i: int|
                k <= i < font.len() && (#[trigger] font[i]).0 == c && font[i].1 == rows,
            None => forall|i: int| k <= i < font.len() ==> (#[trigger] font[i]).0 != c,
        },
    decreases font.len() - k,
{
    if k < font.len() && font[k].0 != c {
        lemma_glyph_found(font, c, k + 1);
    }
}

/// A character is drawn pixel by pixel as its glyph says, in the colour of the text on that of
/// the background, and nothing beside it is touched.
pub proof fn lemma_glyph_drawn(
    px: Seq<u32>,
    width: int,
    height: int,
    x: int,
    y: int,
    rows: Seq<u8>,
    fg: u32,
    bg: u32,
    col: int,
    row: int,
)
    requires
        0 < width,
        px.len() == width * height,
        0 <= col < width,
        0 <= row < height,
    ensures
        ({
            let after = draw_glyph(px, width, x, y, rows, fg, bg);
            let i = row * width + col;
            &&& 0 <= i < px.len()
            &&& after.len() == px.len()
            &&& x <= col < x + 8 && y <= row < y + rows.len() && lit(rows[row - y], col - x)
                ==> after[i] == fg
            &&& x <= col < x + 8 && y <= row < y + rows.len() && !lit(rows[row - y], col - x)
                ==> after[i] == bg
            &&& !(x <= col < x + 8 && y <= row < y + rows.len()) ==> after[i] == px[i]
        }),
{
    lemma_at(width, col, row);
    assert(row * width + col < width * height) by (nonlinear_arith)
        requires
            0 <= col < width,
            0 <= row < height,
    ;
}

/// When the text moves up, each row of pixels becomes the one that was so many rows below it,
/// and the rows at the end are empty.
pub proof fn lemma_text_moves_up(px: Seq<u32>, width: int, height: int, n: int, c: u32, col: int, row: int)
    requires
        0 < width,
        px.len() == width * height,
        0 <= n,
        0 <= col < width,
        0 <= row < height,
    ensures
        ({
            let after = scrolled(px, width, n, c);
            let i = row * width + col;
            &&& 0 <= i < px.len()
            &&& row + n < height ==> after[i] == px[(row + n) * width + col]
            &&& row + n >= height ==> after[i] == c
        }),
{
    assert(0 <= row * width + col < width * height) by (nonlinear_arith)
        requires
            0 <= col < width,
            0 <= row < height,
    ;
    assert((row + n) * width + col == row * width + col + n * width) by (nonlinear_arith);
    if row + n < height {
        assert((row + n) * width + col < width * height) by (nonlinear_arith)
            requires
                0 <= col < width,
                row + n < height,
        ;
    } else {
        assert((row + n) * width + col >= width * height) by (nonlinear_arith)
            requires
                0 <= col < width,
                row + n >= height,
        ;
    }
}

/// A new line starts at the first column of the next line; at the end of the screen the text
/// moves up by a line instead.
pub proof fn lemma_new_line(v: TermView)
    ensures
        v.on_new_line().x == 0,
        (v.y + 2) * 16 <= v.height ==> v.on_new_line().y == v.y + 1 && v.on_new_line().pixels
            == v.pixels,
        (v.y + 2) * 16 > v.height ==> v.on_new_line().y == v.y && v.on_new_line().pixels == scrolled(
            v.pixels,
            v.width,
            16,
            v.bg,
        ),
        v.on_new_line().color == v.color,
        v.on_new_line().bg == v.bg,
{
}

/// What characters do: a line feed goes to the next line, a carriage return to the start of the
/// line, a backspace one column back, and any other character is drawn where the cursor is,
/// which goes one column on.
pub proof fn lemma_characters_shown(v: TermView, font: Seq<(u32, Seq<u8>)>, c: u32)
    requires
        v.wf(),
        !v.drawn,
    ensures
        ({
            let s = v.shown(font, c);
            &&& c == 10 ==> s == v.cursor_erased().on_new_line()
            &&& c == 13 ==> s.x == 0 && s.y == v.y && s.pixels == v.pixels
            &&& (c == 8 || c == 127) && v.x > 0 ==> s.x == v.x - 1 && s.y == v.y
            &&& (c == 8 || c == 127) && v.x == 0 ==> s.x == 0 && s.pixels == v.pixels
            &&& !is_control(c) && (v.x + 1) * 8 <= v.width ==> {
                &&& s.x == v.x + 1
                &&& s.y == v.y
                &&& glyph_of(font, c) is None ==> s.pixels == v.pixels
                &&& glyph_of(font, c) matches Some(rows) ==> s.pixels == draw_glyph(
                    v.pixels,
                    v.width,
                    v.x * 8,
                    v.y * 16,
                    rows,
                    if v.reverse {
                        v.bg
                    } else {
                        v.color
                    },
                    if v.reverse {
                        v.color
                    } else {
                        v.bg
                    },
                )
            }
            &&& s.width == v.width
            &&& s.height == v.height
            &&& s.color == v.color
        }),
{
    let e = v.cursor_erased();
    assert(e.pixels == v.pixels);
}

/// A control character that means nothing is shown as a question mark.
pub proof fn lemma_control_shown(v: TermView, font: Seq<(u32, Seq<u8>)>, c: u32)
    requires
        is_control(c),
        c != 8,
        c != 10,
        c != 13,
        c != 127,
    ensures
        v.shown(font, c) == v.shown(font, 63),
{
}

/// A text that is written in two parts looks as one that is written at once.
pub proof fn lemma_written_in_parts(v: TermView, font: Seq<(u32, Seq<u8>)>, s: Seq<u8>, t: Seq<u8>)
    ensures
        v.written(font, s + t) == v.written(font, s).written(font, t),
    decreases t.len(),
{
    if t.len() == 0 {
        assert(s + t =~= s);
    } else {
        assert((s + t).drop_last() =~= s + t.drop_last());
        assert((s + t).last() == t.last());
        lemma_written_in_parts(v, font, s, t.drop_last());
    }
}

/// A byte that is a character by itself is shown at once.
pub proof fn lemma_ascii_shown(v: TermView, font: Seq<(u32, Seq<u8>)>, b: u8)
    requires
        v.pending.len() == 0,
        b < 0x80,
    ensures
        v.taken(font, b) == v.shown(font, b as u32),
{
}

/// A screen that was cleared has its cursor at its start and shows nothing but the background
/// and the cursor.
pub proof fn lemma_cleared(v: TermView, col: int, row: int)
    requires
        v.wf(),
        0 <= col < v.width,
        0 <= row < v.height,
        col >= 8 || row >= 16,
    ensures
        v.cleared().x == 0,
        v.cleared().y == 0,
        v.cleared().pixels.len() == v.pixels.len(),
        0 <= row * v.width + col < v.pixels.len(),
        v.cleared().pixels[row * v.width + col] == v.bg,
{
    lemma_at(v.width, col, row);
    assert(row * v.width + col < v.width * v.height) by (nonlinear_arith)
        requires
            0 <= col < v.width,
            0 <= row < v.height,
    ;
}

} // verus!
