//! A terminal that draws its text into a buffer of pixels.

use crate::bytes::is_utf8;
use vstd::arithmetic::div_mod::{lemma_fundamental_div_mod, lemma_fundamental_div_mod_converse};
use vstd::prelude::*;
use vstd::utf8::{decode_first_scalar, valid_utf8};

verus! {

pub const CHAR_W: usize = 8;

pub const CHAR_H: usize = 16;

/// A character and the colour it is drawn in.
#[derive(Debug, Clone, Copy, PartialEq, Eq, Structural)]
pub struct ScreenChar {
    pub char: u32,
    pub color: u32,
}

/// What a character looks like: a byte for each row, its highest bit leftmost.
pub struct Glyph {
    pub char: u32,
    pub rows: Vec<u8>,
}

pub struct Font {
    pub glyphs: Vec<Glyph>,
}

impl View for Font {
    type V = Seq<(u32, Seq<u8>)>;

    open spec fn view(&self) -> Seq<(u32, Seq<u8>)> {
        Seq::new(self.glyphs@.len(), |i: int| (self.glyphs@[i].char, self.glyphs@[i].rows@))
    }
}

/// The rows of a character in a font, from its glyph number `k` on.
pub open spec fn glyph_from(font: Seq<(u32, Seq<u8>)>, c: u32, k: int) -> Option<Seq<u8>>
    decreases font.len() - k,
{
    if k < 0 || k >= font.len() {
        None
    } else if font[k].0 == c {
        Some(font[k].1)
    } else {
        glyph_from(font, c, k + 1)
    }
}

/// The rows of a character in a font.
pub open spec fn glyph_of(font: Seq<(u32, Seq<u8>)>, c: u32) -> Option<Seq<u8>> {
    glyph_from(font, c, 0)
}

pub fn get_glyph<'a>(font: &'a Font, c: u32) -> (r: Option<&'a Vec<u8>>)
    ensures
        match r {
            Some(g) => glyph_of(font@, c) == Some(g@),
            None => glyph_of(font@, c) is None,
        },
{
    let mut k: usize = 0;
    while k < font.glyphs.len()
        invariant
            k <= font.glyphs@.len(),
            glyph_of(font@, c) == glyph_from(font@, c, k as int),
        decreases font.glyphs@.len() - k,
    {
        if font.glyphs[k].char == c {
            return Some(&font.glyphs[k].rows);
        }
        k = k + 1;
    }
    None
}

/// A terminal without escape sequences.
pub struct FramebufferTerminal {
    pub width: usize,
    pub height: usize,
    pub cursor_x: usize,
    pub cursor_y: usize,
    pub color: u32,
    pub bg_color: u32,
    pub reverse: bool,
    pub cursor_visible: bool,
    pub cursor_drawn: bool,
    pub cursor_saved_x: usize,
    pub cursor_saved_y: usize,
    pub cursor_backup: Vec<u32>,
    /// The bytes of a character of which more are to come.
    pub utf8_buf: Vec<u8>,
    pub pixels: Vec<u32>,
}

#[verifier::ext_equal]
pub struct TermView {
    pub width: int,
    pub height: int,
    pub x: int,
    pub y: int,
    pub color: u32,
    pub bg: u32,
    pub reverse: bool,
    pub visible: bool,
    pub drawn: bool,
    pub saved_x: int,
    pub saved_y: int,
    pub backup: Seq<u32>,
    pub pending: Seq<u8>,
    pub pixels: Seq<u32>,
}

impl View for FramebufferTerminal {
    type V = TermView;

    open spec fn view(&self) -> TermView {
        TermView {
            width: self.width as int,
            height: self.height as int,
            x: self.cursor_x as int,
            y: self.cursor_y as int,
            color: self.color,
            bg: self.bg_color,
            reverse: self.reverse,
            visible: self.cursor_visible,
            drawn: self.cursor_drawn,
            saved_x: self.cursor_saved_x as int,
            saved_y: self.cursor_saved_y as int,
            backup: self.cursor_backup@,
            pending: self.utf8_buf@,
            pixels: self.pixels@,
        }
    }
}

impl TermView {
    /// The screen holds a character at least, and the cursor is on it, or behind the
    /// last column.
    pub open spec fn wf(self) -> bool {
        &&& CHAR_W <= self.width <= usize::MAX - CHAR_W
        &&& CHAR_H <= self.height <= usize::MAX - CHAR_H
        &&& self.pixels.len() == self.width * self.height <= usize::MAX
        &&& 0 <= self.x
        &&& self.x * CHAR_W <= self.width
        &&& 0 <= self.y
        &&& (self.y + 1) * CHAR_H <= self.height
        &&& self.backup.len() == CHAR_W * CHAR_H
        &&& self.pending.len() <= 4
    }
}

/// Whether the pixel at `i` of a screen of that width is in a rectangle.
pub open spec fn in_rect(width: int, i: int, x: int, y: int, w: int, h: int) -> bool {
    x <= i % width < x + w && y <= i / width < y + h
}

/// The pixels after a rectangle was filled.
pub open spec fn fill(px: Seq<u32>, width: int, x: int, y: int, w: int, h: int, c: u32) -> Seq<u32> {
    Seq::new(
        px.len(),
        |i: int|
            if in_rect(width, i, x, y, w, h) {
                c
            } else {
                px[i]
            },
    )
}

/// The pixels of the character cell at `x`, `y`.
pub open spec fn cell(px: Seq<u32>, width: int, x: int, y: int) -> Seq<u32> {
    Seq::new(128, |j: int| px[(y + j / 8) * width + x + j % 8])
}

/// The pixels after a character cell was put at `x`, `y`.
pub open spec fn put_cell(px: Seq<u32>, width: int, x: int, y: int, c: Seq<u32>) -> Seq<u32> {
    Seq::new(
        px.len(),
        |i: int|
            if in_rect(width, i, x, y, 8, 16) {
                c[(i / width - y) * 8 + (i % width - x)]
            } else {
                px[i]
            },
    )
}

/// Whether a row of a glyph has a pixel in a column.
pub open spec fn lit(row: u8, col: int) -> bool {
    row & (1u8 << ((7 - col) as u8)) != 0
}

/// The pixels after a glyph was drawn at `x`, `y`, as far as it is on the screen.
pub open spec fn draw_glyph(
    px: Seq<u32>,
    width: int,
    x: int,
    y: int,
    rows: Seq<u8>,
    fg: u32,
    bg: u32,
) -> Seq<u32> {
    Seq::new(
        px.len(),
        |i: int|
            if in_rect(width, i, x, y, 8, rows.len() as int) {
                if lit(rows[i / width - y], i % width - x) {
                    fg
                } else {
                    bg
                }
            } else {
                px[i]
            },
    )
}

/// The pixels after they were moved up by `n` rows.
pub open spec fn scrolled(px: Seq<u32>, width: int, n: int, c: u32) -> Seq<u32> {
    Seq::new(
        px.len(),
        |i: int|
            if i + n * width < px.len() {
                px[i + n * width]
            } else {
                c
            },
    )
}

impl TermView {
    /// Whether the cell of a column and a row is on the screen as a whole.
    pub open spec fn on_screen(self, x: int, y: int) -> bool {
        x * 8 + 8 <= self.width && y * 16 + 16 <= self.height
    }

    pub open spec fn filled(self, x: int, y: int, w: int, h: int) -> TermView {
        TermView { pixels: fill(self.pixels, self.width, x, y, w, h, self.bg), ..self }
    }

    /// Without the cursor: what was under it is back.
    pub open spec fn cursor_erased(self) -> TermView {
        if self.drawn && self.on_screen(self.saved_x, self.saved_y) {
            TermView {
                drawn: false,
                pixels: put_cell(
                    self.pixels,
                    self.width,
                    self.saved_x * 8,
                    self.saved_y * 16,
                    self.backup,
                ),
                ..self
            }
        } else {
            TermView { drawn: false, ..self }
        }
    }

    /// With the cursor, if it is to be seen: a block of the text's colour.
    pub open spec fn cursor_drawn(self) -> TermView {
        if !self.visible {
            self
        } else {
            let e = self.cursor_erased();
            if e.on_screen(e.x, e.y) {
                TermView {
                    drawn: true,
                    saved_x: e.x,
                    saved_y: e.y,
                    backup: cell(e.pixels, e.width, e.x * 8, e.y * 16),
                    pixels: fill(e.pixels, e.width, e.x * 8, e.y * 16, 8, 16, e.color),
                    ..e
                }
            } else {
                e
            }
        }
    }

    /// On the next line; at the end of the screen the text moves up.
    pub open spec fn on_new_line(self) -> TermView {
        if (self.y + 2) * 16 > self.height {
            TermView { x: 0, pixels: scrolled(self.pixels, self.width, 16, self.bg), ..self }
        } else {
            TermView { x: 0, y: self.y + 1, ..self }
        }
    }

    /// With a character drawn at a place; one that the font lacks changes nothing.
    pub open spec fn drawn_at(
        self,
        font: Seq<(u32, Seq<u8>)>,
        x: int,
        y: int,
        c: ScreenChar,
    ) -> TermView {
        let (fg, bg) = if self.reverse {
            (self.bg, c.color)
        } else {
            (c.color, self.bg)
        };
        match glyph_of(font, c.char) {
            Some(rows) => TermView {
                pixels: draw_glyph(self.pixels, self.width, x, y, rows, fg, bg),
                ..self
            },
            None => self,
        }
    }

    /// With a character drawn in the cell of a column and a row.
    pub open spec fn with_char(self, font: Seq<(u32, Seq<u8>)>, x: int, y: int, c: u32) -> TermView {
        self.drawn_at(font, x * 8, y * 16, ScreenChar { char: c, color: self.color })
    }

    /// One column back, which is then empty.
    pub open spec fn backspaced(self, font: Seq<(u32, Seq<u8>)>) -> TermView {
        if self.x > 0 {
            TermView { x: self.x - 1, ..self }.with_char(font, self.x - 1, self.y, 32)
        } else {
            self
        }
    }

    /// After a character was shown.
    pub open spec fn shown(self, font: Seq<(u32, Seq<u8>)>, c: u32) -> TermView {
        let e = self.cursor_erased();
        if c == 10 {
            e.on_new_line()
        } else if c == 8 || c == 127 {
            e.backspaced(font)
        } else if c == 13 {
            TermView { x: 0, ..e }
        } else {
            let l = if e.x >= e.width / 8 {
                e.on_new_line()
            } else {
                e
            };
            let d = l.with_char(
                font,
                l.x,
                l.y,
                if is_control(c) {
                    63
                } else {
                    c
                },
            );
            let n = TermView { x: d.x + 1, ..d };
            if n.x * 8 > n.width {
                n.on_new_line()
            } else {
                n
            }
        }
    }

    /// After a byte was taken: it is shown, or kept until its character is complete. Four
    /// bytes that are no character are shown as a question mark.
    pub open spec fn taken(self, font: Seq<(u32, Seq<u8>)>, b: u8) -> TermView {
        if self.pending.len() == 0 && b < 0x80 {
            self.shown(font, b as u32)
        } else {
            let p = if self.pending.len() < 4 {
                self.pending.push(b)
            } else {
                self.pending
            };
            if valid_utf8(p) {
                let s = TermView { pending: p, ..self }.shown(font, decode_first_scalar(p));
                TermView { pending: Seq::empty(), ..s }
            } else if p.len() >= 4 {
                let s = TermView { pending: p, ..self }.shown(font, 63);
                TermView { pending: Seq::empty(), ..s }
            } else {
                TermView { pending: p, ..self }
            }
        }
    }

    /// After a text was taken, byte by byte.
    pub open spec fn written(self, font: Seq<(u32, Seq<u8>)>, s: Seq<u8>) -> TermView
        decreases s.len(),
    {
        if s.len() == 0 {
            self
        } else {
            self.written(font, s.drop_last()).taken(font, s.last())
        }
    }

    /// All of the screen in the colour of the background.
    pub open spec fn blank(self) -> TermView {
        TermView { pixels: Seq::new(self.pixels.len(), |i: int| self.bg), ..self }
    }

    pub open spec fn cleared(self) -> TermView {
        TermView { x: 0, y: 0, ..self.cursor_erased().blank() }.cursor_drawn()
    }
}

/// Whether a character is a control character.
pub open spec fn is_control(c: u32) -> bool {
    c < 0x20 || 0x7F <= c < 0xA0
}

/// The pixel in a column and a row is found there again.
pub proof fn lemma_at(width: int, x: int, y: int)
    requires
        0 <= x < width,
        0 <= y,
    ensures
        (y * width + x) / width == y,
        (y * width + x) % width == x,
        y * width + x >= 0,
{
    lemma_fundamental_div_mod_converse(y * width + x, width, y, x);
    assert(y * width >= 0) by (nonlinear_arith)
        requires
            y >= 0,
            width > 0,
    ;
}

proof fn lemma_inside(width: int, height: int, x: int, y: int)
    requires
        0 <= x < width,
        0 <= y < height,
    ensures
        0 <= y * width + x < width * height,
{
    assert(y * width + x < width * height && y * width >= 0) by (nonlinear_arith)
        requires
            0 <= x < width,
            0 <= y < height,
    ;
}

proof fn lemma_place(width: int, i: int)
    requires
        width > 0,
    ensures
        i == (i / width) * width + i % width,
        0 <= i % width < width,
{
    lemma_fundamental_div_mod(i, width);
    assert(width * (i / width) == (i / width) * width) by (nonlinear_arith);
}

/// What is under the cursor is not lost: drawing it and taking it away changes no pixel.
pub proof fn lemma_cursor_restores(v: TermView)
    requires
        v.wf(),
        !v.drawn,
    ensures
        v.cursor_drawn().cursor_erased().pixels == v.pixels,
        v.cursor_drawn().wf(),
{
    let d = v.cursor_drawn();
    let w = v.width;
    if d.drawn {
        assert forall|i: int| 0 <= i < v.pixels.len() implies d.cursor_erased().pixels[i]
            == v.pixels[i] by {
            lemma_place(w, i);
            if in_rect(w, i, v.x * 8, v.y * 16, 8, 16) {
                let j = (i / w - v.y * 16) * 8 + (i % w - v.x * 8);
                assert(j / 8 == i / w - v.y * 16 && j % 8 == i % w - v.x * 8);
            }
        }
        assert(d.cursor_erased().pixels =~= v.pixels);
    }
}

impl FramebufferTerminal {
    /// A cleared screen of that size.
    pub fn new(width: usize, height: usize) -> (r: Self)
        requires
            CHAR_W <= width,
            CHAR_H <= height,
            width * height <= usize::MAX,
        ensures
            r@.wf(),
            ({
                let bare = TermView {
                    width: width as int,
                    height: height as int,
                    x: 0,
                    y: 0,
                    color: 0xFFFFFF,
                    bg: 0x101010,
                    reverse: false,
                    visible: true,
                    drawn: false,
                    saved_x: 0,
                    saved_y: 0,
                    backup: Seq::new(128, |i: int| 0u32),
                    pending: Seq::empty(),
                    pixels: Seq::new((width * height) as nat, |i: int| 0u32),
                };
                r@ == bare.cleared().cursor_drawn()
            }),
    {
        let total: usize = width * height;
        proof {
            assert(width * 16 <= width * height && height * 8 <= width * height)
                by (nonlinear_arith)
                requires
                    width >= 8,
                    height >= 16,
            ;
        }
        let mut term = FramebufferTerminal {
            width,
            height,
            cursor_x: 0,
            cursor_y: 0,
            color: 0xFFFFFF,
            bg_color: 0x101010,
            reverse: false,
            cursor_visible: true,
            cursor_drawn: false,
            cursor_saved_x: 0,
            cursor_saved_y: 0,
            cursor_backup: filled_with(128, 0),
            utf8_buf: Vec::new(),
            pixels: filled_with(total, 0),
        };
        proof {
            assert(term@ =~= TermView {
                width: width as int,
                height: height as int,
                x: 0,
                y: 0,
                color: 0xFFFFFF,
                bg: 0x101010,
                reverse: false,
                visible: true,
                drawn: false,
                saved_x: 0,
                saved_y: 0,
                backup: Seq::new(128, |i: int| 0u32),
                pending: Seq::empty(),
                pixels: Seq::new((width * height) as nat, |i: int| 0u32),
            });
        }
        term.clear();
        term.draw_cursor();
        term
    }

    /// Clears the screen.
    pub fn clear(&mut self)
        requires
            old(self)@.wf(),
        ensures
            final(self)@ == old(self)@.cleared(),
            final(self)@.wf(),
    {
        self.erase_cursor();
        let total: usize = self.pixels.len();
        let bg: u32 = self.bg_color;
        self.pixels = filled_with(total, bg);
        proof {
            assert(self@ =~= old(self)@.cursor_erased().blank());
        }
        self.cursor_x = 0;
        self.cursor_y = 0;
        self.draw_cursor();
    }

    /// The rectangle of pixels of a cell, if it is on the screen as a whole.
    pub fn cursor_rect(&self, cell_x: usize, cell_y: usize) -> (r: Option<(usize, usize, usize, usize)>)
        requires
            self.width <= usize::MAX - 8,
            self.height <= usize::MAX - 16,
        ensures
            match r {
                Some(q) => self@.on_screen(cell_x as int, cell_y as int) && q == (
                    (cell_x * 8) as usize,
                    (cell_y * 16) as usize,
                    8usize,
                    16usize,
                ),
                None => !self@.on_screen(cell_x as int, cell_y as int),
            },
    {
        if cell_x > self.width / CHAR_W || cell_y > self.height / CHAR_H {
            return None;
        }
        let x: usize = cell_x * CHAR_W;
        let y: usize = cell_y * CHAR_H;
        if x + CHAR_W > self.width || y + CHAR_H > self.height {
            return None;
        }
        Some((x, y, CHAR_W, CHAR_H))
    }

    pub fn set_cursor_visible(&mut self, v: bool)
        requires
            old(self)@.wf(),
        ensures
            final(self)@.wf(),
            v ==> final(self)@ == (TermView { visible: true, ..old(self)@ }).cursor_drawn(),
            !v ==> final(self)@ == (TermView { visible: false, ..old(self)@.cursor_erased() }),
    {
        if v {
            self.cursor_visible = true;
            self.draw_cursor();
        } else {
            self.erase_cursor();
            self.cursor_visible = false;
        }
    }

    /// Clears the line of the cursor, which goes to its start.
    pub fn erase_line(&mut self)
        requires
            old(self)@.wf(),
        ensures
            final(self)@.wf(),
            ({
                let e = old(self)@.cursor_erased();
                let f = e.filled(0, e.y * 16, e.width, 16);
                final(self)@ == (TermView { x: 0, ..f }).cursor_drawn()
            }),
    {
        self.erase_cursor();
        let y: usize = self.cursor_y * 16;
        let w: usize = self.width;
        let bg: u32 = self.bg_color;
        self.fill_rect(0, y, w, 16, bg);
        self.cursor_x = 0;
        self.draw_cursor();
    }

    /// Clears the line from the cursor on.
    pub fn erase_in_line_from_cursor(&mut self)
        requires
            old(self)@.wf(),
        ensures
            final(self)@.wf(),
            ({
                let e = old(self)@.cursor_erased();
                final(self)@ == e.filled(e.x * 8, e.y * 16, e.width - e.x * 8, 16).cursor_drawn()
            }),
    {
        self.erase_cursor();
        let x: usize = self.cursor_x * 8;
        let y: usize = self.cursor_y * 16;
        let w: usize = self.width - x;
        let bg: u32 = self.bg_color;
        self.fill_rect(x, y, w, 16, bg);
        self.draw_cursor();
    }

    /// Clears the line up to the cursor.
    pub fn erase_in_line_to_cursor(&mut self)
        requires
            old(self)@.wf(),
        ensures
            final(self)@.wf(),
            ({
                let e = old(self)@.cursor_erased();
                final(self)@ == e.filled(0, e.y * 16, e.x * 8, 16).cursor_drawn()
            }),
    {
        self.erase_cursor();
        let x: usize = self.cursor_x * 8;
        let y: usize = self.cursor_y * 16;
        let bg: u32 = self.bg_color;
        self.fill_rect(0, y, x, 16, bg);
        self.draw_cursor();
    }

    /// Clears the screen from the cursor on.
    pub fn erase_display_from_cursor(&mut self)
        requires
            old(self)@.wf(),
        ensures
            final(self)@.wf(),
            ({
                let e = old(self)@.cursor_erased();
                let a = e.filled(e.x * 8, e.y * 16, e.width - e.x * 8, 16);
                let below = e.y * 16 + 16;
                let b = if below < e.height {
                    a.filled(0, below, e.width, e.height - below)
                } else {
                    a
                };
                final(self)@ == b.cursor_drawn()
            }),
    {
        self.erase_cursor();
        let x: usize = self.cursor_x * 8;
        let y: usize = self.cursor_y * 16;
        let w: usize = self.width - x;
        let bg: u32 = self.bg_color;
        self.fill_rect(x, y, w, 16, bg);
        if y + 16 < self.height {
            let all: usize = self.width;
            let h: usize = self.height - (y + 16);
            self.fill_rect(0, y + 16, all, h, bg);
        }
        self.draw_cursor();
    }

    /// Clears the screen up to the cursor.
    pub fn erase_display_to_cursor(&mut self)
        requires
            old(self)@.wf(),
        ensures
            final(self)@.wf(),
            ({
                let e = old(self)@.cursor_erased();
                let a = if e.y > 0 {
                    e.filled(0, 0, e.width, e.y * 16)
                } else {
                    e
                };
                final(self)@ == a.filled(0, e.y * 16, e.x * 8, 16).cursor_drawn()
            }),
    {
        self.erase_cursor();
        let x: usize = self.cursor_x * 8;
        let y: usize = self.cursor_y * 16;
        let bg: u32 = self.bg_color;
        if y > 0 {
            let all: usize = self.width;
            self.fill_rect(0, 0, all, y, bg);
        }
        self.fill_rect(0, y, x, 16, bg);
        self.draw_cursor();
    }

    pub fn set_reverse(&mut self, v: bool)
        ensures
            final(self)@ == (TermView { reverse: v, ..old(self)@ }),
    {
        self.reverse = v;
    }

    pub fn set_color(&mut self, color: u32)
        ensures
            final(self)@ == (TermView { color, ..old(self)@ }),
    {
        self.color = color;
    }

    /// Gives the screen another background, which clears it.
    pub fn set_bg(&mut self, color: u32)
        ensures
            final(self)@ == (TermView { bg: color, ..old(self)@ }).blank(),
    {
        self.bg_color = color;
        let total: usize = self.pixels.len();
        self.pixels = filled_with(total, color);
        proof {
            assert(self@ =~= TermView { bg: color, ..old(self)@ }.blank());
        }
    }

    pub fn refresh_cursor(&mut self)
        requires
            old(self)@.wf(),
        ensures
            final(self)@.wf(),
            final(self)@ == old(self)@.cursor_drawn(),
    {
        self.draw_cursor();
    }

    /// Moves the text up by a line.
    fn scroll(&mut self)
        requires
            old(self)@.wf(),
        ensures
            final(self)@ == (TermView {
                pixels: scrolled(old(self)@.pixels, old(self)@.width, 16, old(self)@.bg),
                ..old(self)@
            }),
    {
        let ghost v = self@;
        let ghost px = self.pixels@;
        proof {
            let (w, h) = (v.width, v.height);
            assert(16 * w <= w * h) by (nonlinear_arith)
                requires
                    h >= 16,
                    w >= 0,
            ;
        }
        let total: usize = self.pixels.len();
        let up: usize = 16 * self.width;
        let mut i: usize = 0;
        while i < total
            invariant
                v == old(self)@,
                px == v.pixels,
                total == px.len(),
                up == 16 * v.width,
                up <= total,
                i <= total,
                self@ == (TermView { pixels: self.pixels@, ..v }),
                self.pixels@.len() == total,
                forall|j: int|
                    0 <= j < i ==> #[trigger] self.pixels@[j] == scrolled(px, v.width, 16, v.bg)[j],
                forall|j: int| i <= j < total ==> #[trigger] self.pixels@[j] == px[j],
            decreases total - i,
        {
            let c: u32 = if i < total - up {
                self.pixels[i + up]
            } else {
                self.bg_color
            };
            self.pixels.set(i, c);
            i = i + 1;
        }
        proof {
            assert(self.pixels@ =~= scrolled(px, v.width, 16, v.bg));
        }
    }

    fn new_line(&mut self)
        requires
            old(self)@.wf(),
        ensures
            final(self)@ == old(self)@.on_new_line(),
            final(self)@.wf(),
    {
        self.cursor_x = 0;
        if self.cursor_y + 2 > self.height / 16 {
            self.scroll();
        } else {
            self.cursor_y = self.cursor_y + 1;
        }
    }

    /// Draws a character at a place that is on the screen, at the left at least.
    fn draw_char(&mut self, x: usize, y: usize, screen_char: ScreenChar, font: &Font)
        requires
            old(self)@.wf(),
            x + 8 <= old(self).width,
            y + 16 <= old(self).height,
        ensures
            final(self)@ == old(self)@.drawn_at(font@, x as int, y as int, screen_char),
    {
        let ghost v = self@;
        let ghost px = self.pixels@;
        let ghost wd = self.width as int;
        let fg: u32 = if self.reverse {
            self.bg_color
        } else {
            screen_char.color
        };
        let bg: u32 = if self.reverse {
            screen_char.color
        } else {
            self.bg_color
        };
        match get_glyph(font, screen_char.char) {
            None => {},
            Some(rows) => {
                let below: usize = self.height - y;
                let n: usize = if rows.len() < below {
                    rows.len()
                } else {
                    below
                };
                let mut row: usize = 0;
                let mut col: usize = 0;
                proof {
                    assert(px =~= part_glyph(px, wd, x as int, y as int, rows@, fg, bg, 0, 0));
                }
                while row < n
                    invariant
                        v.wf(),
                        wd == v.width,
                        px == v.pixels,
                        x + 8 <= wd,
                        y + n <= v.height,
                        n <= rows@.len(),
                        row <= n,
                        col < 8,
                        row == n ==> col == 0,
                        self@ == (TermView {
                            pixels: part_glyph(
                                px,
                                wd,
                                x as int,
                                y as int,
                                rows@,
                                fg,
                                bg,
                                row as int,
                                col as int,
                            ),
                            ..v
                        }),
                    decreases n - row, 8 - col,
                {
                    proof {
                        lemma_inside(wd, v.height, x + col, y + row);
                        lemma_inside(wd, v.height, 0, y + row);
                        lemma_at(wd, x + col, y + row);
                    }
                    let bits: u8 = rows[row];
                    let shift: u8 = (7 - col) as u8;
                    let c: u32 = if bits & (1u8 << shift) != 0 {
                        fg
                    } else {
                        bg
                    };
                    let at: usize = (y + row) * self.width + (x + col);
                    self.pixels.set(at, c);
                    let ghost (r0, c0) = (row as int, col as int);
                    if col == 7 {
                        row = row + 1;
                        col = 0;
                    } else {
                        col = col + 1;
                    }
                    proof {
                        let next = part_glyph(
                            px,
                            wd,
                            x as int,
                            y as int,
                            rows@,
                            fg,
                            bg,
                            row as int,
                            col as int,
                        );
                        assert forall|i: int| 0 <= i < next.len() implies self.pixels@[i]
                            == next[i] by {
                            lemma_place(wd, i);
                            if i / wd == y + r0 && i % wd == x + c0 {
                                assert(i == at);
                            }
                        }
                        assert(self.pixels@ =~= next);
                    }
                }
                proof {
                    let done = draw_glyph(px, wd, x as int, y as int, rows@, fg, bg);
                    assert forall|i: int| 0 <= i < done.len() implies self.pixels@[i] == done[i] by {
                        lemma_place(wd, i);
                        lemma_row_bound(wd, v.height, i);
                    }
                    assert(self.pixels@ =~= done);
                }
            },
        }
    }

    fn backspace(&mut self, font: &Font)
        requires
            old(self)@.wf(),
        ensures
            final(self)@ == old(self)@.backspaced(font@),
            final(self)@.wf(),
    {
        if self.cursor_x > 0 {
            self.cursor_x = self.cursor_x - 1;
            let x: usize = self.cursor_x * CHAR_W;
            let y: usize = self.cursor_y * CHAR_H;
            let color: u32 = self.color;
            self.draw_char(x, y, ScreenChar { char: 32, color }, font);
        }
    }

    /// Shows a character.
    pub fn put_char_utf32(&mut self, c: u32, font: &Font)
        requires
            old(self)@.wf(),
        ensures
            final(self)@ == old(self)@.shown(font@, c),
            final(self)@.wf(),
    {
        self.erase_cursor();
        if c == 10 {
            self.new_line();
            return;
        }
        if c == 8 || c == 127 {
            self.backspace(font);
            return;
        }
        if c == 13 {
            self.cursor_x = 0;
            return;
        }
        if self.cursor_x >= self.width / CHAR_W {
            self.new_line();
        }
        let ch: u32 = if c < 0x20 || (0x7F <= c && c < 0xA0) {
            63
        } else {
            c
        };
        let x: usize = self.cursor_x * CHAR_W;
        let y: usize = self.cursor_y * CHAR_H;
        let color: u32 = self.color;
        self.draw_char(x, y, ScreenChar { char: ch, color }, font);
        self.cursor_x = self.cursor_x + 1;
        if self.cursor_x * CHAR_W > self.width {
            self.new_line();
        }
    }

    /// Takes a byte of a text.
    pub fn put_byte(&mut self, byte: u8, font: &Font)
        requires
            old(self)@.wf(),
        ensures
            final(self)@ == old(self)@.taken(font@, byte),
            final(self)@.wf(),
    {
        if self.utf8_buf.len() == 0 && byte < 0x80 {
            self.put_char_utf32(byte as u32, font);
            return;
        }
        if self.utf8_buf.len() < 4 {
            self.utf8_buf.push(byte);
        }
        let ghost p = self.utf8_buf@;
        proof {
            assert(self@ =~= TermView { pending: p, ..old(self)@ });
        }
        if is_utf8(&self.utf8_buf) {
            let c: u32 = decode(&self.utf8_buf);
            self.put_char_utf32(c, font);
            self.utf8_buf = Vec::new();
        } else if self.utf8_buf.len() >= 4 {
            self.put_char_utf32(63, font);
            self.utf8_buf = Vec::new();
        }
    }

    /// Takes a text.
    pub fn write(&mut self, s: &[u8], font: &Font)
        requires
            old(self)@.wf(),
        ensures
            final(self)@ == old(self)@.written(font@, s@),
            final(self)@.wf(),
    {
        let mut i: usize = 0;
        while i < s.len()
            invariant
                i <= s@.len(),
                self@.wf(),
                self@ == old(self)@.written(font@, s@.take(i as int)),
            decreases s@.len() - i,
        {
            proof {
                assert(s@.take(i + 1).drop_last() =~= s@.take(i as int));
            }
            self.put_byte(s[i], font);
            i = i + 1;
        }
        proof {
            assert(s@.take(i as int) =~= s@);
        }
    }

    fn fill_rect(&mut self, x: usize, y: usize, w: usize, h: usize, color: u32)
        requires
            old(self)@.wf(),
            x + w <= old(self).width,
            y + h <= old(self).height,
        ensures
            final(self)@ == (TermView {
                pixels: fill(
                    old(self)@.pixels,
                    old(self)@.width,
                    x as int,
                    y as int,
                    w as int,
                    h as int,
                    color,
                ),
                ..old(self)@
            }),
    {
        let ghost v = self@;
        let ghost px = self.pixels@;
        let ghost wd = self.width as int;
        let mut row: usize = 0;
        proof {
            assert(self.pixels@ =~= fill(px, wd, x as int, y as int, w as int, 0, color));
        }
        while row < h
            invariant
                v.wf(),
                wd == v.width,
                px == v.pixels,
                x + w <= wd,
                y + h <= v.height,
                row <= h,
                self@ == (TermView {
                    pixels: fill(px, wd, x as int, y as int, w as int, row as int, color),
                    ..v
                }),
            decreases h - row,
        {
            let ghost before = self.pixels@;
            let mut k: usize = 0;
            proof {
                assert(before =~= fill(before, wd, x as int, y + row, 0, 1, color));
            }
            while k < w
                invariant
                    v.wf(),
                    wd == v.width,
                    before.len() == v.pixels.len(),
                    x + w <= wd,
                    y + h <= v.height,
                    row < h,
                    k <= w,
                    self@ == (TermView {
                        pixels: fill(before, wd, x as int, y + row, k as int, 1, color),
                        ..v
                    }),
                decreases w - k,
            {
                let ghost now = self.pixels@;
                proof {
                    lemma_inside(wd, v.height, x + k, y + row);
                    lemma_inside(wd, v.height, 0, y + row);
                    lemma_at(wd, x + k, y + row);
                }
                let at: usize = (y + row) * self.width + (x + k);
                self.pixels.set(at, color);
                proof {
                    let next = fill(before, wd, x as int, y + row, k + 1, 1, color);
                    assert forall|i: int| 0 <= i < next.len() implies self.pixels@[i] == next[i] by {
                        lemma_place(wd, i);
                        if i / wd == y + row && i % wd == x + k {
                            assert(i == at);
                        }
                    }
                    assert(self.pixels@ =~= next);
                }
                k = k + 1;
            }
            proof {
                assert(self.pixels@ =~= fill(
                    px,
                    wd,
                    x as int,
                    y as int,
                    w as int,
                    row + 1,
                    color,
                ));
            }
            row = row + 1;
        }
    }

    fn erase_cursor(&mut self)
        requires
            old(self)@.wf(),
        ensures
            final(self)@ == old(self)@.cursor_erased(),
            final(self)@.wf(),
    {
        let ghost v = self@;
        if !self.cursor_drawn {
            return;
        }
        match self.cursor_rect(self.cursor_saved_x, self.cursor_saved_y) {
            None => {
                self.cursor_drawn = false;
            },
            Some((x, y, w, h)) => {
                let ghost px = self.pixels@;
                let ghost wd = self.width as int;
                let mut j: usize = 0;
                proof {
                    assert(px =~= part_cell(px, wd, x as int, y as int, v.backup, 0));
                }
                while j < 128
                    invariant
                        v.wf(),
                        wd == v.width,
                        px == v.pixels,
                        x + 8 <= wd,
                        y + 16 <= v.height,
                        j <= 128,
                        self@ == (TermView {
                            pixels: part_cell(px, wd, x as int, y as int, v.backup, j as int),
                            ..v
                        }),
                    decreases 128 - j,
                {
                    proof {
                        lemma_inside(wd, v.height, x + j % 8, y + j / 8);
                        lemma_inside(wd, v.height, 0, y + j / 8);
                        lemma_at(wd, x + j % 8, y + j / 8);
                    }
                    let at: usize = (y + j / 8) * self.width + (x + j % 8);
                    let c: u32 = self.cursor_backup[j];
                    self.pixels.set(at, c);
                    proof {
                        let next = part_cell(px, wd, x as int, y as int, v.backup, j + 1);
                        assert forall|i: int| 0 <= i < next.len() implies self.pixels@[i]
                            == next[i] by {
                            lemma_place(wd, i);
                            if in_rect(wd, i, x as int, y as int, 8, 16) && (i / wd - y) * 8 + (i
                                % wd - x) == j {
                                assert(i / wd - y == j / 8 && i % wd - x == j % 8);
                                assert(i == at);
                            }
                        }
                        assert(self.pixels@ =~= next);
                    }
                    j = j + 1;
                }
                proof {
                    assert(self.pixels@ =~= put_cell(px, wd, x as int, y as int, v.backup));
                }
                self.cursor_drawn = false;
            },
        }
    }

    fn draw_cursor(&mut self)
        requires
            old(self)@.wf(),
        ensures
            final(self)@ == old(self)@.cursor_drawn(),
            final(self)@.wf(),
    {
        if !self.cursor_visible {
            return;
        }
        self.erase_cursor();
        let ghost e = self@;
        match self.cursor_rect(self.cursor_x, self.cursor_y) {
            None => {},
            Some((x, y, w, h)) => {
                let ghost wd = self.width as int;
                let mut saved: Vec<u32> = Vec::new();
                let mut j: usize = 0;
                while j < 128
                    invariant
                        e.wf(),
                        self@ == e,
                        wd == e.width,
                        x + 8 <= wd,
                        y + 16 <= e.height,
                        j <= 128,
                        saved@.len() == j,
                        forall|i: int| 0 <= i < j ==> #[trigger] saved@[i] == cell(e.pixels, wd, x as int, y as int)[i],
                    decreases 128 - j,
                {
                    proof {
                        lemma_inside(wd, e.height, x + j % 8, y + j / 8);
                        lemma_inside(wd, e.height, 0, y + j / 8);
                    }
                    let at: usize = (y + j / 8) * self.width + (x + j % 8);
                    saved.push(self.pixels[at]);
                    j = j + 1;
                }
                proof {
                    assert(saved@ =~= cell(e.pixels, wd, x as int, y as int));
                }
                self.cursor_backup = saved;
                let color: u32 = self.color;
                self.fill_rect(x, y, w, h, color);
                self.cursor_saved_x = self.cursor_x;
                self.cursor_saved_y = self.cursor_y;
                self.cursor_drawn = true;
            },
        }
    }
}

/// The pixels after the first `n` of those of a cell were put.
spec fn part_cell(px: Seq<u32>, width: int, x: int, y: int, c: Seq<u32>, n: int) -> Seq<u32> {
    Seq::new(
        px.len(),
        |i: int|
            if in_rect(width, i, x, y, 8, 16) && (i / width - y) * 8 + (i % width - x) < n {
                c[(i / width - y) * 8 + (i % width - x)]
            } else {
                px[i]
            },
    )
}

/// The pixels after the first `n` rows of a glyph, and `k` columns of the next, were
/// drawn.
spec fn part_glyph(
    px: Seq<u32>,
    width: int,
    x: int,
    y: int,
    rows: Seq<u8>,
    fg: u32,
    bg: u32,
    n: int,
    k: int,
) -> Seq<u32> {
    Seq::new(
        px.len(),
        |i: int|
            if in_rect(width, i, x, y, 8, n) || in_rect(width, i, x, y + n, k, 1) {
                if lit(rows[i / width - y], i % width - x) {
                    fg
                } else {
                    bg
                }
            } else {
                px[i]
            },
    )
}

proof fn lemma_row_bound(width: int, height: int, i: int)
    requires
        width > 0,
        0 <= i < width * height,
    ensures
        0 <= i / width < height,
{
    lemma_place(width, i);
    let q = i / width;
    assert(q < height) by (nonlinear_arith)
        requires
            q * width <= i,
            i < width * height,
            width > 0,
    ;
    assert(q >= 0) by (nonlinear_arith)
        requires
            i >= 0,
            width > 0,
            i < q * width + width,
    ;
}

/// The character that well-formed bytes start with.
fn decode(b: &Vec<u8>) -> (r: u32)
    requires
        b@.len() > 0,
        valid_utf8(b@),
    ensures
        r == decode_first_scalar(b@),
{
    let first: u8 = b[0];
    if first <= 0x7F {
        (first & 0x7F) as u32
    } else if first <= 0xDF {
        ((first & 0x1F) as u32) << 6 | (b[1] & 0x3F) as u32
    } else if first <= 0xEF {
        ((first & 0x0F) as u32) << 12 | ((b[1] & 0x3F) as u32) << 6 | (b[2] & 0x3F) as u32
    } else {
        ((first & 0x07) as u32) << 18 | ((b[1] & 0x3F) as u32) << 12 | ((b[2] & 0x3F) as u32) << 6 | (
        b[3] & 0x3F) as u32
    }
}

fn filled_with(n: usize, c: u32) -> (r: Vec<u32>)
    ensures
        r@ == Seq::new(n as nat, |i: int| c),
{
    let mut v: Vec<u32> = Vec::new();
    let mut i: usize = 0;
    while i < n
        invariant
            i <= n,
            v@ == Seq::new(i as nat, |j: int| c),
        decreases n - i,
    {
        v.push(c);
        i = i + 1;
        proof {
            assert(v@ =~= Seq::new(i as nat, |j: int| c));
        }
    }
    v
}

} // verus!
