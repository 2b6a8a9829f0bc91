//! A primitive console text renderer: the 8x8 font at its natural size, white on
//! the framebuffer, with a 10-pixel margin and wrap-around to the top line.
//!
//! The renderer computes which framebuffer bytes drawing text sets to 0xFF; the
//! caller performs those byte stores on the memory-mapped framebuffer, in order.

use crate::font::{basic_font_glyph, basic_font_lookup, glyph_set_bits, row_set_bits};
use crate::memory::bit_set;
use vstd::prelude::*;

verus! {

/// The abstract state of a console `Writer`.
pub struct ConsoleState {
    /// Number of bytes per scanline (including alignment padding).
    pub pitch: usize,
    /// Bits per pixel.
    pub bpp: usize,
    pub width: usize,
    pub height: usize,
    pub cursor_x: usize,
    pub cursor_y: usize,
}

impl ConsoleState {
    /// The cursor is where `new` and the line logic can put it: on the top line or
    /// far enough above the bottom margin, and at the left margin, just past it, or
    /// on the screen.
    pub open spec fn wf(self) -> bool {
        &&& self.cursor_y == 10 || self.cursor_y + 10 < self.height
        &&& self.cursor_x <= 18 || self.cursor_x < self.width
    }

    /// The state after moving to the next line: back to the left margin, 10 pixels
    /// down, and back to the top line when that reaches the bottom margin.
    pub open spec fn after_newline(self) -> ConsoleState {
        let y = self.cursor_y + 10;
        ConsoleState {
            cursor_x: 10,
            cursor_y: if y >= self.height - 10 {
                10
            } else {
                y as usize
            },
            ..self
        }
    }

    /// The state in which a printable character is drawn: on the next line when
    /// the cursor has come within 8 pixels of the right border.
    pub open spec fn wrapped(self) -> ConsoleState {
        if self.cursor_x >= self.width - 8 {
            self.after_newline()
        } else {
            self
        }
    }

    /// The state after drawing a printable character.
    pub open spec fn after_glyph(self) -> ConsoleState {
        let w = self.wrapped();
        ConsoleState { cursor_x: (w.cursor_x + 8) as usize, ..w }
    }

    /// Byte offset of pixel `(x, y)`.
    pub open spec fn offset(self, x: int, y: int) -> int {
        y * self.pitch + x * (self.bpp / 8)
    }

    /// The three bytes of pixel `(x, y)` that painting it white sets.
    pub open spec fn pixel_bytes(self, x: int, y: int) -> Seq<usize> {
        let o = self.offset(x, y);
        seq![o as usize, (o + 1) as usize, (o + 2) as usize]
    }

    /// The bytes set by the first `n` columns of glyph row `row` with bits `bits`.
    pub open spec fn glyph_row(self, bits: u8, row: int, n: int) -> Seq<usize>
        decreases n,
    {
        if n <= 0 {
            Seq::empty()
        } else {
            self.glyph_row(bits, row, n - 1) + if bit_set(bits, (n - 1) as u8) {
                self.pixel_bytes(self.cursor_x + n - 1, self.cursor_y + row)
            } else {
                Seq::empty()
            }
        }
    }

    /// The bytes set by the first `n` rows of glyph `g` drawn at the cursor.
    pub open spec fn glyph(self, g: Seq<u8>, n: int) -> Seq<usize>
        decreases n,
    {
        if n <= 0 {
            Seq::empty()
        } else {
            self.glyph(g, n - 1) + self.glyph_row(g[n - 1], n - 1, 8)
        }
    }

    /// The bytes set by drawing a printable character whose glyph, if the font
    /// has one, is `g`.
    pub open spec fn glyph_writes(self, g: Option<Seq<u8>>) -> Seq<usize> {
        match g {
            Some(rows) => self.wrapped().glyph(rows, 8),
            None => Seq::empty(),
        }
    }

    /// The glyph of the basic font for `c`, where it has one.
    pub open spec fn font_glyph(c: char) -> Option<Seq<u8>> {
        if (c as u32) < 128 {
            Some(basic_font_glyph(c))
        } else {
            None
        }
    }

    /// The state after writing `c`.
    pub open spec fn after_char(self, c: char) -> ConsoleState {
        if c == '\n' {
            self.after_newline()
        } else {
            self.after_glyph()
        }
    }

    /// The bytes set by writing `c`.
    pub open spec fn char_writes(self, c: char) -> Seq<usize> {
        if c == '\n' {
            Seq::empty()
        } else {
            self.glyph_writes(Self::font_glyph(c))
        }
    }

    /// Every byte of the 8x8 cell at the cursor has an offset that fits in `usize`.
    pub open spec fn cell_addressable(self) -> bool {
        self.offset(self.cursor_x + 7, self.cursor_y + 7) + 2 <= usize::MAX
    }

    /// Writing `c` neither underflows the margin arithmetic nor leaves the address
    /// space: the screen is at least 8 pixels wide for a printable character and
    /// 10 pixels high wherever a new line is begun.
    pub open spec fn char_fits(self, c: char) -> bool {
        if c == '\n' {
            self.height >= 10
        } else {
            &&& self.width >= 8
            &&& self.cursor_x >= self.width - 8 ==> self.height >= 10
            &&& self.wrapped().cell_addressable()
        }
    }

    /// The state after writing the chars `cs` in order.
    pub open spec fn after_chars(self, cs: Seq<char>) -> ConsoleState
        decreases cs.len(),
    {
        if cs.len() == 0 {
            self
        } else {
            self.after_char(cs[0]).after_chars(cs.drop_first())
        }
    }

    /// The bytes set by writing the chars `cs` in order.
    pub open spec fn chars_writes(self, cs: Seq<char>) -> Seq<usize>
        decreases cs.len(),
    {
        if cs.len() == 0 {
            Seq::empty()
        } else {
            self.char_writes(cs[0]) + self.after_char(cs[0]).chars_writes(cs.drop_first())
        }
    }

    /// Writing the chars `cs` in order never fails as `char_fits` says.
    pub open spec fn chars_fit(self, cs: Seq<char>) -> bool
        decreases cs.len(),
    {
        cs.len() == 0 || (self.char_fits(cs[0]) && self.after_char(cs[0]).chars_fit(
            cs.drop_first(),
        ))
    }
}

/// A primitive text renderer that draws characters onto a linear framebuffer.
pub struct Writer {
    pitch: usize,
    bpp: usize,
    width: usize,
    height: usize,
    cursor_x: usize,
    cursor_y: usize,
}

impl View for Writer {
    type V = ConsoleState;

    closed spec fn view(&self) -> ConsoleState {
        ConsoleState {
            pitch: self.pitch,
            bpp: self.bpp,
            width: self.width,
            height: self.height,
            cursor_x: self.cursor_x,
            cursor_y: self.cursor_y,
        }
    }
}

impl Writer {
    /// Creates a new text renderer instance.
    /// Default screen margins are initialized at (10, 10).
    pub fn new(pitch: usize, bpp: usize, width: usize, height: usize) -> (w: Self)
        ensures
            w@ == (ConsoleState { pitch, bpp, width, height, cursor_x: 10, cursor_y: 10 }),
            w@.wf(),
    {
        Writer { pitch, bpp, width, height, cursor_x: 10, cursor_y: 10 }
    }

    /// The cursor position `(x, y)` in pixels.
    pub fn cursor(&self) -> (r: (usize, usize))
        ensures
            r == (self@.cursor_x, self@.cursor_y),
    {
        (self.cursor_x, self.cursor_y)
    }

    /// Moves the text cursor down to the next line and resets to the left margin.
    /// Wraps back to the top of the screen if the bottom boundary is crossed.
    pub fn newline(&mut self)
        requires
            old(self)@.wf(),
            old(self)@.height >= 10,
        ensures
            final(self)@ == old(self)@.after_newline(),
            final(self)@.wf(),
    {
        self.cursor_x = 10;
        self.cursor_y += 10;  // 10-pixel height stride increment per row

        if self.cursor_y >= self.height - 10 {
            self.cursor_y = 10;  // Fallback wrap-around layout until scrolling is available
        }
    }

    /// Draws a printable character whose glyph, if the font has one, is `glyph`:
    /// wraps near the right border, paints the set bits white and advances the
    /// cursor by 8 pixels.
    pub fn write_glyph(&mut self, glyph: Option<[u8; 8]>, out: &mut Vec<usize>)
        requires
            old(self)@.wf(),
            old(self)@.width >= 8,
            old(self)@.cursor_x >= old(self)@.width - 8 ==> old(self)@.height >= 10,
            old(self)@.wrapped().cell_addressable(),
        ensures
            final(self)@ == old(self)@.after_glyph(),
            final(self)@.wf(),
            final(out)@ == old(out)@ + old(self)@.glyph_writes(
                match glyph {
                    Some(g) => Some(g@),
                    None => None,
                },
            ),
    {
        // Handle automatic horizontal wrapping when approaching the right border
        if self.cursor_x >= self.width - 8 {
            self.newline();
        }
        let ghost w = self@;
        let bytes_per_pixel = self.bpp / 8;

        // Fetch the 8-byte bitmap representation of the character
        if let Some(bitmap) = glyph {
            // Iterate through each row of the 8x8 font matrix
            for row_idx in 0..8usize
                invariant
                    w == self@,
                    w.cursor_x + 8 <= usize::MAX,
                    w.cursor_y + 10 <= usize::MAX,
                    w.cell_addressable(),
                    bytes_per_pixel == w.bpp / 8,
                    out@ == old(out)@ + w.glyph(bitmap@, row_idx as int),
            {
                let row = bitmap[row_idx];
                // Iterate through each column bit in the active row byte
                for col_idx in 0..8usize
                    invariant
                        w == self@,
                        w.cursor_x + 8 <= usize::MAX,
                        w.cursor_y + 10 <= usize::MAX,
                        w.cell_addressable(),
                        bytes_per_pixel == w.bpp / 8,
                        row_idx < 8,
                        row == bitmap@[row_idx as int],
                        out@ == old(out)@ + w.glyph(bitmap@, row_idx as int) + w.glyph_row(
                            row,
                            row_idx as int,
                            col_idx as int,
                        ),
                {
                    // Check if the current pixel bit state is active
                    if (row & (1u8 << col_idx as u8)) != 0 {
                        let ghost (cx, cy, p, b) = (
                            w.cursor_x as int,
                            w.cursor_y as int,
                            w.pitch as int,
                            bytes_per_pixel as int,
                        );
                        assert((cy + row_idx) * p + (cx + col_idx) * b <= (cy + 7) * p + (cx + 7) * b)
                            by (nonlinear_arith)
                            requires
                                row_idx <= 7,
                                col_idx <= 7,
                                p >= 0,
                                b >= 0,
                        ;
                        let x = self.cursor_x + col_idx;
                        let y = self.cursor_y + row_idx;

                        // Calculate linear memory offset based on scanline stride pitch
                        let offset = (y * self.pitch) + (x * bytes_per_pixel);

                        // Paint pixel white (0xFF, 0xFF, 0xFF) across RGB channels
                        out.push(offset);
                        out.push(offset + 1);
                        out.push(offset + 2);
                    }
                    assert(out@ =~= old(out)@ + w.glyph(bitmap@, row_idx as int) + w.glyph_row(
                        row,
                        row_idx as int,
                        col_idx + 1,
                    ));
                }
                assert(out@ =~= old(out)@ + w.glyph(bitmap@, row_idx + 1));
            }
        }
        // Advance horizontal cursor coordinate to the next character block slot
        self.cursor_x += 8;
    }

    /// Renders a single ASCII/Unicode character to the screen using an 8x8 font bitmap matrix.
    pub fn write_char(&mut self, c: char, out: &mut Vec<usize>)
        requires
            old(self)@.wf(),
            old(self)@.char_fits(c),
        ensures
            final(self)@ == old(self)@.after_char(c),
            final(self)@.wf(),
            final(out)@ == old(out)@ + old(self)@.char_writes(c),
    {
        if c == '\n' {
            self.newline();
            assert(out@ =~= old(out)@ + old(self)@.char_writes(c));
            return;
        }
        let glyph = basic_font_lookup(c);
        self.write_glyph(glyph, out);
    }

    /// Writes every char of `s` in order, as `core::fmt::Write::write_str` does
    /// for this renderer.
    pub fn write_str(&mut self, s: &str, out: &mut Vec<usize>)
        requires
            old(self)@.wf(),
            old(self)@.chars_fit(s@),
        ensures
            final(self)@ == old(self)@.after_chars(s@),
            final(self)@.wf(),
            final(out)@ == old(out)@ + old(self)@.chars_writes(s@),
    {
        let ghost v0 = self@;
        let ghost cs = s@;
        assert(cs.skip(0) =~= cs);
        for c in it: s.chars()
            invariant
                cs == s@,
                it.seq() == cs,
                self@.wf(),
                self@.chars_fit(cs.skip(it.index() as int)),
                v0.after_chars(cs) == self@.after_chars(cs.skip(it.index() as int)),
                old(out)@ + v0.chars_writes(cs) == out@ + self@.chars_writes(
                    cs.skip(it.index() as int),
                ),
        {
            let ghost i = it.index() as int;
            let ghost rest = cs.skip(i);
            assert(rest[0] == c);
            assert(rest.drop_first() =~= cs.skip(i + 1));
            let ghost before = out@;
            let ghost st = self@;
            self.write_char(c, out);
            assert(before + st.chars_writes(rest) =~= out@ + self@.chars_writes(cs.skip(i + 1)));
        }
        assert(cs.skip(cs.len() as int) =~= Seq::<char>::empty());
        assert(out@ =~= old(out)@ + v0.chars_writes(cs));
    }

    /// Whether `write_str(s, ..)` runs in this state without an underflow of the
    /// margin arithmetic or an offset past the address space: the condition its
    /// `requires` states.
    pub fn can_write(&self, s: &str) -> (r: bool)
        requires
            self@.wf(),
        ensures
            r == self@.chars_fit(s@),
    {
        let ghost cs = s@;
        let mut cx = self.cursor_x;
        let mut cy = self.cursor_y;
        let bytes_per_pixel = self.bpp / 8;
        assert(cs.skip(0) =~= cs);
        for c in it: s.chars()
            invariant
                cs == s@,
                it.seq() == cs,
                bytes_per_pixel == self@.bpp / 8,
                (ConsoleState { cursor_x: cx, cursor_y: cy, ..self@ }).wf(),
                self@.chars_fit(cs) == (ConsoleState {
                    cursor_x: cx,
                    cursor_y: cy,
                    ..self@
                }).chars_fit(cs.skip(it.index() as int)),
        {
            let ghost st = ConsoleState { cursor_x: cx, cursor_y: cy, ..self@ };
            let ghost i = it.index() as int;
            assert(cs.skip(i)[0] == c);
            assert(cs.skip(i).drop_first() =~= cs.skip(i + 1));
            if c == '\n' {
                if self.height < 10 {
                    return false;
                }
                cx = 10;
                cy = cy + 10;
                if cy >= self.height - 10 {
                    cy = 10;
                }
            } else {
                if self.width < 8 {
                    return false;
                }
                if cx >= self.width - 8 {
                    if self.height < 10 {
                        return false;
                    }
                    cx = 10;
                    cy = cy + 10;
                    if cy >= self.height - 10 {
                        cy = 10;
                    }
                }
                // The last byte of the cell at the (wrapped) cursor.
                let last = match (cy + 7).checked_mul(self.pitch) {
                    None => {
                        return false;
                    },
                    Some(rows) => match (cx + 7).checked_mul(bytes_per_pixel) {
                        None => {
                            return false;
                        },
                        Some(cols) => match rows.checked_add(cols) {
                            None => {
                                return false;
                            },
                            Some(v) => v.checked_add(2),
                        },
                    },
                };
                if last.is_none() {
                    return false;
                }
                cx = cx + 8;
            }
            assert((ConsoleState { cursor_x: cx, cursor_y: cy, ..self@ }) == st.after_char(c));
        }
        assert(cs.skip(cs.len() as int) =~= Seq::<char>::empty());
        true
    }
}


/// Writing `s1` and then `s2` is writing `s1 + s2`: the same byte stores in the
/// same order, the same final state, and it runs exactly when both parts run.
pub proof fn lemma_write_concat(v: ConsoleState, s1: Seq<char>, s2: Seq<char>)
    ensures
        v.after_chars(s1 + s2) == v.after_chars(s1).after_chars(s2),
        v.chars_writes(s1 + s2) == v.chars_writes(s1) + v.after_chars(s1).chars_writes(s2),
        v.chars_fit(s1 + s2) == (v.chars_fit(s1) && v.after_chars(s1).chars_fit(s2)),
    decreases s1.len(),
{
    if s1.len() == 0 {
        assert(s1 + s2 =~= s2);
        assert(v.chars_writes(s1) + v.chars_writes(s2) =~= v.chars_writes(s2));
    } else {
        let c = s1[0];
        let v1 = v.after_char(c);
        assert((s1 + s2).drop_first() =~= s1.drop_first() + s2);
        assert((s1 + s2)[0] == c);
        lemma_write_concat(v1, s1.drop_first(), s2);
        assert(v.chars_writes(s1 + s2) =~= v.chars_writes(s1) + v.after_chars(s1).chars_writes(
            s2,
        ));
    }
}

/// However long the text, the cursor stays where the line logic keeps it: on the
/// top line or above the bottom margin, and at the left margin or on the screen.
pub proof fn lemma_cursor_stays_on_screen(v: ConsoleState, cs: Seq<char>)
    requires
        v.wf(),
        v.chars_fit(cs),
    ensures
        v.after_chars(cs).wf(),
    decreases cs.len(),
{
    if cs.len() > 0 {
        let c = cs[0];
        let v1 = v.after_char(c);
        assert(v1.wf());
        lemma_cursor_stays_on_screen(v1, cs.drop_first());
    }
}

/// `e` is byte `k` (0, 1 or 2) of pixel `(x + c, y + r)`: the pixel of glyph bit
/// `(r, c)` of a glyph whose top left pixel is `(x, y)`.
pub open spec fn glyph_byte(v: ConsoleState, x: int, y: int, r: int, c: int, k: int, e: usize) -> bool {
    0 <= k < 3 && e == (y + r) * v.pitch + (x + c) * (v.bpp / 8) + k
}

/// Some byte of `st` is byte `k` of the pixel of glyph bit `(r, c)`.
pub open spec fn byte_stored(v: ConsoleState, x: int, y: int, r: int, c: int, k: int, st: Seq<usize>) -> bool {
    exists|i: int| 0 <= i < st.len() && #[trigger] glyph_byte(v, x, y, r, c, k, st[i])
}

/// `e` is a byte of the pixel of a set bit `c < n` of glyph row `r` with bits `bits`.
pub open spec fn in_console_row(v: ConsoleState, x: int, y: int, r: int, bits: u8, n: int, e: usize) -> bool {
    exists|c: int, k: int| 0 <= c < n && bit_set(bits, c as u8) && #[trigger] glyph_byte(v, x, y, r, c, k, e)
}

/// `e` is a byte of the pixel of a set bit `(r, c)` of glyph `g`, with `r < n`.
pub open spec fn in_console_glyph(v: ConsoleState, x: int, y: int, g: Seq<u8>, n: int, e: usize) -> bool {
    exists|r: int, c: int, k: int|
        0 <= r < n && 0 <= c < 8 && bit_set(g[r], c as u8) && #[trigger] glyph_byte(
            v,
            x,
            y,
            r,
            c,
            k,
            e,
        )
}

/// The byte offsets of the whole 8x8 cell at the cursor fit in `usize`.
proof fn lemma_cell_offsets(v: ConsoleState, r: int, c: int, k: int)
    requires
        v.cell_addressable(),
        0 <= r < 8,
        0 <= c < 8,
        0 <= k < 3,
    ensures
        0 <= (v.cursor_y + r) * v.pitch + (v.cursor_x + c) * (v.bpp / 8) + k <= usize::MAX,
{
    let (x, y, p, b) = (v.cursor_x as int, v.cursor_y as int, v.pitch as int, (v.bpp / 8) as int);
    assert((y + r) * p + (x + c) * b <= (y + 7) * p + (x + 7) * b && 0 <= (y + r) * p && 0 <= (x
        + c) * b) by (nonlinear_arith)
        requires
            0 <= r <= 7,
            0 <= c <= 7,
            x >= 0,
            y >= 0,
            p >= 0,
            b >= 0,
    ;
}

#[verifier::rlimit(50)]
proof fn lemma_console_row_bytes(v: ConsoleState, r: int, bits: u8, n: int)
    requires
        v.cell_addressable(),
        0 <= r < 8,
        0 <= n <= 8,
    ensures
        forall|i: int|
            0 <= i < v.glyph_row(bits, r, n).len() ==> #[trigger] in_console_row(
                v,
                v.cursor_x as int,
                v.cursor_y as int,
                r,
                bits,
                n,
                v.glyph_row(bits, r, n)[i],
            ),
        forall|c: int, k: int|
            0 <= c < n && bit_set(bits, c as u8) && 0 <= k < 3 ==> #[trigger] byte_stored(
                v,
                v.cursor_x as int,
                v.cursor_y as int,
                r,
                c,
                k,
                v.glyph_row(bits, r, n),
            ),
        v.glyph_row(bits, r, n).len() == 3 * row_set_bits(bits, n),
    decreases n,
{
    let (x, y) = (v.cursor_x as int, v.cursor_y as int);
    if n > 0 {
        let c0 = n - 1;
        lemma_console_row_bytes(v, r, bits, n - 1);
        let a = v.glyph_row(bits, r, n - 1);
        let set = bit_set(bits, c0 as u8);
        let px = v.pixel_bytes(x + c0, y + r);
        let b = if set {
            px
        } else {
            Seq::<usize>::empty()
        };
        let rw = v.glyph_row(bits, r, n);
        assert(rw == a + b);
        lemma_cell_offsets(v, r, c0, 0);
        lemma_cell_offsets(v, r, c0, 2);
        assert forall|k: int| 0 <= k < 3 implies glyph_byte(v, x, y, r, c0, k, px[k]) by {}
        assert forall|i: int| 0 <= i < rw.len() implies #[trigger] in_console_row(
            v,
            x,
            y,
            r,
            bits,
            n,
            rw[i],
        ) by {
            if i < a.len() {
                assert(rw[i] == a[i]);
                assert(in_console_row(v, x, y, r, bits, n - 1, a[i]));
                let (c, k) = choose|c: int, k: int|
                    0 <= c < n - 1 && bit_set(bits, c as u8) && #[trigger] glyph_byte(
                        v,
                        x,
                        y,
                        r,
                        c,
                        k,
                        a[i],
                    );
                assert(glyph_byte(v, x, y, r, c, k, rw[i]));
            } else {
                let k = i - a.len();
                assert(rw[i] == px[k]);
                assert(glyph_byte(v, x, y, r, c0, k, rw[i]));
            }
        }
        assert forall|c: int, k: int| 0 <= c < n && bit_set(bits, c as u8) && 0 <= k < 3 implies #[trigger] byte_stored(
            v,
            x,
            y,
            r,
            c,
            k,
            rw,
        ) by {
            if c < n - 1 {
                assert(byte_stored(v, x, y, r, c, k, a));
                let i = choose|i: int| 0 <= i < a.len() && #[trigger] glyph_byte(v, x, y, r, c, k, a[i]);
                assert(rw[i] == a[i]);
                assert(glyph_byte(v, x, y, r, c, k, rw[i]));
            } else {
                assert(rw[a.len() + k] == px[k]);
                assert(glyph_byte(v, x, y, r, c, k, rw[a.len() + k]));
            }
        }
    } else {
        assert(v.glyph_row(bits, r, n) =~= Seq::<usize>::empty());
    }
}

#[verifier::rlimit(50)]
proof fn lemma_console_glyph_bytes(v: ConsoleState, g: Seq<u8>, n: int)
    requires
        v.cell_addressable(),
        0 <= n <= 8,
        g.len() == 8,
    ensures
        forall|i: int|
            0 <= i < v.glyph(g, n).len() ==> #[trigger] in_console_glyph(
                v,
                v.cursor_x as int,
                v.cursor_y as int,
                g,
                n,
                v.glyph(g, n)[i],
            ),
        forall|r: int, c: int, k: int|
            0 <= r < n && 0 <= c < 8 && bit_set(g[r], c as u8) && 0 <= k < 3 ==> #[trigger] byte_stored(
                v,
                v.cursor_x as int,
                v.cursor_y as int,
                r,
                c,
                k,
                v.glyph(g, n),
            ),
        v.glyph(g, n).len() == 3 * glyph_set_bits(g, n),
    decreases n,
{
    let (x, y) = (v.cursor_x as int, v.cursor_y as int);
    if n > 0 {
        let r0 = n - 1;
        lemma_console_glyph_bytes(v, g, n - 1);
        lemma_console_row_bytes(v, r0, g[r0], 8);
        let a = v.glyph(g, n - 1);
        let b = v.glyph_row(g[r0], r0, 8);
        let gl = v.glyph(g, n);
        assert(gl == a + b);
        assert forall|i: int| 0 <= i < gl.len() implies #[trigger] in_console_glyph(
            v,
            x,
            y,
            g,
            n,
            gl[i],
        ) by {
            if i < a.len() {
                assert(gl[i] == a[i]);
                assert(in_console_glyph(v, x, y, g, n - 1, a[i]));
                let (r, c, k) = choose|r: int, c: int, k: int|
                    0 <= r < n - 1 && 0 <= c < 8 && bit_set(g[r], c as u8) && #[trigger] glyph_byte(
                        v,
                        x,
                        y,
                        r,
                        c,
                        k,
                        a[i],
                    );
                assert(glyph_byte(v, x, y, r, c, k, gl[i]));
            } else {
                let j = i - a.len();
                assert(gl[i] == b[j]);
                assert(in_console_row(v, x, y, r0, g[r0], 8, b[j]));
                let (c, k) = choose|c: int, k: int|
                    0 <= c < 8 && bit_set(g[r0], c as u8) && #[trigger] glyph_byte(
                        v,
                        x,
                        y,
                        r0,
                        c,
                        k,
                        b[j],
                    );
                assert(glyph_byte(v, x, y, r0, c, k, gl[i]));
            }
        }
        assert forall|r: int, c: int, k: int|
            0 <= r < n && 0 <= c < 8 && bit_set(g[r], c as u8) && 0 <= k < 3 implies #[trigger] byte_stored(
            v,
            x,
            y,
            r,
            c,
            k,
            gl,
        ) by {
            if r < n - 1 {
                assert(byte_stored(v, x, y, r, c, k, a));
                let i = choose|i: int| 0 <= i < a.len() && #[trigger] glyph_byte(v, x, y, r, c, k, a[i]);
                assert(gl[i] == a[i]);
                assert(glyph_byte(v, x, y, r, c, k, gl[i]));
            } else {
                assert(byte_stored(v, x, y, r0, c, k, b));
                let j = choose|j: int| 0 <= j < b.len() && #[trigger] glyph_byte(v, x, y, r0, c, k, b[j]);
                assert(gl[a.len() + j] == b[j]);
                assert(glyph_byte(v, x, y, r, c, k, gl[a.len() + j]));
            }
        }
    } else {
        assert(v.glyph(g, n) =~= Seq::<usize>::empty());
    }
}

/// Drawing a printable character with glyph `g` paints exactly its set bits, all
/// eight rows of them: with the cursor first moved to the next line (10 pixels
/// down, or back to the top line at the bottom margin, and to the left margin) when
/// it is within 8 pixels of the right border, every byte written is one of the
/// three bytes of pixel `(x + c, y + r)` for a set bit `c` of glyph row `r`; all
/// three bytes of every such pixel are written; and there are three bytes per set
/// bit.
pub proof fn lemma_glyph_paints_bits(v: ConsoleState, g: Seq<u8>)
    requires
        v.width >= 8,
        v.cursor_x >= v.width - 8 ==> v.height >= 10,
        v.wrapped().cell_addressable(),
        g.len() == 8,
    ensures
        ({
            let wraps = v.cursor_x >= v.width - 8;
            let down = v.cursor_y + 10;
            let x: int = if wraps {
                10
            } else {
                v.cursor_x as int
            };
            let y: int = if !wraps {
                v.cursor_y as int
            } else if down >= v.height - 10 {
                10
            } else {
                down
            };
            let st = v.glyph_writes(Some(g));
            &&& forall|i: int| 0 <= i < st.len() ==> #[trigger] in_console_glyph(v, x, y, g, 8, st[i])
            &&& forall|r: int, c: int, k: int|
                0 <= r < 8 && 0 <= c < 8 && bit_set(g[r], c as u8) && 0 <= k < 3
                    ==> #[trigger] byte_stored(v, x, y, r, c, k, st)
            &&& st.len() == 3 * glyph_set_bits(g, 8)
        }),
{
    let w = v.wrapped();
    let (x, y) = (w.cursor_x as int, w.cursor_y as int);
    lemma_console_glyph_bytes(w, g, 8);
    let st = v.glyph_writes(Some(g));
    assert(st == w.glyph(g, 8));
    assert forall|i: int| 0 <= i < st.len() implies #[trigger] in_console_glyph(v, x, y, g, 8, st[i]) by {
        assert(in_console_glyph(w, x, y, g, 8, st[i]));
        let (r, c, k) = choose|r: int, c: int, k: int|
            0 <= r < 8 && 0 <= c < 8 && bit_set(g[r], c as u8) && #[trigger] glyph_byte(
                w,
                x,
                y,
                r,
                c,
                k,
                st[i],
            );
        assert(glyph_byte(v, x, y, r, c, k, st[i]));
    }
    assert forall|r: int, c: int, k: int|
        0 <= r < 8 && 0 <= c < 8 && bit_set(g[r], c as u8) && 0 <= k < 3 implies #[trigger] byte_stored(
        v,
        x,
        y,
        r,
        c,
        k,
        st,
    ) by {
        assert(byte_stored(w, x, y, r, c, k, st));
        let i = choose|i: int| 0 <= i < st.len() && #[trigger] glyph_byte(w, x, y, r, c, k, st[i]);
        assert(glyph_byte(v, x, y, r, c, k, st[i]));
    }
}

} // verus!
