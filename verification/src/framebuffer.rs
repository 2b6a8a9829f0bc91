//! A text renderer for a linear 32-bit-per-pixel framebuffer, drawing the 8x8
//! bitmap font scaled up by an integer factor.
//!
//! The renderer computes the pixel stores that drawing text takes; the caller
//! performs them on the memory-mapped framebuffer, in order.

use crate::font::{basic_font_glyph, basic_font_lookup, glyph_set_bits, row_set_bits};
use crate::memory::bit_set;
use vstd::prelude::*;

verus! {

/// One 32-bit pixel store: `color` goes to the framebuffer at byte `offset`.
#[derive(Clone, Copy, Debug, PartialEq, Eq)]
pub struct PixelWrite {
    pub offset: usize,
    pub color: u32,
}

/// The abstract state of a framebuffer `Writer`.
pub struct WriterState {
    /// Bytes per scanline.
    pub pitch: usize,
    pub width: usize,
    pub height: usize,
    /// Cursor column, in pixels.
    pub x: usize,
    /// Cursor row, in pixels.
    pub y: usize,
    pub color: u32,
    pub scale: usize,
}

impl WriterState {
    /// Width (and height) in pixels of one scaled character cell.
    pub open spec fn cell(self) -> int {
        8 * self.scale
    }

    /// The byte offset of every on-screen pixel fits in `usize`.
    pub open spec fn addressable(self) -> bool {
        self.width == 0 || self.height == 0 || (self.height - 1) * self.pitch + (self.width - 1) * 4
            <= usize::MAX
    }

    /// The store that drawing pixel `(px, py)` takes: none when it is off the screen.
    pub open spec fn pixel(self, px: int, py: int) -> Seq<PixelWrite> {
        if 0 <= px < self.width && 0 <= py < self.height {
            seq![PixelWrite { offset: (py * self.pitch + px * 4) as usize, color: self.color }]
        } else {
            Seq::empty()
        }
    }

    /// The stores for pixels `(px0, py) .. (px0 + n - 1, py)`, left to right.
    pub open spec fn span(self, px0: int, py: int, n: int) -> Seq<PixelWrite>
        decreases n,
    {
        if n <= 0 {
            Seq::empty()
        } else {
            self.span(px0, py, n - 1) + self.pixel(px0 + n - 1, py)
        }
    }

    /// The stores for the first `n` lines of the `scale` x `scale` block at
    /// `(px0, py0)`, top to bottom.
    pub open spec fn block(self, px0: int, py0: int, n: int) -> Seq<PixelWrite>
        decreases n,
    {
        if n <= 0 {
            Seq::empty()
        } else {
            self.block(px0, py0, n - 1) + self.span(px0, py0 + n - 1, self.scale as int)
        }
    }

    /// The stores for the first `n` columns of glyph row `row` with bits `bits`,
    /// drawn at the cursor: one block per set bit.
    pub open spec fn glyph_row(self, bits: u8, row: int, n: int) -> Seq<PixelWrite>
        decreases n,
    {
        if n <= 0 {
            Seq::empty()
        } else {
            self.glyph_row(bits, row, n - 1) + if bit_set(bits, (n - 1) as u8) {
                self.block(
                    self.x + (n - 1) * self.scale,
                    self.y + row * self.scale,
                    self.scale as int,
                )
            } else {
                Seq::empty()
            }
        }
    }

    /// The stores for the first `n` rows of glyph `g`, drawn at the cursor.
    pub open spec fn glyph(self, g: Seq<u8>, n: int) -> Seq<PixelWrite>
        decreases n,
    {
        if n <= 0 {
            Seq::empty()
        } else {
            self.glyph(g, n - 1) + self.glyph_row(g[n - 1], n - 1, 8)
        }
    }

    /// The state after moving the cursor to the start of the next line.
    pub open spec fn after_new_line(self) -> WriterState {
        WriterState { x: 0, y: (self.y + self.cell()) as usize, ..self }
    }

    /// The state in which a printable character is drawn: on the next line when
    /// it would not fit on this one.
    pub open spec fn wrapped(self) -> WriterState {
        if self.x + self.cell() >= self.width {
            self.after_new_line()
        } else {
            self
        }
    }

    /// The state after drawing a printable character.
    pub open spec fn after_glyph(self) -> WriterState {
        let w = self.wrapped();
        WriterState { x: (w.x + w.cell()) as usize, ..w }
    }

    /// The stores for drawing a printable character whose glyph, if the font has
    /// one, is `g`.
    pub open spec fn glyph_writes(self, g: Option<Seq<u8>>) -> Seq<PixelWrite> {
        match g {
            Some(rows) => self.wrapped().glyph(rows, 8),
            None => Seq::empty(),
        }
    }

    /// The glyph of the basic font for `c`, where it has one.
    pub open spec fn font_glyph(c: char) -> Option<Seq<u8>> {
        if (c as u32) < 128 {
            Some(basic_font_glyph(c))
        } else {
            None
        }
    }

    /// The state after writing `c`.
    pub open spec fn after_char(self, c: char) -> WriterState {
        if c == '\n' {
            self.after_new_line()
        } else {
            self.after_glyph()
        }
    }

    /// The stores for writing `c`.
    pub open spec fn char_writes(self, c: char) -> Seq<PixelWrite> {
        if c == '\n' {
            Seq::empty()
        } else {
            self.glyph_writes(Self::font_glyph(c))
        }
    }

    /// Drawing a printable character does not overflow the cursor arithmetic.
    pub open spec fn glyph_fits(self) -> bool {
        &&& self.cell() <= usize::MAX
        &&& self.x + self.cell() <= usize::MAX
        &&& self.x + self.cell() >= self.width ==> self.y + self.cell() <= usize::MAX
    }

    /// Writing `c` does not overflow: neither the cursor arithmetic nor, for a
    /// printable character, the byte offset of a pixel it may draw.
    pub open spec fn char_fits(self, c: char) -> bool {
        if c == '\n' {
            self.cell() <= usize::MAX && self.y + self.cell() <= usize::MAX
        } else {
            self.glyph_fits() && self.addressable()
        }
    }

    /// The state after writing the chars `cs` in order.
    pub open spec fn after_chars(self, cs: Seq<char>) -> WriterState
        decreases cs.len(),
    {
        if cs.len() == 0 {
            self
        } else {
            self.after_char(cs[0]).after_chars(cs.drop_first())
        }
    }

    /// The stores for writing the chars `cs` in order.
    pub open spec fn chars_writes(self, cs: Seq<char>) -> Seq<PixelWrite>
        decreases cs.len(),
    {
        if cs.len() == 0 {
            Seq::empty()
        } else {
            self.char_writes(cs[0]) + self.after_char(cs[0]).chars_writes(cs.drop_first())
        }
    }

    /// Writing the chars `cs` in order never overflows the cursor arithmetic.
    pub open spec fn chars_fit(self, cs: Seq<char>) -> bool
        decreases cs.len(),
    {
        cs.len() == 0 || (self.char_fits(cs[0]) && self.after_char(cs[0]).chars_fit(
            cs.drop_first(),
        ))
    }
}

/// A text renderer that manages writing characters to a raw pixel framebuffer.
pub struct Writer {
    pitch: usize,
    width: usize,
    height: usize,
    x: usize,
    y: usize,
    color: u32,
    scale: usize,
}

impl View for Writer {
    type V = WriterState;

    closed spec fn view(&self) -> WriterState {
        WriterState {
            pitch: self.pitch,
            width: self.width,
            height: self.height,
            x: self.x,
            y: self.y,
            color: self.color,
            scale: self.scale,
        }
    }
}

impl Writer {
    /// Creates a new `Writer` for a linear framebuffer of `width` x `height`
    /// pixels with `pitch` bytes per scanline.
    pub fn new(pitch: usize, width: usize, height: usize) -> (w: Self)
        ensures
            w@ == (WriterState { pitch, width, height, x: 0, y: 0, color: 0x00_FF_FF_FF, scale: 2 }),
    {
        Writer {
            pitch,
            width,
            height,
            x: 0,
            y: 0,
            color: 0x00_FF_FF_FF,  // Default to solid white
            scale: 2,  // Default text scaling factor
        }
    }

    /// Sets the text color using an ARGB/XRGB 32-bit format.
    pub fn set_color(&mut self, color: u32)
        ensures
            final(self)@ == (WriterState { color, ..old(self)@ }),
    {
        self.color = color;
    }

    /// Sets the text scale factor to adjust font dimensions.
    pub fn set_scale(&mut self, scale: usize)
        ensures
            final(self)@ == (WriterState { scale, ..old(self)@ }),
    {
        self.scale = scale;
    }

    /// The cursor position `(x, y)` in pixels.
    pub fn cursor(&self) -> (r: (usize, usize))
        ensures
            r == (self@.x, self@.y),
    {
        (self.x, self.y)
    }

    /// Draws a single pixel, unless it is off the screen.
    fn draw_pixel(&self, x: usize, y: usize, out: &mut Vec<PixelWrite>)
        requires
            self@.addressable(),
        ensures
            final(out)@ == old(out)@ + self@.pixel(x as int, y as int),
    {
        // Prevent writing out of the physical screen bounds.
        if x >= self.width || y >= self.height {
            return;
        }
        proof {
            let (h, w, p) = (self.height as int, self.width as int, self.pitch as int);
            assert(y * p <= (h - 1) * p) by (nonlinear_arith)
                requires
                    0 <= y <= h - 1,
                    p >= 0,
            ;
        }
        // Calculate byte offset: (row * row size in bytes) + (column * bytes per pixel)
        let pixel_offset = (y * self.pitch) + (x * 4);
        out.push(PixelWrite { offset: pixel_offset, color: self.color });
    }

    /// Moves the cursor down to the start of the next line.
    pub fn new_line(&mut self)
        requires
            old(self)@.cell() <= usize::MAX,
            old(self)@.y + old(self)@.cell() <= usize::MAX,
        ensures
            final(self)@ == old(self)@.after_new_line(),
    {
        self.x = 0;
        self.y += 8 * self.scale;
    }

    /// Draws the `scale` x `scale` block whose top left pixel is column `px0`,
    /// `row_top` pixels below the cursor.
    fn draw_block(&self, px0: usize, row_top: usize, out: &mut Vec<PixelWrite>)
        requires
            self@.addressable(),
            px0 + self@.scale <= usize::MAX,
            row_top + self@.scale <= usize::MAX,
        ensures
            final(out)@ == old(out)@ + self@.block(
                px0 as int,
                self@.y + row_top,
                self@.scale as int,
            ),
    {
        let ghost v = self@;
        let ghost py0 = self@.y + row_top;
        let s = self.scale;
        for sy in 0..s
            invariant
                v == self@,
                s == v.scale,
                py0 == v.y + row_top,
                v.addressable(),
                px0 + s <= usize::MAX,
                row_top + s <= usize::MAX,
                out@ == old(out)@ + v.block(px0 as int, py0, sy as int),
        {
            for sx in 0..s
                invariant
                    v == self@,
                    s == v.scale,
                    py0 == v.y + row_top,
                    v.addressable(),
                    px0 + s <= usize::MAX,
                    row_top + s <= usize::MAX,
                    sy < s,
                    out@ == old(out)@ + v.block(px0 as int, py0, sy as int) + v.span(
                        px0 as int,
                        py0 + sy,
                        sx as int,
                    ),
            {
                let ghost before = out@;
                let px = px0 + sx;
                if self.y < self.height && row_top + sy < self.height - self.y {
                    self.draw_pixel(px, self.y + row_top + sy, out);
                }
                // Otherwise the pixel lies below the screen, where nothing is drawn.
                assert(out@ =~= old(out)@ + v.block(px0 as int, py0, sy as int) + v.span(
                    px0 as int,
                    py0 + sy,
                    sx + 1,
                ));
            }
            assert(out@ =~= old(out)@ + v.block(px0 as int, py0, sy + 1));
        }
    }

    /// Draws a printable character whose glyph, if the font has one, is `glyph`:
    /// wraps to the next line when the character would not fit on this one, paints
    /// a scaled block for every set bit of the glyph, and advances the cursor by
    /// one character cell.
    pub fn write_glyph(&mut self, glyph: Option<[u8; 8]>, out: &mut Vec<PixelWrite>)
        requires
            old(self)@.glyph_fits(),
            old(self)@.addressable(),
        ensures
            final(self)@ == old(self)@.after_glyph(),
            final(out)@ == old(out)@ + old(self)@.glyph_writes(
                match glyph {
                    Some(g) => Some(g@),
                    None => None,
                },
            ),
    {
        // Wrap lines automatically if the next character exceeds the screen width.
        if self.x + (8 * self.scale) >= self.width {
            self.new_line();
        }
        let ghost w = self@;
        assert(w == old(self)@.wrapped());
        if let Some(bitmap) = glyph {
            let s = self.scale;
            for row_idx in 0..8usize
                invariant
                    w == self@,
                    s == w.scale,
                    w.addressable(),
                    w.x + 8 * s <= usize::MAX,
                    8 * s <= usize::MAX,
                    out@ == old(out)@ + w.glyph(bitmap@, row_idx as int),
            {
                let row_byte = bitmap[row_idx];
                for col_idx in 0..8usize
                    invariant
                        w == self@,
                        s == w.scale,
                        w.addressable(),
                        w.x + 8 * s <= usize::MAX,
                        8 * s <= usize::MAX,
                        row_idx < 8,
                        row_byte == bitmap@[row_idx as int],
                        out@ == old(out)@ + w.glyph(bitmap@, row_idx as int) + w.glyph_row(
                            row_byte,
                            row_idx as int,
                            col_idx as int,
                        ),
                {
                    // Check if the current bit in the glyph matrix is set.
                    if (row_byte & (1u8 << col_idx as u8)) != 0 {
                        assert(col_idx * s <= 7 * s) by (nonlinear_arith)
                            requires
                                col_idx <= 7,
                        ;
                        assert(row_idx * s <= 7 * s) by (nonlinear_arith)
                            requires
                                row_idx <= 7,
                        ;
                        // Render a scaled macro-pixel for the font.
                        self.draw_block(self.x + col_idx * s, row_idx * s, out);
                    }
                    assert(out@ =~= old(out)@ + w.glyph(bitmap@, row_idx as int) + w.glyph_row(
                        row_byte,
                        row_idx as int,
                        col_idx + 1,
                    ));
                }
                assert(out@ =~= old(out)@ + w.glyph(bitmap@, row_idx + 1));
            }
        }
        // Advance the cursor position by the character width.
        self.x += 8 * self.scale;
    }

    /// Renders a single character using the 8x8 bitmap font.
    pub fn write_char(&mut self, c: char, out: &mut Vec<PixelWrite>)
        requires
            old(self)@.char_fits(c),
        ensures
            final(self)@ == old(self)@.after_char(c),
            final(out)@ == old(out)@ + old(self)@.char_writes(c),
    {
        // Handle explicit newline sequences.
        if c == '\n' {
            self.new_line();
            assert(out@ =~= old(out)@ + old(self)@.char_writes(c));
            return;
        }
        // Fetch the glyph bitmap representation.
        let glyph = basic_font_lookup(c);
        self.write_glyph(glyph, out);
    }

    /// Iterates over and prints a string slice.
    pub fn write_string(&mut self, s: &str, out: &mut Vec<PixelWrite>)
        requires
            old(self)@.chars_fit(s@),
        ensures
            final(self)@ == old(self)@.after_chars(s@),
            final(out)@ == old(out)@ + old(self)@.chars_writes(s@),
    {
        let ghost v0 = self@;
        let ghost cs = s@;
        assert(cs.skip(0) =~= cs);
        for c in it: s.chars()
            invariant
                cs == s@,
                it.seq() == cs,
                self@.chars_fit(cs.skip(it.index() as int)),
                v0.after_chars(cs) == self@.after_chars(cs.skip(it.index() as int)),
                old(out)@ + v0.chars_writes(cs) == out@ + self@.chars_writes(
                    cs.skip(it.index() as int),
                ),
        {
            let ghost i = it.index() as int;
            let ghost rest = cs.skip(i);
            assert(rest[0] == c);
            assert(rest.drop_first() =~= cs.skip(i + 1));
            let ghost before = out@;
            let ghost st = self@;
            self.write_char(c, out);
            assert(before + st.chars_writes(rest) =~= out@ + self@.chars_writes(cs.skip(i + 1)));
        }
        assert(cs.skip(cs.len() as int) =~= Seq::<char>::empty());
        assert(out@ =~= old(out)@ + v0.chars_writes(cs));
    }

    /// Whether `write_string(s, ..)` runs in this state without its cursor or
    /// offset arithmetic overflowing: the condition its `requires` states.
    pub fn can_write(&self, s: &str) -> (r: bool)
        ensures
            r == self@.chars_fit(s@),
    {
        let mut addressable = true;
        if self.width > 0 && self.height > 0 {
            match (self.height - 1).checked_mul(self.pitch) {
                None => {
                    addressable = false;
                },
                Some(rows) => match (self.width - 1).checked_mul(4) {
                    None => {
                        addressable = false;
                    },
                    Some(cols) => {
                        addressable = rows.checked_add(cols).is_some();
                    },
                },
            }
        }
        assert(addressable == self@.addressable());
        let ghost cs = s@;
        let mut x = self.x;
        let mut y = self.y;
        assert(cs.skip(0) =~= cs);
        for c in it: s.chars()
            invariant
                cs == s@,
                it.seq() == cs,
                addressable == self@.addressable(),
                self@.chars_fit(cs) == (WriterState { x, y, ..self@ }).chars_fit(
                    cs.skip(it.index() as int),
                ),
        {
            let ghost st = WriterState { x, y, ..self@ };
            let ghost i = it.index() as int;
            assert(cs.skip(i)[0] == c);
            assert(cs.skip(i).drop_first() =~= cs.skip(i + 1));
            let cell = match 8usize.checked_mul(self.scale) {
                None => {
                    return false;
                },
                Some(v) => v,
            };
            if c == '\n' {
                if y.checked_add(cell).is_none() {
                    return false;
                }
                x = 0;
                y = y + cell;
            } else {
                if !addressable {
                    return false;
                }
                let right = match x.checked_add(cell) {
                    None => {
                        return false;
                    },
                    Some(v) => v,
                };
                if right >= self.width {
                    if y.checked_add(cell).is_none() {
                        return false;
                    }
                    x = 0;
                    y = y + cell;
                }
                x = x + cell;
            }
            assert((WriterState { x, y, ..self@ }) == st.after_char(c));
        }
        assert(cs.skip(cs.len() as int) =~= Seq::<char>::empty());
        true
    }
}


/// Every store of `s` is in color `v.color` and lands within the framebuffer: at
/// most at the offset of the bottom right pixel.
pub open spec fn stores_on_screen(v: WriterState, s: Seq<PixelWrite>) -> bool {
    forall|i: int|
        0 <= i < s.len() ==> (#[trigger] s[i]).color == v.color && s[i].offset <= (v.height - 1)
            * v.pitch + (v.width - 1) * 4
}

proof fn lemma_concat_on_screen(v: WriterState, a: Seq<PixelWrite>, b: Seq<PixelWrite>)
    requires
        stores_on_screen(v, a),
        stores_on_screen(v, b),
    ensures
        stores_on_screen(v, a + b),
{
    assert forall|i: int| 0 <= i < (a + b).len() implies (#[trigger] (a + b)[i]).color == v.color
        && (a + b)[i].offset <= (v.height - 1) * v.pitch + (v.width - 1) * 4 by {
        if i < a.len() {
            assert((a + b)[i] == a[i]);
        } else {
            assert((a + b)[i] == b[i - a.len()]);
        }
    }
}

proof fn lemma_span_on_screen(v: WriterState, px0: int, py: int, n: int)
    requires
        v.addressable(),
    ensures
        stores_on_screen(v, v.span(px0, py, n)),
    decreases n,
{
    if n > 0 {
        lemma_span_on_screen(v, px0, py, n - 1);
        let px = px0 + n - 1;
        if 0 <= px < v.width && 0 <= py < v.height {
            let (h, w, p) = (v.height as int, v.width as int, v.pitch as int);
            assert(py * p + px * 4 <= (h - 1) * p + (w - 1) * 4) by (nonlinear_arith)
                requires
                    0 <= py <= h - 1,
                    0 <= px <= w - 1,
                    p >= 0,
            ;
            assert(0 <= py * p) by (nonlinear_arith)
                requires
                    0 <= py,
                    p >= 0,
            ;
        }
        lemma_concat_on_screen(v, v.span(px0, py, n - 1), v.pixel(px, py));
    }
}

proof fn lemma_block_on_screen(v: WriterState, px0: int, py0: int, n: int)
    requires
        v.addressable(),
    ensures
        stores_on_screen(v, v.block(px0, py0, n)),
    decreases n,
{
    if n > 0 {
        lemma_block_on_screen(v, px0, py0, n - 1);
        lemma_span_on_screen(v, px0, py0 + n - 1, v.scale as int);
        lemma_concat_on_screen(
            v,
            v.block(px0, py0, n - 1),
            v.span(px0, py0 + n - 1, v.scale as int),
        );
    }
}

proof fn lemma_glyph_on_screen(v: WriterState, g: Seq<u8>, n: int)
    requires
        v.addressable(),
    ensures
        stores_on_screen(v, v.glyph(g, n)),
    decreases n,
{
    if n > 0 {
        lemma_glyph_on_screen(v, g, n - 1);
        lemma_glyph_row_on_screen(v, g[n - 1], n - 1, 8);
        lemma_concat_on_screen(v, v.glyph(g, n - 1), v.glyph_row(g[n - 1], n - 1, 8));
    }
}

proof fn lemma_glyph_row_on_screen(v: WriterState, bits: u8, row: int, n: int)
    requires
        v.addressable(),
    ensures
        stores_on_screen(v, v.glyph_row(bits, row, n)),
    decreases n,
{
    if n > 0 {
        lemma_glyph_row_on_screen(v, bits, row, n - 1);
        let b = v.block(v.x + (n - 1) * v.scale, v.y + row * v.scale, v.scale as int);
        lemma_block_on_screen(v, v.x + (n - 1) * v.scale, v.y + row * v.scale, v.scale as int);
        if bit_set(bits, (n - 1) as u8) {
            lemma_concat_on_screen(v, v.glyph_row(bits, row, n - 1), b);
        } else {
            lemma_concat_on_screen(v, v.glyph_row(bits, row, n - 1), Seq::empty());
        }
    }
}

/// Every pixel store that writing a char takes is in the writer's current color
/// and lands within the framebuffer.
pub proof fn lemma_char_writes_on_screen(v: WriterState, c: char)
    requires
        v.addressable(),
    ensures
        stores_on_screen(v, v.char_writes(c)),
{
    let w = v.wrapped();
    if c != '\n' {
        if let Some(g) = WriterState::font_glyph(c) {
            lemma_glyph_on_screen(w, g, 8);
        }
    }
}

/// Every pixel store that writing a string takes is in the writer's current color
/// and lands within the framebuffer.
pub proof fn lemma_chars_writes_on_screen(v: WriterState, cs: Seq<char>)
    requires
        v.addressable(),
    ensures
        stores_on_screen(v, v.chars_writes(cs)),
    decreases cs.len(),
{
    if cs.len() > 0 {
        lemma_char_writes_on_screen(v, cs[0]);
        let v1 = v.after_char(cs[0]);
        lemma_chars_writes_on_screen(v1, cs.drop_first());
        lemma_concat_on_screen(v, v.char_writes(cs[0]), v1.chars_writes(cs.drop_first()));
    }
}

/// Writing `s1` and then `s2` is writing `s1 + s2`: the same stores in the same
/// order, the same final state, and it runs exactly when both parts run.
pub proof fn lemma_write_concat(v: WriterState, s1: Seq<char>, s2: Seq<char>)
    ensures
        v.after_chars(s1 + s2) == v.after_chars(s1).after_chars(s2),
        v.chars_writes(s1 + s2) == v.chars_writes(s1) + v.after_chars(s1).chars_writes(s2),
        v.chars_fit(s1 + s2) == (v.chars_fit(s1) && v.after_chars(s1).chars_fit(s2)),
    decreases s1.len(),
{
    if s1.len() == 0 {
        assert(s1 + s2 =~= s2);
        assert(v.chars_writes(s1) + v.chars_writes(s2) =~= v.chars_writes(s2));
    } else {
        let c = s1[0];
        let v1 = v.after_char(c);
        assert((s1 + s2).drop_first() =~= s1.drop_first() + s2);
        assert((s1 + s2)[0] == c);
        lemma_write_concat(v1, s1.drop_first(), s2);
        assert(v.chars_writes(s1 + s2) =~= v.chars_writes(s1) + v.after_chars(s1).chars_writes(
            s2,
        ));
    }
}

} // verus!

verus! {

/// Pixel `(x + c * scale + sx, y + r * scale + sy)` is on the screen: the pixel at
/// `(sx, sy)` in the `scale` x `scale` block of glyph bit `(r, c)` of a glyph
/// drawn with its top left pixel at `(x, y)`.
pub open spec fn glyph_pixel_visible(
    v: WriterState,
    x: int,
    y: int,
    r: int,
    c: int,
    sx: int,
    sy: int,
) -> bool {
    &&& 0 <= x + c * v.scale + sx < v.width
    &&& 0 <= y + r * v.scale + sy < v.height
}

/// Some store of `st` is the store for pixel `(sx, sy)` of the block of glyph bit
/// `(r, c)`.
pub open spec fn stored_in(
    v: WriterState,
    x: int,
    y: int,
    r: int,
    c: int,
    sx: int,
    sy: int,
    st: Seq<PixelWrite>,
) -> bool {
    exists|i: int| 0 <= i < st.len() && #[trigger] glyph_pixel_store(v, x, y, r, c, sx, sy, st[i])
}

/// `e` is the store for some pixel `(sx, sy)` with `sx < n` in the block of glyph
/// bit `(r, c)`.
pub open spec fn in_glyph_span(
    v: WriterState,
    x: int,
    y: int,
    r: int,
    c: int,
    sy: int,
    n: int,
    e: PixelWrite,
) -> bool {
    exists|sx: int| 0 <= sx < n && #[trigger] glyph_pixel_store(v, x, y, r, c, sx, sy, e)
}

/// `e` is the 32-bit store of the writer's color into that pixel, which is on the
/// screen: at byte `row * pitch + column * 4`.
pub open spec fn glyph_pixel_store(
    v: WriterState,
    x: int,
    y: int,
    r: int,
    c: int,
    sx: int,
    sy: int,
    e: PixelWrite,
) -> bool {
    &&& glyph_pixel_visible(v, x, y, r, c, sx, sy)
    &&& e.offset == (y + r * v.scale + sy) * v.pitch + (x + c * v.scale + sx) * 4
    &&& e.color == v.color
}

#[verifier::rlimit(50)]
proof fn lemma_span_glyph_pixels(
    v: WriterState,
    x: int,
    y: int,
    r: int,
    c: int,
    sy: int,
    px0: int,
    py: int,
    n: int,
)
    requires
        v.addressable(),
        n >= 0,
        px0 == x + c * v.scale,
        py == y + r * v.scale + sy,
    ensures
        forall|i: int|
            0 <= i < v.span(px0, py, n).len() ==> #[trigger] in_glyph_span(
                v,
                x,
                y,
                r,
                c,
                sy,
                n,
                v.span(px0, py, n)[i],
            ),
        forall|sx: int|
            0 <= sx < n && #[trigger] glyph_pixel_visible(v, x, y, r, c, sx, sy) ==> stored_in(
                v,
                x,
                y,
                r,
                c,
                sx,
                sy,
                v.span(px0, py, n),
            ),
        (0 <= px0 && px0 + n <= v.width && 0 <= py < v.height) ==> v.span(px0, py, n).len() == n,
    decreases n,
{
    if n > 0 {
        lemma_span_glyph_pixels(v, x, y, r, c, sy, px0, py, n - 1);
        let a = v.span(px0, py, n - 1);
        let b = v.pixel(px0 + n - 1, py);
        let sp = v.span(px0, py, n);
        assert(sp == a + b);
        if glyph_pixel_visible(v, x, y, r, c, n - 1, sy) {
            let (h, w, p) = (v.height as int, v.width as int, v.pitch as int);
            let px = px0 + n - 1;
            assert(py * p + px * 4 <= (h - 1) * p + (w - 1) * 4 && 0 <= py * p) by (nonlinear_arith)
                requires
                    0 <= py <= h - 1,
                    0 <= px <= w - 1,
                    p >= 0,
            ;
            assert(glyph_pixel_store(v, x, y, r, c, n - 1, sy, sp[a.len() as int]));
        }
        assert forall|i: int| 0 <= i < sp.len() implies #[trigger] in_glyph_span(
            v,
            x,
            y,
            r,
            c,
            sy,
            n,
            sp[i],
        ) by {
            if i < a.len() {
                assert(sp[i] == a[i]);
                assert(in_glyph_span(v, x, y, r, c, sy, n - 1, a[i]));
                let sx = choose|sx: int|
                    0 <= sx < n - 1 && #[trigger] glyph_pixel_store(v, x, y, r, c, sx, sy, a[i]);
                assert(glyph_pixel_store(v, x, y, r, c, sx, sy, sp[i]));
            } else {
                assert(glyph_pixel_store(v, x, y, r, c, n - 1, sy, sp[i]));
            }
        }
        assert forall|sx: int|
            0 <= sx < n && #[trigger] glyph_pixel_visible(v, x, y, r, c, sx, sy) implies stored_in(
            v,
            x,
            y,
            r,
            c,
            sx,
            sy,
            sp,
        ) by {
            if sx < n - 1 {
                assert(stored_in(v, x, y, r, c, sx, sy, a));
                let i = choose|i: int|
                    0 <= i < a.len() && #[trigger] glyph_pixel_store(v, x, y, r, c, sx, sy, a[i]);
                assert(sp[i] == a[i]);
                assert(glyph_pixel_store(v, x, y, r, c, sx, sy, sp[i]));
            } else {
                assert(glyph_pixel_store(v, x, y, r, c, sx, sy, sp[a.len() as int]));
            }
        }
        if 0 <= px0 && px0 + n <= v.width && 0 <= py < v.height {
            assert(glyph_pixel_visible(v, x, y, r, c, n - 1, sy));
            assert(b.len() == 1);
        }
    } else {
        assert(v.span(px0, py, n) =~= Seq::<PixelWrite>::empty());
    }
}

/// `e` is the store for some pixel `(sx, sy)` with `sy < m` in the block of glyph
/// bit `(r, c)`.
pub open spec fn in_glyph_block(
    v: WriterState,
    x: int,
    y: int,
    r: int,
    c: int,
    m: int,
    e: PixelWrite,
) -> bool {
    exists|sx: int, sy: int|
        0 <= sx < v.scale && 0 <= sy < m && #[trigger] glyph_pixel_store(v, x, y, r, c, sx, sy, e)
}

#[verifier::rlimit(50)]
proof fn lemma_block_glyph_pixels(
    v: WriterState,
    x: int,
    y: int,
    r: int,
    c: int,
    px0: int,
    py0: int,
    m: int,
)
    requires
        v.addressable(),
        m >= 0,
        px0 == x + c * v.scale,
        py0 == y + r * v.scale,
    ensures
        forall|i: int|
            0 <= i < v.block(px0, py0, m).len() ==> #[trigger] in_glyph_block(
                v,
                x,
                y,
                r,
                c,
                m,
                v.block(px0, py0, m)[i],
            ),
        forall|sx: int, sy: int|
            0 <= sx < v.scale && 0 <= sy < m && #[trigger] glyph_pixel_visible(v, x, y, r, c, sx, sy)
                ==> stored_in(v, x, y, r, c, sx, sy, v.block(px0, py0, m)),
        (0 <= px0 && px0 + v.scale <= v.width && 0 <= py0 && py0 + m <= v.height) ==> v.block(
            px0,
            py0,
            m,
        ).len() == m * v.scale,
    decreases m,
{
    if m > 0 {
        let s = v.scale as int;
        lemma_block_glyph_pixels(v, x, y, r, c, px0, py0, m - 1);
        lemma_span_glyph_pixels(v, x, y, r, c, m - 1, px0, py0 + m - 1, s);
        let a = v.block(px0, py0, m - 1);
        let b = v.span(px0, py0 + m - 1, s);
        let bl = v.block(px0, py0, m);
        assert(bl == a + b);
        assert forall|i: int| 0 <= i < bl.len() implies #[trigger] in_glyph_block(
            v,
            x,
            y,
            r,
            c,
            m,
            bl[i],
        ) by {
            if i < a.len() {
                assert(bl[i] == a[i]);
                assert(in_glyph_block(v, x, y, r, c, m - 1, a[i]));
                let (sx, sy) = choose|sx: int, sy: int|
                    0 <= sx < s && 0 <= sy < m - 1 && #[trigger] glyph_pixel_store(
                        v,
                        x,
                        y,
                        r,
                        c,
                        sx,
                        sy,
                        a[i],
                    );
                assert(glyph_pixel_store(v, x, y, r, c, sx, sy, bl[i]));
            } else {
                let j = i - a.len();
                assert(bl[i] == b[j]);
                assert(in_glyph_span(v, x, y, r, c, m - 1, s, b[j]));
                let sx = choose|sx: int|
                    0 <= sx < s && #[trigger] glyph_pixel_store(v, x, y, r, c, sx, m - 1, b[j]);
                assert(glyph_pixel_store(v, x, y, r, c, sx, m - 1, bl[i]));
            }
        }
        assert forall|sx: int, sy: int|
            0 <= sx < s && 0 <= sy < m && #[trigger] glyph_pixel_visible(
                v,
                x,
                y,
                r,
                c,
                sx,
                sy,
            ) implies stored_in(v, x, y, r, c, sx, sy, bl) by {
            if sy < m - 1 {
                assert(stored_in(v, x, y, r, c, sx, sy, a));
                let i = choose|i: int|
                    0 <= i < a.len() && #[trigger] glyph_pixel_store(v, x, y, r, c, sx, sy, a[i]);
                assert(bl[i] == a[i]);
                assert(glyph_pixel_store(v, x, y, r, c, sx, sy, bl[i]));
            } else {
                assert(stored_in(v, x, y, r, c, sx, sy, b));
                let j = choose|j: int|
                    0 <= j < b.len() && #[trigger] glyph_pixel_store(v, x, y, r, c, sx, sy, b[j]);
                assert(bl[a.len() + j] == b[j]);
                assert(glyph_pixel_store(v, x, y, r, c, sx, sy, bl[a.len() + j]));
            }
        }
        if 0 <= px0 && px0 + s <= v.width && 0 <= py0 && py0 + m <= v.height {
            assert(b.len() == s);
            assert(bl.len() == (m - 1) * s + s);
            assert((m - 1) * s + s == m * s) by (nonlinear_arith);
        }
    } else {
        assert(v.block(px0, py0, m) =~= Seq::<PixelWrite>::empty());
    }
}

/// `e` is the store for some pixel of the block of a set bit `c < n` of glyph row
/// `r`, whose bits are `bits`.
pub open spec fn in_glyph_row(
    v: WriterState,
    x: int,
    y: int,
    r: int,
    bits: u8,
    n: int,
    e: PixelWrite,
) -> bool {
    exists|c: int, sx: int, sy: int|
        0 <= c < n && bit_set(bits, c as u8) && 0 <= sx < v.scale && 0 <= sy < v.scale
            && #[trigger] glyph_pixel_store(v, x, y, r, c, sx, sy, e)
}

#[verifier::rlimit(50)]
proof fn lemma_row_glyph_pixels(v: WriterState, r: int, bits: u8, n: int)
    requires
        v.addressable(),
        0 <= n <= 8,
    ensures
        forall|i: int|
            0 <= i < v.glyph_row(bits, r, n).len() ==> #[trigger] in_glyph_row(
                v,
                v.x as int,
                v.y as int,
                r,
                bits,
                n,
                v.glyph_row(bits, r, n)[i],
            ),
        forall|c: int, sx: int, sy: int|
            0 <= c < n && bit_set(bits, c as u8) && 0 <= sx < v.scale && 0 <= sy < v.scale
                && #[trigger] glyph_pixel_visible(v, v.x as int, v.y as int, r, c, sx, sy)
                ==> stored_in(v, v.x as int, v.y as int, r, c, sx, sy, v.glyph_row(bits, r, n)),
        (v.x + n * v.scale <= v.width && 0 <= r && v.y + r * v.scale + v.scale <= v.height)
            ==> v.glyph_row(bits, r, n).len() == v.scale * v.scale * row_set_bits(bits, n),
    decreases n,
{
    let (x, y, s) = (v.x as int, v.y as int, v.scale as int);
    if n > 0 {
        lemma_row_glyph_pixels(v, r, bits, n - 1);
        let c0 = n - 1;
        let px0 = x + c0 * s;
        let py0 = y + r * s;
        lemma_block_glyph_pixels(v, x, y, r, c0, px0, py0, s);
        let a = v.glyph_row(bits, r, n - 1);
        let blk = v.block(px0, py0, s);
        let set = bit_set(bits, c0 as u8);
        let b = if set {
            blk
        } else {
            Seq::<PixelWrite>::empty()
        };
        let rw = v.glyph_row(bits, r, n);
        assert(rw == a + b);
        assert forall|i: int| 0 <= i < rw.len() implies #[trigger] in_glyph_row(
            v,
            x,
            y,
            r,
            bits,
            n,
            rw[i],
        ) by {
            if i < a.len() {
                assert(rw[i] == a[i]);
                assert(in_glyph_row(v, x, y, r, bits, n - 1, a[i]));
                let (c, sx, sy) = choose|c: int, sx: int, sy: int|
                    0 <= c < n - 1 && bit_set(bits, c as u8) && 0 <= sx < s && 0 <= sy < s
                        && #[trigger] glyph_pixel_store(v, x, y, r, c, sx, sy, a[i]);
                assert(glyph_pixel_store(v, x, y, r, c, sx, sy, rw[i]));
            } else {
                let j = i - a.len();
                assert(set);
                assert(rw[i] == blk[j]);
                assert(in_glyph_block(v, x, y, r, c0, s, blk[j]));
                let (sx, sy) = choose|sx: int, sy: int|
                    0 <= sx < s && 0 <= sy < s && #[trigger] glyph_pixel_store(
                        v,
                        x,
                        y,
                        r,
                        c0,
                        sx,
                        sy,
                        blk[j],
                    );
                assert(glyph_pixel_store(v, x, y, r, c0, sx, sy, rw[i]));
            }
        }
        assert forall|c: int, sx: int, sy: int|
            0 <= c < n && bit_set(bits, c as u8) && 0 <= sx < s && 0 <= sy < s
                && #[trigger] glyph_pixel_visible(v, x, y, r, c, sx, sy) implies stored_in(
            v,
            x,
            y,
            r,
            c,
            sx,
            sy,
            rw,
        ) by {
            if c < n - 1 {
                assert(stored_in(v, x, y, r, c, sx, sy, a));
                let i = choose|i: int|
                    0 <= i < a.len() && #[trigger] glyph_pixel_store(v, x, y, r, c, sx, sy, a[i]);
                assert(rw[i] == a[i]);
                assert(glyph_pixel_store(v, x, y, r, c, sx, sy, rw[i]));
            } else {
                assert(stored_in(v, x, y, r, c0, sx, sy, blk));
                let j = choose|j: int|
                    0 <= j < blk.len() && #[trigger] glyph_pixel_store(v, x, y, r, c0, sx, sy, blk[j]);
                assert(rw[a.len() + j] == blk[j]);
                assert(glyph_pixel_store(v, x, y, r, c, sx, sy, rw[a.len() + j]));
            }
        }
        if x + n * s <= v.width && 0 <= r && y + r * s + s <= v.height {
            assert(x + (n - 1) * s <= v.width) by (nonlinear_arith)
                requires
                    x + n * s <= v.width,
                    s >= 0,
            ;
            assert(0 <= px0 && px0 + s <= v.width) by (nonlinear_arith)
                requires
                    x >= 0,
                    s >= 0,
                    c0 >= 0,
                    px0 == x + c0 * s,
                    c0 == n - 1,
                    x + n * s <= v.width,
            ;
            assert(0 <= py0) by (nonlinear_arith)
                requires
                    y >= 0,
                    r >= 0,
                    s >= 0,
                    py0 == y + r * s,
            ;
            if set {
                assert(blk.len() == s * s);
            }
            assert(rw.len() == s * s * row_set_bits(bits, n)) by (nonlinear_arith)
                requires
                    rw.len() == a.len() + b.len(),
                    a.len() == s * s * row_set_bits(bits, n - 1),
                    b.len() == if set {
                        s * s
                    } else {
                        0
                    },
                    row_set_bits(bits, n) == row_set_bits(bits, n - 1) + if set {
                        1int
                    } else {
                        0int
                    },
            ;
        }
    } else {
        assert(v.glyph_row(bits, r, n) =~= Seq::<PixelWrite>::empty());
    }
}

/// `e` is the store for some pixel of the `scale` x `scale` block of a set bit
/// `(r, c)` of glyph `g`, with `r < n`, for a glyph whose top left pixel is `(x, y)`.
pub open spec fn in_glyph(v: WriterState, x: int, y: int, g: Seq<u8>, n: int, e: PixelWrite) -> bool {
    exists|r: int, c: int, sx: int, sy: int|
        0 <= r < n && 0 <= c < 8 && bit_set(g[r], c as u8) && 0 <= sx < v.scale && 0 <= sy
            < v.scale && #[trigger] glyph_pixel_store(v, x, y, r, c, sx, sy, e)
}

#[verifier::rlimit(50)]
proof fn lemma_glyph_pixels(v: WriterState, g: Seq<u8>, n: int)
    requires
        v.addressable(),
        0 <= n <= 8,
        g.len() == 8,
    ensures
        forall|i: int|
            0 <= i < v.glyph(g, n).len() ==> #[trigger] in_glyph(
                v,
                v.x as int,
                v.y as int,
                g,
                n,
                v.glyph(g, n)[i],
            ),
        forall|r: int, c: int, sx: int, sy: int|
            0 <= r < n && 0 <= c < 8 && bit_set(g[r], c as u8) && 0 <= sx < v.scale && 0 <= sy
                < v.scale && #[trigger] glyph_pixel_visible(v, v.x as int, v.y as int, r, c, sx, sy)
                ==> stored_in(v, v.x as int, v.y as int, r, c, sx, sy, v.glyph(g, n)),
        (v.x + 8 * v.scale <= v.width && v.y + n * v.scale <= v.height) ==> v.glyph(g, n).len()
            == v.scale * v.scale * glyph_set_bits(g, n),
    decreases n,
{
    let (x, y, s) = (v.x as int, v.y as int, v.scale as int);
    if n > 0 {
        let r0 = n - 1;
        lemma_glyph_pixels(v, g, n - 1);
        lemma_row_glyph_pixels(v, r0, g[r0], 8);
        let a = v.glyph(g, n - 1);
        let b = v.glyph_row(g[r0], r0, 8);
        let gl = v.glyph(g, n);
        assert(gl == a + b);
        assert forall|i: int| 0 <= i < gl.len() implies #[trigger] in_glyph(v, x, y, g, n, gl[i]) by {
            if i < a.len() {
                assert(gl[i] == a[i]);
                assert(in_glyph(v, x, y, g, n - 1, a[i]));
                let (r, c, sx, sy) = choose|r: int, c: int, sx: int, sy: int|
                    0 <= r < n - 1 && 0 <= c < 8 && bit_set(g[r], c as u8) && 0 <= sx < s && 0
                        <= sy < s && #[trigger] glyph_pixel_store(v, x, y, r, c, sx, sy, a[i]);
                assert(glyph_pixel_store(v, x, y, r, c, sx, sy, gl[i]));
            } else {
                let j = i - a.len();
                assert(gl[i] == b[j]);
                assert(in_glyph_row(v, x, y, r0, g[r0], 8, b[j]));
                let (c, sx, sy) = choose|c: int, sx: int, sy: int|
                    0 <= c < 8 && bit_set(g[r0], c as u8) && 0 <= sx < s && 0 <= sy < s
                        && #[trigger] glyph_pixel_store(v, x, y, r0, c, sx, sy, b[j]);
                assert(glyph_pixel_store(v, x, y, r0, c, sx, sy, gl[i]));
            }
        }
        assert forall|r: int, c: int, sx: int, sy: int|
            0 <= r < n && 0 <= c < 8 && bit_set(g[r], c as u8) && 0 <= sx < s && 0 <= sy < s
                && #[trigger] glyph_pixel_visible(v, x, y, r, c, sx, sy) implies stored_in(
            v,
            x,
            y,
            r,
            c,
            sx,
            sy,
            gl,
        ) by {
            if r < n - 1 {
                assert(stored_in(v, x, y, r, c, sx, sy, a));
                let i = choose|i: int|
                    0 <= i < a.len() && #[trigger] glyph_pixel_store(v, x, y, r, c, sx, sy, a[i]);
                assert(gl[i] == a[i]);
                assert(glyph_pixel_store(v, x, y, r, c, sx, sy, gl[i]));
            } else {
                assert(stored_in(v, x, y, r0, c, sx, sy, b));
                let j = choose|j: int|
                    0 <= j < b.len() && #[trigger] glyph_pixel_store(v, x, y, r0, c, sx, sy, b[j]);
                assert(gl[a.len() + j] == b[j]);
                assert(glyph_pixel_store(v, x, y, r, c, sx, sy, gl[a.len() + j]));
            }
        }
        if x + 8 * s <= v.width && y + n * s <= v.height {
            assert(y + (n - 1) * s <= v.height && y + r0 * s + s <= v.height) by (nonlinear_arith)
                requires
                    y + n * s <= v.height,
                    s >= 0,
                    r0 == n - 1,
            ;
            assert(gl.len() == s * s * glyph_set_bits(g, n)) by (nonlinear_arith)
                requires
                    gl.len() == a.len() + b.len(),
                    a.len() == s * s * glyph_set_bits(g, n - 1),
                    b.len() == s * s * row_set_bits(g[r0], 8),
                    glyph_set_bits(g, n) == glyph_set_bits(g, n - 1) + row_set_bits(g[r0], 8),
            ;
        }
    } else {
        assert(v.glyph(g, n) =~= Seq::<PixelWrite>::empty());
    }
}

/// Drawing a printable character with glyph `g` paints exactly the scaled glyph:
/// with the cursor moved to the next line first when the character would not fit
/// on this one, every store is the writer's color into an on-screen pixel of the
/// `scale` x `scale` block whose top left pixel is `(x + c * scale, y + r * scale)`
/// for a set bit `c` of glyph row `r`; every on-screen pixel of every such block of
/// all eight rows gets a store; and a glyph wholly on the screen takes
/// `scale * scale` stores per set bit.
pub proof fn lemma_glyph_paints_scaled_bits(v: WriterState, g: Seq<u8>)
    requires
        v.addressable(),
        v.glyph_fits(),
        g.len() == 8,
    ensures
        ({
            let s = v.scale as int;
            let wraps = v.x + 8 * s >= v.width;
            let x = if wraps {
                0
            } else {
                v.x as int
            };
            let y = if wraps {
                v.y + 8 * s
            } else {
                v.y as int
            };
            let st = v.glyph_writes(Some(g));
            &&& forall|i: int| 0 <= i < st.len() ==> #[trigger] in_glyph(v, x, y, g, 8, st[i])
            &&& forall|r: int, c: int, sx: int, sy: int|
                0 <= r < 8 && 0 <= c < 8 && bit_set(g[r], c as u8) && 0 <= sx < s && 0 <= sy < s
                    && #[trigger] glyph_pixel_visible(v, x, y, r, c, sx, sy) ==> stored_in(
                    v,
                    x,
                    y,
                    r,
                    c,
                    sx,
                    sy,
                    st,
                )
            &&& (x + 8 * s <= v.width && y + 8 * s <= v.height) ==> st.len() == s * s
                * glyph_set_bits(g, 8)
        }),
{
    let w = v.wrapped();
    let s = v.scale as int;
    let (x, y) = (w.x as int, w.y as int);
    lemma_glyph_pixels(w, g, 8);
    let st = v.glyph_writes(Some(g));
    assert(st == w.glyph(g, 8));
    assert forall|i: int| 0 <= i < st.len() implies #[trigger] in_glyph(v, x, y, g, 8, st[i]) by {
        assert(in_glyph(w, x, y, g, 8, st[i]));
        let (r, c, sx, sy) = choose|r: int, c: int, sx: int, sy: int|
            0 <= r < 8 && 0 <= c < 8 && bit_set(g[r], c as u8) && 0 <= sx < s && 0 <= sy < s
                && #[trigger] glyph_pixel_store(w, x, y, r, c, sx, sy, st[i]);
        assert(glyph_pixel_store(v, x, y, r, c, sx, sy, st[i]));
    }
    assert forall|r: int, c: int, sx: int, sy: int|
        0 <= r < 8 && 0 <= c < 8 && bit_set(g[r], c as u8) && 0 <= sx < s && 0 <= sy < s
            && #[trigger] glyph_pixel_visible(v, x, y, r, c, sx, sy) implies stored_in(
        v,
        x,
        y,
        r,
        c,
        sx,
        sy,
        st,
    ) by {
        assert(glyph_pixel_visible(w, x, y, r, c, sx, sy));
        assert(stored_in(w, x, y, r, c, sx, sy, st));
        let i = choose|i: int|
            0 <= i < st.len() && #[trigger] glyph_pixel_store(w, x, y, r, c, sx, sy, st[i]);
        assert(glyph_pixel_store(v, x, y, r, c, sx, sy, st[i]));
    }
}

} // verus!
