//! The 8x8 bitmap font of the `font8x8` crate.

use crate::memory::bit_set;
use font8x8::UnicodeFonts;
use vstd::prelude::*;

verus! {

/// The eight row bytes that `font8x8`'s basic Latin table (`BASIC_FONTS`) holds for
/// `c`; row 0 is the top row, and bit `k` of a row byte is the pixel in column `k`,
/// counted from the left.
pub uninterp spec fn basic_font_glyph(c: char) -> Seq<u8>;

/// Number of set bits among bits `0 .. n` of the row byte `bits`.
pub open spec fn row_set_bits(bits: u8, n: int) -> int
    decreases n,
{
    if n <= 0 {
        0
    } else {
        row_set_bits(bits, n - 1) + if bit_set(bits, (n - 1) as u8) {
            1int
        } else {
            0int
        }
    }
}

/// Number of set bits in the rows `0 .. n` of glyph `g`.
pub open spec fn glyph_set_bits(g: Seq<u8>, n: int) -> int
    decreases n,
{
    if n <= 0 {
        0
    } else {
        glyph_set_bits(g, n - 1) + row_set_bits(g[n - 1], 8)
    }
}

/// A row has a nonnegative number of set bits.
pub proof fn lemma_row_set_bits_nonneg(b: u8, k: int)
    ensures
        row_set_bits(b, k) >= 0,
    decreases k,
{
    if k > 0 {
        lemma_row_set_bits_nonneg(b, k - 1);
    }
}

/// Looks `c` up with `font8x8::BASIC_FONTS.get`. The table holds the 128 chars
/// U+0000..U+007F, so the lookup finds a glyph exactly for those; which bytes it
/// gives back is named by `basic_font_glyph`.
#[verifier::external_body]
pub(crate) fn basic_font_lookup(c: char) -> (r: Option<[u8; 8]>)
    ensures
        r is Some <==> (c as u32) < 128,
        r matches Some(g) ==> g@ == basic_font_glyph(c),
{
    font8x8::BASIC_FONTS.get(c)
}

} // verus!
