use vgos::framebuffer::{PixelWrite, Writer};

const WHITE: u32 = 0x00_FF_FF_FF;

fn px(offset: usize, color: u32) -> PixelWrite {
    PixelWrite { offset, color }
}

#[test]
fn new_writer_starts_top_left() {
    let w = Writer::new(4096, 1024, 768);
    assert_eq!(w.cursor(), (0, 0));
}

#[test]
fn new_line_moves_down_one_scaled_cell() {
    let mut w = Writer::new(4096, 1024, 768);
    w.new_line();
    assert_eq!(w.cursor(), (0, 16));
    w.set_scale(3);
    w.new_line();
    assert_eq!(w.cursor(), (0, 40));
}

#[test]
fn newline_char_draws_nothing() {
    let mut w = Writer::new(4096, 1024, 768);
    let mut out = Vec::new();
    w.write_char('A', &mut out);
    out.clear();
    w.write_char('\n', &mut out);
    assert!(out.is_empty());
    assert_eq!(w.cursor(), (0, 16));
}

#[test]
fn single_bit_glyph_draws_scaled_block() {
    let mut w = Writer::new(400, 100, 100);
    let mut out = Vec::new();
    w.write_glyph(Some([1, 0, 0, 0, 0, 0, 0, 0]), &mut out);
    assert_eq!(out, vec![px(0, WHITE), px(4, WHITE), px(400, WHITE), px(404, WHITE)]);
    assert_eq!(w.cursor(), (16, 0));
}

#[test]
fn period_glyph_from_font() {
    let mut w = Writer::new(100, 25, 25);
    w.set_scale(1);
    let mut out = Vec::new();
    w.write_char('.', &mut out);
    // '.' has bits 2 and 3 set in rows 5 and 6.
    assert_eq!(out, vec![
        px(5 * 100 + 8, WHITE),
        px(5 * 100 + 12, WHITE),
        px(6 * 100 + 8, WHITE),
        px(6 * 100 + 12, WHITE),
    ]);
    assert_eq!(w.cursor(), (8, 0));
}

#[test]
fn letter_a_uses_font_glyph() {
    let mut w = Writer::new(100, 25, 25);
    w.set_scale(1);
    let mut out = Vec::new();
    w.write_char('A', &mut out);
    // 'A' = [0x0C, 0x1E, 0x33, 0x33, 0x3F, 0x33, 0x33, 0x00]
    let rows: [u8; 8] = [0x0C, 0x1E, 0x33, 0x33, 0x3F, 0x33, 0x33, 0x00];
    let mut expected = Vec::new();
    for (r, bits) in rows.iter().enumerate() {
        for c in 0..8 {
            if bits & (1 << c) != 0 {
                expected.push(px(r * 100 + c * 4, WHITE));
            }
        }
    }
    assert_eq!(out, expected);
    assert_eq!(out.len(), 28);
}

#[test]
fn set_color_changes_later_stores() {
    let mut w = Writer::new(100, 25, 25);
    w.set_scale(1);
    w.set_color(0x00_FF_AA_00);
    let mut out = Vec::new();
    w.write_char('.', &mut out);
    assert!(out.iter().all(|p| p.color == 0x00_FF_AA_00));
    assert_eq!(out.len(), 4);
}

#[test]
fn space_and_non_ascii_draw_nothing_but_advance() {
    let mut w = Writer::new(4096, 1024, 768);
    let mut out = Vec::new();
    w.write_char(' ', &mut out);
    assert!(out.is_empty());
    assert_eq!(w.cursor(), (16, 0));
    w.write_char('é', &mut out);
    assert!(out.is_empty());
    assert_eq!(w.cursor(), (32, 0));
}

#[test]
fn wraps_when_next_char_would_reach_right_border() {
    let mut w = Writer::new(80, 20, 40);
    w.set_scale(1);
    let mut out = Vec::new();
    w.write_char(' ', &mut out);
    assert_eq!(w.cursor(), (8, 0));
    // 8 + 8 < 20: no wrap.
    w.write_char(' ', &mut out);
    assert_eq!(w.cursor(), (16, 0));
    // 16 + 8 >= 20: wrap first.
    w.write_char(' ', &mut out);
    assert_eq!(w.cursor(), (8, 8));
}

#[test]
fn pixels_off_screen_are_clipped() {
    // Only 6 rows: row 5 of '.' is drawn, row 6 is not.
    let mut w = Writer::new(100, 25, 6);
    w.set_scale(1);
    let mut out = Vec::new();
    w.write_char('.', &mut out);
    assert_eq!(out, vec![px(5 * 100 + 8, WHITE), px(5 * 100 + 12, WHITE)]);
    // Only 3 columns: columns 2 only.
    let mut w = Writer::new(100, 3, 25);
    w.set_scale(1);
    out.clear();
    w.write_glyph(Some([0, 0, 0, 0, 0, 0x0C, 0, 0]), &mut out);
    // 0 + 8 >= 3: the glyph wraps to the next line (y = 8) first.
    assert_eq!(out, vec![px(13 * 100 + 8, WHITE)]);
}

#[test]
fn write_string_is_chars_in_order() {
    let mut a = Writer::new(400, 100, 100);
    let mut b = Writer::new(400, 100, 100);
    let mut out_a = Vec::new();
    let mut out_b = Vec::new();
    a.write_string("A.\n!", &mut out_a);
    for c in "A.\n!".chars() {
        b.write_char(c, &mut out_b);
    }
    assert_eq!(out_a, out_b);
    assert_eq!(a.cursor(), b.cursor());
    assert_eq!(a.cursor(), (16, 16));
}

#[test]
fn write_string_concatenates() {
    let mut a = Writer::new(400, 100, 100);
    let mut b = Writer::new(400, 100, 100);
    let mut out_a = Vec::new();
    let mut out_b = Vec::new();
    a.write_string("Hi\nthere", &mut out_a);
    b.write_string("Hi\nth", &mut out_b);
    b.write_string("ere", &mut out_b);
    assert_eq!(out_a, out_b);
    assert_eq!(a.cursor(), b.cursor());
}

#[test]
fn can_write_accepts_ordinary_text() {
    let w = Writer::new(4096, 1024, 768);
    assert!(w.can_write("Loading Interrupt Descriptor Table...\n"));
    assert!(w.can_write(""));
}

#[test]
fn can_write_refuses_overflowing_scale() {
    let mut w = Writer::new(4096, 1024, 768);
    w.set_scale(usize::MAX / 4);
    assert!(!w.can_write("a"));
    assert!(w.can_write(""));
}

#[test]
fn can_write_refuses_unaddressable_screen() {
    let w = Writer::new(usize::MAX, 10, 10);
    assert!(!w.can_write("a"));
    // Newlines draw no pixel, so they compute no offset.
    assert!(w.can_write(""));
    assert!(w.can_write("\n\n"));
}
