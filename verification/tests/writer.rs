use vgos::writer::Writer;

#[test]
fn console_starts_at_margin() {
    let w = Writer::new(4096, 32, 1024, 768);
    assert_eq!(w.cursor(), (10, 10));
}

#[test]
fn console_newline_moves_down_ten() {
    let mut w = Writer::new(4096, 32, 1024, 768);
    w.newline();
    assert_eq!(w.cursor(), (10, 20));
}

#[test]
fn console_newline_wraps_to_top_at_bottom_margin() {
    let mut w = Writer::new(400, 32, 100, 40);
    w.newline();
    assert_eq!(w.cursor(), (10, 20));
    // 20 + 10 >= 40 - 10: back to the top line.
    w.newline();
    assert_eq!(w.cursor(), (10, 10));
}

#[test]
fn console_period_bytes() {
    let mut w = Writer::new(400, 32, 100, 40);
    let mut out = Vec::new();
    w.write_char('.', &mut out);
    // '.' sets bits 2, 3 of rows 5, 6: pixels (12, 15), (13, 15), (12, 16), (13, 16).
    let mut expected = Vec::new();
    for (x, y) in [(12usize, 15usize), (13, 15), (12, 16), (13, 16)] {
        let o = y * 400 + x * 4;
        expected.extend_from_slice(&[o, o + 1, o + 2]);
    }
    assert_eq!(out, expected);
    assert_eq!(w.cursor(), (18, 10));
}

#[test]
fn console_bytes_per_pixel_from_bpp() {
    let mut w = Writer::new(300, 24, 100, 40);
    let mut out = Vec::new();
    w.write_glyph(Some([1, 0, 0, 0, 0, 0, 0, 0]), &mut out);
    let o = 10 * 300 + 10 * 3;
    assert_eq!(out, vec![o, o + 1, o + 2]);
}

#[test]
fn console_wraps_near_right_border() {
    let mut w = Writer::new(400, 32, 26, 100);
    let mut out = Vec::new();
    w.write_char(' ', &mut out);
    assert_eq!(w.cursor(), (18, 10));
    // 18 >= 26 - 8: a new line first.
    w.write_char(' ', &mut out);
    assert_eq!(w.cursor(), (18, 20));
    assert!(out.is_empty());
}

#[test]
fn console_write_str_matches_chars() {
    let mut a = Writer::new(4096, 32, 1024, 768);
    let mut b = Writer::new(4096, 32, 1024, 768);
    let mut out_a = Vec::new();
    let mut out_b = Vec::new();
    a.write_str("OK\n!", &mut out_a);
    for c in "OK\n!".chars() {
        b.write_char(c, &mut out_b);
    }
    assert_eq!(out_a, out_b);
    assert_eq!(a.cursor(), (18, 20));
}

#[test]
fn console_write_str_concatenates() {
    let mut a = Writer::new(400, 32, 100, 60);
    let mut b = Writer::new(400, 32, 100, 60);
    let mut out_a = Vec::new();
    let mut out_b = Vec::new();
    a.write_str("long line wraps\nand wraps", &mut out_a);
    b.write_str("long line wr", &mut out_b);
    b.write_str("aps\nand wraps", &mut out_b);
    assert_eq!(out_a, out_b);
    assert_eq!(a.cursor(), b.cursor());
}

#[test]
fn console_can_write_ordinary_text() {
    let w = Writer::new(4096, 32, 1024, 768);
    assert!(w.can_write("EXCEPTION: BREAKPOINT\n"));
}

#[test]
fn console_can_write_refuses_narrow_screen() {
    let w = Writer::new(16, 32, 4, 768);
    assert!(!w.can_write("a"));
    // A newline needs no width.
    assert!(w.can_write("\n"));
}

#[test]
fn console_can_write_refuses_short_screen_newline() {
    let w = Writer::new(4096, 32, 1024, 5);
    assert!(!w.can_write("\n"));
    assert!(w.can_write("ab"));
}

#[test]
fn console_can_write_refuses_unaddressable_cell() {
    let w = Writer::new(usize::MAX / 2, 32, 1024, 768);
    assert!(!w.can_write("a"));
}
