use morb_os::vga_buffer::{Color, ColorCode, Writer, BUFFER_HEIGHT, BUFFER_WIDTH};

#[test]
fn color_code_packs_background_high() {
    assert_eq!(ColorCode::new(Color::Yellow, Color::Black).0, 14);
    assert_eq!(ColorCode::new(Color::White, Color::Blue).0, 16 + 15);
    assert_eq!(ColorCode::new(Color::Black, Color::White).0, 15 * 16);
    assert_eq!(ColorCode::new(Color::LightCyan, Color::Red).0, 4 * 16 + 11);
}

fn bottom_row(w: &Writer, upto: usize) -> Vec<u8> {
    (0..upto).map(|c| w.char_at(BUFFER_HEIGHT - 1, c).ascii_character).collect()
}

#[test]
fn write_string_lands_on_bottom_row() {
    let mut w = Writer::new(ColorCode::new(Color::Yellow, Color::Black));
    w.write_string(b"Hello");
    assert_eq!(bottom_row(&w, 5), b"Hello".to_vec());
    assert_eq!(w.char_at(BUFFER_HEIGHT - 1, 5).ascii_character, b' ');
}

#[test]
fn println_output_reaches_second_to_last_row() {
    // Writing a line and then a newline leaves the text one row up.
    let s = b"Some test string that fits on a single line";
    let mut w = Writer::new(ColorCode::new(Color::Yellow, Color::Black));
    w.write_string(s);
    w.write_string(b"\n");
    for (i, &b) in s.iter().enumerate() {
        assert_eq!(w.char_at(BUFFER_HEIGHT - 2, i).ascii_character, b);
    }
    assert_eq!(w.char_at(BUFFER_HEIGHT - 1, 0).ascii_character, b' ');
}

#[test]
fn unprintable_bytes_become_fallback_glyph() {
    let mut w = Writer::new(ColorCode::new(Color::Yellow, Color::Black));
    w.write_string(&[0x01, 0x1f, 0x7f]);
    assert_eq!(w.char_at(BUFFER_HEIGHT - 1, 0).ascii_character, 0xfe);
    assert_eq!(w.char_at(BUFFER_HEIGHT - 1, 1).ascii_character, 0xfe);
    assert_eq!(w.char_at(BUFFER_HEIGHT - 1, 2).ascii_character, 0xfe);
}

#[test]
fn long_line_wraps_by_scrolling() {
    let mut w = Writer::new(ColorCode::new(Color::Yellow, Color::Black));
    let mut line = Vec::new();
    for i in 0..BUFFER_WIDTH {
        line.push(b'a' + (i % 26) as u8);
    }
    line.push(b'!');
    w.write_string(&line);
    // The first 80 bytes moved up one row; the 81st starts the new row.
    assert_eq!(w.char_at(BUFFER_HEIGHT - 2, 0).ascii_character, b'a');
    assert_eq!(w.char_at(BUFFER_HEIGHT - 2, BUFFER_WIDTH - 1).ascii_character,
               b'a' + ((BUFFER_WIDTH - 1) % 26) as u8);
    assert_eq!(w.char_at(BUFFER_HEIGHT - 1, 0).ascii_character, b'!');
}

#[test]
fn scrolling_preserves_colors() {
    let code = ColorCode::new(Color::LightGreen, Color::Blue);
    let mut w = Writer::new(code);
    w.write_string(b"x\n");
    assert_eq!(w.char_at(BUFFER_HEIGHT - 2, 0).color_code, code);
    assert_eq!(w.char_at(BUFFER_HEIGHT - 1, 0).color_code, code);
}

#[test]
fn delete_byte_shifts_tail_left() {
    let mut w = Writer::new(ColorCode::new(Color::Yellow, Color::Black));
    w.write_string(b"ab");
    // The cursor stands at column 2; deleting shifts the tail of the
    // row left under it and steps the cursor back.
    w.delete_byte();
    assert_eq!(w.char_at(BUFFER_HEIGHT - 1, 0).ascii_character, b'a');
    assert_eq!(w.char_at(BUFFER_HEIGHT - 1, 1).ascii_character, b'b');
    // Deleting again pulls the blank tail over 'b' and steps the
    // cursor back to the row's start.
    w.delete_byte();
    assert_eq!(w.char_at(BUFFER_HEIGHT - 1, 1).ascii_character, b' ');
    w.write_string(b"X");
    assert_eq!(w.char_at(BUFFER_HEIGHT - 1, 0).ascii_character, b'X');
}

#[test]
fn delete_at_row_start_does_nothing() {
    let mut w = Writer::new(ColorCode::new(Color::Yellow, Color::Black));
    w.delete_byte();
    assert_eq!(w.char_at(BUFFER_HEIGHT - 1, 0).ascii_character, b' ');
    w.write_string(b"q");
    assert_eq!(w.char_at(BUFFER_HEIGHT - 1, 0).ascii_character, b'q');
}

#[test]
fn many_lines_scroll_cleanly() {
    let mut w = Writer::new(ColorCode::new(Color::Yellow, Color::Black));
    for _ in 0..200 {
        w.write_string(b"test output\n");
    }
    assert_eq!(w.char_at(BUFFER_HEIGHT - 2, 0).ascii_character, b't');
    assert_eq!(w.char_at(BUFFER_HEIGHT - 1, 0).ascii_character, b' ');
}
