use blog_os_heap::vga_buffer::{
    Color, ColorCode, ScreenChar, Writer, BUFFER_HEIGHT, BUFFER_WIDTH, UNPRINTABLE,
};

fn yellow_on_black() -> ColorCode {
    ColorCode::new(Color::Yellow, Color::Black)
}

fn row_text(w: &Writer, row: usize, len: usize) -> String {
    (0..len).map(|c| char::from(w.read(row, c).ascii_character)).collect()
}

#[test]
fn color_code_packs_background_high() {
    assert_eq!(ColorCode::new(Color::Yellow, Color::Black), ColorCode(14));
    assert_eq!(ColorCode::new(Color::White, Color::Blue), ColorCode(0x1f));
    assert_eq!(ColorCode::new(Color::Black, Color::White), ColorCode(0xf0));
    assert_eq!(Color::Pink.value(), 13);
}

#[test]
fn new_writer_shows_blank_screen() {
    let w = Writer::new(yellow_on_black());
    let blank = ScreenChar { ascii_character: b' ', color_code: yellow_on_black() };
    assert_eq!(w.read(0, 0), blank);
    assert_eq!(w.read(BUFFER_HEIGHT - 1, BUFFER_WIDTH - 1), blank);
}

#[test]
fn write_string_fills_bottom_row() {
    let mut w = Writer::new(yellow_on_black());
    w.write_string("Hello");
    assert_eq!(row_text(&w, BUFFER_HEIGHT - 1, 5), "Hello");
    assert_eq!(w.read(BUFFER_HEIGHT - 1, 0).color_code, ColorCode(14));
}

#[test]
fn test_println_output() {
    let s = "Some test string that fits on a single line";
    let mut w = Writer::new(yellow_on_black());
    w.write_string("\n");
    w.write_string(s);
    w.write_string("\n");
    for (i, c) in s.chars().enumerate() {
        let screen_char = w.read(BUFFER_HEIGHT - 2, i);
        assert_eq!(char::from(screen_char.ascii_character), c);
    }
    assert_eq!(w.read(BUFFER_HEIGHT - 1, 0).ascii_character, b' ');
}

#[test]
fn test_println_many() {
    let mut w = Writer::new(yellow_on_black());
    for _ in 0..200 {
        w.write_string("test_println_many output\n");
    }
    assert_eq!(row_text(&w, BUFFER_HEIGHT - 2, 24), "test_println_many output");
    assert_eq!(row_text(&w, 0, 24), "test_println_many output");
}

#[test]
fn unprintable_bytes_show_as_block() {
    let mut w = Writer::new(yellow_on_black());
    w.write_string("a\u{e9}b");
    assert_eq!(w.read(BUFFER_HEIGHT - 1, 0).ascii_character, b'a');
    assert_eq!(w.read(BUFFER_HEIGHT - 1, 1).ascii_character, UNPRINTABLE);
    assert_eq!(w.read(BUFFER_HEIGHT - 1, 2).ascii_character, UNPRINTABLE);
    assert_eq!(w.read(BUFFER_HEIGHT - 1, 3).ascii_character, b'b');
}

#[test]
fn full_row_wraps_to_next_line() {
    let mut w = Writer::new(yellow_on_black());
    let line: String = std::iter::repeat('x').take(BUFFER_WIDTH).collect();
    w.write_string(&line);
    w.write_string("y");
    assert_eq!(row_text(&w, BUFFER_HEIGHT - 2, BUFFER_WIDTH), line);
    assert_eq!(w.read(BUFFER_HEIGHT - 1, 0).ascii_character, b'y');
    assert_eq!(w.read(BUFFER_HEIGHT - 1, 1).ascii_character, b' ');
}

#[test]
fn write_byte_newline_scrolls() {
    let mut w = Writer::new(yellow_on_black());
    w.write_byte(b'A');
    w.write_byte(b'\n');
    w.write_byte(b'B');
    assert_eq!(w.read(BUFFER_HEIGHT - 2, 0).ascii_character, b'A');
    assert_eq!(w.read(BUFFER_HEIGHT - 1, 0).ascii_character, b'B');
}
