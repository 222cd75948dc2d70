use tri_kernel::shell::Writer as Sink;
use tri_kernel::vga::{
    init_vga, make_color, Color, VgaChar, Writer, BUFFER_HEIGHT, BUFFER_WIDTH, PLACEHOLDER,
};

const WHITE_ON_BLACK: u8 = 0x0f;

fn blank(color: u8) -> VgaChar {
    VgaChar { ascii: b' ', color }
}

fn row_text(writer: &Writer, row: usize, len: usize) -> Vec<u8> {
    (0..len).map(|col| writer.char_at(row, col).ascii).collect()
}

fn all_blank(writer: &Writer, color: u8) -> bool {
    (0..BUFFER_HEIGHT).all(|r| (0..BUFFER_WIDTH).all(|c| writer.char_at(r, c) == blank(color)))
}

#[test]
fn colour_codes() {
    let all = [
        Color::Black,
        Color::Blue,
        Color::Green,
        Color::Cyan,
        Color::Red,
        Color::Magenta,
        Color::Brown,
        Color::LightGray,
        Color::DarkGray,
        Color::LightBlue,
        Color::LightGreen,
        Color::LightCyan,
        Color::LightRed,
        Color::Pink,
        Color::Yellow,
        Color::White,
    ];
    for (i, colour) in all.iter().enumerate() {
        assert_eq!(colour.code(), i as u8);
    }
}

#[test]
fn make_color_packs_foreground_low_and_background_high() {
    assert_eq!(make_color(Color::White, Color::Black), 0x0f);
    assert_eq!(make_color(Color::LightCyan, Color::Black), 0x0b);
    assert_eq!(make_color(Color::Yellow, Color::Blue), 0x1e);
    assert_eq!(make_color(Color::Black, Color::White), 0xf0);
    assert_eq!(make_color(Color::White, Color::White), 0xff);
    assert_eq!(make_color(Color::Black, Color::Black), 0x00);
}

#[test]
fn a_new_display_is_blank_white_on_black() {
    let writer = Writer::new();
    assert_eq!(writer.row(), 0);
    assert_eq!(writer.column(), 0);
    assert_eq!(writer.color(), WHITE_ON_BLACK);
    assert!(all_blank(&writer, WHITE_ON_BLACK));
}

#[test]
fn write_byte_stores_the_glyph_and_advances() {
    let mut writer = Writer::new();
    writer.write_byte(b'H');
    writer.write_byte(b'i');
    assert_eq!(writer.char_at(0, 0), VgaChar { ascii: b'H', color: WHITE_ON_BLACK });
    assert_eq!(writer.char_at(0, 1), VgaChar { ascii: b'i', color: WHITE_ON_BLACK });
    assert_eq!(writer.char_at(0, 2), blank(WHITE_ON_BLACK));
    assert_eq!((writer.row(), writer.column()), (0, 2));
}

#[test]
fn write_byte_writes_any_other_byte_verbatim() {
    let mut writer = Writer::new();
    writer.write_byte(0x00);
    writer.write_byte(0x0d);
    writer.write_byte(0xe9);
    assert_eq!(row_text(&writer, 0, 3), vec![0x00, 0x0d, 0xe9]);
    assert_eq!((writer.row(), writer.column()), (0, 3));
}

#[test]
fn line_feed_moves_to_the_start_of_the_next_row() {
    let mut writer = Writer::new();
    writer.write_byte(b'a');
    writer.write_byte(b'\n');
    assert_eq!((writer.row(), writer.column()), (1, 0));
    writer.write_byte(b'b');
    assert_eq!(writer.char_at(0, 0).ascii, b'a');
    assert_eq!(writer.char_at(1, 0).ascii, b'b');
}

#[test]
fn backspace_and_delete_erase_the_cell_before_the_cursor() {
    let mut writer = Writer::new();
    writer.write_string("abc");
    writer.write_byte(8);
    assert_eq!((writer.row(), writer.column()), (0, 2));
    assert_eq!(row_text(&writer, 0, 3), b"ab ".to_vec());
    writer.write_byte(0x7f);
    assert_eq!((writer.row(), writer.column()), (0, 1));
    assert_eq!(row_text(&writer, 0, 3), b"a  ".to_vec());
}

#[test]
fn backspace_in_column_zero_does_nothing() {
    let mut writer = Writer::new();
    writer.write_string("ab\n");
    assert_eq!((writer.row(), writer.column()), (1, 0));
    writer.write_byte(8);
    writer.write_byte(0x7f);
    assert_eq!((writer.row(), writer.column()), (1, 0));
    assert_eq!(row_text(&writer, 0, 3), b"ab ".to_vec());
    assert_eq!(row_text(&writer, 1, 3), b"   ".to_vec());
}

#[test]
fn the_cursor_wraps_before_the_glyph_after_the_last_column() {
    let mut writer = Writer::new();
    for i in 0..80u8 {
        writer.write_byte(b'0' + i % 10);
    }
    assert_eq!((writer.row(), writer.column()), (0, 80));
    assert_eq!(writer.char_at(0, 79).ascii, b'9');
    writer.write_byte(b'X');
    assert_eq!((writer.row(), writer.column()), (1, 1));
    assert_eq!(writer.char_at(1, 0).ascii, b'X');
    assert_eq!(writer.char_at(0, 79).ascii, b'9');
}

#[test]
fn backspace_after_a_full_row_erases_its_last_cell() {
    let mut writer = Writer::new();
    for _ in 0..80 {
        writer.write_byte(b'x');
    }
    writer.write_byte(8);
    assert_eq!((writer.row(), writer.column()), (0, 79));
    assert_eq!(writer.char_at(0, 79), blank(WHITE_ON_BLACK));
    assert_eq!(writer.char_at(0, 78).ascii, b'x');
}

fn label_rows(writer: &mut Writer, rows: usize) {
    for r in 0..rows {
        writer.write_byte(b'a' + r as u8);
        if r + 1 < rows {
            writer.write_byte(b'\n');
        }
    }
}

#[test]
fn a_line_feed_on_the_last_row_scrolls_by_one() {
    let mut writer = Writer::new();
    label_rows(&mut writer, 25);
    assert_eq!((writer.row(), writer.column()), (24, 1));
    writer.write_byte(b'\n');
    assert_eq!((writer.row(), writer.column()), (24, 0));
    for r in 0..24 {
        assert_eq!(writer.char_at(r, 0).ascii, b'a' + r as u8 + 1);
        assert_eq!(writer.char_at(r, 1), blank(WHITE_ON_BLACK));
    }
    for c in 0..BUFFER_WIDTH {
        assert_eq!(writer.char_at(24, c), blank(WHITE_ON_BLACK));
    }
}

#[test]
fn line_feeds_one_beyond_the_last_row_scroll_by_exactly_one() {
    let mut writer = Writer::new();
    label_rows(&mut writer, 3);
    assert_eq!(writer.row(), 2);
    for _ in 0..23 {
        writer.write_byte(b'\n');
    }
    assert_eq!((writer.row(), writer.column()), (24, 0));
    assert_eq!(writer.char_at(0, 0).ascii, b'b');
    assert_eq!(writer.char_at(1, 0).ascii, b'c');
    for r in 2..BUFFER_HEIGHT {
        for c in 0..BUFFER_WIDTH {
            assert_eq!(writer.char_at(r, c), blank(WHITE_ON_BLACK));
        }
    }
}

#[test]
fn three_line_feeds_on_the_last_row_scroll_by_three() {
    let mut writer = Writer::new();
    label_rows(&mut writer, 25);
    for _ in 0..3 {
        writer.write_byte(b'\n');
    }
    assert_eq!((writer.row(), writer.column()), (24, 0));
    for r in 0..22 {
        assert_eq!(writer.char_at(r, 0).ascii, b'a' + r as u8 + 3);
    }
    for r in 22..25 {
        assert_eq!(writer.char_at(r, 0), blank(WHITE_ON_BLACK));
    }
}

#[test]
fn twenty_six_line_feeds_scroll_past_everything_above_the_cursor() {
    let mut top = Writer::new();
    top.write_string("top");
    for _ in 0..26 {
        top.write_byte(b'\n');
    }
    assert_eq!((top.row(), top.column()), (24, 0));
    assert!(all_blank(&top, WHITE_ON_BLACK));

    let mut full = Writer::new();
    label_rows(&mut full, 25);
    for _ in 0..26 {
        full.write_byte(b'\n');
    }
    assert_eq!((full.row(), full.column()), (24, 0));
    assert!(all_blank(&full, WHITE_ON_BLACK));
}

#[test]
fn scrolling_keeps_each_cell_with_its_attribute() {
    let mut writer = Writer::new();
    writer.write_string("\nwhite");
    init_vga(&mut writer, Color::Yellow, Color::Blue);
    writer.write_string("\nold");
    for _ in 0..24 {
        writer.write_byte(b'\n');
    }
    assert_eq!(writer.char_at(0, 0), VgaChar { ascii: b'o', color: 0x1e });
    assert_eq!(writer.char_at(24, 0), blank(0x1e));
}

#[test]
fn clear_screen_blanks_every_cell_in_the_current_attribute() {
    let mut writer = Writer::new();
    for r in 0..30 {
        writer.write_string("some text on the line");
        if r % 2 == 0 {
            writer.write_byte(b'\n');
        }
    }
    writer.clear_screen();
    assert_eq!((writer.row(), writer.column()), (0, 0));
    assert_eq!(writer.color(), WHITE_ON_BLACK);
    assert!(all_blank(&writer, WHITE_ON_BLACK));
}

#[test]
fn init_vga_sets_the_attribute_and_clears() {
    let mut writer = Writer::new();
    writer.write_string("boot\nmessages");
    init_vga(&mut writer, Color::LightCyan, Color::Black);
    assert_eq!(writer.color(), 0x0b);
    assert_eq!((writer.row(), writer.column()), (0, 0));
    assert!(all_blank(&writer, 0x0b));
    writer.write_byte(b'k');
    assert_eq!(writer.char_at(0, 0), VgaChar { ascii: b'k', color: 0x0b });
}

#[test]
fn write_string_writes_printable_text() {
    let mut writer = Writer::new();
    writer.write_string("tri> help");
    assert_eq!(row_text(&writer, 0, 9), b"tri> help".to_vec());
    assert_eq!((writer.row(), writer.column()), (0, 9));
}

#[test]
fn write_string_interprets_line_feed_backspace_and_delete() {
    let mut writer = Writer::new();
    writer.write_string("ab\ncd\x08\x7fe");
    assert_eq!(row_text(&writer, 0, 2), b"ab".to_vec());
    assert_eq!(row_text(&writer, 1, 2), b"e ".to_vec());
    assert_eq!((writer.row(), writer.column()), (1, 1));
}

#[test]
fn write_string_puts_the_placeholder_for_other_bytes() {
    let mut writer = Writer::new();
    writer.write_string("a\tb\rc\u{0}d\u{1b}");
    assert_eq!(
        row_text(&writer, 0, 8),
        vec![b'a', PLACEHOLDER, b'b', PLACEHOLDER, b'c', PLACEHOLDER, b'd', PLACEHOLDER]
    );
    assert_eq!(PLACEHOLDER, 0xfe);
}

#[test]
fn write_string_puts_one_placeholder_for_each_byte_of_a_character() {
    let mut writer = Writer::new();
    writer.write_string("Ol\u{e1}!");
    assert_eq!(row_text(&writer, 0, 5), vec![b'O', b'l', 0xfe, 0xfe, b'!']);
    assert_eq!((writer.row(), writer.column()), (0, 5));
}

#[test]
fn write_string_of_nothing_changes_nothing() {
    let mut writer = Writer::new();
    writer.write_string("x");
    writer.write_string("");
    assert_eq!((writer.row(), writer.column()), (0, 1));
    assert_eq!(row_text(&writer, 0, 2), b"x ".to_vec());
}

#[test]
fn the_display_is_an_output_sink() {
    let mut writer = Writer::new();
    Sink::write_string(&mut writer, "ok\t");
    Sink::write_byte(&mut writer, b'!');
    assert_eq!(row_text(&writer, 0, 4), vec![b'o', b'k', 0xfe, b'!']);
    tri_kernel::shell::print(&mut writer, "\nz");
    assert_eq!(writer.char_at(1, 0).ascii, b'z');
}
