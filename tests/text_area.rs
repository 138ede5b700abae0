use fbwidgets::event::{Key, ScanCode, UIResult};
use fbwidgets::graphics::{ColorScheme, DrawOp, FontSize, FontSizes, Graphics, Theme};
use fbwidgets::text_area::{TextArea, XOverflowBehavior};
use fbwidgets::wrap::wrap_line;

fn graphics() -> Graphics {
    let theme = Theme {
        font_sizes: FontSizes::new(3, 2, 2),
        color_scheme: ColorScheme::new([1, 1, 1], [2, 2, 2], [3, 3, 3], [4, 4, 4], [5, 5, 5]),
    };
    Graphics::new(theme, 8, 8)
}

fn area(content: &str, dims: (usize, usize), mode: XOverflowBehavior) -> TextArea {
    TextArea::new(
        String::from("area"),
        Vec::new(),
        String::from(content),
        true,
        (0, 0),
        dims,
        FontSize::P,
        mode,
    )
}

fn press(t: &mut TextArea, g: &mut Graphics, k: Key) {
    assert_eq!(t.handle_key(k, g), UIResult::OK);
}

fn chars(s: &str) -> Vec<char> {
    s.chars().collect()
}

#[test]
fn round_trip_of_content() {
    let t = area("ab\ncd", (320, 320), XOverflowBehavior::Wrap);
    assert_eq!(t.get_value(), "ab\ncd");
    assert_eq!(t.cursor(), (0, 0));
}

#[test]
fn carriage_return_also_splits() {
    let t = area("ab\rcd", (320, 320), XOverflowBehavior::Wrap);
    assert_eq!(t.get_value(), "ab\ncd");
}

#[test]
fn empty_content_is_one_empty_line() {
    let t = area("", (320, 320), XOverflowBehavior::Wrap);
    assert_eq!(t.get_value(), "");
}

#[test]
fn backspace_at_line_start_merges_lines() {
    let mut g = graphics();
    let mut t = area("ab\ncd", (320, 320), XOverflowBehavior::Wrap);
    press(&mut t, &mut g, Key::Special(ScanCode::Down));
    assert_eq!(t.cursor(), (0, 1));
    press(&mut t, &mut g, Key::Printable('\x08'));
    assert_eq!(t.get_value(), "abcd");
    assert_eq!(t.cursor(), (2, 0));
}

#[test]
fn backspace_deletes_previous_char() {
    let mut g = graphics();
    let mut t = area("abc", (320, 320), XOverflowBehavior::Wrap);
    press(&mut t, &mut g, Key::Special(ScanCode::Right));
    press(&mut t, &mut g, Key::Special(ScanCode::Right));
    press(&mut t, &mut g, Key::Printable('\x08'));
    assert_eq!(t.get_value(), "ac");
    assert_eq!(t.cursor(), (1, 0));
}

#[test]
fn delete_at_line_end_merges_next_line() {
    let mut g = graphics();
    let mut t = area("ab\ncd", (320, 320), XOverflowBehavior::Wrap);
    t.draw(&mut g, true);
    press(&mut t, &mut g, Key::Special(ScanCode::Right));
    press(&mut t, &mut g, Key::Special(ScanCode::Right));
    assert_eq!(t.cursor(), (2, 0));
    press(&mut t, &mut g, Key::Special(ScanCode::Delete));
    assert_eq!(t.get_value(), "abcd");
    assert_eq!(t.cursor(), (2, 0));
}

#[test]
fn delete_removes_char_at_cursor() {
    let mut g = graphics();
    let mut t = area("abc", (320, 320), XOverflowBehavior::Wrap);
    press(&mut t, &mut g, Key::Special(ScanCode::Delete));
    assert_eq!(t.get_value(), "bc");
    assert_eq!(t.cursor(), (0, 0));
}

#[test]
fn delete_on_last_line_end_does_nothing() {
    let mut g = graphics();
    let mut t = area("a", (320, 320), XOverflowBehavior::Wrap);
    press(&mut t, &mut g, Key::Special(ScanCode::Right));
    let _ = g.take_ops();
    press(&mut t, &mut g, Key::Special(ScanCode::Delete));
    assert_eq!(t.get_value(), "a");
    assert!(g.take_ops().is_empty());
}

#[test]
fn typing_inserts_at_cursor() {
    let mut g = graphics();
    let mut t = area("ac", (320, 320), XOverflowBehavior::Wrap);
    press(&mut t, &mut g, Key::Special(ScanCode::Right));
    press(&mut t, &mut g, Key::Printable('b'));
    assert_eq!(t.get_value(), "abc");
    assert_eq!(t.cursor(), (2, 0));
}

#[test]
fn enter_splits_line() {
    let mut g = graphics();
    let mut t = area("abcd", (320, 320), XOverflowBehavior::Wrap);
    press(&mut t, &mut g, Key::Special(ScanCode::Right));
    press(&mut t, &mut g, Key::Special(ScanCode::Right));
    press(&mut t, &mut g, Key::Printable('\n'));
    assert_eq!(t.get_value(), "ab\ncd");
    assert_eq!(t.cursor(), (0, 1));
}

#[test]
fn vertical_move_snaps_column() {
    let mut g = graphics();
    let mut t = area("abcd\nx", (320, 320), XOverflowBehavior::Wrap);
    for _ in 0..4 {
        press(&mut t, &mut g, Key::Special(ScanCode::Right));
    }
    assert_eq!(t.cursor(), (4, 0));
    press(&mut t, &mut g, Key::Special(ScanCode::Down));
    assert_eq!(t.cursor(), (1, 1));
}

#[test]
fn cursor_stays_on_text() {
    let mut g = graphics();
    let mut t = area("abc\n\nxy z", (320, 320), XOverflowBehavior::Wrap);
    let keys = [
        Key::Special(ScanCode::Right),
        Key::Special(ScanCode::Right),
        Key::Special(ScanCode::Right),
        Key::Special(ScanCode::Right),
        Key::Special(ScanCode::Down),
        Key::Special(ScanCode::Down),
        Key::Special(ScanCode::Right),
        Key::Printable('\x08'),
        Key::Special(ScanCode::Up),
        Key::Printable('\x08'),
        Key::Printable('\n'),
        Key::Special(ScanCode::Left),
        Key::Special(ScanCode::Left),
        Key::Special(ScanCode::Delete),
        Key::Special(ScanCode::Down),
        Key::Special(ScanCode::Down),
        Key::Special(ScanCode::Down),
    ];
    for k in keys {
        press(&mut t, &mut g, k);
        let value = t.get_value();
        let lines: Vec<&str> = value.split('\n').collect();
        let (col, row) = t.cursor();
        assert!(row < lines.len());
        assert!(col <= lines[row].chars().count());
    }
}

#[test]
fn left_at_line_start_changes_nothing() {
    let mut g = graphics();
    let mut t = area("ab", (320, 320), XOverflowBehavior::Wrap);
    press(&mut t, &mut g, Key::Special(ScanCode::Left));
    assert_eq!(t.cursor(), (0, 0));
    assert!(g.take_ops().is_empty());
}

#[test]
fn draw_twice_shows_the_same() {
    let mut g = graphics();
    let mut t = area("hello world\nsecond line", (160, 160), XOverflowBehavior::Wrap);
    t.draw(&mut g, true);
    let first = g.take_ops();
    t.draw(&mut g, true);
    let second = g.take_ops();
    assert_eq!(first, second);
    assert!(!first.is_empty());
}

#[test]
fn draw_records_frame_cursor_and_text() {
    let mut g = graphics();
    let mut t = area("ab", (160, 160), XOverflowBehavior::Scroll);
    t.draw(&mut g, false);
    let ops = g.take_ops();
    assert_eq!(ops.len(), 4);
    assert_eq!(
        ops[0],
        DrawOp::Rect { color: [2, 2, 2], top_left: (0, 0), size: (160, 160), border: Some([4, 4, 4]) }
    );
    assert_eq!(ops[1], DrawOp::Rect { color: [3, 3, 3], top_left: (0, 13), size: (16, 3), border: None });
    assert_eq!(ops[2], DrawOp::Glyph { c: 'a', top_left: (0, 0), scale: 2, color: [1, 1, 1] });
    assert_eq!(ops[3], DrawOp::Glyph { c: 'b', top_left: (16, 0), scale: 2, color: [1, 1, 1] });
}

#[test]
fn scroll_keeps_margin_to_the_right() {
    let mut g = graphics();
    let mut t = area("abcdefghijklmnop", (160, 160), XOverflowBehavior::Scroll);
    for _ in 0..9 {
        press(&mut t, &mut g, Key::Special(ScanCode::Right));
    }
    assert_eq!(t.cursor(), (9, 0));
    assert_eq!(t.viewport(), (2, 0));
    for _ in 0..5 {
        press(&mut t, &mut g, Key::Special(ScanCode::Left));
    }
    assert_eq!(t.viewport(), (1, 0));
}

#[test]
fn wrap_moves_viewport_down_just_enough() {
    let mut g = graphics();
    let mut t = area("a\nb\nc\nd\ne", (160, 48), XOverflowBehavior::Wrap);
    for _ in 0..3 {
        press(&mut t, &mut g, Key::Special(ScanCode::Down));
    }
    assert_eq!(t.cursor(), (0, 3));
    assert_eq!(t.viewport(), (0, 1));
    for _ in 0..3 {
        press(&mut t, &mut g, Key::Special(ScanCode::Up));
    }
    assert_eq!(t.viewport(), (0, 0));
}

#[test]
fn wrap_hello_world_at_five_columns() {
    assert_eq!(wrap_line(&chars("hello world"), 5), vec![(0, 5), (5, 6), (6, 11)]);
}

#[test]
fn wrap_breaks_after_spaces() {
    assert_eq!(wrap_line(&chars("ab cd"), 3), vec![(0, 3), (3, 5)]);
    assert_eq!(wrap_line(&chars("ab cd"), 10), vec![(0, 5)]);
}

#[test]
fn wrap_splits_long_words() {
    assert_eq!(wrap_line(&chars("abcdefg"), 3), vec![(0, 3), (3, 6), (6, 7)]);
}

#[test]
fn wrap_of_empty_line() {
    assert_eq!(wrap_line(&Vec::new(), 4), vec![(0, 0)]);
}
