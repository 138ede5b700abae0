use fbwidgets::application::Application;
use fbwidgets::bmp::{Bitmap, Pixel};
use fbwidgets::button::Button;
use fbwidgets::event::{Key, ScanCode, UIResult};
use fbwidgets::graphics::{ColorScheme, ColorType, DrawOp, FontSize, FontSizes, Graphics, Theme};
use fbwidgets::text_area::{TextArea, XOverflowBehavior};
use fbwidgets::widget::{Menu, MenuOrientation, MultiWidget, TextInput, Widget};

fn theme() -> Theme {
    Theme {
        font_sizes: FontSizes::new(3, 2, 2),
        color_scheme: ColorScheme::new([1, 1, 1], [2, 2, 2], [3, 3, 3], [4, 4, 4], [5, 5, 5]),
    }
}

fn graphics() -> Graphics {
    Graphics::new(theme(), 8, 8)
}

fn button(label: &str, x: usize) -> Widget {
    Widget::Button(Button::new(
        String::from(label),
        String::from(label),
        (x, 0),
        (100, 40),
        FontSize::P,
    ))
}

fn menu(g: &Graphics) -> Menu {
    Menu::new(
        String::from("menu"),
        vec![String::from("save"), String::from("cancel")],
        (0, 0),
        (400, 100),
        MenuOrientation::HORIZONTAL,
        g,
    )
}

fn listening_area(topic: &str) -> Widget {
    Widget::TextArea(TextArea::new(
        String::from("notes"),
        vec![String::from(topic)],
        String::from("x"),
        true,
        (0, 0),
        (320, 320),
        FontSize::P,
        XOverflowBehavior::Wrap,
    ))
}

#[test]
fn color_scheme_and_font_sizes() {
    let t = theme();
    assert_eq!(t.color_scheme.get(ColorType::Foreground), [1, 1, 1]);
    assert_eq!(t.color_scheme.get(ColorType::BorderFocused), [5, 5, 5]);
    assert_eq!(t.font_sizes.get(FontSize::H1), 3);
    assert_eq!(t.font_sizes.get(FontSize::P), 2);
    assert_eq!(FontSizes::default().get(FontSize::H2), 2);
}

#[test]
fn pixels_from_bytes() {
    assert_eq!(Pixel::empty(), Pixel::new(false, [0, 0, 0]));
    let ps = Pixel::from_u8_vec(vec![1, 0, 2], [9, 9, 9]);
    assert_eq!(ps, vec![Pixel::new(true, [9, 9, 9]), Pixel::new(false, [9, 9, 9]), Pixel::new(false, [9, 9, 9])]);
}

#[test]
fn bitmap_scales_and_borders() {
    let b = Bitmap::new(1, 2, Pixel::from_u8_vec(vec![1, 0], [7, 7, 7]), None);
    let s = Bitmap::scale(&b, 2);
    assert_eq!((s.rows, s.cols), (2, 4));
    assert_eq!(s.bmp[0].draw, true);
    assert_eq!(s.bmp[1].draw, true);
    assert_eq!(s.bmp[2].draw, false);
    assert_eq!(s.bmp[7].draw, false);
    let mut framed = Bitmap::new(3, 3, Pixel::from_u8_vec(vec![0; 9], [0, 0, 0]), None);
    framed.set_border([1, 2, 3]);
    assert_eq!(framed.bmp[4], Pixel::new(false, [0, 0, 0]));
    assert_eq!(framed.bmp[0], Pixel::new(true, [1, 2, 3]));
    assert_eq!(framed.bmp[5], Pixel::new(true, [1, 2, 3]));
}

#[test]
fn bitmap_framebuffer_writes() {
    let mut b = Bitmap::new(1, 2, Pixel::from_u8_vec(vec![0, 1], [7, 7, 7]), None);
    assert_eq!(b.framebuffer_writes((3, 2), 10, false), vec![(4 * 24, [7, 7, 7])]);
    let mut d = Bitmap::new(1, 1, Pixel::from_u8_vec(vec![0], [7, 7, 7]), None);
    assert_eq!(d.framebuffer_writes((0, 0), 10, true), vec![(0, [255, 255, 255])]);
}

#[test]
fn button_posts_label_on_enter() {
    let b = Button::new(String::from("ok_button"), String::from("ok"), (0, 0), (50, 20), FontSize::P);
    assert_eq!(b.handle_key(Key::Printable('\r')), UIResult::POST(String::from("ok_button"), String::from("ok")));
    assert_eq!(b.handle_key(Key::Printable('x')), UIResult::OK);
    assert_eq!(b.get_value(), "ok");
}

#[test]
fn button_centers_label() {
    let mut g = graphics();
    let b = Button::new(String::from("b"), String::from("ok"), (10, 20), (100, 40), FontSize::P);
    b.draw(&mut g, true);
    let ops = g.take_ops();
    assert_eq!(ops.len(), 3);
    assert_eq!(ops[0], DrawOp::Rect { color: [2, 2, 2], top_left: (10, 20), size: (100, 40), border: Some([5, 5, 5]) });
    assert_eq!(ops[1], DrawOp::Glyph { c: 'o', top_left: (44, 32), scale: 2, color: [1, 1, 1] });
    assert_eq!(ops[2], DrawOp::Glyph { c: 'k', top_left: (60, 32), scale: 2, color: [1, 1, 1] });
}

#[test]
fn focus_rotation_returns_after_one_turn() {
    let mut g = graphics();
    let mut m = MultiWidget::new(
        String::from("row"),
        vec![button("a", 0), button("b", 100), button("c", 200)],
        0,
        (300, 40),
    );
    m.focus_next(&mut g);
    assert_eq!(m.get_value(), "b");
    m.focus_next(&mut g);
    m.focus_next(&mut g);
    assert_eq!(m.get_value(), "a");
    m.focus_prev(&mut g);
    assert_eq!(m.get_value(), "c");
}

#[test]
fn next_widget_key_moves_focus() {
    let mut g = graphics();
    let mut m = MultiWidget::new(String::from("row"), vec![button("a", 0), button("b", 100)], 1, (200, 40));
    assert_eq!(m.handle_key(Key::Printable('\x17'), &mut g), UIResult::OK);
    assert_eq!(m.get_value(), "a");
    assert_eq!(m.get_value_for_id(String::from("b")), "b");
}

#[test]
fn closed_child_is_removed_and_focus_clamped() {
    let mut g = graphics();
    let mut m = MultiWidget::new(String::from("col"), vec![button("a", 0), Widget::Menu(menu(&g))], 1, (400, 200));
    assert_eq!(m.handle_key(Key::Special(ScanCode::Escape), &mut g), UIResult::OK);
    assert_eq!(m.get_value(), "a");
    let mut only = MultiWidget::new(String::from("one"), vec![Widget::Menu(menu(&g))], 0, (400, 100));
    assert_eq!(only.handle_key(Key::Special(ScanCode::Escape), &mut g), UIResult::CLOSE);
}

#[test]
fn container_listens_to_all_children_topics() {
    let m = MultiWidget::new(
        String::from("pair"),
        vec![listening_area("x"), listening_area("y"), listening_area("x")],
        0,
        (320, 320),
    );
    assert_eq!(m.get_subscriptions(), &vec![String::from("x"), String::from("y"), String::from("x")]);
}

#[test]
fn menu_posts_under_its_own_id() {
    let mut g = graphics();
    let mut m = menu(&g);
    assert_eq!(m.handle_key(Key::Printable('\n'), &mut g), UIResult::POST(String::from("menu"), String::from("save")));
    assert_eq!(m.handle_key(Key::Special(ScanCode::Right), &mut g), UIResult::OK);
    assert_eq!(m.handle_key(Key::Printable('\n'), &mut g), UIResult::POST(String::from("menu"), String::from("cancel")));
    assert_eq!(m.handle_key(Key::Special(ScanCode::Down), &mut g), UIResult::OK);
    assert_eq!(m.get_value(), "cancel");
    assert_eq!(m.handle_key(Key::Special(ScanCode::Escape), &mut g), UIResult::CLOSE);
}

#[test]
fn menu_spreads_buttons_evenly() {
    let mut g = graphics();
    let mut m = menu(&g);
    m.draw(&mut g, true);
    let ops = g.take_ops();
    assert_eq!(ops[0], DrawOp::Rect { color: [2, 2, 2], top_left: (233, 40), size: (99, 19), border: Some([4, 4, 4]) });
}

#[test]
fn text_input_save_is_posted_under_its_id() {
    let g = graphics();
    let input = TextInput::new(String::from("textinput"), (0, 0), (1024, 600), XOverflowBehavior::Wrap, &g);
    let mut app = Application::new(g, listening_area("textinput"));
    app.push(Widget::TextInput(input));
    assert_eq!(app.step(Key::Printable('h')), UIResult::OK);
    assert_eq!(app.step(Key::Printable('\x17')), UIResult::OK);
    assert_eq!(app.step(Key::Printable('\n')), UIResult::POST(String::from("textinput"), String::from("save")));
    assert_eq!(app.subscribers(&String::from("textinput")), vec![0]);
    assert_eq!(app.subscribers(&String::from("textinput_action_menusave_button")), Vec::<usize>::new());
    assert_eq!(app.value_at(1), "h");
}

#[test]
fn text_input_cancel_and_escape_close() {
    let g = graphics();
    let mut input = TextInput::new(String::from("ti"), (0, 0), (1024, 600), XOverflowBehavior::Scroll, &g);
    let mut g = g;
    assert_eq!(input.handle_key(Key::Printable('\x17'), &mut g), UIResult::OK);
    assert_eq!(input.handle_key(Key::Special(ScanCode::Right), &mut g), UIResult::OK);
    assert_eq!(input.handle_key(Key::Printable('\n'), &mut g), UIResult::CLOSE);
    assert_eq!(input.handle_key(Key::Special(ScanCode::Escape), &mut g), UIResult::CLOSE);
}

#[test]
fn closing_the_only_widget_ends_the_application() {
    let g = graphics();
    let m = menu(&g);
    let mut app = Application::new(g, Widget::Menu(m));
    assert!(app.is_running());
    assert_eq!(app.step(Key::Special(ScanCode::Escape)), UIResult::CLOSE);
    assert!(!app.is_running());
}

#[test]
fn closing_the_top_pops_one_and_redraws() {
    let g = graphics();
    let m = menu(&g);
    let mut app = Application::new(g, listening_area("t"));
    app.push(Widget::Menu(m));
    let _ = app.take_ops();
    assert_eq!(app.step(Key::Special(ScanCode::Escape)), UIResult::CLOSE);
    assert!(app.is_running());
    assert_eq!(app.depth(), 1);
    let ops = app.take_ops();
    assert_eq!(ops[0], DrawOp::Rect { color: [2, 2, 2], top_left: (0, 0), size: (320, 320), border: Some([5, 5, 5]) });
}

#[test]
fn text_input_draws_the_same_twice() {
    let mut g = graphics();
    let mut input = TextInput::new(String::from("ti"), (0, 0), (1024, 600), XOverflowBehavior::Wrap, &g);
    assert_eq!(input.handle_key(Key::Printable('a'), &mut g), UIResult::OK);
    let _ = g.take_ops();
    input.draw(&mut g, true);
    let first = g.take_ops();
    input.draw(&mut g, true);
    let second = g.take_ops();
    assert_eq!(first, second);
    assert!(!first.is_empty());
}

#[test]
fn printable_keys_and_line_ends() {
    assert_eq!(Key::Printable('q').printable(), Some('q'));
    assert_eq!(Key::Special(ScanCode::Up).printable(), None);
    assert!(fbwidgets::event::ends_line('\r'));
    assert!(fbwidgets::event::ends_line('\n'));
    assert!(!fbwidgets::event::ends_line('x'));
}
