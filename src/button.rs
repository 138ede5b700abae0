//! A labelled button that posts its label when Enter is pressed on it.
use vstd::prelude::*;

use crate::event::{strings_view, Key, UIResult, UIResultView};
use crate::graphics::{ColorType, DrawOp, FontSize, Graphics, Surface};

verus! {

/// The mathematical state of a `Button`.
pub struct ButtonView {
    pub id: Seq<char>,
    pub subscriptions: Seq<Seq<char>>,
    pub label: Seq<char>,
    pub start: (usize, usize),
    pub dims_px: (usize, usize),
    pub font_size: FontSize,
}

/// Whether `k` is Enter.
pub open spec fn is_enter(k: Key) -> bool {
    k == Key::Printable('\n') || k == Key::Printable('\r')
}

impl ButtonView {
    /// The label fits inside the button, and the button on a surface
    /// addressed by `usize`.
    pub open spec fn drawable(self, g: Surface) -> bool {
        let cw = g.char_width(self.font_size);
        let ch = g.char_height(self.font_size);
        &&& cw <= usize::MAX
        &&& ch <= usize::MAX
        &&& self.label.len() <= usize::MAX
        &&& self.label.len() * cw <= self.dims_px.0
        &&& ch <= self.dims_px.1
        &&& self.start.0 + self.dims_px.0 <= usize::MAX
        &&& self.start.1 + self.dims_px.1 <= usize::MAX
    }

    /// Where the label starts: centered in the button.
    pub open spec fn label_origin(self, g: Surface) -> (int, int) {
        let cw = g.char_width(self.font_size);
        let ch = g.char_height(self.font_size);
        (
            self.start.0 + (self.dims_px.0 - self.label.len() * cw) / 2,
            self.start.1 + (self.dims_px.1 - ch) / 2,
        )
    }

    /// What a draw records: the background with its border, then the
    /// label, one glyph per character, centered.
    pub open spec fn render(self, g: Surface, focused: bool) -> Seq<DrawOp> {
        let (x, y) = self.label_origin(g);
        let cw = g.char_width(self.font_size);
        seq![
            g.theme.rect_op(
                ColorType::Background,
                self.start,
                self.dims_px,
                Some(if focused { ColorType::BorderFocused } else { ColorType::BorderUnfocused }),
            ),
        ] + Seq::new(
            self.label.len(),
            |j: int|
                g.theme.glyph_op(
                    self.label[j],
                    ((x + j * cw) as usize, y as usize),
                    FontSize::P,
                    ColorType::Foreground,
                ),
        )
    }

    /// What a key gives: a post of the label under the button's id on
    /// Enter, else nothing.
    pub open spec fn key_result(self, k: Key) -> UIResultView {
        if is_enter(k) {
            UIResultView::POST(self.id, self.label)
        } else {
            UIResultView::OK
        }
    }
}

/// A rectangle with a centered label.
pub struct Button {
    id: String,
    subscriptions: Vec<String>,
    label: String,
    start_px: (usize, usize),
    dimensions_px: (usize, usize),
    font_size: FontSize,
}

impl View for Button {
    type V = ButtonView;

    closed spec fn view(&self) -> ButtonView {
        ButtonView {
            id: self.id@,
            subscriptions: strings_view(self.subscriptions@),
            label: self.label@,
            start: self.start_px,
            dims_px: self.dimensions_px,
            font_size: self.font_size,
        }
    }
}

impl Button {
    /// A button with no subscriptions.
    pub fn new(
        id: String,
        label: String,
        start_px: (usize, usize),
        dimensions_px: (usize, usize),
        font_size: FontSize,
    ) -> (r: Button)
        ensures
            r@ == (ButtonView {
                id: id@,
                subscriptions: Seq::empty(),
                label: label@,
                start: start_px,
                dims_px: dimensions_px,
                font_size,
            }),
    {
        let r = Button { id, label, subscriptions: Vec::new(), start_px, dimensions_px, font_size };
        assert(strings_view(r.subscriptions@) =~= Seq::<Seq<char>>::empty());
        r
    }

    pub fn id(&self) -> (r: &String)
        ensures
            r@ == self@.id,
    {
        &self.id
    }

    /// The label.
    pub fn get_value(&self) -> (r: String)
        ensures
            r@ == self@.label,
    {
        self.label.clone()
    }

    pub fn get_subscriptions(&self) -> (r: &Vec<String>)
        ensures
            strings_view(r@) == self@.subscriptions,
    {
        &self.subscriptions
    }

    pub fn dimensions(&self) -> (r: (usize, usize))
        ensures
            r == self@.dims_px,
    {
        self.dimensions_px
    }

    /// Draw the background and border (the focused border when
    /// `focused`), and the label centered on it.
    pub fn draw(&self, g: &mut Graphics, focused: bool)
        requires
            self@.drawable(old(g).surface()),
        ensures
            final(g).same_surface(old(g)),
            final(g).ops@ == old(g).ops@ + self@.render(old(g).surface(), focused),
    {
        let ghost g0 = old(g).surface();
        let ghost v = self@;
        let border = if focused {
            ColorType::BorderFocused
        } else {
            ColorType::BorderUnfocused
        };
        g.draw_rect(ColorType::Background, self.start_px, self.dimensions_px, Some(border));
        let ghost base = g.ops@;
        let scale = g.theme.font_sizes.get(self.font_size);
        let cw = scale * g.font_width;
        let ch = scale * g.font_height;
        let mut n: usize = 0;
        for _c in it: self.label.as_str().chars()
            invariant
                v == self@,
                it.seq() == v.label,
                v.label.len() <= usize::MAX,
                n == it.index(),
        {
            n = n + 1;
        }
        proof {
            vstd::arithmetic::mul::lemma_mul_inequality(0, n as int, cw as int);
        }
        let x0 = self.start_px.0 + (self.dimensions_px.0 - n * cw) / 2;
        let y0 = self.start_px.1 + (self.dimensions_px.1 - ch) / 2;
        let mut x = x0;
        let ghost glyphs = Seq::new(
            v.label.len(),
            |j: int|
                g0.theme.glyph_op(v.label[j], ((x0 + j * cw) as usize, y0 as usize), FontSize::P, ColorType::Foreground),
        );
        assert(x0 + n * cw <= usize::MAX);
        for c in it: self.label.as_str().chars()
            invariant
                v == self@,
                it.seq() == v.label,
                n == v.label.len(),
                g.surface() == g0,
                x as int == x0 + it.index() * cw,
                x0 + n * cw <= usize::MAX,
                glyphs == Seq::new(
                    v.label.len(),
                    |j: int|
                        g0.theme.glyph_op(v.label[j], ((x0 + j * cw) as usize, y0 as usize), FontSize::P, ColorType::Foreground),
                ),
                g.ops@ == base + glyphs.take(it.index() as int),
        {
            assert(it.index() < n);
            assert(c == v.label[it.index() as int]);
            g.write_char(c, (x, y0), FontSize::P, ColorType::Foreground);
            proof {
                vstd::arithmetic::mul::lemma_mul_inequality(it.index() + 1, n as int, cw as int);
                vstd::arithmetic::mul::lemma_mul_is_distributive_add_other_way(cw as int, it.index() as int, 1);
                assert(glyphs.take(it.index() + 1) =~= glyphs.take(it.index() as int).push(glyphs[it.index() as int]));
            }
            x = x + cw;
        }
        proof {
            assert(glyphs.take(v.label.len() as int) =~= glyphs);
            assert(g.ops@ =~= old(g).ops@ + v.render(g0, focused));
        }
    }

    /// Enter posts the label under the button's id; every other key does
    /// nothing.
    pub fn handle_key(&self, k: Key) -> (r: UIResult)
        ensures
            r@ == self@.key_result(k),
    {
        if let Key::Printable(c) = k {
            if c == '\n' || c == '\r' {
                return UIResult::POST(self.id.clone(), self.label.clone());
            }
        }
        UIResult::OK
    }
}

} // verus!
