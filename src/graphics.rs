//! Theme, colors, font scales and the recorded drawing commands.
use vstd::prelude::*;

verus! {

/// The named color slots of a theme.
#[derive(Clone, Copy, PartialEq, Eq, Structural, Debug)]
pub enum ColorType {
    Foreground,
    Background,
    Cursor,
    BorderUnfocused,
    BorderFocused,
}

impl ColorType {
    /// Position of the slot in a color scheme.
    pub open spec fn index(self) -> int {
        match self {
            ColorType::Foreground => 0,
            ColorType::Background => 1,
            ColorType::Cursor => 2,
            ColorType::BorderUnfocused => 3,
            ColorType::BorderFocused => 4,
        }
    }
}

/// An RGB color.
pub type Color = [u8; 3];

/// One color for each `ColorType`.
pub struct ColorScheme([Color; 5]);

impl ColorScheme {
    /// The color the scheme gives to a slot.
    pub closed spec fn color(&self, c: ColorType) -> Color {
        self.0@[c.index()]
    }

    pub fn new(
        foreground: Color,
        background: Color,
        cursor: Color,
        border_unfocused: Color,
        border_focused: Color,
    ) -> (r: ColorScheme)
        ensures
            r.color(ColorType::Foreground) == foreground,
            r.color(ColorType::Background) == background,
            r.color(ColorType::Cursor) == cursor,
            r.color(ColorType::BorderUnfocused) == border_unfocused,
            r.color(ColorType::BorderFocused) == border_focused,
    {
        ColorScheme([foreground, background, cursor, border_unfocused, border_focused])
    }

    pub fn get(&self, color: ColorType) -> (r: Color)
        ensures
            r == self.color(color),
    {
        let idx: usize = match color {
            ColorType::Foreground => 0,
            ColorType::Background => 1,
            ColorType::Cursor => 2,
            ColorType::BorderUnfocused => 3,
            ColorType::BorderFocused => 4,
        };
        self.0[idx]
    }
}

/// Font sizes, named as in HTML: `<h1>`, `<h2>`, `<p>`.
#[derive(Clone, Copy, PartialEq, Eq, Structural, Debug)]
pub enum FontSize {
    H1,
    H2,
    P,
}

impl FontSize {
    pub open spec fn index(self) -> int {
        match self {
            FontSize::H1 => 0,
            FontSize::H2 => 1,
            FontSize::P => 2,
        }
    }
}

/// A scale factor for each `FontSize`.
pub struct FontSizes([usize; 3]);

impl FontSizes {
    /// The scale factor for a size.
    pub closed spec fn scale(&self, size: FontSize) -> usize {
        self.0@[size.index()]
    }

    /// Every size scaled by two.
    pub fn default() -> (r: FontSizes)
        ensures
            r.scale(FontSize::H1) == 2,
            r.scale(FontSize::H2) == 2,
            r.scale(FontSize::P) == 2,
    {
        FontSizes([2, 2, 2])
    }

    pub fn new(h1: usize, h2: usize, text: usize) -> (r: FontSizes)
        ensures
            r.scale(FontSize::H1) == h1,
            r.scale(FontSize::H2) == h2,
            r.scale(FontSize::P) == text,
    {
        FontSizes([h1, h2, text])
    }

    pub fn get(&self, size: FontSize) -> (r: usize)
        ensures
            r == self.scale(size),
    {
        let idx: usize = match size {
            FontSize::H1 => 0,
            FontSize::H2 => 1,
            FontSize::P => 2,
        };
        self.0[idx]
    }
}

pub struct Theme {
    pub font_sizes: FontSizes,
    pub color_scheme: ColorScheme,
}

impl Theme {
    /// The command that `write_char` records.
    pub open spec fn glyph_op(
        &self,
        c: char,
        top_left: (usize, usize),
        size: FontSize,
        color: ColorType,
    ) -> DrawOp {
        DrawOp::Glyph {
            c,
            top_left,
            scale: self.font_sizes.scale(size),
            color: self.color_scheme.color(color),
        }
    }

    /// The command that `draw_rect` records.
    pub open spec fn rect_op(
        &self,
        color: ColorType,
        top_left: (usize, usize),
        size: (usize, usize),
        border: Option<ColorType>,
    ) -> DrawOp {
        DrawOp::Rect {
            color: self.color_scheme.color(color),
            top_left,
            size,
            border: match border {
                Some(b) => Some(self.color_scheme.color(b)),
                None => None,
            },
        }
    }
}

/// A drawing command, with its colors and scale already resolved through
/// the theme.
#[derive(Clone, Copy, PartialEq, Eq, Debug)]
pub enum DrawOp {
    /// A filled rectangle, optionally with a one pixel border.
    Rect { color: Color, top_left: (usize, usize), size: (usize, usize), border: Option<Color> },
    /// A glyph of the bitmap font, scaled up by `scale`.
    Glyph { c: char, top_left: (usize, usize), scale: usize, color: Color },
}

/// What drawing depends on: the theme and the size in pixels of an
/// unscaled glyph of the font.
pub struct Surface {
    pub theme: Theme,
    pub font_width: usize,
    pub font_height: usize,
}

impl Surface {
    /// Width in pixels of one character cell at `size`.
    pub open spec fn char_width(&self, size: FontSize) -> int {
        self.theme.font_sizes.scale(size) * self.font_width
    }

    /// Height in pixels of one character cell at `size`.
    pub open spec fn char_height(&self, size: FontSize) -> int {
        self.theme.font_sizes.scale(size) * self.font_height
    }
}

/// What widgets draw on: a theme, the size in pixels of an unscaled glyph
/// of the font, and the commands drawn so far, oldest first.
pub struct Graphics {
    pub theme: Theme,
    pub font_width: usize,
    pub font_height: usize,
    pub ops: Vec<DrawOp>,
}

impl Graphics {
    /// What the drawing commands depend on.
    pub open spec fn surface(&self) -> Surface {
        Surface { theme: self.theme, font_width: self.font_width, font_height: self.font_height }
    }

    /// The same surface: only the recorded commands may differ.
    pub open spec fn same_surface(&self, other: &Graphics) -> bool {
        &&& self.theme == other.theme
        &&& self.font_width == other.font_width
        &&& self.font_height == other.font_height
    }

    pub fn new(theme: Theme, font_width: usize, font_height: usize) -> (r: Graphics)
        ensures
            r.theme == theme,
            r.font_width == font_width,
            r.font_height == font_height,
            r.ops@ == Seq::<DrawOp>::empty(),
    {
        Graphics { theme, font_width, font_height, ops: Vec::new() }
    }

    /// Draw the character `c` with its top left corner at `top_left`,
    /// scaled for `size`, in the theme's `color`.
    pub fn write_char(&mut self, c: char, top_left: (usize, usize), size: FontSize, color: ColorType)
        ensures
            final(self).same_surface(old(self)),
            final(self).ops@ == old(self).ops@.push(old(self).theme.glyph_op(c, top_left, size, color)),
    {
        let color = self.theme.color_scheme.get(color);
        let scale = self.theme.font_sizes.get(size);
        self.ops.push(DrawOp::Glyph { c, top_left, scale, color });
    }

    /// Fill a rectangle in the theme's `color`, with a border if one is given.
    pub fn draw_rect(
        &mut self,
        color: ColorType,
        top_left: (usize, usize),
        dimensions_px: (usize, usize),
        border: Option<ColorType>,
    )
        ensures
            final(self).same_surface(old(self)),
            final(self).ops@ == old(self).ops@.push(
                old(self).theme.rect_op(color, top_left, dimensions_px, border),
            ),
    {
        let color = self.theme.color_scheme.get(color);
        let border = match border {
            Some(b) => Some(self.theme.color_scheme.get(b)),
            None => None,
        };
        self.ops.push(DrawOp::Rect { color, top_left, size: dimensions_px, border });
    }

    /// Hand out the commands recorded so far and start afresh.
    pub fn take_ops(&mut self) -> (r: Vec<DrawOp>)
        ensures
            final(self).same_surface(old(self)),
            r@ == old(self).ops@,
            final(self).ops@ == Seq::<DrawOp>::empty(),
    {
        let mut out: Vec<DrawOp> = Vec::new();
        std::mem::swap(&mut out, &mut self.ops);
        out
    }
}

} // verus!
