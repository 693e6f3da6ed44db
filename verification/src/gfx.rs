use vstd::prelude::*;

verus! {

/// A colour of four channels of eight bits.
#[derive(Clone, Copy, PartialEq, Eq, Debug, Hash, Structural)]
pub struct Color {
    pub r: u8,
    pub g: u8,
    pub b: u8,
    pub a: u8,
}

impl Color {
    /// The opaque colour of the three channels.
    pub fn rgb(r: u8, g: u8, b: u8) -> (color: Color)
        ensures
            color == (Color { r, g, b, a: 255 }),
    {
        Color { r, g, b, a: 255 }
    }
}

/// How a shape or a text is drawn.
#[derive(Clone, Copy, Debug, Hash)]
pub struct Paint {
    pub color: Color,
    pub line_width: Option<u16>,
    pub font_size: Option<u16>,
}

impl Paint {
    /// A paint of one colour, with no line width and no font size.
    pub fn color(layer_color: Color) -> (paint: Paint)
        ensures
            paint == (Paint { color: layer_color, line_width: None, font_size: None }),
    {
        Paint { color: layer_color, line_width: None, font_size: None }
    }

    /// The same paint with the line width `arg`.
    pub fn with_line_width(self, arg: u16) -> (paint: Paint)
        ensures
            paint == (Paint { line_width: Some(arg), ..self }),
    {
        Paint { line_width: Some(arg), ..self }
    }

    /// The same paint with the font size `arg`.
    pub fn with_font_size(self, arg: u16) -> (paint: Paint)
        ensures
            paint == (Paint { font_size: Some(arg), ..self }),
    {
        Paint { font_size: Some(arg), ..self }
    }
}

/// Whether layers above the background get darker or lighter.
#[derive(Copy, Clone, Debug, PartialEq, Eq, PartialOrd, Ord, Hash)]
pub enum ColorDirection {
    Darken,
    Lighten,
}

} // verus!
