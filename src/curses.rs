use vstd::prelude::*;
use crate::vga::{Color, ColorAttribute, color_value};

verus! {

/// A picture of `width` by `height` characters, row after row.
pub struct Image {
    pub content: Vec<u8>,
    pub width: usize,
    pub height: usize,
}

impl Image {
    pub fn new(data: Vec<u8>, width: usize, height: usize) -> (r: Image)
        ensures
            r.content@ == data@,
            r.width == width,
            r.height == height,
    {
        Image { content: data, width, height }
    }
}

/// An image placed at row `x`, column `y` of the screen, in given colours.
pub struct Window {
    pub img: Image,
    pub x: usize,
    pub y: usize,
    pub color: ColorAttribute,
}

impl Window {
    pub fn new(img: Image, x: usize, y: usize, background: Color, foreground: Color) -> (r: Window)
        ensures
            r.img.content@ == img.content@,
            r.img.width == img.width,
            r.img.height == img.height,
            r.x == x,
            r.y == y,
            r.color.0 == color_value(background) * 16 + color_value(foreground),
    {
        Window { img, x, y, color: ColorAttribute::new(background, foreground) }
    }
}

} // verus!
