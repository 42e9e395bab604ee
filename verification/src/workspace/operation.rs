use vstd::prelude::*;

verus! {

/// One edit step of the tree.
///
/// Numeric parameters are floating-point amounts in the editor; the library
/// carries them as their IEEE-754 bit patterns (`f64::to_bits`), since it only
/// stores and compares them and never computes with them.
#[derive(Debug, Clone, Copy, PartialEq, Eq, Structural)]
pub enum Operation {
    /// Only used for the root `Node` of a `Tree`.
    Root,
    /// Rotates an image in degrees.
    Rotate(u64),
    /// Crops an image from the top left corner at the given size (second `Position`).
    Crop(Position, Position),
    /// Adjusts the exposure of the image.
    Exposure(u64),
    /// Adjusts the overall brightness of the image.
    Brightness(u64),
    /// Adjusts the overall contrast of the image.
    Contrast(u64),
    /// Lightens the highlights of the image.
    Whites(u64),
    /// Darkens the shadows of the image.
    Blacks(u64),
    /// Pulls down the highlights of the image.
    Highlights(u64),
    /// Lifts the shadows of the image.
    Shadows(u64),
    /// Adjusts the brightness that is considered maximum white (clipping point).
    WhitePoint(u64),
    /// Adjusts the brightness that is considered maximum black (clipping point).
    BlackPoint(u64),
}

/// The glyph (in the Font Awesome solid font) that stands for an operation.
pub open spec fn glyph_of(operation: Operation) -> char {
    match operation {
        Operation::Root => '\u{f192}',
        Operation::Rotate(_) => '\u{f2f1}',
        Operation::Crop(_, _) => '\u{f565}',
        Operation::Exposure(_) => '\u{f185}',
        Operation::Brightness(_) => '\u{f0eb}',
        Operation::Contrast(_) => '\u{f042}',
        Operation::Whites(_) => 'W',
        Operation::Blacks(_) => 'B',
        Operation::Highlights(_) => '\u{e52f}',
        Operation::Shadows(_) => '\u{f186}',
        Operation::WhitePoint(_) => '\u{f111}',
        Operation::BlackPoint(_) => '\u{f192}',
    }
}

impl Operation {
    /// Returns the glyph of the icon for this `Operation`: circle-dot, rotate,
    /// crop-simple, sun, lightbulb, circle-half-stroke, W, B, mountain-sun,
    /// moon, circle and circle-dot.
    pub fn icon_glyph(&self) -> (glyph: char)
        ensures
            glyph == glyph_of(*self),
    {
        match self {
            Operation::Root => '\u{f192}',
            Operation::Rotate(_) => '\u{f2f1}',
            Operation::Crop(_, _) => '\u{f565}',
            Operation::Exposure(_) => '\u{f185}',
            Operation::Brightness(_) => '\u{f0eb}',
            Operation::Contrast(_) => '\u{f042}',
            Operation::Whites(_) => 'W',
            Operation::Blacks(_) => 'B',
            Operation::Highlights(_) => '\u{e52f}',
            Operation::Shadows(_) => '\u{f186}',
            Operation::WhitePoint(_) => '\u{f111}',
            Operation::BlackPoint(_) => '\u{f192}',
        }
    }

    /// Returns a new image with this `Operation` applied to the given image:
    /// a crop takes the part of the image at the given corner and of the
    /// given size; the other operations do not change the pixels yet, and
    /// hand back a clone of the image.
    pub fn applied_to<I: Edit + Clone>(&self, image: &I) -> (result: I)
        ensures
            applied(*self, *image, result),
    {
        match self {
            Operation::Crop(at, size) => image.cropped(*at, *size),
            _ => image.clone(),
        }
    }
}

/// What the operations need of an image type: cropping.
pub trait Edit: Sized {
    /// The part of the image whose top left corner is at `at`, of the given
    /// size.
    fn cropped(&self, at: Position, size: Position) -> Self;
}

/// Whether `result` is what applying `operation` to `image` gives.
pub open spec fn applied<I: Edit + Clone>(operation: Operation, image: I, result: I) -> bool {
    match operation {
        Operation::Crop(at, size) => call_ensures(<I as Edit>::cropped, (&image, at, size), result),
        _ => cloned(image, result),
    }
}

/// Defines a 2d position in an image in pixels.
/// This can also be used to define a size (as in `Operation::Crop`).
#[derive(Debug, Clone, Copy, PartialEq, Eq, Structural)]
pub struct Position {
    pub x: u32,
    pub y: u32,
}

impl Position {
    /// Returns a new `Position`.
    pub fn new(x: u32, y: u32) -> (position: Position)
        ensures
            position.x == x,
            position.y == y,
    {
        Position { x, y }
    }
}

} // verus!
