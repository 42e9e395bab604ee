use vstd::prelude::*;

verus! {

/// One edit step of a `Pool`.
///
/// Numeric parameters are floating-point amounts in the editor; the library
/// carries them as their IEEE-754 bit patterns (`f64::to_bits`).
#[derive(Debug, Clone, Copy, PartialEq, Eq, Structural)]
pub enum Operation {
    /// Only used for the root `Node` of a `Pool`.
    Root,
    /// Rotates an image in degrees.
    Rotate(u64),
    /// Crops an image from the top left corner `Point` at the given size (second `Point`).
    Crop(Point, Point),
    /// Adjusts the exposure of the image.
    Exposure(u64),
    /// Adjusts the overall brightness of the image.
    Brightness(u64),
    /// Adjusts the overall contrast of the image.
    Contrast(u64),
    /// Lightens the highlights of the image.
    Whites(u64),
    /// Darkens the shadows of the image.
    Blacks(u64),
    /// Pulls down the highlights of the image.
    Highlights(u64),
    /// Lifts the shadows of the image.
    Shadows(u64),
    /// Adjusts the brightness that is considered maximum white (clipping point).
    WhitePoint(u64),
    /// Adjusts the brightness that is considered maximum black (clipping point).
    BlackPoint(u64),
}

/// Defines a 2d point in an image in pixels.
/// This can also be used to define a size (as in `Operation::Crop`).
#[derive(Debug, Clone, Copy, PartialEq, Eq, Structural)]
pub struct Point {
    pub x: u32,
    pub y: u32,
}

impl Point {
    /// Returns a new `Point`.
    pub fn new(x: u32, y: u32) -> (point: Point)
        ensures
            point.x == x,
            point.y == y,
    {
        Point { x, y }
    }
}

} // verus!
