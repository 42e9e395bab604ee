use moonlight::processor::operation::Point;
use moonlight::workspace::operation::{Edit, Operation, Position};

/// A stand-in for an image: its width and height.
#[derive(Clone, Debug, PartialEq)]
struct Frame(u32, u32);

impl Edit for Frame {
    fn cropped(&self, at: Position, size: Position) -> Frame {
        Frame(size.x.min(self.0 - at.x), size.y.min(self.1 - at.y))
    }
}

#[test]
fn position_new_keeps_its_coordinates() {
    let p = Position::new(3, 4);
    assert_eq!(p.x, 3);
    assert_eq!(p.y, 4);
}

#[test]
fn point_new_keeps_its_coordinates() {
    let p = Point::new(5, 6);
    assert_eq!(p.x, 5);
    assert_eq!(p.y, 6);
}

#[test]
fn each_operation_has_its_icon() {
    let a = 1.0f64.to_bits();
    let at = Position::new(0, 0);
    assert_eq!(Operation::Root.icon_glyph(), '\u{f192}');
    assert_eq!(Operation::Rotate(a).icon_glyph(), '\u{f2f1}');
    assert_eq!(Operation::Crop(at, at).icon_glyph(), '\u{f565}');
    assert_eq!(Operation::Exposure(a).icon_glyph(), '\u{f185}');
    assert_eq!(Operation::Brightness(a).icon_glyph(), '\u{f0eb}');
    assert_eq!(Operation::Contrast(a).icon_glyph(), '\u{f042}');
    assert_eq!(Operation::Whites(a).icon_glyph(), 'W');
    assert_eq!(Operation::Blacks(a).icon_glyph(), 'B');
    assert_eq!(Operation::Highlights(a).icon_glyph(), '\u{e52f}');
    assert_eq!(Operation::Shadows(a).icon_glyph(), '\u{f186}');
    assert_eq!(Operation::WhitePoint(a).icon_glyph(), '\u{f111}');
    assert_eq!(Operation::BlackPoint(a).icon_glyph(), '\u{f192}');
}

#[test]
fn applied_to_hands_back_a_copy() {
    let image = Frame(8, 6);
    let result = Operation::Brightness(0.5f64.to_bits()).applied_to(&image);
    assert_eq!(result, image);
    assert_eq!(Operation::Root.applied_to(&image), image);
}

#[test]
fn applied_to_crops_for_a_crop() {
    let image = Frame(8, 6);
    let crop = Operation::Crop(Position::new(2, 1), Position::new(4, 3));
    assert_eq!(crop.applied_to(&image), Frame(4, 3));
    assert_eq!(image, Frame(8, 6));
}
