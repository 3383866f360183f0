//! Clockwise rotation of a decoded picture by quarter turns.

use vstd::prelude::*;

verus! {

#[verifier::external_type_specification]
#[verifier::external_body]
pub struct ExDynamicImage(image::DynamicImage);

/// Width and height of a picture, in pixels.
pub uninterp spec fn picture_size(picture: image::DynamicImage) -> (nat, nat);

/// The colours of a picture by pixel coordinate `(x, y)`: red, green, blue
/// and alpha, as the picture reports them whatever its sample format.
pub uninterp spec fn picture_pixels(picture: image::DynamicImage) -> Map<
    (int, int),
    (u8, u8, u8, u8),
>;

/// How far to rotate, clockwise.
#[derive(Clone, Copy, Debug, PartialEq, Eq, Structural)]
pub enum RotateOptions {
    D90,
    D180,
    D270,
}

/// The size of a picture after a rotation: a quarter turn either way swaps
/// width and height.
pub open spec fn rotated_size(turn: RotateOptions, size: (nat, nat)) -> (nat, nat) {
    match turn {
        RotateOptions::D90 => (size.1, size.0),
        RotateOptions::D180 => size,
        RotateOptions::D270 => (size.1, size.0),
    }
}

/// Where the pixel at `(x, y)` of a picture of the given size lands.
pub open spec fn landing(turn: RotateOptions, size: (nat, nat), x: int, y: int) -> (int, int) {
    match turn {
        RotateOptions::D90 => (size.1 - 1 - y, x),
        RotateOptions::D180 => (size.0 - 1 - x, size.1 - 1 - y),
        RotateOptions::D270 => (y, size.0 - 1 - x),
    }
}

/// Whether the second picture, given by size and pixels, is the first one
/// rotated: it has the rotated size, and holds every pixel of the first at
/// its landing place.
pub open spec fn is_rotation(
    turn: RotateOptions,
    size: (nat, nat),
    pixels: Map<(int, int), (u8, u8, u8, u8)>,
    turned_size: (nat, nat),
    turned_pixels: Map<(int, int), (u8, u8, u8, u8)>,
) -> bool {
    &&& turned_size == rotated_size(turn, size)
    &&& forall|x: int, y: int|
        0 <= x < size.0 && 0 <= y < size.1 ==> turned_pixels[landing(turn, size, x, y)]
            == #[trigger] pixels[(x, y)]
}

/// The turn that takes a rotated picture back.
pub open spec fn opposite(turn: RotateOptions) -> RotateOptions {
    match turn {
        RotateOptions::D90 => RotateOptions::D270,
        RotateOptions::D180 => RotateOptions::D180,
        RotateOptions::D270 => RotateOptions::D90,
    }
}

/// Every pixel lands inside the rotated picture, and the opposite turn
/// takes it back to where it was.
pub proof fn lemma_landing_undone(turn: RotateOptions, size: (nat, nat), x: int, y: int)
    requires
        0 <= x < size.0,
        0 <= y < size.1,
    ensures
        0 <= landing(turn, size, x, y).0 < rotated_size(turn, size).0,
        0 <= landing(turn, size, x, y).1 < rotated_size(turn, size).1,
        landing(
            opposite(turn),
            rotated_size(turn, size),
            landing(turn, size, x, y).0,
            landing(turn, size, x, y).1,
        ) == (x, y),
        rotated_size(opposite(turn), rotated_size(turn, size)) == size,
{
}

/// `image::DynamicImage::rotate90`: a new picture with width and height
/// swapped, in which the pixel of `(x, y)` stands at `(height - 1 - y, x)`.
#[verifier::external_body]
fn rotate90(picture: &image::DynamicImage) -> (turned: image::DynamicImage)
    ensures
        is_rotation(
            RotateOptions::D90,
            picture_size(*picture),
            picture_pixels(*picture),
            picture_size(turned),
            picture_pixels(turned),
        ),
{
    picture.rotate90()
}

/// `image::DynamicImage::rotate180`: a new picture of the same size, in
/// which the pixel of `(x, y)` stands at `(width - 1 - x, height - 1 - y)`.
#[verifier::external_body]
fn rotate180(picture: &image::DynamicImage) -> (turned: image::DynamicImage)
    ensures
        is_rotation(
            RotateOptions::D180,
            picture_size(*picture),
            picture_pixels(*picture),
            picture_size(turned),
            picture_pixels(turned),
        ),
{
    picture.rotate180()
}

/// `image::DynamicImage::rotate270`: a new picture with width and height
/// swapped, in which the pixel of `(x, y)` stands at `(y, width - 1 - x)`.
#[verifier::external_body]
fn rotate270(picture: &image::DynamicImage) -> (turned: image::DynamicImage)
    ensures
        is_rotation(
            RotateOptions::D270,
            picture_size(*picture),
            picture_pixels(*picture),
            picture_size(turned),
            picture_pixels(turned),
        ),
{
    picture.rotate270()
}

/// Rotates a picture clockwise by the given number of quarter turns.
pub fn rotate(picture: &image::DynamicImage, value: RotateOptions) -> (turned: image::DynamicImage)
    ensures
        is_rotation(
            value,
            picture_size(*picture),
            picture_pixels(*picture),
            picture_size(turned),
            picture_pixels(turned),
        ),
{
    match value {
        RotateOptions::D90 => rotate90(picture),
        RotateOptions::D180 => rotate180(picture),
        RotateOptions::D270 => rotate270(picture),
    }
}

} // verus!
