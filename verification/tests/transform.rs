use image::{DynamicImage, GenericImageView, Rgb, RgbImage, Rgba};
use rastergen::transform::{rotate, RotateOptions};

// A 3 x 2 picture whose pixel at (x, y) has red 10 * x and green 100 * y.
fn three_by_two() -> DynamicImage {
    let mut img = RgbImage::new(3, 2);
    for y in 0..2u32 {
        for x in 0..3u32 {
            img.put_pixel(x, y, Rgb([10 * x as u8, 100 * y as u8, 7]));
        }
    }
    DynamicImage::ImageRgb8(img)
}

fn colour_of(x: u32, y: u32) -> Rgba<u8> {
    Rgba([10 * x as u8, 100 * y as u8, 7, 255])
}

#[test]
fn quarter_turn_swaps_width_and_height() {
    let turned = rotate(&three_by_two(), RotateOptions::D90);
    assert_eq!(turned.dimensions(), (2, 3));
    for y in 0..2 {
        for x in 0..3 {
            assert_eq!(turned.get_pixel(1 - y, x), colour_of(x, y));
        }
    }
}

#[test]
fn half_turn_keeps_the_size() {
    let turned = rotate(&three_by_two(), RotateOptions::D180);
    assert_eq!(turned.dimensions(), (3, 2));
    for y in 0..2 {
        for x in 0..3 {
            assert_eq!(turned.get_pixel(2 - x, 1 - y), colour_of(x, y));
        }
    }
}

#[test]
fn three_quarter_turn_goes_the_other_way() {
    let turned = rotate(&three_by_two(), RotateOptions::D270);
    assert_eq!(turned.dimensions(), (2, 3));
    for y in 0..2 {
        for x in 0..3 {
            assert_eq!(turned.get_pixel(y, 2 - x), colour_of(x, y));
        }
    }
}

#[test]
fn top_left_corner_moves_clockwise() {
    let picture = three_by_two();
    assert_eq!(rotate(&picture, RotateOptions::D90).get_pixel(1, 0), colour_of(0, 0));
    assert_eq!(rotate(&picture, RotateOptions::D180).get_pixel(2, 1), colour_of(0, 0));
    assert_eq!(rotate(&picture, RotateOptions::D270).get_pixel(0, 2), colour_of(0, 0));
}

#[test]
fn opposite_turns_undo_each_other() {
    let picture = three_by_two();
    let back = rotate(&rotate(&picture, RotateOptions::D90), RotateOptions::D270);
    assert_eq!(back, picture);
    let back = rotate(&rotate(&picture, RotateOptions::D180), RotateOptions::D180);
    assert_eq!(back, picture);
}

#[test]
fn rotation_leaves_the_source_alone() {
    let picture = three_by_two();
    let _ = rotate(&picture, RotateOptions::D90);
    assert_eq!(picture, three_by_two());
}

#[test]
fn empty_picture_rotates_to_an_empty_picture() {
    let empty = DynamicImage::ImageRgb8(RgbImage::new(0, 5));
    assert_eq!(rotate(&empty, RotateOptions::D90).dimensions(), (5, 0));
    assert_eq!(rotate(&empty, RotateOptions::D180).dimensions(), (0, 5));
}
