use std::io::Cursor;

use num_complex::Complex;
use rastergen::gradient::Color;
use rastergen::raster::{fractal, fractal_pixel, generate, Raster};

fn float_channel(v: u32) -> u8 {
    ((0.3 * v as f32) as u32 % 256) as u8
}

fn float_fractal_pixel(x: u32, y: u32) -> Color {
    let scale_x = 3.0 / 800 as f32;
    let scale_y = 3.0 / 800 as f32;
    let cx = y as f32 * scale_x - 1.5;
    let cy = x as f32 * scale_y - 1.5;
    let c = Complex::new(-0.4f32, 0.6f32);
    let mut z = Complex::new(cx, cy);
    let mut green = 0u8;
    while green < 255 && z.norm() <= 2.0 {
        z = z * z + c;
        green += 1;
    }
    Color { red: float_channel(x), green, blue: float_channel(y) }
}

fn encode_png(raster: &Raster) -> Vec<u8> {
    let img = image::RgbImage::from_raw(raster.width(), raster.height(), raster.to_samples())
        .expect("sample count matches the size");
    let mut bytes: Vec<u8> = Vec::new();
    img.write_to(&mut Cursor::new(&mut bytes), image::ImageOutputFormat::Png)
        .expect("encoding to memory succeeds");
    bytes
}

fn decodes_back(raster: &Raster) {
    let first = image::load_from_memory(&encode_png(raster)).expect("decodes").to_rgb8();
    let second = image::load_from_memory(&encode_png(raster)).expect("decodes").to_rgb8();
    assert_eq!(first.dimensions(), (raster.width(), raster.height()));
    assert_eq!(first.as_raw(), second.as_raw());
    assert_eq!(first.as_raw(), &raster.to_samples());
}

#[test]
fn gradient_is_1000_by_1000() {
    let raster = generate();
    assert_eq!(raster.width(), 1000);
    assert_eq!(raster.height(), 1000);
    assert_eq!(raster.to_samples().len(), 3_000_000);
}

#[test]
fn gradient_boundary_values() {
    let raster = generate();
    assert_eq!(raster.pixel(0, 0), Some(Color { red: 0, green: 0, blue: 0 }));
    assert_eq!(raster.pixel(999, 0), Some(Color { red: 43, green: 43, blue: 0 }));
    assert_eq!(raster.pixel(0, 999), Some(Color { red: 0, green: 43, blue: 43 }));
    assert_eq!(raster.pixel(999, 999), Some(Color { red: 43, green: 0, blue: 43 }));
}

#[test]
fn gradient_wraps_instead_of_clamping() {
    let raster = generate();
    assert_eq!(raster.pixel(853, 0).map(|c| c.red), Some(255));
    assert_eq!(raster.pixel(854, 0).map(|c| c.red), Some(0));
    assert_eq!(raster.pixel(0, 900).map(|c| c.blue), Some(14));
}

#[test]
fn gradient_matches_float_arithmetic_everywhere() {
    let raster = generate();
    for y in 0..1000 {
        for x in 0..1000 {
            let expected =
                Color { red: float_channel(x), green: float_channel(x ^ y), blue: float_channel(y) };
            assert_eq!(raster.pixel(x, y), Some(expected), "at ({}, {})", x, y);
        }
    }
}

#[test]
fn pixel_outside_the_raster_is_none() {
    let raster = generate();
    assert_eq!(raster.pixel(1000, 0), None);
    assert_eq!(raster.pixel(0, 1000), None);
    assert_eq!(raster.pixel(u32::MAX, u32::MAX), None);
}

#[test]
fn samples_run_row_by_row() {
    let raster = generate();
    let samples = raster.to_samples();
    // Pixel (999, 0) ends the first row; pixel (0, 1) starts the second.
    assert_eq!(&samples[3 * 999..3 * 1000], &[43, 43, 0]);
    assert_eq!(&samples[3 * 1000..3 * 1001], &[0, 0, 0]);
    // Pixel (500, 300).
    let at = 3 * (300 * 1000 + 500);
    assert_eq!(&samples[at..at + 3], &[150, 64, 90]);
}

#[test]
fn gradient_is_the_same_on_every_run() {
    assert_eq!(generate().to_samples(), generate().to_samples());
}

#[test]
fn gradient_survives_encoding() {
    decodes_back(&generate());
}

#[test]
fn fractal_is_800_by_800() {
    let raster = fractal();
    assert_eq!(raster.width(), 800);
    assert_eq!(raster.height(), 800);
    assert_eq!(raster.to_samples().len(), 1_920_000);
}

#[test]
fn fractal_corner_pixel_escapes_at_once() {
    let raster = fractal();
    assert_eq!(raster.pixel(0, 0), Some(Color { red: 0, green: 0, blue: 0 }));
    assert_eq!(raster.pixel(799, 799), Some(Color { red: 239, green: 0, blue: 239 }));
}

#[test]
fn fractal_known_pixels() {
    let raster = fractal();
    assert_eq!(raster.pixel(400, 300), Some(Color { red: 120, green: 113, blue: 90 }));
    assert_eq!(raster.pixel(300, 400), Some(Color { red: 90, green: 27, blue: 120 }));
    assert_eq!(raster.pixel(455, 147), Some(Color { red: 136, green: 255, blue: 44 }));
    assert_eq!(raster.pixel(800, 0), None);
}

#[test]
fn fractal_pixel_combines_gradient_and_escape_count() {
    assert_eq!(fractal_pixel(400, 400), Color { red: 120, green: 26, blue: 120 });
    assert_eq!(fractal_pixel(456, 123), Color { red: 136, green: 61, blue: 36 });
}

#[test]
fn fractal_matches_float_arithmetic_everywhere() {
    let raster = fractal();
    for y in 0..800 {
        for x in 0..800 {
            assert_eq!(raster.pixel(x, y), Some(float_fractal_pixel(x, y)), "at ({}, {})", x, y);
        }
    }
}

#[test]
fn fractal_is_the_same_on_every_run() {
    assert_eq!(fractal().to_samples(), fractal().to_samples());
}

#[test]
fn fractal_survives_encoding() {
    decodes_back(&fractal());
}
