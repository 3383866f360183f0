use num_complex::Complex;
use rastergen::julia::{escape_count, in_radius, julia_step, start_point, GridPoint};

const STEPS_PER_ONE: f64 = 67108864.0;

fn float_start(x: u32, y: u32) -> Complex<f32> {
    let scale_x = 3.0 / 800 as f32;
    let scale_y = 3.0 / 800 as f32;
    let cx = y as f32 * scale_x - 1.5;
    let cy = x as f32 * scale_y - 1.5;
    Complex::new(cx, cy)
}

fn float_count(x: u32, y: u32) -> u8 {
    let c = Complex::new(-0.4f32, 0.6f32);
    let mut z = float_start(x, y);
    let mut green = 0u8;
    while green < 255 && z.norm() <= 2.0 {
        z = z * z + c;
        green += 1;
    }
    green
}

fn to_float(z: GridPoint) -> Complex<f32> {
    Complex::new((z.re as f64 / STEPS_PER_ONE) as f32, (z.im as f64 / STEPS_PER_ONE) as f32)
}

fn to_grid(z: Complex<f32>) -> GridPoint {
    GridPoint { re: (z.re as f64 * STEPS_PER_ONE) as i64, im: (z.im as f64 * STEPS_PER_ONE) as i64 }
}

fn counts_match_in_rows(from: u32, to: u32) {
    for y in from..to {
        for x in 0..800 {
            assert_eq!(escape_count(x, y), float_count(x, y), "at ({}, {})", x, y);
        }
    }
}

#[test]
fn start_point_swaps_the_axes() {
    assert_eq!(start_point(0, 0), GridPoint { re: -100663296, im: -100663296 });
    assert_eq!(start_point(400, 0), GridPoint { re: -100663296, im: 0 });
    assert_eq!(start_point(0, 400), GridPoint { re: 0, im: -100663296 });
    assert_eq!(start_point(1, 799), GridPoint { re: 100411632, im: -100411640 });
}

#[test]
fn start_point_rounds_like_binary32() {
    assert_eq!(start_point(266, 399), GridPoint { re: -251664, im: -33722204 });
    assert_eq!(start_point(401, 401), GridPoint { re: 251656, im: 251656 });
}

#[test]
fn start_point_matches_float_arithmetic() {
    for p in 0..800 {
        let z = start_point(p, 799 - p);
        let expected = float_start(p, 799 - p);
        assert_eq!(to_float(z), expected, "at {}", p);
        assert_eq!(to_grid(expected), z, "at {}", p);
    }
}

#[test]
fn step_from_the_origin_lands_on_the_parameter() {
    let next = julia_step(GridPoint { re: 0, im: 0 });
    assert_eq!(next, GridPoint { re: -26843546, im: 40265320 });
    assert_eq!(to_float(next), Complex::new(-0.4f32, 0.6f32));
}

#[test]
fn step_squares_and_adds() {
    let next = julia_step(GridPoint { re: 0, im: -25165824 });
    assert_eq!(next, GridPoint { re: -36280728, im: 40265320 });
}

#[test]
fn step_matches_complex_arithmetic() {
    let c = Complex::new(-0.4f32, 0.6f32);
    let mut state: u64 = 42;
    for _ in 0..100_000 {
        state = state.wrapping_mul(6364136223846793005).wrapping_add(1442695040888963407);
        let re = ((state >> 40) as i64 - (1 << 23)) * 64;
        state = state.wrapping_mul(6364136223846793005).wrapping_add(1442695040888963407);
        let im = ((state >> 40) as i64 - (1 << 23)) * 64;
        let z = GridPoint { re, im };
        let expected = to_float(z) * to_float(z) + c;
        assert_eq!(to_float(julia_step(z)), expected, "at {:?}", z);
        assert_eq!(julia_step(z), to_grid(expected), "at {:?}", z);
    }
}

#[test]
fn step_matches_complex_arithmetic_along_an_orbit() {
    let c = Complex::new(-0.4f32, 0.6f32);
    let mut z = start_point(455, 147);
    let mut expected = float_start(455, 147);
    for _ in 0..255 {
        assert_eq!(to_float(z), expected);
        z = julia_step(z);
        expected = expected * expected + c;
    }
}

#[test]
fn radius_is_two_after_rounding() {
    let two: i64 = 1 << 27;
    assert!(in_radius(GridPoint { re: 0, im: 0 }));
    assert!(in_radius(GridPoint { re: two, im: 0 }));
    assert!(in_radius(GridPoint { re: 0, im: -two }));
    // Halfway to the next binary32 number: the norm still rounds to 2.
    assert!(in_radius(GridPoint { re: two + 8, im: 0 }));
    assert!(!in_radius(GridPoint { re: two + 9, im: 0 }));
    // The next binary32 number above 2.
    assert!(!in_radius(GridPoint { re: two + 16, im: 0 }));
    assert!(!in_radius(GridPoint { re: -100663296, im: -100663296 }));
}

#[test]
fn radius_test_takes_any_point() {
    assert!(!in_radius(GridPoint { re: i64::MAX, im: i64::MIN }));
    assert!(!in_radius(GridPoint { re: 0, im: i64::MIN }));
}

#[test]
fn radius_matches_the_float_norm() {
    let two: i64 = 1 << 27;
    for re in [0i64, 1 << 20, 3 << 25, two - 16, two - 8, two, two + 16] {
        for im in [0i64, 1 << 14, 1 << 15, 3 << 14, 1 << 20, 1 << 26, two] {
            let z = GridPoint { re, im: -im };
            assert_eq!(in_radius(z), to_float(z).norm() <= 2.0, "at {:?}", z);
        }
    }
}

#[test]
fn corner_pixel_starts_outside_the_radius() {
    assert_eq!(escape_count(0, 0), 0);
    assert_eq!(escape_count(799, 799), 0);
}

#[test]
fn escape_counts_at_known_pixels() {
    assert_eq!(escape_count(400, 0), 2);
    assert_eq!(escape_count(0, 400), 1);
    assert_eq!(escape_count(400, 400), 26);
    assert_eq!(escape_count(400, 300), 113);
    assert_eq!(escape_count(300, 400), 27);
    assert_eq!(escape_count(123, 456), 3);
    assert_eq!(escape_count(456, 123), 61);
}

#[test]
fn escape_count_stops_at_255() {
    assert_eq!(escape_count(455, 147), 255);
    assert_eq!(escape_count(518, 154), 255);
    assert_eq!(escape_count(560, 154), 255);
}

#[test]
fn count_of_255_means_the_orbit_stayed_inside() {
    let mut z = start_point(455, 147);
    for _ in 0..255 {
        assert!(in_radius(z));
        z = julia_step(z);
    }
}

#[test]
fn count_below_255_names_the_first_point_outside() {
    let mut z = start_point(400, 300);
    for _ in 0..113 {
        assert!(in_radius(z));
        z = julia_step(z);
    }
    assert!(!in_radius(z));
}

#[test]
fn escape_counts_match_float_arithmetic_in_rows_0_to_200() {
    counts_match_in_rows(0, 200);
}

#[test]
fn escape_counts_match_float_arithmetic_in_rows_200_to_400() {
    counts_match_in_rows(200, 400);
}

#[test]
fn escape_counts_match_float_arithmetic_in_rows_400_to_600() {
    counts_match_in_rows(400, 600);
}

#[test]
fn escape_counts_match_float_arithmetic_in_rows_600_to_800() {
    counts_match_in_rows(600, 800);
}
