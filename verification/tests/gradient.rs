use rastergen::gradient::{gradient_channel, gradient_pixel, Color};

#[test]
fn channel_of_zero_is_zero() {
    assert_eq!(gradient_channel(0), 0);
}

#[test]
fn channel_takes_three_tenths_rounded_down() {
    assert_eq!(gradient_channel(1), 0);
    assert_eq!(gradient_channel(3), 0);
    assert_eq!(gradient_channel(4), 1);
    assert_eq!(gradient_channel(10), 3);
    assert_eq!(gradient_channel(799), 239);
    assert_eq!(gradient_channel(853), 255);
}

#[test]
fn channel_wraps_past_255() {
    assert_eq!(gradient_channel(854), 0);
    assert_eq!(gradient_channel(999), 43);
    assert_eq!(gradient_channel(1023), 50);
}

#[test]
fn channel_does_not_overflow_on_the_largest_input() {
    // 3 * 4294967295 / 10 = 1288490188, and 1288490188 mod 256 = 204.
    assert_eq!(gradient_channel(u32::MAX), 204);
}

#[test]
fn channel_matches_the_float_product() {
    for v in 0u32..1024 {
        let product = 0.3f32 * v as f32;
        assert_eq!(gradient_channel(v), (product as u32 % 256) as u8, "at {}", v);
    }
}

#[test]
fn gradient_origin_is_black() {
    assert_eq!(gradient_pixel(0, 0), Color { red: 0, green: 0, blue: 0 });
}

#[test]
fn gradient_end_of_first_row() {
    assert_eq!(gradient_pixel(999, 0), Color { red: 43, green: 43, blue: 0 });
}

#[test]
fn gradient_green_follows_exclusive_or() {
    // 500 ^ 300 = 216, and three tenths of 216 is 64.
    assert_eq!(gradient_pixel(500, 300), Color { red: 150, green: 64, blue: 90 });
    // Equal coordinates cancel.
    assert_eq!(gradient_pixel(777, 777).green, 0);
}
