use rastergen::binary32::round_nearest;

#[test]
fn short_numbers_are_kept() {
    for v in [0i64, 1, -1, 2, 12345, -12345, (1 << 24) - 1, 1 << 24, -(1 << 24)] {
        assert_eq!(round_nearest(v), v);
    }
}

#[test]
fn powers_of_two_are_kept() {
    for k in 0..62 {
        assert_eq!(round_nearest(1i64 << k), 1i64 << k);
    }
}

#[test]
fn ties_go_to_the_even_neighbour() {
    assert_eq!(round_nearest((1 << 24) + 1), 1 << 24);
    assert_eq!(round_nearest((1 << 24) + 3), (1 << 24) + 4);
    assert_eq!(round_nearest((1 << 25) + 2), 1 << 25);
    assert_eq!(round_nearest((1 << 25) + 6), (1 << 25) + 8);
}

#[test]
fn nearer_neighbour_wins() {
    assert_eq!(round_nearest((1 << 25) + 1), 1 << 25);
    assert_eq!(round_nearest((1 << 25) + 3), (1 << 25) + 4);
    assert_eq!(round_nearest(123456789012345), 123456788103168);
}

#[test]
fn rounding_up_may_reach_the_next_power_of_two() {
    assert_eq!(round_nearest((1 << 25) - 1), 1 << 25);
    assert_eq!(round_nearest((1 << 62) - 1), 1 << 62);
    assert_eq!(round_nearest(-((1 << 62) - 1)), -(1 << 62));
}

#[test]
fn rounding_is_symmetric() {
    assert_eq!(round_nearest(-((1 << 24) + 3)), -((1 << 24) + 4));
    assert_eq!(round_nearest(-((1 << 24) + 1)), -(1 << 24));
}

#[test]
fn rounding_matches_conversion_to_float() {
    let mut state: u64 = 0x9E37_79B9_7F4A_7C15;
    for _ in 0..200_000 {
        state = state.wrapping_mul(6364136223846793005).wrapping_add(1442695040888963407);
        let shift = (state >> 58) % 40;
        let v = ((state >> 2) as i64 >> shift) - (1i64 << (61 - shift));
        if v <= -(1i64 << 62) || v >= (1i64 << 62) {
            continue;
        }
        assert_eq!(round_nearest(v), (v as f32) as i64, "at {}", v);
    }
}
