use arithmetic_coder::probability::{count_from_bits, probability_of};

#[test]
fn probability_bits_of_simple_fractions() {
    assert_eq!(probability_of(1, 1), 0x3FF0_0000_0000_0000);
    assert_eq!(probability_of(1, 2), 0x3FE0_0000_0000_0000);
    assert_eq!(probability_of(1, 4), 0x3FD0_0000_0000_0000);
    assert_eq!(probability_of(3, 4), 0x3FE8_0000_0000_0000);
    assert_eq!(probability_of(1, 3), 0x3FD5_5555_5555_5555);
    assert_eq!(probability_of(2, 3), 0x3FE5_5555_5555_5555);
    assert_eq!(probability_of(1, 10), 0x3FB9_9999_9999_999A);
    assert_eq!(probability_of(u32::MAX, u32::MAX), 0x3FF0_0000_0000_0000);
}

#[test]
fn probability_bits_are_those_of_the_double_quotient() {
    let mut state: u64 = 0x9E37_79B9_7F4A_7C15;
    let mut checked = 0;
    for total in 1u32..=300 {
        for count in 1..=total {
            assert_eq!(
                probability_of(count, total),
                (count as f64 / total as f64).to_bits()
            );
            checked += 1;
        }
    }
    for _ in 0..200_000 {
        state = state.wrapping_mul(6364136223846793005).wrapping_add(1442695040888963407);
        let a = (state >> 32) as u32;
        state = state.wrapping_mul(6364136223846793005).wrapping_add(1442695040888963407);
        let b = (state >> 32) as u32;
        let total = a.max(b).max(1);
        let count = a.min(b).max(1);
        assert_eq!(
            probability_of(count, total),
            (count as f64 / total as f64).to_bits()
        );
        checked += 1;
    }
    for total in [u32::MAX, u32::MAX - 1, 0x8000_0000, 0x8000_0001, 0x7FFF_FFFF] {
        for count in [1u32, 2, 3, 0x7FFF_FFFF, 0x8000_0000, total - 1, total] {
            if count <= total {
                assert_eq!(
                    probability_of(count, total),
                    (count as f64 / total as f64).to_bits()
                );
                checked += 1;
            }
        }
    }
    assert!(checked > 200_000);
}

#[test]
fn counts_are_read_back_from_their_probabilities() {
    for total in [1u32, 2, 3, 7, 100, 1000, 65_536, 1_000_003, u32::MAX] {
        for count in [1u32, 2, 3, 6, 99, 999, 65_535, 1_000_002, u32::MAX] {
            if count <= total {
                let bits = (count as f64 / total as f64).to_bits();
                assert_eq!(count_from_bits(bits, total), Some(count));
            }
        }
    }
}

#[test]
fn bits_that_are_no_probability_are_refused() {
    // 0.3 is no multiple of a quarter.
    assert_eq!(count_from_bits(0.3f64.to_bits(), 4), None);
    // Zero, negative values, values above one, infinities and NaN.
    assert_eq!(count_from_bits(0.0f64.to_bits(), 4), None);
    assert_eq!(count_from_bits((-0.5f64).to_bits(), 4), None);
    assert_eq!(count_from_bits(1.5f64.to_bits(), 4), None);
    assert_eq!(count_from_bits(2.0f64.to_bits(), 4), None);
    assert_eq!(count_from_bits(f64::INFINITY.to_bits(), 4), None);
    assert_eq!(count_from_bits(f64::NAN.to_bits(), 4), None);
    assert_eq!(count_from_bits(u64::MAX, 4), None);
    // The neighbours of a probability are none.
    let half = 0.5f64.to_bits();
    assert_eq!(count_from_bits(half, 4), Some(2));
    assert_eq!(count_from_bits(half + 1, 4), None);
    assert_eq!(count_from_bits(half - 1, 4), None);
    // No count out of nothing.
    assert_eq!(count_from_bits(1.0f64.to_bits(), 0), None);
    // Too small for any count out of the total.
    assert_eq!(count_from_bits(f64::MIN_POSITIVE.to_bits(), u32::MAX), None);
    assert_eq!(count_from_bits((1.0f64 / 8.0).to_bits(), 4), None);
}
