use image_entropy::{target_row_count, Percentage, FULL_UNITS, UNITS_PER_PERCENT};

fn share_of(percentage: f64) -> Percentage {
    Percentage::from_units((percentage * UNITS_PER_PERCENT as f64) as u64)
}

fn in_doubles(height: u32, percentage: f64) -> u32 {
    (height as f64 * percentage.clamp(1.0, 100.0) / 100.0).round() as u32
}

#[test]
fn whole_percent_is_that_many_units() {
    assert_eq!(Percentage::whole(0).units(), 0);
    assert_eq!(Percentage::whole(1).units(), UNITS_PER_PERCENT);
    assert_eq!(Percentage::whole(100).units(), FULL_UNITS);
    assert_eq!(Percentage::whole(37).units(), 37 * UNITS_PER_PERCENT);
    assert_eq!(UNITS_PER_PERCENT, 1u64 << 52);
    assert_eq!(FULL_UNITS, 100 * (1u64 << 52));
}

#[test]
fn from_units_keeps_the_units() {
    assert_eq!(Percentage::from_units(12345).units(), 12345);
    assert_eq!(Percentage::from_units(u64::MAX).units(), u64::MAX);
}

#[test]
fn full_starts_at_one_hundred_percent() {
    assert!(Percentage::whole(100).is_full());
    assert!(Percentage::whole(101).is_full());
    assert!(Percentage::whole(255).is_full());
    assert!(Percentage::from_units(u64::MAX).is_full());
    assert!(!Percentage::whole(99).is_full());
    assert!(!Percentage::from_units(FULL_UNITS - 1).is_full());
    assert!(!Percentage::whole(0).is_full());
}

#[test]
fn target_is_the_rounded_share_of_the_rows() {
    assert_eq!(target_row_count(100, Percentage::whole(50)), 50);
    assert_eq!(target_row_count(100, Percentage::whole(10)), 10);
    assert_eq!(target_row_count(1000, Percentage::whole(33)), 330);
    assert_eq!(target_row_count(7, Percentage::whole(50)), 4);
    assert_eq!(target_row_count(4, Percentage::whole(10)), 0);
    assert_eq!(target_row_count(6, Percentage::whole(10)), 1);
    assert_eq!(target_row_count(1080, Percentage::whole(90)), 972);
}

#[test]
fn target_rounds_a_half_up() {
    assert_eq!(target_row_count(5, Percentage::whole(10)), 1);
    assert_eq!(target_row_count(3, Percentage::whole(50)), 2);
    assert_eq!(target_row_count(1, Percentage::whole(50)), 1);
    assert_eq!(target_row_count(15, Percentage::whole(10)), 2);
    assert_eq!(target_row_count(50, Percentage::whole(1)), 1);
    assert_eq!(target_row_count(49, Percentage::whole(1)), 0);
}

#[test]
fn target_takes_fractions_of_a_percent() {
    let half = UNITS_PER_PERCENT / 2;
    let share = Percentage::from_units(12 * UNITS_PER_PERCENT + half);
    assert_eq!(target_row_count(1000, share), 125);
    assert_eq!(target_row_count(8, share), 1);
    assert_eq!(target_row_count(4, share), 1);
    assert_eq!(target_row_count(3, share), 0);
    let just_under = Percentage::from_units(50 * UNITS_PER_PERCENT - 32);
    assert_eq!(target_row_count(1, just_under), 0);
    assert_eq!(target_row_count(3, just_under), 1);
}

#[test]
fn target_holds_the_product_in_a_double() {
    assert_eq!(target_row_count(3500, share_of(1.7)), 60);
    assert_eq!(target_row_count(750, share_of(16.2)), 122);
    assert_eq!(target_row_count(1000, share_of(12.35)), 124);
    assert_eq!(target_row_count(3778950000, share_of(83.835)), 3168082733);
    assert_eq!(target_row_count(2601952500, share_of(6.18)), 160800665);
    assert_eq!(target_row_count(1000, share_of(99.95)), 1000);
    assert_eq!(target_row_count(1000, share_of(99.949)), 999);
    let nearly_half = Percentage::from_units(50 * UNITS_PER_PERCENT - 1);
    assert_eq!(target_row_count(1, nearly_half), 1);
    assert_eq!(target_row_count(3, nearly_half), 2);
}

#[test]
fn target_agrees_with_doubles_on_fractions() {
    let mut state: u64 = 0x2545_f491_4f6c_dd1d;
    let mut next = move || {
        state ^= state << 13;
        state ^= state >> 7;
        state ^= state << 17;
        state
    };
    for round in 0..200_000u32 {
        let height = match round % 3 {
            0 => (next() >> 32) as u32,
            1 => (next() % 5000) as u32,
            _ => (next() % 100) as u32,
        };
        let percentage = match round % 4 {
            0 => 1.0 + (next() >> 11) as f64 / (1u64 << 53) as f64 * 99.0,
            1 => (100 + next() % 9900) as f64 / 100.0,
            2 => (1000 + next() % 99000) as f64 / 1000.0,
            _ => (next() % 1500) as f64 / 1000.0,
        };
        if percentage >= 100.0 {
            continue;
        }
        assert_eq!(
            target_row_count(height, share_of(percentage)),
            in_doubles(height, percentage),
            "{} rows, {} percent",
            height,
            percentage
        );
    }
}

#[test]
fn target_agrees_with_doubles_on_ties() {
    for height in 1u32..2000 {
        let mut k = 0;
        while k < height {
            let tie = (100.0 * k as f64 + 50.0) / height as f64;
            for percentage in [tie, f64::from_bits(tie.to_bits() - 1), f64::from_bits(tie.to_bits() + 1)] {
                if percentage >= 1.0 && percentage < 100.0 {
                    assert_eq!(
                        target_row_count(height, share_of(percentage)),
                        in_doubles(height, percentage),
                        "{} rows, {} percent",
                        height,
                        percentage
                    );
                }
            }
            k += 1 + height / 9;
        }
    }
}

#[test]
fn target_clamps_small_shares_to_one_percent() {
    assert_eq!(target_row_count(100, Percentage::from_units(0)), 1);
    assert_eq!(target_row_count(100, Percentage::from_units(1)), 1);
    assert_eq!(target_row_count(100, Percentage::from_units(UNITS_PER_PERCENT - 1)), 1);
    assert_eq!(target_row_count(1000, Percentage::whole(0)), 10);
    assert_eq!(target_row_count(49, Percentage::whole(0)), 0);
}

#[test]
fn target_clamps_large_shares_to_all_rows() {
    assert_eq!(target_row_count(100, Percentage::whole(100)), 100);
    assert_eq!(target_row_count(100, Percentage::whole(200)), 100);
    assert_eq!(target_row_count(77, Percentage::from_units(u64::MAX)), 77);
    assert_eq!(target_row_count(u32::MAX, Percentage::whole(100)), u32::MAX);
    assert_eq!(target_row_count(u32::MAX, Percentage::from_units(u64::MAX)), u32::MAX);
}

#[test]
fn target_never_exceeds_the_rows() {
    for height in [0u32, 1, 2, 3, 9, 10, 99, 100, 101, 4096, u32::MAX] {
        for percent in 0u8..=120 {
            let rows = target_row_count(height, Percentage::whole(percent));
            assert!(rows <= height);
            if percent >= 100 {
                assert_eq!(rows, height);
            }
        }
    }
}

#[test]
fn target_of_no_rows_is_zero() {
    for percent in [0u8, 1, 50, 99, 100, 255] {
        assert_eq!(target_row_count(0, Percentage::whole(percent)), 0);
    }
}

#[test]
fn target_agrees_with_rounding_in_doubles() {
    for height in [1u32, 2, 5, 17, 250, 1080, 65535] {
        for percent in 1u8..100 {
            let expected = (height as f64 * percent as f64 / 100.0).round() as u32;
            assert_eq!(target_row_count(height, Percentage::whole(percent)), expected);
        }
    }
}
