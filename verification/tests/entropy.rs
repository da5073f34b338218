use image_entropy::{
    sampled_histogram, ColorCount, Histogram, Percentage, PixelGrid, Rgb, Rgba, UNITS_PER_PERCENT,
};

const RED: Rgb = Rgb { red: 255, green: 0, blue: 0 };
const GREEN: Rgb = Rgb { red: 0, green: 255, blue: 0 };
const BLUE: Rgb = Rgb { red: 0, green: 0, blue: 255 };
const WHITE: Rgb = Rgb { red: 255, green: 255, blue: 255 };

fn grid_of(width: u32, height: u32, colors: &[Rgb], alpha: u8) -> PixelGrid {
    let pixels: Vec<Rgba> =
        colors.iter().map(|c| Rgba::new(c.red, c.green, c.blue, alpha)).collect();
    PixelGrid::new(width, height, pixels).unwrap()
}

fn entropy_bits(hist: &Histogram) -> f64 {
    let total = hist.total();
    if total == 0 {
        return 0.0;
    }
    hist.entries().iter().fold(0.0, |entropy, line| {
        let p = line.count as f64 / total as f64;
        entropy - p * p.log2()
    })
}

fn quadrants(side: u32) -> Vec<Rgb> {
    let mut colors = Vec::new();
    for y in 0..side {
        for x in 0..side {
            colors.push(match (x < side / 2, y < side / 2) {
                (true, true) => RED,
                (false, true) => GREEN,
                (true, false) => BLUE,
                (false, false) => WHITE,
            });
        }
    }
    colors
}

fn speckled(width: u32, height: u32) -> Vec<Rgb> {
    let mut colors = Vec::new();
    for at in 0..width * height {
        colors.push(Rgb::new((at % 7) as u8, (at % 5) as u8, (at % 3) as u8));
    }
    colors
}

#[test]
fn two_by_two_scenario() {
    let grid = grid_of(2, 2, &[RED, RED, BLUE, GREEN], 255);
    let hist = sampled_histogram(&grid, Some(Percentage::whole(100)));
    assert_eq!(hist.total(), 4);
    assert_eq!(
        hist.entries(),
        &vec![
            ColorCount { color: RED, count: 2 },
            ColorCount { color: BLUE, count: 1 },
            ColorCount { color: GREEN, count: 1 },
        ]
    );
    assert_eq!(hist.count_of(RED), 2);
    assert_eq!(hist.count_of(BLUE), 1);
    assert_eq!(hist.count_of(GREEN), 1);
    assert_eq!(entropy_bits(&hist), 1.5);
}

#[test]
fn absent_share_counts_the_whole_image() {
    let grid = grid_of(2, 2, &[RED, RED, BLUE, GREEN], 255);
    let hist = sampled_histogram(&grid, None);
    assert_eq!(hist.total(), 4);
    assert_eq!(entropy_bits(&hist), 1.5);
}

#[test]
fn share_above_one_hundred_counts_the_whole_image() {
    let grid = grid_of(2, 2, &[RED, RED, BLUE, GREEN], 255);
    let hist = sampled_histogram(&grid, Some(Percentage::whole(250)));
    assert_eq!(hist.total(), 4);
    assert_eq!(entropy_bits(&hist), 1.5);
}

#[test]
fn full_sampling_gives_the_same_result_every_time() {
    let grid = grid_of(9, 11, &speckled(9, 11), 255);
    let first = sampled_histogram(&grid, None);
    let bits = entropy_bits(&first).to_bits();
    for _ in 0..10 {
        let again = sampled_histogram(&grid, Some(Percentage::whole(100)));
        assert_eq!(again.entries(), first.entries());
        assert_eq!(again.total(), first.total());
        assert_eq!(entropy_bits(&again).to_bits(), bits);
    }
}

#[test]
fn single_color_has_no_entropy() {
    let grid = grid_of(8, 60, &vec![Rgb::new(12, 34, 56); 480], 255);
    for percent in [0u8, 1, 10, 33, 50, 90, 99, 100, 200] {
        let hist = sampled_histogram(&grid, Some(Percentage::whole(percent)));
        assert_eq!(hist.entries().len(), 1);
        assert_eq!(hist.entries()[0].color, Rgb::new(12, 34, 56));
        assert_eq!(hist.entries()[0].count, hist.total());
        assert_eq!(entropy_bits(&hist), 0.0);
    }
    let hist = sampled_histogram(&grid, None);
    assert_eq!(hist.entries(), &vec![ColorCount { color: Rgb::new(12, 34, 56), count: 480 }]);
    assert_eq!(entropy_bits(&hist), 0.0);
}

#[test]
fn four_equal_blocks_have_two_bits() {
    let grid = grid_of(8, 8, &quadrants(8), 255);
    let hist = sampled_histogram(&grid, None);
    assert_eq!(hist.total(), 64);
    assert_eq!(hist.entries().len(), 4);
    for line in hist.entries() {
        assert_eq!(line.count, 16);
    }
    assert!((entropy_bits(&hist) - 2.0).abs() < 1e-12);
}

#[test]
fn equal_shares_of_k_colors_have_log_k_bits() {
    for k in [1u32, 2, 3, 5, 8, 16, 100] {
        let mut colors = Vec::new();
        for at in 0..k * 6 {
            colors.push(Rgb::new((at % k) as u8, 0, 7));
        }
        let grid = grid_of(6, k, &colors, 255);
        let hist = sampled_histogram(&grid, None);
        assert_eq!(hist.entries().len() as u32, k);
        for line in hist.entries() {
            assert_eq!(line.count, 6);
        }
        assert!((entropy_bits(&hist) - (k as f64).log2()).abs() < 1e-9);
    }
}

#[test]
fn entropy_is_never_negative() {
    let grid = grid_of(13, 40, &speckled(13, 40), 255);
    for percent in [0u8, 1, 5, 20, 50, 80, 99, 100] {
        for _ in 0..5 {
            let hist = sampled_histogram(&grid, Some(Percentage::whole(percent)));
            let bits = entropy_bits(&hist);
            assert!(!bits.is_nan());
            assert!(bits >= 0.0);
            assert!(bits.is_finite());
        }
    }
}

#[test]
fn sampled_total_is_target_rows_times_width() {
    let grid = grid_of(13, 40, &speckled(13, 40), 255);
    for (percent, rows) in [(0u8, 0u64), (1, 0), (2, 1), (10, 4), (50, 20), (99, 40), (100, 40)] {
        let hist = sampled_histogram(&grid, Some(Percentage::whole(percent)));
        assert_eq!(hist.total(), rows * 13);
        let sum: u64 = hist.entries().iter().map(|line| line.count).sum();
        assert_eq!(sum, hist.total());
    }
    let share = Percentage::from_units(12 * UNITS_PER_PERCENT + UNITS_PER_PERCENT / 2);
    assert_eq!(sampled_histogram(&grid, Some(share)).total(), 5 * 13);
}

#[test]
fn opacity_does_not_change_the_result() {
    let colors = speckled(6, 6);
    let solid = grid_of(6, 6, &colors, 255);
    let clear = grid_of(6, 6, &colors, 0);
    let mixed_pixels: Vec<Rgba> = colors
        .iter()
        .enumerate()
        .map(|(at, c)| Rgba::new(c.red, c.green, c.blue, (at * 7 % 256) as u8))
        .collect();
    let mixed = PixelGrid::new(6, 6, mixed_pixels).unwrap();
    let of_solid = sampled_histogram(&solid, None);
    let of_clear = sampled_histogram(&clear, None);
    let of_mixed = sampled_histogram(&mixed, Some(Percentage::whole(100)));
    assert_eq!(of_solid.entries(), of_clear.entries());
    assert_eq!(of_solid.entries(), of_mixed.entries());
    assert_eq!(entropy_bits(&of_solid).to_bits(), entropy_bits(&of_clear).to_bits());
    assert_eq!(entropy_bits(&of_solid).to_bits(), entropy_bits(&of_mixed).to_bits());
}

#[test]
fn image_without_rows_or_columns_has_no_entropy() {
    for (width, height) in [(0u32, 0u32), (0, 5), (5, 0)] {
        let grid = PixelGrid::new(width, height, Vec::new()).unwrap();
        for share in [None, Some(Percentage::whole(0)), Some(Percentage::whole(50)), Some(Percentage::whole(100))] {
            let hist = sampled_histogram(&grid, share);
            assert_eq!(hist.total(), 0);
            assert!(hist.entries().is_empty());
            assert_eq!(entropy_bits(&hist), 0.0);
        }
    }
}

#[test]
fn share_that_rounds_to_no_row_has_no_entropy() {
    let grid = grid_of(3, 4, &speckled(3, 4), 255);
    let hist = sampled_histogram(&grid, Some(Percentage::whole(10)));
    assert_eq!(hist.total(), 0);
    assert!(hist.entries().is_empty());
    assert_eq!(entropy_bits(&hist), 0.0);
}

#[test]
fn same_proportions_give_the_same_entropy() {
    let small = grid_of(2, 2, &[RED, RED, BLUE, GREEN], 255);
    let large = grid_of(
        4,
        2,
        &[RED, RED, BLUE, GREEN, RED, RED, BLUE, GREEN],
        255,
    );
    let of_small = sampled_histogram(&small, None);
    let of_large = sampled_histogram(&large, None);
    assert_eq!(of_large.total(), 8);
    assert_eq!(entropy_bits(&of_small), entropy_bits(&of_large));
}

#[test]
fn sampled_histogram_counts_rows_of_the_image() {
    let mut colors = Vec::new();
    for y in 0..50u32 {
        for _ in 0..4 {
            colors.push(Rgb::new(y as u8, 0, 0));
        }
    }
    let grid = grid_of(4, 50, &colors, 255);
    let hist = sampled_histogram(&grid, Some(Percentage::whole(20)));
    assert_eq!(hist.total(), 40);
    assert_eq!(hist.entries().len(), 10);
    for line in hist.entries() {
        assert_eq!(line.count, 4);
        assert!(line.color.red < 50);
        assert_eq!(hist.count_of(line.color), 4);
    }
}
