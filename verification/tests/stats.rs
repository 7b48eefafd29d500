use lsb_stego::codec::embed;
use lsb_stego::error::StegoError;
use lsb_stego::grid::{BitWidth, PixelGrid};
use lsb_stego::render::render_lsb_plane;
use lsb_stego::stats::{chi_squared, histogram, ChiSquared, Histogram, CRITICAL_VALUE_THOUSANDTHS};
use lsb_stego::windows::{window_histograms, WINDOW_SIDE};

fn uniform(width: u32, height: u32, value: u8) -> PixelGrid {
    let len = 3 * width as usize * height as usize;
    PixelGrid::new(width, height, vec![value; len]).unwrap()
}

fn ramp(width: u32, height: u32) -> PixelGrid {
    let len = 3 * width as usize * height as usize;
    PixelGrid::new(width, height, (0..len).map(|i| (i % 256) as u8).collect()).unwrap()
}

fn bits(k: u8) -> BitWidth {
    BitWidth::new(k).unwrap()
}

fn statistic(s: &ChiSquared) -> f64 {
    s.numerator as f64 / s.denominator as f64
}

/// Shannon entropy, in bits, of the two-symbol distribution of a histogram.
fn entropy(h: &Histogram) -> f64 {
    let total = (h.count0 + h.count1) as f64;
    let mut sum = 0.0;
    for count in [h.count0, h.count1] {
        if count > 0 {
            let p = count as f64 / total;
            sum -= p * p.log2();
        }
    }
    sum
}

#[test]
fn histogram_counts_every_examined_bit() {
    for (w, h) in [(1u32, 1u32), (10, 10), (7, 3), (16, 9)] {
        let grid = ramp(w, h);
        for k in 1..=8u8 {
            let hist = histogram(&grid, bits(k)).unwrap();
            assert_eq!(hist.count0 + hist.count1, 3 * w as u64 * h as u64 * k as u64);
        }
    }
}

#[test]
fn histogram_of_known_samples() {
    // 0b0000_0101 in every channel of 2 x 2 pixels: 12 samples.
    let grid = uniform(2, 2, 0b0000_0101);
    assert_eq!(histogram(&grid, bits(1)).unwrap(), Histogram { count0: 0, count1: 12 });
    assert_eq!(histogram(&grid, bits(2)).unwrap(), Histogram { count0: 12, count1: 12 });
    assert_eq!(histogram(&grid, bits(3)).unwrap(), Histogram { count0: 12, count1: 24 });
    assert_eq!(histogram(&grid, bits(8)).unwrap(), Histogram { count0: 72, count1: 24 });
}

#[test]
fn histogram_looks_at_low_bits_only() {
    let grid = uniform(3, 3, 0xf0);
    assert_eq!(histogram(&grid, bits(4)).unwrap(), Histogram { count0: 108, count1: 0 });
    assert_eq!(histogram(&grid, bits(5)).unwrap(), Histogram { count0: 108, count1: 27 });
}

#[test]
fn histogram_of_a_grid_without_pixels_is_degenerate() {
    let empty = PixelGrid::new(0, 0, Vec::new()).unwrap();
    assert_eq!(histogram(&empty, bits(3)), Err(StegoError::DegenerateInput));
}

#[test]
fn histogram_sees_an_embedded_payload() {
    let grid = uniform(10, 10, 0);
    let carrier = embed(&grid, b"Hi", bits(1)).unwrap();
    assert_eq!(histogram(&carrier, bits(1)).unwrap(), Histogram { count0: 293, count1: 7 });
}

#[test]
fn chi_squared_of_an_even_split_is_zero() {
    for n in [1u64, 2, 50, 1_000_000, u64::MAX] {
        let s = chi_squared(&Histogram { count0: n, count1: n }).unwrap();
        assert_eq!(s.numerator, 0);
        assert_eq!(statistic(&s), 0.0);
        assert!(!s.significant);
    }
}

#[test]
fn chi_squared_of_hundred_to_nothing_is_hundred() {
    let s = chi_squared(&Histogram { count0: 100, count1: 0 }).unwrap();
    assert_eq!(s.numerator, 10_000);
    assert_eq!(s.denominator, 100);
    assert_eq!(statistic(&s), 100.0);
    assert!(s.significant);
    let mirrored = chi_squared(&Histogram { count0: 0, count1: 100 }).unwrap();
    assert_eq!(mirrored, s);
}

#[test]
fn chi_squared_is_the_sum_over_both_symbols() {
    let h = Histogram { count0: 60, count1: 40 };
    let s = chi_squared(&h).unwrap();
    let expected = 50.0f64;
    let by_definition = (60.0 - expected).powi(2) / expected + (40.0 - expected).powi(2) / expected;
    assert_eq!(by_definition, 4.0);
    assert_eq!(statistic(&s), 4.0);
    assert_eq!((s.numerator, s.denominator), (400, 100));
    assert!(s.significant);
}

#[test]
fn chi_squared_significance_turns_at_the_critical_value() {
    assert_eq!(CRITICAL_VALUE_THOUSANDTHS, 3841);
    // d * d / 1000 against 3.841: 61 * 61 = 3721, 62 * 62 = 3844.
    let below = chi_squared(&Histogram { count0: 530, count1: 470 }).unwrap();
    assert_eq!(statistic(&below), 3.6);
    assert!(!below.significant);
    let under = chi_squared(&Histogram { count0: 530, count1: 469 }).unwrap();
    assert_eq!((under.numerator, under.denominator), (3721, 999));
    assert!(!under.significant);
    let above = chi_squared(&Histogram { count0: 531, count1: 469 }).unwrap();
    assert_eq!(statistic(&above), 3.844);
    assert!(above.significant);
    // Exactly 3.841 is not above it.
    let exact = chi_squared(&Histogram { count0: 7_685_841, count1: 7_678_159 }).unwrap();
    assert_eq!((exact.numerator, exact.denominator), (7682 * 7682, 15_364_000));
    assert_eq!(exact.numerator * 1000, 3841 * exact.denominator);
    assert!(!exact.significant);
}

#[test]
fn chi_squared_takes_the_largest_counts() {
    let s = chi_squared(&Histogram { count0: u64::MAX, count1: 0 }).unwrap();
    assert_eq!(s.numerator, (u64::MAX as u128) * (u64::MAX as u128));
    assert_eq!(s.denominator, u64::MAX as u128);
    assert!(s.significant);
    let t = chi_squared(&Histogram { count0: u64::MAX, count1: u64::MAX - 1 }).unwrap();
    assert_eq!(t.numerator, 1);
    assert_eq!(t.denominator, 2 * (u64::MAX as u128) - 1);
    assert!(!t.significant);
}

#[test]
fn chi_squared_of_an_empty_histogram_is_degenerate() {
    assert_eq!(chi_squared(&Histogram { count0: 0, count1: 0 }), Err(StegoError::DegenerateInput));
}

#[test]
fn windows_tile_the_grid_row_by_row_and_clip_at_the_edges() {
    let grid = uniform(10, 10, 0xff);
    let windows = window_histograms(&grid, bits(1), WINDOW_SIDE).unwrap();
    let totals: Vec<u64> = windows.iter().map(|h| h.count0 + h.count1).collect();
    // 8 x 8, 2 x 8, 8 x 2 and 2 x 2 pixels, three bits each.
    assert_eq!(totals, vec![192, 48, 48, 12]);
    assert!(windows.iter().all(|h| h.count0 == 0));
    let three = window_histograms(&grid, bits(3), WINDOW_SIDE).unwrap();
    let totals: Vec<u64> = three.iter().map(|h| h.count0 + h.count1).collect();
    assert_eq!(totals, vec![576, 144, 144, 36]);
}

#[test]
fn windows_count_their_own_pixels() {
    // 4 x 2 pixels, the right half with the low bit set.
    let mut samples = Vec::new();
    for _y in 0..2 {
        for x in 0..4 {
            let v = if x >= 2 { 1u8 } else { 0u8 };
            samples.extend_from_slice(&[v, v, v]);
        }
    }
    let grid = PixelGrid::new(4, 2, samples).unwrap();
    let windows = window_histograms(&grid, bits(1), 2).unwrap();
    assert_eq!(windows, vec![Histogram { count0: 12, count1: 0 }, Histogram { count0: 0, count1: 12 }]);
    let tall = window_histograms(&grid, bits(1), 1).unwrap();
    assert_eq!(tall.len(), 8);
    assert_eq!(tall[0], Histogram { count0: 3, count1: 0 });
    assert_eq!(tall[3], Histogram { count0: 0, count1: 3 });
    assert_eq!(tall[5], Histogram { count0: 3, count1: 0 });
    assert_eq!(tall[6], Histogram { count0: 0, count1: 3 });
    let whole = window_histograms(&grid, bits(1), 100).unwrap();
    assert_eq!(whole, vec![histogram(&grid, bits(1)).unwrap()]);
}

#[test]
fn windows_add_up_to_the_histogram() {
    let grid = ramp(19, 13);
    for k in 1..=8u8 {
        let windows = window_histograms(&grid, bits(k), WINDOW_SIDE).unwrap();
        assert_eq!(windows.len(), 3 * 2);
        let sum0: u64 = windows.iter().map(|h| h.count0).sum();
        let sum1: u64 = windows.iter().map(|h| h.count1).sum();
        assert_eq!(Histogram { count0: sum0, count1: sum1 }, histogram(&grid, bits(k)).unwrap());
    }
}

#[test]
fn windows_without_a_pixel_are_degenerate() {
    let empty = PixelGrid::new(0, 0, Vec::new()).unwrap();
    assert_eq!(window_histograms(&empty, bits(1), WINDOW_SIDE), Err(StegoError::DegenerateInput));
    let flat = PixelGrid::new(5, 0, Vec::new()).unwrap();
    assert_eq!(window_histograms(&flat, bits(1), WINDOW_SIDE), Err(StegoError::DegenerateInput));
    let grid = uniform(4, 4, 0);
    assert_eq!(window_histograms(&grid, bits(1), 0), Err(StegoError::DegenerateInput));
}

#[test]
fn entropy_of_a_window_lies_between_zero_and_one() {
    let grid = ramp(21, 17);
    for k in 1..=8u8 {
        for h in window_histograms(&grid, bits(k), WINDOW_SIDE).unwrap() {
            let e = entropy(&h);
            assert!((0.0..=1.0).contains(&e), "entropy {}", e);
        }
    }
    assert_eq!(entropy(&Histogram { count0: 96, count1: 96 }), 1.0);
    assert_eq!(entropy(&Histogram { count0: 192, count1: 0 }), 0.0);
    assert_eq!(entropy(&Histogram { count0: 0, count1: 192 }), 0.0);
    let even = uniform(8, 8, 0b01);
    let windows = window_histograms(&even, bits(2), WINDOW_SIDE).unwrap();
    assert_eq!(windows, vec![Histogram { count0: 192, count1: 192 }]);
    assert_eq!(entropy(&windows[0]), 1.0);
}

#[test]
fn one_bit_plane_renders_black_and_white() {
    let grid = PixelGrid::new(2, 1, vec![0, 1, 2, 3, 254, 255]).unwrap();
    let plane = render_lsb_plane(&grid, 0b1).unwrap();
    assert_eq!(plane.width(), 2);
    assert_eq!(plane.height(), 1);
    assert_eq!(plane.samples(), &[0, 255, 0, 255, 0, 255]);
}

#[test]
fn three_bit_plane_repeats_the_low_bits_upward() {
    let grid = PixelGrid::new(1, 1, vec![0b1111_1101, 0b0000_0111, 0b1010_1000]).unwrap();
    let plane = render_lsb_plane(&grid, 0b111).unwrap();
    // 101 repeated from bit 0 upward: 01 101 101.
    assert_eq!(plane.samples(), &[0b0110_1101, 0xff, 0]);
}

#[test]
fn full_mask_renders_the_grid_itself_and_empty_mask_renders_black() {
    let grid = ramp(5, 4);
    assert_eq!(render_lsb_plane(&grid, 0xff).unwrap().samples(), grid.samples());
    assert!(render_lsb_plane(&grid, 0).unwrap().samples().iter().all(|&s| s == 0));
    let empty = PixelGrid::new(0, 0, Vec::new()).unwrap();
    assert_eq!(render_lsb_plane(&empty, 1).err(), Some(StegoError::DegenerateInput));
}
