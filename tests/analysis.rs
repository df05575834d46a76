// Prices are written in ticks: 10_000 ticks make one currency unit, so
// 1.0 is 10_000 and 110.0 is 1_100_000. Results are in cents and in
// hundredths of a percent.
use price_stats::analysis::{n_window_sma, price_diff, refine_quotes, AnalysisError, ClosingPriceData};
use price_stats::rounding::{round, round_div};

#[test]
fn change_of_single_price_is_zero() {
    assert_eq!(price_diff(&[50_000]), Ok((0, 0)));
}

#[test]
fn change_of_two_prices() {
    // 100.0 -> 110.0: 10.00 % and 10.00
    assert_eq!(price_diff(&[1_000_000, 1_100_000]), Ok((1000, 1000)));
}

#[test]
fn change_of_falling_prices() {
    // 100.0 -> 90.0: -10.00 % and -10.00
    assert_eq!(price_diff(&[1_000_000, 1_050_000, 900_000]), Ok((-1000, -1000)));
}

#[test]
fn change_percent_comes_from_rounded_change() {
    // 3.0 -> 3.0049: the change rounds to 0.00, so the percent is 0.00
    assert_eq!(price_diff(&[30_000, 30_049]), Ok((0, 0)));
    // 3.0 -> 3.005: the change rounds to 0.01, and 0.01 / 3.0 is 0.33 %
    assert_eq!(price_diff(&[30_000, 30_050]), Ok((33, 1)));
}

#[test]
fn change_of_empty_series_fails() {
    assert_eq!(price_diff(&[]), Err(AnalysisError::EmptySeries));
}

#[test]
fn change_from_zero_price_fails() {
    assert_eq!(price_diff(&[0, 10_000]), Err(AnalysisError::DivisionByZero));
}

#[test]
fn change_of_extreme_prices() {
    let r = price_diff(&[i64::MIN, i64::MAX]);
    let (pct, abs) = r.unwrap();
    assert_eq!(abs, 184_467_440_737_095_516);
    assert_eq!(pct, -20_000);
}

#[test]
fn moving_average_of_four_prices() {
    // window 3 over [1.0, 2.0, 3.0, 4.0] is [2.0, 3.0]
    assert_eq!(n_window_sma(3, &[10_000, 20_000, 30_000, 40_000]), Ok(vec![200, 300]));
}

#[test]
fn moving_average_wider_than_series_is_empty() {
    assert_eq!(n_window_sma(5, &[10_000, 20_000]), Ok(vec![]));
}

#[test]
fn moving_average_of_zero_width_fails() {
    assert_eq!(n_window_sma(0, &[10_000, 20_000]), Err(AnalysisError::InvalidWindowSize));
}

#[test]
fn moving_average_length_follows_width() {
    let s = [10_000, 20_000, 30_000, 40_000, 50_000];
    for n in 1..8usize {
        let expected = if s.len() + 1 >= n { s.len() + 1 - n } else { 0 };
        assert_eq!(n_window_sma(n, &s).unwrap().len(), expected);
    }
}

#[test]
fn moving_average_rounds_half_away_from_zero() {
    // mean 1.005 rounds to 1.01; mean -1.005 rounds to -1.01
    assert_eq!(n_window_sma(2, &[10_050, 10_050]), Ok(vec![101]));
    assert_eq!(n_window_sma(2, &[-10_050, -10_050]), Ok(vec![-101]));
    // mean 1.00005 rounds to 1.00
    assert_eq!(n_window_sma(2, &[10_000, 10_001]), Ok(vec![100]));
}

#[test]
fn moving_average_of_extreme_prices() {
    assert_eq!(n_window_sma(2, &[i64::MAX, i64::MAX]), Ok(vec![92_233_720_368_547_758]));
    assert_eq!(n_window_sma(1, &[i64::MIN]), Ok(vec![-92_233_720_368_547_758]));
}

#[test]
fn summary_of_three_prices() {
    assert_eq!(
        refine_quotes(&[10_000, 20_000, 30_000]),
        Ok(ClosingPriceData { min: 100, max: 300, avg: 200 })
    );
}

#[test]
fn summary_of_unordered_prices() {
    // 1.2345, 0.9999, 7.5 and 3.0: min 1.00, max 7.50, mean 3.1836 rounds to 3.18
    assert_eq!(
        refine_quotes(&[12_345, 9_999, 75_000, 30_000]),
        Ok(ClosingPriceData { min: 100, max: 750, avg: 318 })
    );
}

#[test]
fn summary_of_empty_series_fails() {
    assert_eq!(refine_quotes(&[]), Err(AnalysisError::EmptySeries));
}

#[test]
fn summary_mean_lies_between_extremes() {
    let series = [10_050, 29_999, 73_330, -5, 12_345_678];
    let c = refine_quotes(&series).unwrap();
    assert!(c.min <= c.avg && c.avg <= c.max);
    assert_eq!(c.min, 0);
    assert_eq!(c.max, 123_457);
}

#[test]
fn summary_of_extreme_prices() {
    assert_eq!(
        refine_quotes(&[i64::MIN, i64::MAX]),
        Ok(ClosingPriceData {
            min: -92_233_720_368_547_758,
            max: 92_233_720_368_547_758,
            avg: 0,
        })
    );
}

#[test]
fn repeated_calls_agree() {
    let series = [10_000, 12_345, 9_876, 11_111];
    assert_eq!(refine_quotes(&series), refine_quotes(&series));
    assert_eq!(n_window_sma(2, &series), n_window_sma(2, &series));
    assert_eq!(price_diff(&series), price_diff(&series));
}

#[test]
fn rounding_to_cents() {
    assert_eq!(round(150), 2);
    assert_eq!(round(149), 1);
    assert_eq!(round(-150), -2);
    assert_eq!(round(-149), -1);
    assert_eq!(round(0), 0);
    assert_eq!(round(i64::MAX), 92_233_720_368_547_758);
}

#[test]
fn rounding_a_quotient() {
    assert_eq!(round_div(5, 2), 3);
    assert_eq!(round_div(-5, 2), -3);
    assert_eq!(round_div(5, -2), -3);
    assert_eq!(round_div(7, -2), -4);
    assert_eq!(round_div(-7, -2), 4);
    assert_eq!(round_div(7, 3), 2);
    assert_eq!(round_div(i128::MAX, 1), i128::MAX);
}
