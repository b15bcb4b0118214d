use rx_dex::oracle::{deviation_marks, median, MedianOracle, SmaOracle, TwapOracle, VwapOracle};

#[test]
fn test_twap_oracle() {
    let mut oracle = TwapOracle::new(100, 3600); // 1 hour window

    let now = 1000;
    oracle.add_observation(100, 10, now);
    oracle.add_observation(200, 20, now + 100);
    oracle.add_observation(150, 15, now + 200);

    let twap = oracle.calculate_twap();
    assert!(twap.is_some());
}

#[test]
fn test_vwap_oracle() {
    let mut oracle = VwapOracle::new(100, 3600); // 1 hour window

    oracle.add_observation(100, 10, 1000);
    oracle.add_observation(200, 20, 1100);
    oracle.add_observation(150, 15, 1200);

    let vwap = oracle.calculate_vwap();
    assert!(vwap.is_some());
    // VWAP should be weighted toward the higher volume observations
    assert!(vwap.unwrap() > 150);
}

#[test]
fn test_median_oracle() {
    let mut oracle = MedianOracle::new(100);

    oracle.add_observation(100);
    oracle.add_observation(200);
    oracle.add_observation(150);
    oracle.add_observation(175);
    oracle.add_observation(125);

    let median = oracle.calculate_median();
    assert_eq!(median, Some(150));
}

#[test]
fn test_sma_oracle() {
    let mut oracle = SmaOracle::new(5);

    oracle.add_observation(100);
    oracle.add_observation(200);
    oracle.add_observation(150);

    let sma = oracle.calculate_sma();
    assert_eq!(sma, Some(150)); // (100 + 200 + 150) / 3 = 150
}

#[test]
fn twap_is_the_time_weighted_mean_of_pair_averages() {
    let mut oracle = TwapOracle::new(100, 3600);
    oracle.add_observation(100, 10, 1000);
    oracle.add_observation(200, 20, 1100);
    oracle.add_observation(150, 15, 1200);
    // (150 * 100 + 175 * 100) / 200 = 162.5
    assert_eq!(oracle.calculate_twap(), Some(162));
}

#[test]
fn twap_weights_by_elapsed_time() {
    let mut oracle = TwapOracle::new(100, 3600);
    oracle.add_observation(100, 0, 0);
    oracle.add_observation(100, 0, 900);
    oracle.add_observation(300, 0, 1000);
    // (100 * 900 + 200 * 100) / 1000 = 110
    assert_eq!(oracle.calculate_twap(), Some(110));
}

#[test]
fn twap_of_empty_window_is_no_data() {
    let oracle = TwapOracle::new(10, 60);
    assert_eq!(oracle.calculate_twap(), None);
}

#[test]
fn twap_of_single_observation_is_its_price() {
    let mut oracle = TwapOracle::new(10, 60);
    oracle.add_observation(777, 1, 5);
    assert_eq!(oracle.calculate_twap(), Some(777));
}

#[test]
fn twap_without_elapsed_time_is_last_price() {
    let mut oracle = TwapOracle::new(10, 60);
    oracle.add_observation(100, 1, 5);
    oracle.add_observation(300, 1, 5);
    assert_eq!(oracle.calculate_twap(), Some(300));
}

#[test]
fn twap_takes_out_of_order_pairs_with_no_weight() {
    let mut oracle = TwapOracle::new(10, 1000);
    oracle.add_observation(100, 1, 50);
    oracle.add_observation(500, 1, 40);
    oracle.add_observation(300, 1, 60);
    // the pair (50 -> 40) weighs nothing; the pair (40 -> 60) has mean 400
    assert_eq!(oracle.calculate_twap(), Some(400));
}

#[test]
fn twap_holds_the_largest_prices_and_times() {
    let mut oracle = TwapOracle::new(10, u64::MAX);
    oracle.add_observation(u64::MAX, 1, 0);
    oracle.add_observation(u64::MAX, 1, u64::MAX);
    oracle.add_observation(u64::MAX, 1, u64::MAX);
    assert_eq!(oracle.calculate_twap(), Some(u64::MAX));
}

#[test]
fn window_drops_observations_older_than_the_time_window() {
    let mut oracle = TwapOracle::new(100, 100);
    oracle.add_observation(10, 1, 1000);
    oracle.add_observation(20, 1, 1050);
    oracle.add_observation(30, 1, 1100);
    assert_eq!(oracle.len(), 3);
    // 1101 - 1000 > 100: the first observation goes, the second stays
    oracle.add_observation(40, 1, 1101);
    assert_eq!(oracle.len(), 3);
    oracle.add_observation(50, 1, 5000);
    assert_eq!(oracle.len(), 1);
    assert_eq!(oracle.calculate_twap(), Some(50));
}

#[test]
fn window_keeps_what_is_exactly_as_old_as_the_time_window() {
    let mut oracle = VwapOracle::new(100, 100);
    oracle.add_observation(10, 1, 1000);
    oracle.add_observation(20, 1, 1100);
    assert_eq!(oracle.len(), 2);
}

#[test]
fn window_drops_above_capacity_from_the_front() {
    let mut oracle = VwapOracle::new(2, 3600);
    oracle.add_observation(100, 1, 1);
    oracle.add_observation(200, 1, 2);
    oracle.add_observation(300, 1, 3);
    assert_eq!(oracle.len(), 2);
    // the window holds 200 and 300
    assert_eq!(oracle.calculate_vwap(), Some(250));
}

#[test]
fn window_of_capacity_zero_stays_empty() {
    let mut oracle = SmaOracle::new(0);
    oracle.add_observation(100);
    assert_eq!(oracle.calculate_sma(), None);
    let mut twap = TwapOracle::new(0, 10);
    twap.add_observation(1, 1, 1);
    assert_eq!(twap.len(), 0);
    assert_eq!(twap.calculate_twap(), None);
}

#[test]
fn window_does_not_expire_by_an_earlier_timestamp() {
    let mut oracle = TwapOracle::new(10, 5);
    oracle.add_observation(100, 1, 1000);
    oracle.add_observation(200, 1, 10);
    assert_eq!(oracle.len(), 2);
}

#[test]
fn vwap_is_the_volume_weighted_mean() {
    let mut oracle = VwapOracle::new(100, 3600);
    oracle.add_observation(100, 10, 1000);
    oracle.add_observation(200, 20, 1100);
    oracle.add_observation(150, 15, 1200);
    // 7250 / 45 = 161.1
    assert_eq!(oracle.calculate_vwap(), Some(161));
}

#[test]
fn vwap_without_volume_is_no_data() {
    let mut oracle = VwapOracle::new(100, 3600);
    assert_eq!(oracle.calculate_vwap(), None);
    oracle.add_observation(100, 0, 1000);
    oracle.add_observation(200, 0, 1100);
    assert_eq!(oracle.calculate_vwap(), None);
}

#[test]
fn vwap_holds_the_largest_prices_and_volumes() {
    let mut oracle = VwapOracle::new(100, 3600);
    oracle.add_observation(u64::MAX, u64::MAX, 1);
    oracle.add_observation(u64::MAX, u64::MAX, 2);
    oracle.add_observation(u64::MAX - 2, u64::MAX, 3);
    // the mean of MAX, MAX and MAX - 2, rounded down
    assert_eq!(oracle.calculate_vwap(), Some(u64::MAX - 1));
}

#[test]
fn median_of_even_count_is_mean_of_middle_two() {
    let mut oracle = MedianOracle::new(100);
    oracle.add_observation(40);
    oracle.add_observation(10);
    oracle.add_observation(30);
    oracle.add_observation(21);
    // sorted: 10 21 30 40
    assert_eq!(oracle.calculate_median(), Some(25));
}

#[test]
fn median_of_empty_window_is_no_data() {
    let oracle = MedianOracle::new(100);
    assert_eq!(oracle.calculate_median(), None);
    assert_eq!(median(&vec![]), None);
}

#[test]
fn median_of_two_largest_prices_does_not_overflow() {
    let mut oracle = MedianOracle::new(100);
    oracle.add_observation(u64::MAX);
    oracle.add_observation(u64::MAX - 1);
    assert_eq!(oracle.calculate_median(), Some(u64::MAX - 1));
}

#[test]
fn median_sees_only_the_window() {
    let mut oracle = MedianOracle::new(3);
    oracle.add_observation(1000);
    oracle.add_observation(1);
    oracle.add_observation(2);
    oracle.add_observation(3);
    assert_eq!(oracle.len(), 3);
    assert_eq!(oracle.prices(), vec![1, 2, 3]);
    assert_eq!(oracle.calculate_median(), Some(2));
}

#[test]
fn kept_median_takes_the_kept_prices() {
    let mut oracle = MedianOracle::new(100);
    oracle.add_observation(100);
    oracle.add_observation(102);
    oracle.add_observation(98);
    oracle.add_observation(5000);
    let kept = vec![true, true, true, false];
    assert_eq!(oracle.calculate_kept_median(&kept), Some(100));
    // unfiltered: sorted 98 100 102 5000
    assert_eq!(oracle.calculate_median(), Some(101));
}

#[test]
fn kept_median_falls_back_when_nothing_is_kept() {
    let mut oracle = MedianOracle::new(100);
    oracle.add_observation(7);
    oracle.add_observation(9);
    oracle.add_observation(8);
    assert_eq!(oracle.calculate_kept_median(&vec![false, false, false]), Some(8));
    assert_eq!(oracle.calculate_kept_median(&vec![]), Some(8));
    let empty = MedianOracle::new(100);
    assert_eq!(empty.calculate_kept_median(&vec![true]), None);
}

#[test]
fn sma_rounds_down_and_does_not_overflow() {
    let mut oracle = SmaOracle::new(5);
    oracle.add_observation(1);
    oracle.add_observation(2);
    assert_eq!(oracle.calculate_sma(), Some(1));
    let mut big = SmaOracle::new(5);
    big.add_observation(u64::MAX);
    big.add_observation(u64::MAX);
    big.add_observation(u64::MAX);
    assert_eq!(big.calculate_sma(), Some(u64::MAX));
}

#[test]
fn sma_of_empty_window_is_no_data() {
    let oracle = SmaOracle::new(5);
    assert_eq!(oracle.calculate_sma(), None);
}

#[test]
fn sma_sees_only_the_window() {
    let mut oracle = SmaOracle::new(2);
    oracle.add_observation(1000);
    oracle.add_observation(10);
    oracle.add_observation(20);
    assert_eq!(oracle.len(), 2);
    assert_eq!(oracle.calculate_sma(), Some(15));
}

#[test]
fn filtered_median_leaves_the_outlier_out() {
    let mut oracle = MedianOracle::new(100);
    oracle.add_observation(100);
    oracle.add_observation(102);
    oracle.add_observation(98);
    oracle.add_observation(5000);
    // mean 1325, deviation about 2121.8: 5000 lies 3675 away
    assert_eq!(oracle.calculate_filtered_median(1, 1), Some(100));
    // within two deviations every price stays: 98 100 102 5000
    assert_eq!(oracle.calculate_filtered_median(2, 1), Some(101));
    assert_eq!(oracle.calculate_filtered_median(3, 2), Some(100));
    assert_eq!(oracle.calculate_filtered_median(7, 4), Some(101));
}

#[test]
fn filtered_median_falls_back_when_no_price_is_near_the_mean() {
    let mut oracle = MedianOracle::new(100);
    oracle.add_observation(1);
    oracle.add_observation(2);
    // mean 1.5: with a threshold of zero nothing is kept
    assert_eq!(oracle.calculate_filtered_median(0, 1), Some(1));
    let empty = MedianOracle::new(100);
    assert_eq!(empty.calculate_filtered_median(1, 1), None);
}

#[test]
fn filtered_median_is_exact_at_the_boundary() {
    // mean 1, deviation exactly 1
    assert_eq!(deviation_marks(&vec![0, 2], 1, 1), vec![true, true]);
    assert_eq!(deviation_marks(&vec![0, 2], 999, 1000), vec![false, false]);
    assert_eq!(deviation_marks(&vec![0, 2], u64::MAX - 1, u64::MAX), vec![false, false]);
    assert_eq!(deviation_marks(&vec![0, 2], u64::MAX, u64::MAX), vec![true, true]);
    // a threshold of zero keeps what is exactly the mean
    assert_eq!(deviation_marks(&vec![1, 2, 3], 0, 1), vec![false, true, false]);
    assert_eq!(deviation_marks(&vec![5, 5, 5], 0, 1), vec![true, true, true]);
    // a denominator of zero keeps everything
    assert_eq!(deviation_marks(&vec![1, 1000, 3], 0, 0), vec![true, true, true]);
    assert_eq!(deviation_marks(&vec![], 1, 1), Vec::<bool>::new());
    assert_eq!(deviation_marks(&vec![7], 0, 1), vec![true]);
}

#[test]
fn filtered_median_holds_the_largest_prices() {
    let values = vec![u64::MAX, 0, u64::MAX, 0];
    // mean MAX / 2, deviation MAX / 2
    assert_eq!(deviation_marks(&values, 1, 1), vec![true, true, true, true]);
    assert_eq!(deviation_marks(&values, u64::MAX - 1, u64::MAX), vec![false, false, false, false]);
    let mut oracle = MedianOracle::new(10);
    oracle.add_observation(u64::MAX);
    oracle.add_observation(u64::MAX);
    oracle.add_observation(u64::MAX - 1);
    oracle.add_observation(0);
    // the zero lies more than one deviation from the mean
    assert_eq!(oracle.calculate_filtered_median(1, 1), Some(u64::MAX));
}
