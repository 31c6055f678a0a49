use quantile_filter::rolling::{rolling_bounds, rolling_median, rolling_quantile, FilterError};
use quantile_filter::select::Ranks;

// An integer that orders as the float does.
fn key(f: f64) -> i64 {
    let bits = f.to_bits() as i64;
    bits ^ ((((bits >> 63) as u64) >> 1) as i64)
}

// The float that a key stands for.
fn value(k: i64) -> f64 {
    f64::from_bits((k ^ ((((k >> 63) as u64) >> 1) as i64)) as u64)
}

// The two ranks around the quantile of each window length up to `k`.
fn ranks_of(quantile: f64, k: usize) -> Vec<Ranks> {
    (1..=k)
        .map(|len| {
            let top = (len as f64 - 1.0) * quantile;
            Ranks { lower: top.floor() as usize, upper: top.ceil() as usize }
        })
        .collect()
}

// The rolling quantile of floats: the library selects, the floats are interpolated here.
fn rolling_quantile_f64(k: usize, values: &[f64], quantile: f64) -> Vec<f64> {
    let keys: Vec<i64> = values.iter().map(|v| key(*v)).collect();
    let k = std::cmp::min(k, values.len());
    let ranks = ranks_of(quantile, k);
    let bounds = rolling_bounds(k, &keys, &ranks).unwrap();
    bounds
        .iter()
        .enumerate()
        .map(|(i, b)| {
            let len = std::cmp::min(i + 1, k);
            let top = (len as f64 - 1.0) * quantile;
            let vi = value(b.0);
            let vj = value(b.1);
            if ranks[len - 1].lower == ranks[len - 1].upper {
                vi
            } else {
                let proportion = top - ranks[len - 1].lower as f64;
                proportion * (vj - vi) + vi
            }
        })
        .collect()
}

#[test]
fn test_median_1() {
    let values = [
        2.0, 8.0, 5.0, 9.0, 1.0, 2.0, 4.0, 2.0, 4.0, 8.1, -1.0, 2.9, 1.2, 23.0,
    ];
    let out = rolling_quantile_f64(3, &values, 0.5);
    let expected = [
        2.0, 5.0, 5.0, 8.0, 5.0, 2.0, 2.0, 2.0, 4.0, 4.0, 4.0, 2.9, 1.2, 2.9,
    ];
    assert_eq!(out, expected);
    let out = rolling_quantile_f64(5, &values, 0.5);
    let expected = [
        2.0, 5.0, 5.0, 6.5, 5.0, 5.0, 4.0, 2.0, 2.0, 4.0, 4.0, 2.9, 2.9, 2.9,
    ];
    assert_eq!(out, expected);
    let out = rolling_quantile_f64(7, &values, 0.5);
    let expected = [
        2.0, 5.0, 5.0, 6.5, 5.0, 3.5, 4.0, 4.0, 4.0, 4.0, 2.0, 2.9, 2.9, 2.9,
    ];
    assert_eq!(out, expected);
    let out = rolling_quantile_f64(4, &values, 0.5);
    let expected = [
        2.0, 5.0, 5.0, 6.5, 6.5, 3.5, 3.0, 2.0, 3.0, 4.0, 3.0, 3.45, 2.05, 2.05,
    ];
    assert_eq!(out, expected);
}

#[test]
fn test_median_2() {
    let values = [10, 10, 15, 13, 9, 5, 3, 13, 19, 15, 19];
    let out = rolling_quantile(3, &values, &ranks_of(0.5, 3)).unwrap();
    let expected = [10, 10, 10, 13, 13, 9, 5, 5, 13, 15, 19];
    assert_eq!(out, expected);
}

#[test]
fn test_median() {
    let values = [2.0, 8.0, 5.0, 9.0, 1.0, 2.0, 4.0, 2.0];
    let k = 3;

    //    block 1
    // i:  2, 8, 5
    // s:  2, 5, 8
    //              block 2
    // i:           9, 1, 2
    // s:           1, 2, 9

    let out = rolling_quantile_f64(k, &values, 0.5);
    assert_eq!(out, [2.0, 5.0, 5.0, 8.0, 5.0, 2.0, 2.0, 2.0]);

    // the values are whole numbers: of two middle values the lower one is the median
    let whole = [2, 8, 5, 9, 1, 2, 4, 2];
    let out = rolling_median(k, &whole).unwrap();
    assert_eq!(out, [2, 2, 5, 8, 5, 2, 2, 2]);
}

#[test]
fn rolling_median_is_the_quantile_at_one_half() {
    let values = [10, 10, 15, 13, 9, 5, 3, 13, 19, 15, 19];
    for k in 1..=12 {
        let by_median = rolling_median(k, &values).unwrap();
        let w = std::cmp::min(k, values.len());
        let by_quantile = rolling_quantile(k, &values, &ranks_of(0.5, w)).unwrap();
        assert_eq!(by_median, by_quantile);
    }
    assert_eq!(
        rolling_median(3, &values).unwrap(),
        [10, 10, 10, 13, 13, 9, 5, 5, 13, 15, 19]
    );
}

#[test]
fn linear_interpolation_of_a_quarter() {
    let out = rolling_quantile_f64(4, &[1.0, 2.0, 3.0, 4.0], 0.25);
    assert_eq!(out, [1.0, 1.25, 1.5, 1.75]);
}

#[test]
fn lower_and_upper_bound_of_each_window() {
    let values = [4, 1, 3, 2];
    let bounds = rolling_bounds(2, &values, &ranks_of(0.5, 2)).unwrap();
    assert_eq!(bounds, [(4, 4), (1, 4), (1, 3), (2, 3)]);
}

#[test]
fn quantile_zero_and_one_are_minimum_and_maximum() {
    let values = [5, 3, 8, 1, 9, 2, 7];
    let low = rolling_quantile(3, &values, &ranks_of(0.0, 3)).unwrap();
    assert_eq!(low, [5, 3, 3, 1, 1, 1, 2]);
    let high = rolling_quantile(3, &values, &ranks_of(1.0, 3)).unwrap();
    assert_eq!(high, [5, 5, 8, 8, 9, 9, 9]);
}

#[test]
fn window_wider_than_the_input_is_clamped() {
    let values = [3, 1, 2];
    let out = rolling_median(10, &values).unwrap();
    assert_eq!(out, [3, 1, 2]);
}

#[test]
fn window_of_one_repeats_the_input() {
    let values = [3, 1, 2, 2, 7];
    assert_eq!(rolling_median(1, &values).unwrap(), values);
}

#[test]
fn partial_last_block() {
    // the cursors of the two blocks have to be set back more than one step here
    let values = [2, 1, 1, 1, 0];
    assert_eq!(rolling_median(4, &values).unwrap(), [2, 1, 1, 1, 1]);
    let values = [0, 0, 1, 1, 0, 1, 0, 0];
    let ranks = ranks_of(0.1, 4);
    assert_eq!(rolling_quantile(4, &values, &ranks).unwrap(), [0, 0, 0, 0, 0, 0, 0, 0]);
}

#[test]
fn agrees_with_sorting_each_window() {
    let mut seed: u64 = 7;
    for round in 0..200 {
        let n = 1 + round % 23;
        let mut values: Vec<i64> = Vec::new();
        for _ in 0..n {
            seed = seed.wrapping_mul(6364136223846793005).wrapping_add(1442695040888963407);
            values.push(((seed >> 33) % 11) as i64 - 5);
        }
        for k in 1..=n + 1 {
            let w = std::cmp::min(k, n);
            for quantile in [0.0, 0.1, 0.25, 0.5, 0.6, 0.9, 1.0] {
                let ranks = ranks_of(quantile, w);
                let bounds = rolling_bounds(k, &values, &ranks).unwrap();
                assert_eq!(bounds.len(), n);
                for i in 0..n {
                    let from = if i + 1 > w { i + 1 - w } else { 0 };
                    let mut window = values[from..i + 1].to_vec();
                    window.sort();
                    let r = ranks[window.len() - 1];
                    assert_eq!(bounds[i], (window[r.lower], window[r.upper]));
                }
            }
        }
    }
}

#[test]
fn empty_window_is_rejected() {
    let values = [1, 2, 3];
    assert!(matches!(rolling_median(0, &values), Err(FilterError::InvalidArgument)));
    assert!(matches!(rolling_quantile(0, &values, &[]), Err(FilterError::InvalidArgument)));
}

#[test]
fn empty_input_is_rejected() {
    let values: [i64; 0] = [];
    assert!(matches!(rolling_median(3, &values), Err(FilterError::InvalidArgument)));
    assert!(matches!(
        rolling_bounds(3, &values, &ranks_of(0.5, 3)),
        Err(FilterError::InvalidArgument)
    ));
}

#[test]
fn ranks_outside_the_window_are_rejected() {
    let values = [1, 2, 3];
    // a quantile above one puts the upper rank past the window
    let ranks = ranks_of(1.5, 3);
    assert!(matches!(rolling_quantile(3, &values, &ranks), Err(FilterError::InvalidArgument)));
    // too few pairs of ranks
    let ranks = ranks_of(0.5, 2);
    assert!(matches!(rolling_quantile(3, &values, &ranks), Err(FilterError::InvalidArgument)));
    // lower above upper
    let ranks = [Ranks { lower: 0, upper: 0 }, Ranks { lower: 1, upper: 0 }];
    assert!(matches!(rolling_quantile(2, &values, &ranks), Err(FilterError::InvalidArgument)));
}
