use hdrhist::{HDRHist, Probability, Quantile};

fn boundary_samples() -> HDRHist {
    let mut hist = HDRHist::new();
    for _ in 0..2400 { hist.add_value(1); }
    for _ in 0..200  { hist.add_value(2); }
    for _ in 0..7400 { hist.add_value(3); }
    hist.add_value(5);
    hist
}

fn of(num: u128, den: u128) -> Probability {
    Probability { num, den }
}

fn q(num: u32, den: u32) -> Quantile {
    Quantile { num, den }
}

#[test]
fn empty_histogram_has_no_points() {
    for bits in [0usize, 4, 16] {
        let hist = HDRHist::with_precision(bits).unwrap();
        assert!(hist.ccdf().is_empty());
        assert!(hist.ccdf_upper_bound().is_empty());
        assert!(hist.ccdf_lower_bound().is_empty());
    }
}

#[test]
fn empty_histogram_has_zero_brackets() {
    let hist = HDRHist::new();
    let summary = hist.summary();
    assert_eq!(summary.len(), 7);
    for (_, lower, upper) in summary {
        assert_eq!((lower, upper), (0, 0));
    }
    assert_eq!(
        hist.quantiles(&[q(0, 1), q(1, 2), q(1, 1)]),
        vec![(q(0, 1), 0, 0), (q(1, 2), 0, 0), (q(1, 1), 0, 0)]);
    assert_eq!(hist.quantiles(&[]), vec![]);
}

#[test]
fn ccdf_of_boundary_samples() {
    assert_eq!(
        boundary_samples().ccdf(),
        vec![(1, of(10002, 10002), 2400),
            (2, of(7602, 10002), 200),
            (3, of(7402, 10002), 7400),
            (4, of(2, 10002), 0),
            (5, of(2, 10002), 1),
            (6, of(1, 10002), 0)]);
}

#[test]
fn ccdf_bounds_of_boundary_samples() {
    let hist = boundary_samples();
    assert_eq!(
        hist.ccdf_upper_bound(),
        vec![(2, of(10002, 10002)),
            (3, of(7602, 10002)),
            (4, of(7402, 10002)),
            (5, of(2, 10002)),
            (6, of(2, 10002))]);
    assert_eq!(
        hist.ccdf_lower_bound(),
        vec![(1, of(7602, 10002)),
            (2, of(7402, 10002)),
            (3, of(2, 10002)),
            (4, of(2, 10002)),
            (5, of(1, 10002))]);
}

#[test]
fn ccdf_is_monotone() {
    let mut hist = HDRHist::new();
    let mut v: u64 = 1;
    for i in 0..500u64 {
        v = v.wrapping_mul(6364136223846793005).wrapping_add(1442695040888963407);
        hist.add_value(v >> (i % 64));
    }
    let points = hist.ccdf();
    assert!(points.len() >= 2);
    for pair in points.windows(2) {
        assert!(pair[0].0 < pair[1].0);
        assert!(pair[0].1.num >= pair[1].1.num);
        assert_eq!(pair[0].1.den, 501);
        assert_eq!(pair[0].1.num - pair[1].1.num, pair[0].2 as u128);
    }
    let first = points[0];
    let last = points[points.len() - 1];
    assert_eq!(first.1, of(501, 501));
    assert!(first.2 > 0);
    assert_eq!(last.1, of(1, 501));
    assert_eq!(last.2, 0);
    assert!(points[points.len() - 2].2 > 0);
}

#[test]
fn one_distinct_value_gives_two_points() {
    for v in [0u64, 1, 15, 16, 1_000_000, u64::MAX - 1, u64::MAX] {
        let mut hist = HDRHist::new();
        for _ in 0..3 { hist.add_value(v); }
        let points = hist.ccdf();
        assert_eq!(points.len(), 2);
        assert_eq!(points[0].1, of(4, 4));
        assert_eq!(points[0].2, 3);
        assert_eq!(points[1].1, of(1, 4));
        assert_eq!(points[1].2, 0);
        assert!(points[0].0 <= v);
        assert!(v < points[1].0 || v == u64::MAX);
    }
}

#[test]
fn ccdf_of_the_first_and_the_last_slot() {
    let mut hist = HDRHist::new();
    hist.add_value(0);
    hist.add_value(u64::MAX);
    let points = hist.ccdf();
    assert_eq!(points.len(), 977);
    assert_eq!(points[0], (0, of(3, 3), 1));
    assert_eq!(points[1], (1, of(2, 3), 0));
    assert_eq!(points[975], (31 << 59, of(2, 3), 1));
    assert_eq!(points[976], (u64::MAX, of(1, 3), 0));
}

#[test]
fn quantiles_of_a_small_sample() {
    let mut hist = HDRHist::new();
    for v in [1u64, 2, 3] { hist.add_value(v); }
    assert_eq!(
        hist.quantiles(&[q(3, 10), q(1, 3), q(34, 100), q(2, 3), q(67, 100), q(1, 1)]),
        vec![(q(3, 10), 1, 2),
            (q(1, 3), 1, 2),
            (q(34, 100), 2, 3),
            (q(2, 3), 2, 3),
            (q(67, 100), 3, 4),
            (q(1, 1), 3, 4)]);
}

#[test]
fn quantile_bracket_holds_the_sample_at_the_quantile() {
    let mut samples: Vec<u64> = Vec::new();
    let mut v: u64 = 7;
    for i in 0..400u64 {
        v = v.wrapping_mul(6364136223846793005).wrapping_add(1442695040888963407);
        samples.push((v >> (i % 60)) % (u64::MAX - 1));
    }
    let mut hist = HDRHist::new();
    for s in &samples { hist.add_value(*s); }
    samples.sort();
    // Every quantile from 0 to 1 in steps of 1/200, in a scrambled order.
    let asked: Vec<Quantile> = (0..=200u32).map(|k| q((k * 77) % 201, 200)).collect();
    let brackets = hist.quantiles(&asked);
    assert_eq!(brackets.len(), 201);
    for (quantile, lower, upper) in brackets {
        // The sample at the place quantile * n, rounded up, counted from
        // one; the first sample for quantile zero.
        let place = ((quantile.num as usize * samples.len() + 199) / 200).max(1);
        let at = samples[place - 1];
        assert!(lower <= at && at < upper);
    }
}

#[test]
fn quantile_zero_is_the_smallest_sample() {
    let mut hist = HDRHist::new();
    hist.add_value(1);
    hist.add_value(3);
    assert_eq!(hist.quantiles(&[q(0, 1)]), vec![(q(0, 1), 1, 2)]);
    assert_eq!(hist.quantiles(&[q(0, 1000)]), vec![(q(0, 1000), 1, 2)]);
    let hist = boundary_samples();
    assert_eq!(hist.quantiles(&[q(0, 1), q(1, 10001)]), vec![(q(0, 1), 1, 2), (q(1, 10001), 1, 2)]);
}

#[test]
fn each_bracket_depends_on_its_own_quantile() {
    let mut hist = HDRHist::new();
    hist.add_value(1);
    hist.add_value(3);
    assert_eq!(
        hist.quantiles(&[q(1, 1), q(1, 4)]),
        vec![(q(1, 1), 3, 4), (q(1, 4), 1, 2)]);
    let hist = boundary_samples();
    assert_eq!(
        hist.quantiles(&[q(1, 1), q(1, 4), q(0, 1)]),
        vec![(q(1, 1), 5, 6), (q(1, 4), 2, 3), (q(0, 1), 1, 2)]);
    assert_eq!(
        hist.quantiles(&[q(1, 2), q(1, 4), q(1, 1), q(1, 2)]),
        vec![(q(1, 2), 3, 4), (q(1, 4), 2, 3), (q(1, 1), 5, 6), (q(1, 2), 3, 4)]);
}

#[test]
fn quantiles_in_any_order_agree_with_one_at_a_time() {
    let hist = boundary_samples();
    let asked = [q(999, 1000), q(1, 4), q(1, 1), q(0, 1), q(3, 4), q(1, 2), q(1, 4), q(23, 100)];
    let together = hist.quantiles(&asked);
    for (k, quantile) in asked.iter().enumerate() {
        assert_eq!(hist.quantiles(&[*quantile]), vec![together[k]]);
    }
    assert_eq!(together[7], (q(23, 100), 1, 2));
}

#[test]
fn quantile_that_is_no_fraction_of_one() {
    let hist = boundary_samples();
    // Above one: the walk goes to the last point.
    assert_eq!(hist.quantiles(&[q(3, 2)]), vec![(q(3, 2), 5, 6)]);
    assert_eq!(hist.quantiles(&[q(1, 0)]), vec![(q(1, 0), 5, 6)]);
    // Nothing over nothing: the walk stays at the start.
    assert_eq!(hist.quantiles(&[q(0, 0)]), vec![(q(0, 0), 1, 2)]);
    // The next one starts afresh.
    assert_eq!(
        hist.quantiles(&[q(3, 2), q(1, 4), q(1, 0), q(1, 2)]),
        vec![(q(3, 2), 5, 6), (q(1, 4), 2, 3), (q(1, 0), 5, 6), (q(1, 2), 3, 4)]);
}

#[test]
fn walk_quantiles_reads_the_counts() {
    let points = vec![(10u64, of(1, 1), 1u64), (20, of(1, 1), 3), (30, of(1, 1), 0)];
    assert_eq!(
        hdrhist::quantile::walk_quantiles(&points, &[q(1, 4), q(1, 2), q(1, 1)]),
        vec![(q(1, 4), 10, 20), (q(1, 2), 20, 30), (q(1, 1), 20, 30)]);
    assert_eq!(
        hdrhist::quantile::walk_quantiles(&points, &[q(1, 1), q(0, 1), q(1, 4)]),
        vec![(q(1, 1), 20, 30), (q(0, 1), 10, 20), (q(1, 4), 10, 20)]);
    assert_eq!(hdrhist::quantile::walk_quantiles(&[], &[q(1, 2)]), vec![(q(1, 2), 0, 0)]);
    // A single point has no second value to close a bracket with.
    let one = vec![(10u64, of(1, 1), 2u64)];
    assert_eq!(
        hdrhist::quantile::walk_quantiles(&one, &[q(0, 1), q(1, 2)]),
        vec![(q(0, 1), 0, 0), (q(1, 2), 0, 10)]);
}

#[test]
fn summary_has_the_seven_quantiles() {
    let asked: Vec<Quantile> = boundary_samples().summary().into_iter().map(|b| b.0).collect();
    assert_eq!(
        asked,
        vec![q(250, 1000), q(500, 1000), q(750, 1000), q(950, 1000), q(990, 1000),
            q(999, 1000), q(1000, 1000)]);
}

#[test]
fn summary_string_of_boundary_samples() {
    assert_eq!(
        boundary_samples().summary_string(),
        "╭   2.000000e0    3.000000e0    3.000000e0    3.000000e0    3.000000e0    3.000000e0    5.000000e0  ╮\n\
         |   3.000000e0    4.000000e0    4.000000e0    4.000000e0    4.000000e0    4.000000e0    6.000000e0  |\n\
         ╰ [    0.25          0.5           0.75     ]--- 0.95  ------- 0.99  ------- 0.999 -------| max     ╯");
}

#[test]
fn summary_string_of_large_values() {
    let mut hist = HDRHist::new();
    hist.add_value(1_000_000);
    hist.add_value(u64::MAX);
    assert_eq!(
        hist.summary_string(),
        "╭   9.830400e5    9.830400e5    1.787028e19   1.787028e19   1.787028e19   1.787028e19   1.787028e19 ╮\n\
         |   1.015808e6    1.015808e6    1.844674e19   1.844674e19   1.844674e19   1.844674e19   1.844674e19 |\n\
         ╰ [    0.25          0.5           0.75     ]--- 0.95  ------- 0.99  ------- 0.999 -------| max     ╯");
}

#[test]
fn summary_string_of_empty_histogram() {
    assert_eq!(
        HDRHist::new().summary_string(),
        "╭   0.000000e0    0.000000e0    0.000000e0    0.000000e0    0.000000e0    0.000000e0    0.000000e0  ╮\n\
         |   0.000000e0    0.000000e0    0.000000e0    0.000000e0    0.000000e0    0.000000e0    0.000000e0  |\n\
         ╰ [    0.25          0.5           0.75     ]--- 0.95  ------- 0.99  ------- 0.999 -------| max     ╯");
}

#[test]
fn summary_string_has_three_rows_of_equal_width() {
    let text = boundary_samples().summary_string();
    let rows: Vec<&str> = text.split('\n').collect();
    assert_eq!(rows.len(), 3);
    for row in rows {
        assert_eq!(row.chars().count(), 2 + 7 * 14 + 1);
    }
}

#[test]
fn render_summary_lays_out_the_cells() {
    let lower: Vec<String> = vec!["a".to_string(), "bc".to_string()];
    let upper: Vec<String> = vec!["".to_string()];
    assert_eq!(
        hdrhist::render::render_summary(&lower, &upper),
        "╭  a bc╮\n|  |\n\
         ╰ [    0.25          0.5           0.75     ]--- 0.95  ------- 0.99  ------- 0.999 -------| max     ╯");
}
