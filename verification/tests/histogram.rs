use hdrhist::{HDRHist, Probability, Quantile};

fn share(p: &Probability) -> f64 {
    p.num as f64 / p.den as f64
}

fn as_float(bracket: (Quantile, u64, u64)) -> (f64, u64, u64) {
    (bracket.0.num as f64 / bracket.0.den as f64, bracket.1, bracket.2)
}

fn from_float(p: f64) -> Quantile {
    Quantile { num: (p * 1000.0).round() as u32, den: 1000 }
}

#[test]
fn no_panic_on_empty_hist() {
    let hist = HDRHist::new();
    assert_eq!(hist.ccdf().into_iter().next(), None);
    assert_eq!(hist.summary().into_iter().map(as_float).last(), Some((1.0, 0, 0)));
    assert!(hist.summary_string().len() > 0);
}

#[test]
fn single_value() {
    let mut hist = HDRHist::new();
    hist.add_value(1_000_000);
    let ccdf = hist.ccdf().iter().map(|(v, p, c)| (*v, share(p), *c)).collect::<Vec<_>>();
    // One sample and the one added to both sides: the closing point has 1/2.
    assert_eq!(
        ccdf.iter().find(|(v, _, _)| v >= &1_000_000).map(|(_, p, _)| p),
        Some(&0.5));
    assert_eq!(
        ccdf.iter().take_while(|(v, _, _)| v < &1_000_000).last().map(|(_, p, _)| p),
        Some(&1.0));
}

#[test]
fn quartiles() {
    let mut hist = HDRHist::new();
    // [--------+---------+--------]
    // |      |      |      |      |
    for _ in 0..1_000_000 {
        hist.add_value(100_000_000);
        hist.add_value(200_000_000);
        hist.add_value(300_000_000);
    }
    let asked: Vec<Quantile> = [0.25, 0.5, 0.75, 1.0].iter().cloned().map(from_float).collect();
    let quantiles = hist.quantiles(&asked).into_iter().map(as_float).collect::<Vec<_>>();
    for (p, v) in [
        (0.25, 100_000_000),
        (0.5,  200_000_000),
        (0.75, 300_000_000),
        (1.0,  300_000_000),
    ].iter() {
        assert_eq!(
            quantiles.iter().find(|(f, _, _)| f == p)
                .map(|(_, a, b)| a <= v && b > v),
            Some(true));
    }
}

#[test]
fn boundary_test() {
    let mut hist = HDRHist::new();
    for _ in 0..2400 { hist.add_value(1); }
    for _ in 0..200  { hist.add_value(2); }
    for _ in 0..7400 { hist.add_value(3); }
    hist.add_value(5);
    assert_eq!(
        hist.summary().into_iter().map(as_float).collect::<Vec<_>>(),
        vec![(0.25, 2, 3),
            (0.5, 3, 4),
            (0.75, 3, 4),
            (0.95, 3, 4),
            (0.99, 3, 4),
            (0.999, 3, 4),
            (1.0, 5, 6)]);
}

#[test]
fn add_value_counts_in_one_slot() {
    let mut hist = HDRHist::new();
    for n in 1..=1000u64 {
        hist.add_value(1_000_000);
        assert_eq!(hist.count_of(1_000_000), n);
    }
    // 983040 ..= 1015807 share the slot of 1_000_000.
    assert_eq!(hist.count_of(983_040), 1000);
    assert_eq!(hist.count_of(1_015_807), 1000);
    assert_eq!(hist.count_of(983_039), 0);
    assert_eq!(hist.count_of(1_015_808), 0);
    assert_eq!(hist.count_of(0), 0);
    assert_eq!(hist.count_of(u64::MAX), 0);
    let total: u64 = hist.ccdf().iter().map(|(_, _, c)| *c).sum();
    assert_eq!(total, 1000);
}

#[test]
fn add_value_takes_every_value() {
    let mut hist = HDRHist::new();
    hist.add_value(0);
    hist.add_value(u64::MAX);
    assert_eq!(hist.count_of(0), 1);
    assert_eq!(hist.count_of(u64::MAX), 1);
    assert_eq!(hist.count_of(1), 0);
}

#[test]
fn new_has_the_default_precision() {
    let hist = HDRHist::new();
    assert_eq!(hist.precision(), 4);
    assert_eq!(hdrhist::histogram::DEFAULT_PRECISION_BITS, 4);
}

#[test]
fn with_precision_checks_the_limit() {
    assert_eq!(hdrhist::buckets::MAX_PRECISION_BITS, 22);
    assert!(HDRHist::with_precision(23).is_none());
    assert!(HDRHist::with_precision(usize::MAX).is_none());
    for bits in 0..=16 {
        let hist = HDRHist::with_precision(bits).unwrap();
        assert_eq!(hist.precision(), bits);
        assert!(hist.ccdf().is_empty());
    }
}

#[test]
fn precision_sets_the_resolution() {
    let mut coarse = HDRHist::with_precision(0).unwrap();
    let mut fine = HDRHist::with_precision(8).unwrap();
    coarse.add_value(1000);
    fine.add_value(1000);
    assert_eq!(coarse.count_of(512), 1);
    assert_eq!(coarse.count_of(1023), 1);
    assert_eq!(coarse.count_of(1024), 0);
    assert_eq!(fine.count_of(1000), 1);
    assert_eq!(fine.count_of(1001), 1);
    assert_eq!(fine.count_of(999), 0);
    assert_eq!(fine.count_of(1002), 0);
}

#[test]
fn clone_keeps_the_counters() {
    let mut hist = HDRHist::new();
    hist.add_value(7);
    hist.add_value(7);
    let mut copy = hist.clone();
    assert_eq!(copy.count_of(7), 2);
    assert_eq!(copy.precision(), 4);
    copy.add_value(7);
    assert_eq!(copy.count_of(7), 3);
    assert_eq!(hist.count_of(7), 2);
}

#[test]
fn combined_adds_counter_by_counter() {
    let mut a = HDRHist::new();
    let mut b = HDRHist::new();
    for _ in 0..3 { a.add_value(10); }
    for _ in 0..4 { b.add_value(10); }
    a.add_value(500);
    b.add_value(70_000);
    let merged = a.combined(b);
    assert_eq!(merged.count_of(10), 7);
    assert_eq!(merged.count_of(500), 1);
    assert_eq!(merged.count_of(70_000), 1);
    assert_eq!(merged.count_of(11), 0);
    assert_eq!(merged.precision(), 4);
}

#[test]
fn combined_is_commutative_and_associative() {
    let mut a = HDRHist::new();
    let mut b = HDRHist::new();
    let mut c = HDRHist::new();
    for v in [1u64, 5, 5, 900, 1 << 40] { a.add_value(v); }
    for v in [5u64, 17, 900, u64::MAX] { b.add_value(v); }
    for v in [0u64, 1, 1 << 40, 1 << 41] { c.add_value(v); }
    let ab = a.clone().combined(b.clone());
    let ba = b.clone().combined(a.clone());
    assert_eq!(ab.ccdf(), ba.ccdf());
    let left = a.clone().combined(b.clone()).combined(c.clone());
    let right = a.combined(b.combined(c));
    assert_eq!(left.ccdf(), right.ccdf());
    assert_eq!(left.count_of(5), 3);
    assert_eq!(left.count_of(1 << 40), 2);
}

#[test]
fn combined_with_empty_changes_nothing() {
    let mut a = HDRHist::new();
    for v in [3u64, 3, 8, 1000] { a.add_value(v); }
    let merged = a.clone().combined(HDRHist::new());
    assert_eq!(merged.ccdf(), a.ccdf());
}

#[test]
fn combined_counters_stop_at_the_maximum() {
    let mut hist = HDRHist::new();
    hist.add_value(42);
    for _ in 0..63 {
        hist = hist.clone().combined(hist);
    }
    assert_eq!(hist.count_of(42), 1 << 63);
    hist = hist.clone().combined(hist);
    assert_eq!(hist.count_of(42), u64::MAX);
    hist.add_value(42);
    assert_eq!(hist.count_of(42), u64::MAX);
    assert_eq!(hist.count_of(41), 0);
}
