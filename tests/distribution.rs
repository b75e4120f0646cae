use ort::distribution::{Distribution, InvalidDistribution, Percentile};

fn pct(scaled: u64) -> Percentile {
    Percentile::try_from_scaled(scaled).unwrap()
}

#[test]
fn distribution_convert_percentiles() {
    assert_eq!(Percentile::try_from_percent(0).unwrap(), Percentile::min_value());
    assert_eq!(Percentile::parse("0.0").unwrap(), Percentile::min_value());
    assert_eq!(Percentile::try_from_percent(50).unwrap(), pct(50_0000));
    assert_eq!(Percentile::parse("50.0").unwrap(), pct(50_0000));
    assert_eq!(Percentile::try_from_percent(75).unwrap(), pct(75_0000));
    assert_eq!(Percentile::parse("75.0").unwrap(), pct(75_0000));
    assert_eq!(Percentile::try_from_percent(99).unwrap(), pct(99_0000));
    assert_eq!(Percentile::parse("99.0").unwrap(), pct(99_0000));
    assert_eq!(Percentile::parse("99.99").unwrap(), pct(99_9900));
    assert_eq!(Percentile::parse("99.99999").unwrap(), pct(99_9999));
    assert_eq!(Percentile::try_from_percent(100).unwrap(), Percentile::max_value());
    assert_eq!(Percentile::parse("100.0").unwrap(), Percentile::max_value());

    assert!(Percentile::parse("-1.0").is_err());
    assert!(Percentile::parse("101.0").is_err());
}

#[test]
fn distribution_distributions() {
    let d = Distribution::default();
    assert_eq!(d.min(), 0);
    assert_eq!(d.try_get(50).unwrap(), 0);
    assert_eq!(d.max(), 0);

    let d = Distribution::build(vec![(0, 1000u64), (100, 2000)]).unwrap();
    assert_eq!(d.min(), 1000);
    assert_eq!(d.try_get(50).unwrap(), 1500);
    assert_eq!(d.max(), 2000);
}

#[test]
fn parse() {
    let d = Distribution::from_str("123").unwrap();
    assert_eq!(d.min(), 123);
    assert_eq!(d.try_get(50).unwrap(), 123);
    assert_eq!(d.max(), 123);

    let d = Distribution::from_str("50=123").unwrap();
    assert_eq!(d.min(), 0);
    assert_eq!(d.try_get(50).unwrap(), 123);
    assert_eq!(d.max(), 123);

    let d = Distribution::from_str("0=1,50=123,100=234").unwrap();
    assert_eq!(d.min(), 1);
    assert_eq!(d.try_get(50).unwrap(), 123);
    assert_eq!(d.max(), 234);

    // Values A, B, C, D stand for 10, 20, 30, 40.
    let d = Distribution::from_str("0=10,50=20,90=30,100=40").unwrap();
    assert_eq!(d.min(), 10);
    assert_eq!(d.try_get(50).unwrap(), 20);
    assert_eq!(d.try_get(90).unwrap(), 30);
    assert_eq!(d.try_get(95).unwrap(), 35);
    assert_eq!(d.max(), 40);
}

#[test]
fn interpolation_between_points() {
    let d = Distribution::build(vec![(0, 1), (100, 2001)]).unwrap();
    assert_eq!(d.get(pct(0)), 1);
    assert_eq!(d.get(pct(50_0000)), 1001);
    assert_eq!(d.get(pct(100_0000)), 2001);

    let p = Distribution::from_str("0=1,100=2001").unwrap();
    for s in [0u64, 1, 12_345, 50_0000, 77_7777, 100_0000] {
        assert_eq!(p.get(pct(s)), d.get(pct(s)));
    }
}

#[test]
fn interpolation_rounds_down() {
    let d = Distribution::build(vec![(0, 0), (100, 3)]).unwrap();
    // 3 * 333_333 / 1_000_000 = 0.999999
    assert_eq!(d.get(pct(333_333)), 0);
    assert_eq!(d.get(pct(333_334)), 1);
}

#[test]
fn build_fills_min_and_max() {
    let d = Distribution::build(vec![(50, 100)]).unwrap();
    assert_eq!(d.min(), 0);
    assert_eq!(d.max(), 100);
    assert_eq!(d.try_get(25).unwrap(), 50);
    assert_eq!(d.try_get(75).unwrap(), 100);
}

#[test]
fn build_later_pair_wins() {
    let d = Distribution::build(vec![(50, 100), (50, 200)]).unwrap();
    assert_eq!(d.try_get(50).unwrap(), 200);
    assert_eq!(d.max(), 200);
}

#[test]
fn build_sorts_pairs() {
    let d = Distribution::build(vec![(100, 30), (0, 10), (50, 20)]).unwrap();
    assert_eq!(d.min(), 10);
    assert_eq!(d.try_get(50).unwrap(), 20);
    assert_eq!(d.max(), 30);
}

#[test]
fn build_rejects_unordered() {
    assert!(matches!(
        Distribution::build(vec![(0, 10), (50, 5)]),
        Err(InvalidDistribution::Unordered)
    ));
    assert!(matches!(
        Distribution::build(vec![(101, 5)]),
        Err(InvalidDistribution::InvalidPercentile)
    ));
    assert!(matches!(
        Distribution::build(vec![(101, 5), (0, 10), (50, 5)]),
        Err(InvalidDistribution::InvalidPercentile)
    ));
}

#[test]
fn parse_errors() {
    assert!(matches!(Distribution::from_str(""), Err(InvalidDistribution::InvalidValue)));
    assert!(matches!(Distribution::from_str("abc"), Err(InvalidDistribution::InvalidValue)));
    assert!(matches!(Distribution::from_str("x=5"), Err(InvalidDistribution::InvalidPercentile)));
    assert!(matches!(Distribution::from_str("5,6"), Err(InvalidDistribution::InvalidPercentile)));
    assert!(matches!(Distribution::from_str("10=1,20=x"), Err(InvalidDistribution::InvalidValue)));
    assert!(matches!(Distribution::from_str("200=5,50=x"), Err(InvalidDistribution::InvalidValue)));
    assert!(matches!(Distribution::from_str("200=5"), Err(InvalidDistribution::InvalidPercentile)));
    assert!(matches!(Distribution::from_str("0=5,50=1"), Err(InvalidDistribution::Unordered)));
    assert!(matches!(Distribution::from_str("1=2=3"), Err(InvalidDistribution::InvalidValue)));
}

#[test]
fn parse_decimal_percentiles() {
    let d = Distribution::from_str("0=0,99.9=999,100=1000").unwrap();
    assert_eq!(d.get(pct(99_9000)), 999);
    assert!(Percentile::parse("100.00001").is_err());
    assert_eq!(Percentile::parse("-0").unwrap(), Percentile::min_value());
    assert_eq!(Percentile::parse(".5").unwrap(), pct(5_000));
    assert!(Percentile::parse(".").is_err());
    assert!(Percentile::parse("1.2.3").is_err());
}

#[test]
fn latency_distributions() {
    let d = Distribution::from_latency_str("0=1ms,50=1s,100=2s").unwrap();
    assert_eq!(d.min(), 1);
    assert_eq!(d.try_get(50).unwrap(), 1000);
    assert_eq!(d.max(), 2000);
    let d = Distribution::from_latency_str("0").unwrap();
    assert_eq!(d.max(), 0);
    assert!(matches!(
        Distribution::from_latency_str("50=5"),
        Err(InvalidDistribution::InvalidValue)
    ));
}

#[test]
fn sample_stays_within_bounds() {
    let d = Distribution::build(vec![(0, 10), (100, 20)]).unwrap();
    for _ in 0..1000 {
        let v = d.sample();
        assert!((10..=20).contains(&v));
    }
}

#[test]
fn sample_varies() {
    let d = Distribution::build(vec![(0, 0), (100, 1_000_000)]).unwrap();
    let first = d.sample();
    assert!((0..100).any(|_| d.sample() != first));
}
