use timeseries_db::point::Tags;
use timeseries_db::{Error, Point};

fn bits(v: f64) -> u64 {
    v.to_bits()
}

#[test]
fn test_point_creation() {
    let point = Point::new(1736359200000000000, "activity.completed", bits(1.0))
        .with_tag("user", "casey")
        .with_tag("project", "equilibrium-tokens");

    assert_eq!(point.timestamp, 1736359200000000000);
    assert_eq!(point.metric, "activity.completed");
    assert_eq!(f64::from_bits(point.value), 1.0);
    assert_eq!(point.tags.len(), 2);
    assert_eq!(point.tags.get("user"), Some(&"casey".to_string()));
}

#[test]
fn test_point_validation() {
    let point = Point::new(1736359200000000000, "activity.completed", bits(1.0));
    assert!(point.validate().is_ok());

    let invalid_point = Point::new(-1, "activity.completed", bits(1.0));
    assert!(invalid_point.validate().is_err());

    let invalid_metric = Point::new(1736359200000000000, "", bits(1.0));
    assert!(invalid_metric.validate().is_err());

    let invalid_value = Point::new(1736359200000000000, "activity.completed", bits(f64::NAN));
    assert!(invalid_value.validate().is_err());
}

#[test]
fn test_point_size() {
    let point = Point::new(1736359200000000000, "activity.completed", bits(1.0))
        .with_tag("user", "casey");

    // 8 (timestamp) + 8 (value) + 2 + 18 (metric) + 2 + 2 + 4 (user) + 2 + 5 (casey) = 51 bytes
    assert_eq!(point.size(), 51);
}

#[test]
fn validation_reports_each_error() {
    match Point::new(-5, "m", bits(1.0)).validate() {
        Err(Error::InvalidTimestamp(t)) => assert_eq!(t, -5),
        other => panic!("unexpected {:?}", other),
    }
    match Point::new(0, "", bits(1.0)).validate() {
        Err(Error::InvalidMetricName(m)) => assert_eq!(m, "empty metric name"),
        other => panic!("unexpected {:?}", other),
    }
    let long = "x".repeat(257);
    match Point::new(0, &long, bits(1.0)).validate() {
        Err(Error::InvalidMetricName(m)) => assert_eq!(m, "metric name too long"),
        other => panic!("unexpected {:?}", other),
    }
    let exact = "x".repeat(256);
    assert!(Point::new(0, &exact, bits(1.0)).validate().is_ok());
    match Point::new(0, "m", bits(f64::NAN)).validate() {
        Err(Error::Query(m)) => assert_eq!(m, "invalid value: NaN"),
        other => panic!("unexpected {:?}", other),
    }
    match Point::new(0, "m", bits(f64::INFINITY)).validate() {
        Err(Error::Query(m)) => assert_eq!(m, "invalid value: inf"),
        other => panic!("unexpected {:?}", other),
    }
    match Point::new(0, "m", bits(f64::NEG_INFINITY)).validate() {
        Err(Error::Query(m)) => assert_eq!(m, "invalid value: -inf"),
        other => panic!("unexpected {:?}", other),
    }
}

#[test]
fn metric_length_counts_bytes() {
    // "é" takes two bytes: 128 of them make 256 bytes, 129 make 258.
    let ok = "é".repeat(128);
    assert!(Point::new(0, &ok, bits(0.5)).validate().is_ok());
    let too_long = "é".repeat(129);
    assert!(Point::new(0, &too_long, bits(0.5)).validate().is_err());
    let p = Point::new(0, "é", bits(0.5));
    assert_eq!(p.size(), 8 + 8 + 2 + 2 + 2);
}

#[test]
fn tags_overwrite_and_size() {
    let p = Point::new(1, "m", bits(2.0))
        .with_tag("a", "1")
        .with_tag("b", "22")
        .with_tag("a", "333");
    assert_eq!(p.tags.len(), 2);
    assert_eq!(p.tags.get("a"), Some(&"333".to_string()));
    assert_eq!(p.tags.get("b"), Some(&"22".to_string()));
    assert_eq!(p.tags.get("c"), None);
    assert_eq!(p.size(), 8 + 8 + 2 + 1 + 2 + (2 + 1 + 2 + 3) + (2 + 1 + 2 + 2));
    assert_eq!(p.checked_size(), Some(p.size()));
}

#[test]
fn with_tags_replaces_all_tags() {
    let mut tags = Tags::new();
    tags.insert("k".to_string(), "v".to_string());
    let p = Point::new(1, "m", bits(2.0)).with_tag("a", "b").with_tags(tags);
    assert_eq!(p.tags.len(), 1);
    assert_eq!(p.tags.get("k"), Some(&"v".to_string()));
    assert_eq!(p.tags.get("a"), None);
    let q = p.clone();
    assert_eq!(q, p);
}

#[test]
fn tag_equality_ignores_order() {
    let mut a = Tags::new();
    a.insert("a".to_owned(), "1".to_owned());
    a.insert("b".to_owned(), "2".to_owned());
    let mut b = Tags::new();
    b.insert("b".to_owned(), "2".to_owned());
    b.insert("a".to_owned(), "1".to_owned());
    assert!(a == b);
    b.insert("a".to_owned(), "3".to_owned());
    assert!(a != b);
    let mut c = Tags::new();
    c.insert("a".to_owned(), "1".to_owned());
    assert!(a != c);
    let p = Point::new(1, "m", 0).with_tag("x", "1").with_tag("y", "2");
    let q = Point::new(1, "m", 0).with_tag("y", "2").with_tag("x", "1");
    assert_eq!(p, q);
}
