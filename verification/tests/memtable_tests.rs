use timeseries_db::{Error, Memtable, Point};

fn bits(v: f64) -> u64 {
    v.to_bits()
}

#[test]
fn test_memtable_insert() {
    let mut memtable = Memtable::default();

    let point = Point::new(1736359200000000000, "test.metric", bits(1.0));
    memtable.insert(point.clone()).unwrap();

    assert_eq!(memtable.len(), 1);
    assert!(!memtable.is_empty());
}

#[test]
fn test_memtable_query() {
    let mut memtable = Memtable::default();

    memtable.insert(Point::new(1000, "test.metric", bits(1.0))).unwrap();
    memtable.insert(Point::new(2000, "test.metric", bits(2.0))).unwrap();
    memtable.insert(Point::new(3000, "test.metric", bits(3.0))).unwrap();

    let results = memtable.query(1500..2500);
    assert_eq!(results.len(), 1);
    assert_eq!(f64::from_bits(results[0].value), 2.0);
}

#[test]
fn test_memtable_flush() {
    let mut memtable = Memtable::new(100); // Small max size

    // Insert points until flush is needed
    for i in 0..10 {
        memtable.insert(Point::new(i, "test.metric", bits(i as f64))).unwrap();
    }

    assert!(memtable.needs_flush());
}

#[test]
fn test_memtable_time_range() {
    let mut memtable = Memtable::default();

    memtable.insert(Point::new(1000, "test.metric", bits(1.0))).unwrap();
    memtable.insert(Point::new(2000, "test.metric", bits(2.0))).unwrap();
    memtable.insert(Point::new(3000, "test.metric", bits(3.0))).unwrap();

    let range = memtable.time_range();
    assert_eq!(range, Some((1000, 3000)));
}

#[test]
fn test_memtable_clear() {
    let mut memtable = Memtable::default();

    memtable.insert(Point::new(1000, "test.metric", bits(1.0))).unwrap();
    memtable.clear();

    assert!(memtable.is_empty());
    assert_eq!(memtable.size(), 0);
}

#[test]
fn out_of_order_inserts_come_back_in_time_order() {
    let mut m = Memtable::new(1 << 20);
    m.insert(Point::new(300, "m", bits(3.0))).unwrap();
    m.insert(Point::new(100, "m", bits(1.0))).unwrap();
    m.insert(Point::new(200, "m", bits(2.0))).unwrap();
    m.insert(Point::new(100, "m", bits(1.5))).unwrap();
    let all = m.to_vec();
    let ts: Vec<i64> = all.iter().map(|p| p.timestamp).collect();
    assert_eq!(ts, vec![100, 100, 200, 300]);
    // Equal timestamps keep their insertion order.
    assert_eq!(f64::from_bits(all[0].value), 1.0);
    assert_eq!(f64::from_bits(all[1].value), 1.5);
    assert_eq!(m.time_range(), Some((100, 300)));
    // The range is half-open.
    let r = m.query(100..300);
    assert_eq!(r.len(), 3);
    assert_eq!(m.query(301..400).len(), 0);
}

#[test]
fn invalid_point_is_rejected_and_changes_nothing() {
    let mut m = Memtable::new(1000);
    m.insert(Point::new(5, "m", bits(1.0))).unwrap();
    let before = m.size();
    match m.insert(Point::new(-1, "m", bits(1.0))) {
        Err(Error::InvalidTimestamp(t)) => assert_eq!(t, -1),
        other => panic!("unexpected {:?}", other),
    }
    assert_eq!(m.len(), 1);
    assert_eq!(m.size(), before);
}

#[test]
fn size_adds_point_sizes() {
    let mut m = Memtable::new(50);
    let p = Point::new(5, "abc", bits(1.0)).with_tag("k", "vv");
    let s = p.size();
    assert_eq!(s, 8 + 8 + 2 + 3 + 2 + (2 + 1 + 2 + 2));
    assert!(m.can_hold(&p));
    m.insert(p).unwrap();
    assert_eq!(m.size(), s);
    assert!(!m.needs_flush());
    m.insert(Point::new(6, "abc", bits(1.0))).unwrap();
    assert_eq!(m.size(), s + 23);
    assert!(m.needs_flush());
    assert_eq!(m.time_range(), Some((5, 6)));
    m.clear();
    assert_eq!(m.time_range(), None);
}
