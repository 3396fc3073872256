use timeseries_db::{compress_gorilla, decompress_gorilla, Memtable, Point, Query};

#[test]
fn test_basic_usage() {
    let mut memtable = Memtable::default();
    memtable
        .insert(
            Point::new(1736359200000000000, "activity.completed", 1.0f64.to_bits())
                .with_tag("user", "casey")
                .with_tag("project", "equilibrium-tokens"),
        )
        .unwrap();
    let query = Query::new("activity.completed", 1736359200000000000 - 10, 1736359200000000000 + 10)
        .with_tag("user", "casey");
    assert!(query.validate().is_ok());
    let points = memtable.query(query.start..query.end);
    assert_eq!(points.len(), 1);
    let values: Vec<u64> = points.iter().map(|p| p.value).collect();
    assert_eq!(decompress_gorilla(&compress_gorilla(&values)), values);
}
