use std::time::Duration;
use timeseries_db::database::collect_query_points;
use timeseries_db::point::Tags;
use timeseries_db::query::{
    filter_by_tags, group_by_key, group_by_tag, group_by_time, matches_tags, sort_by_timestamp,
    time_bucket,
};
use timeseries_db::{Aggregation, Column, Error, GroupBy, Memtable, Point, Query};

fn bits(v: f64) -> u64 {
    v.to_bits()
}

#[test]
fn test_query_creation() {
    let query = Query::new("test.metric", 0, 1000)
        .with_tag("user", "casey")
        .with_downsample(Duration::from_secs(60), Aggregation::Avg);

    assert_eq!(query.metric, "test.metric");
    assert_eq!(query.tags.as_ref().unwrap().len(), 1);
    assert!(query.downsample.is_some());
}

#[test]
fn test_query_validation() {
    let query = Query::new("test.metric", 0, 1000);
    assert!(query.validate().is_ok());

    let invalid_query = Query::new("", 0, 1000);
    assert!(invalid_query.validate().is_err());

    let invalid_range = Query::new("test.metric", 1000, 0);
    assert!(invalid_range.validate().is_err());
}

#[test]
fn query_defaults_and_builders() {
    let q = Query::default();
    assert_eq!(q.metric, "");
    assert_eq!(q.start, 0);
    assert_eq!(q.end, i64::MAX);
    assert_eq!(q.columns, vec![Column::All]);
    let q = Query::new("m", 1, 2)
        .with_aggregation(Aggregation::Max)
        .with_aggregation(Aggregation::Count);
    assert_eq!(q.aggregations, vec![Aggregation::Max, Aggregation::Count]);
    assert!(q.group_by.is_none());
    let mut t = Tags::new();
    t.insert("a".to_string(), "b".to_string());
    let q = q.with_tags(t);
    assert_eq!(q.tags.unwrap().get("a"), Some(&"b".to_string()));
}

#[test]
fn query_validation_errors() {
    match Query::new("", -1, 5).validate() {
        Err(Error::InvalidMetricName(m)) => assert_eq!(m, "empty metric name"),
        other => panic!("unexpected {:?}", other),
    }
    match Query::new("m", 3, -5).validate() {
        Err(Error::InvalidTimestamp(t)) => assert_eq!(t, 3),
        other => panic!("unexpected {:?}", other),
    }
    match Query::new("m", 5, 5).validate() {
        Err(Error::Query(m)) => assert_eq!(m, "start must be before end"),
        other => panic!("unexpected {:?}", other),
    }
}

#[test]
fn tag_filtering() {
    let a = Point::new(1, "m", bits(1.0)).with_tag("user", "casey").with_tag("p", "x");
    let b = Point::new(2, "m", bits(2.0)).with_tag("user", "alex");
    let c = Point::new(3, "m", bits(3.0));
    let mut filter = Tags::new();
    filter.insert("user".to_string(), "casey".to_string());
    assert!(matches_tags(&a, &filter));
    assert!(!matches_tags(&b, &filter));
    assert!(!matches_tags(&c, &filter));
    assert!(matches_tags(&c, &Tags::new()));
    let kept = filter_by_tags(&vec![a.clone(), b, c], &filter);
    assert_eq!(kept, vec![a]);
}

#[test]
fn buckets_round_toward_zero() {
    assert_eq!(time_bucket(125, 60), 120);
    assert_eq!(time_bucket(120, 60), 120);
    assert_eq!(time_bucket(59, 60), 0);
    assert_eq!(time_bucket(-59, 60), 0);
    assert_eq!(time_bucket(-61, 60), -60);
}

#[test]
fn grouping_keeps_first_appearance_order() {
    let groups = group_by_key(&vec![5, 3, 5, 7, 3, 5]);
    let got: Vec<(i64, Vec<usize>)> = groups.into_iter().map(|g| (g.key, g.members)).collect();
    assert_eq!(got, vec![(5, vec![0, 2, 5]), (3, vec![1, 4]), (7, vec![3])]);
    assert!(group_by_key(&vec![]).is_empty());
}

#[test]
fn grouping_points() {
    let pts = vec![
        Point::new(10, "m", bits(1.0)).with_tag("u", "a"),
        Point::new(70, "m", bits(2.0)).with_tag("u", "b"),
        Point::new(75, "m", bits(3.0)).with_tag("u", "a"),
        Point::new(130, "m", bits(4.0)),
    ];
    let by_time: Vec<(i64, Vec<usize>)> =
        group_by_time(&pts, 60).into_iter().map(|g| (g.key, g.members)).collect();
    assert_eq!(by_time, vec![(0, vec![0]), (60, vec![1, 2]), (120, vec![3])]);
    let by_tag: Vec<Vec<usize>> = group_by_tag(&pts, "u").into_iter().map(|g| g.members).collect();
    assert_eq!(by_tag, vec![vec![0, 2], vec![1], vec![3]]);
}

#[test]
fn sorting_is_stable() {
    let pts = vec![
        Point::new(3, "m", bits(1.0)),
        Point::new(1, "m", bits(2.0)),
        Point::new(3, "m", bits(3.0)),
        Point::new(2, "m", bits(4.0)),
        Point::new(1, "m", bits(5.0)),
    ];
    let sorted = sort_by_timestamp(pts);
    let got: Vec<(i64, f64)> = sorted.iter().map(|p| (p.timestamp, f64::from_bits(p.value))).collect();
    assert_eq!(got, vec![(1, 2.0), (1, 5.0), (2, 4.0), (3, 1.0), (3, 3.0)]);
}

#[test]
fn collecting_points_for_a_query() {
    let mut m = Memtable::default();
    m.insert(Point::new(1000, "test.metric", bits(1.0)).with_tag("user", "casey")).unwrap();
    m.insert(Point::new(3000, "test.metric", bits(2.0))).unwrap();
    let q = Query::new("test.metric", 0, 2000).with_tag("user", "casey");
    let found = collect_query_points(&m, &Vec::new(), &q).unwrap();
    assert_eq!(found.len(), 1);
    let kept = filter_by_tags(&found, q.tags.as_ref().unwrap());
    assert_eq!(kept.len(), 1);
    assert_eq!(f64::from_bits(kept[0].value), 1.0);
    match collect_query_points(&m, &Vec::new(), &Query::new("test.metric", 5, 1)) {
        Err(Error::Query(msg)) => assert_eq!(msg, "start must be before end"),
        other => panic!("unexpected {:?}", other),
    }
}

#[test]
fn queries_clone() {
    let q = Query::new("m", 1, 2)
        .with_tag("k", "v")
        .with_downsample(std::time::Duration::from_secs(60), Aggregation::Avg)
        .with_group_by(vec![GroupBy::Time(std::time::Duration::from_secs(5))]);
    let c = q.clone();
    assert_eq!(c.metric, "m");
    assert_eq!((c.start, c.end), (1, 2));
    assert_eq!(c.downsample.as_ref().unwrap().interval, std::time::Duration::from_secs(60));
    assert!(matches!(c.group_by.as_ref().unwrap()[0], GroupBy::Time(d) if d == std::time::Duration::from_secs(5)));
    assert!(c.tags.unwrap() == q.tags.unwrap());
}
