use timeseries_db::database::{
    collect_query_points, database_stats, order_tables, recover_memtable, write_point,
};
use timeseries_db::{Config, Error, Memtable, Point, Query, SSTable};

fn bits(v: f64) -> u64 {
    v.to_bits()
}

fn table_over(timestamps: &[i64]) -> SSTable {
    let mut m = Memtable::default();
    for &t in timestamps {
        m.insert(Point::new(t, "m", bits(1.0))).unwrap();
    }
    SSTable::create(&m).0
}

#[test]
fn default_config_values() {
    let c = Config::default();
    assert_eq!(c.max_memtable_size, 1073741824);
    assert!(c.wal_sync);
    assert_eq!(c.sst_dir, "data/sst");
    assert_eq!(c.wal_dir, "data/wal");
}

#[test]
fn recovery_orders_by_time_and_keeps_log_order() {
    let points = vec![
        Point::new(30, "m", bits(1.0)),
        Point::new(10, "m", bits(2.0)),
        Point::new(30, "m", bits(3.0)),
        Point::new(20, "m", bits(4.0)),
    ];
    let m = recover_memtable(1000, &points).unwrap();
    let got: Vec<(i64, u64)> = m.to_vec().iter().map(|p| (p.timestamp, p.value)).collect();
    assert_eq!(
        got,
        vec![(10, bits(2.0)), (20, bits(4.0)), (30, bits(1.0)), (30, bits(3.0))]
    );
    let total: usize = points.iter().map(|p| p.size()).sum();
    assert_eq!(m.size(), total);
    assert_eq!(m.size(), 4 * 21);
    assert!(!m.needs_flush());
}

#[test]
fn recovery_stops_at_first_invalid_point() {
    let points = vec![
        Point::new(10, "m", bits(1.0)),
        Point::new(-5, "m", bits(2.0)),
        Point::new(20, "", bits(3.0)),
    ];
    match recover_memtable(1000, &points) {
        Err(Error::InvalidTimestamp(t)) => assert_eq!(t, -5),
        other => panic!("unexpected: {:?}", other),
    }
    assert!(recover_memtable(1000, &Vec::new()).unwrap().is_empty());
}

#[test]
fn writing_reports_when_a_flush_is_due() {
    let mut m = Memtable::new(42);
    assert!(!write_point(&mut m, Point::new(1, "m", bits(1.0))).unwrap());
    assert!(write_point(&mut m, Point::new(2, "m", bits(1.0))).unwrap());
    assert_eq!(m.len(), 2);
    match write_point(&mut m, Point::new(3, "m", f64::NAN.to_bits())) {
        Err(Error::Query(msg)) => assert_eq!(msg, "invalid value: NaN"),
        other => panic!("unexpected: {:?}", other),
    }
    assert_eq!(m.len(), 2);
    assert_eq!(m.size(), 42);
}

#[test]
fn tables_are_ordered_by_time_range() {
    const B: i64 = 60_000_000_000;
    let tables = vec![
        table_over(&[500, 900]),
        table_over(&[0, 2 * B]),
        table_over(&[500, 700]),
        table_over(&[0, B, 2 * B]),
        table_over(&[]),
    ];
    let ordered = order_tables(tables);
    let ranges: Vec<(i64, i64)> = ordered.iter().map(|t| t.time_range()).collect();
    assert_eq!(ranges, vec![(0, 0), (0, 2 * B), (0, 2 * B), (500, 700), (500, 900)]);
    // the two tables over (0, 2B) keep their order: two buckets, then three
    assert_eq!(ordered[1].index_entries().len(), 2);
    assert_eq!(ordered[2].index_entries().len(), 3);
}

#[test]
fn queries_select_the_metric_and_read_tables() {
    let mut m = Memtable::default();
    m.insert(Point::new(1000, "cpu", bits(1.0))).unwrap();
    m.insert(Point::new(2000, "mem", bits(2.0))).unwrap();
    m.insert(Point::new(3000, "cpu", bits(3.0))).unwrap();
    let q = Query::new("cpu", 0, 10_000);
    let before = collect_query_points(&m, &Vec::new(), &q).unwrap();
    let values: Vec<u64> = before.iter().map(|p| p.value).collect();
    assert_eq!(values, vec![bits(1.0), bits(3.0)]);

    // flush: the points move to a table, and the query reads the same points
    let (table, bytes) = SSTable::create(&m);
    let reopened = SSTable::open(&bytes).unwrap();
    m.clear();
    let after = collect_query_points(&m, &vec![table], &q).unwrap();
    assert_eq!(after, before);
    let after_reopen = collect_query_points(&m, &vec![reopened], &q).unwrap();
    assert_eq!(after_reopen, before);

    // newer points in the memtable come in time order with the table's
    m.insert(Point::new(2500, "cpu", bits(9.0))).unwrap();
    let table = SSTable::open(&bytes).unwrap();
    let mixed = collect_query_points(&m, &vec![table], &q).unwrap();
    let ts: Vec<i64> = mixed.iter().map(|p| p.timestamp).collect();
    assert_eq!(ts, vec![1000, 2500, 3000]);
    assert!(collect_query_points(&m, &Vec::new(), &Query::new("disk", 0, 10_000)).unwrap().is_empty());
}

#[test]
fn recovery_rebuilds_what_the_writes_built() {
    let points = vec![
        Point::new(30, "m", bits(1.0)).with_tag("a", "1"),
        Point::new(10, "m", bits(2.0)),
        Point::new(30, "n", bits(3.0)),
        Point::new(20, "m", bits(4.0)),
        Point::new(10, "n", bits(5.0)),
    ];
    let recovered = recover_memtable(500, &points).unwrap();
    let mut written = Memtable::new(500);
    for p in &points {
        write_point(&mut written, p.clone()).unwrap();
    }
    assert_eq!(recovered.to_vec(), written.to_vec());
    assert_eq!(recovered.size(), written.size());
    assert_eq!(recovered.needs_flush(), written.needs_flush());
}

#[test]
fn flush_keeps_the_order_without_ties() {
    let mut older = Memtable::default();
    older.insert(Point::new(100, "cpu", bits(1.0))).unwrap();
    older.insert(Point::new(300, "cpu", bits(3.0))).unwrap();
    let old_table = SSTable::create(&older).0;
    let mut m = Memtable::default();
    m.insert(Point::new(200, "cpu", bits(2.0))).unwrap();
    m.insert(Point::new(400, "cpu", bits(4.0))).unwrap();
    let q = Query::new("cpu", 0, 1000);
    let before = collect_query_points(&m, &vec![SSTable::create(&older).0], &q).unwrap();
    let flushed = SSTable::create(&m).0;
    m.clear();
    let after = collect_query_points(&m, &vec![old_table, flushed], &q).unwrap();
    assert_eq!(before, after);
    let ts: Vec<i64> = after.iter().map(|p| p.timestamp).collect();
    assert_eq!(ts, vec![100, 200, 300, 400]);
}

#[test]
fn test_database_open() {
    // A new database: an empty log, no table file
    let memtable = recover_memtable(Config::default().max_memtable_size, &Vec::new()).unwrap();
    let tables: Vec<SSTable> = order_tables(Vec::new());
    let stats = database_stats(&memtable, tables.len(), "data");
    assert_eq!(stats.memtable_points, 0);
    assert_eq!(stats.num_sstables, 0);
}

#[test]
fn test_database_write_and_query() {
    let mut memtable = recover_memtable(Config::default().max_memtable_size, &Vec::new()).unwrap();

    // Write points
    let point = Point::new(1000, "test.metric", bits(1.0)).with_tag("user", "casey");
    write_point(&mut memtable, point).unwrap();

    // Query
    let query = Query::new("test.metric", 0, 2000).with_tag("user", "casey");
    let found = collect_query_points(&memtable, &Vec::new(), &query).unwrap();
    let results = timeseries_db::query::filter_by_tags(&found, query.tags.as_ref().unwrap());
    assert_eq!(results.len(), 1);
    assert_eq!(f64::from_bits(results[0].value), 1.0);
}

#[test]
fn test_database_flush() {
    let config = Config { max_memtable_size: 100, ..Config::default() };
    let mut memtable = recover_memtable(config.max_memtable_size, &Vec::new()).unwrap();
    let mut tables: Vec<SSTable> = Vec::new();

    // Write enough points to trigger flush
    for i in 0..10 {
        let due = write_point(&mut memtable, Point::new(i, "test.metric", bits(i as f64))).unwrap();
        if due {
            let (table, _bytes) = SSTable::create(&memtable);
            tables.push(table);
            memtable.clear();
        }
    }

    // Should have flushed to SSTable
    let stats = database_stats(&memtable, tables.len(), "data");
    assert!(stats.num_sstables > 0 || stats.memtable_points > 0);
    assert_eq!(stats.num_sstables, 2);
    assert_eq!(stats.memtable_points, 2);
    let all = collect_query_points(&memtable, &tables, &Query::new("test.metric", 0, 10)).unwrap();
    let ts: Vec<i64> = all.iter().map(|p| p.timestamp).collect();
    assert_eq!(ts, (0..10).collect::<Vec<i64>>());
}

#[test]
fn a_damaged_table_fails_the_queries_that_reach_it() {
    let mut file = vec![0u8; 16];
    file[..4].copy_from_slice(b"TSDB");
    file[4] = 1;
    file[6] = 1;
    file.extend_from_slice(&1u32.to_le_bytes());
    file.extend_from_slice(&0i64.to_le_bytes());
    file.extend_from_slice(&1000u64.to_le_bytes());
    file.extend_from_slice(&16u64.to_le_bytes());
    file.extend_from_slice(&[0u8; 12]);
    file.extend_from_slice(b"TSDB");
    let damaged = SSTable::open(&file).unwrap();
    let m = Memtable::default();
    // its time range (0, 0) meets a query from 0 on
    match collect_query_points(&m, &vec![damaged], &Query::new("m", 0, 10)) {
        Err(Error::Corruption(msg)) => assert_eq!(msg, "invalid data block"),
        other => panic!("unexpected {:?}", other),
    }
    let damaged = SSTable::open(&file).unwrap();
    assert!(collect_query_points(&m, &vec![damaged], &Query::new("m", 5, 10)).unwrap().is_empty());
}
