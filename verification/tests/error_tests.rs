use timeseries_db::Error;

#[test]
fn error_messages() {
    let cases = vec![
        (Error::Serialization("a".to_owned()), "Serialization error: a"),
        (Error::Deserialization("b".to_owned()), "Deserialization error: b"),
        (Error::Corruption("invalid magic bytes".to_owned()), "Corruption detected: invalid magic bytes"),
        (Error::InvalidTimestamp(-5), "Invalid timestamp: -5"),
        (Error::InvalidTimestamp(0), "Invalid timestamp: 0"),
        (Error::InvalidTimestamp(i64::MIN), "Invalid timestamp: -9223372036854775808"),
        (Error::InvalidTimestamp(i64::MAX), "Invalid timestamp: 9223372036854775807"),
        (Error::InvalidMetricName("empty metric name".to_owned()), "Invalid metric name: empty metric name"),
        (Error::Query("start must be before end".to_owned()), "Query error: start must be before end"),
        (Error::Compression("c".to_owned()), "Compression error: c"),
        (Error::DatabaseClosed, "Database closed"),
        (Error::WalCorruption("d".to_owned()), "WAL corruption: d"),
        (Error::SstableNotFound("e".to_owned()), "SSTable not found: e"),
        (Error::InvalidConfig("f".to_owned()), "Invalid configuration: f"),
    ];
    for (e, text) in cases {
        assert_eq!(e.message(), text);
    }
}

#[test]
fn io_error_message_carries_the_io_text() {
    let e = Error::Io(std::io::Error::new(std::io::ErrorKind::Other, "disk on fire"));
    assert_eq!(e.message(), "IO error: disk on fire");
}
