use timeseries_db::error::push_decimal;
use timeseries_db::wal::{frame_record, parse_wal};
use timeseries_db::{checksum_ieee, Error};

#[test]
fn test_wal_append_and_replay() {
    let record1 = b"point 1000 test.metric 1.0".to_vec();
    let record2 = b"point 2000 test.metric 2.0".to_vec();

    let mut log = Vec::new();
    log.extend(frame_record(&record1));
    log.extend(frame_record(&record2));

    let recovered = parse_wal(&log);
    assert_eq!(recovered.payloads.len(), 2);
    assert_eq!(recovered.payloads[0], record1);
    assert_eq!(recovered.payloads[1], record2);
    assert!(recovered.corruption.is_none());
}

#[test]
fn test_wal_truncate() {
    // A log with one record
    let mut log = frame_record(b"point 1000 test.metric 1.0");
    assert_eq!(parse_wal(&log).payloads.len(), 1);

    // Truncating the log file leaves no byte: replay returns nothing
    log.truncate(0);
    let recovered = parse_wal(&log);
    assert_eq!(recovered.payloads.len(), 0);
    assert!(recovered.corruption.is_none());

    // Records appended after the truncation are the only ones replayed
    log.extend(frame_record(b"point 2000 test.metric 2.0"));
    assert_eq!(parse_wal(&log).payloads, vec![b"point 2000 test.metric 2.0".to_vec()]);
}

#[test]
fn checksum_is_crc32_ieee() {
    assert_eq!(checksum_ieee(&[]), 0);
    assert_eq!(checksum_ieee(b"123456789"), 0xCBF4_3926);
    assert_eq!(checksum_ieee(&[1, 2, 3]), 1438416925);
    assert_eq!(checksum_ieee(b"The quick brown fox jumps over the lazy dog"), 0x414F_A339);
}

#[test]
fn record_layout() {
    assert_eq!(frame_record(&[1, 2, 3]), vec![29, 128, 188, 85, 3, 0, 0, 0, 1, 2, 3]);
    assert_eq!(frame_record(&[]), vec![0; 8]);
}

#[test]
fn cut_short_record_is_dropped() {
    let mut log = frame_record(b"first");
    let second = frame_record(b"second");
    for cut in 0..second.len() {
        let mut l = log.clone();
        l.extend_from_slice(&second[..cut]);
        let r = parse_wal(&l);
        assert_eq!(r.payloads, vec![b"first".to_vec()]);
        assert!(r.corruption.is_none());
    }
    log.extend(second);
    assert_eq!(parse_wal(&log).payloads.len(), 2);
}

#[test]
fn checksum_mismatch_is_corruption() {
    let mut log = frame_record(&[1, 2, 3]);
    let mut bad = frame_record(&[9, 9]);
    bad[8] = 8;
    log.extend(bad);
    log.extend(frame_record(&[4]));
    let r = parse_wal(&log);
    assert_eq!(r.payloads, vec![vec![1, 2, 3]]);
    match r.corruption {
        Some(Error::WalCorruption(m)) => assert_eq!(m, "WAL corruption: checksum mismatch: stored=3922137362, computed=4040958035"),
        other => panic!("unexpected {:?}", other),
    }
}

#[test]
fn decimal_text_of_numbers() {
    for (n, text) in [(0u64, "0"), (7, "7"), (10, "10"), (1000, "1000"), (u64::MAX, "18446744073709551615")] {
        let mut s = String::from("n=");
        push_decimal(&mut s, n);
        assert_eq!(s, format!("n={}", text));
    }
}
