use timeseries_db::sstable::{write_string, write_varint, COMPRESSION_GORILLA};
use timeseries_db::{Error, Memtable, Point, SSTable};

fn bits(v: f64) -> u64 {
    v.to_bits()
}

#[test]
fn test_sstable_create() {
    let mut memtable = Memtable::default();
    memtable.insert(Point::new(1000, "test.metric", bits(1.0))).unwrap();
    memtable.insert(Point::new(2000, "test.metric", bits(2.0))).unwrap();

    let (sstable, _bytes) = SSTable::create(&memtable);
    assert_eq!(sstable.index_entries().len(), 1); // One bucket
}

#[test]
fn test_sstable_open() {
    let mut memtable = Memtable::default();
    memtable.insert(Point::new(1000, "test.metric", bits(1.0))).unwrap();

    let (_created, bytes) = SSTable::create(&memtable);
    let sstable = SSTable::open(&bytes).unwrap();

    assert_eq!(sstable.compression(), COMPRESSION_GORILLA);
}

#[test]
fn table_file_exact_bytes() {
    let mut memtable = Memtable::default();
    memtable.insert(Point::new(1000, "m", bits(1.0))).unwrap();
    let (table, bytes) = SSTable::create(&memtable);
    let mut expected: Vec<u8> = Vec::new();
    expected.extend_from_slice(b"TSDB");
    expected.extend_from_slice(&[1, 0, 1, 0, 0, 0, 0, 0, 0, 0, 0, 0]);
    // data block: count, delta 1000 as varint, compressed values, metric, tag count
    expected.extend_from_slice(&[1, 0, 0, 0, 0xE8, 0x07, 3, 0, 0, 0, 0x84, 0xF2, 0x3F, 1, b'm', 0]);
    // index block: one entry, bucket 0 at offset 16
    expected.extend_from_slice(&[1, 0, 0, 0]);
    expected.extend_from_slice(&0i64.to_le_bytes());
    expected.extend_from_slice(&16u64.to_le_bytes());
    // footer: index offset, index size, data size, CRC-32 of the 52 bytes before it
    expected.extend_from_slice(&32u64.to_le_bytes());
    expected.extend_from_slice(&20u32.to_le_bytes());
    expected.extend_from_slice(&16u32.to_le_bytes());
    expected.extend_from_slice(&1084572628u32.to_le_bytes());
    expected.extend_from_slice(b"TSDB");
    assert_eq!(bytes, expected);
    assert_eq!(table.index_entries(), &vec![(0i64, 16u64)]);
    assert_eq!(table.time_range(), (1000, 1000));
}

#[test]
fn buckets_become_index_entries() {
    let mut memtable = Memtable::default();
    memtable.insert(Point::new(5, "m", bits(1.0))).unwrap();
    memtable.insert(Point::new(60_000_000_001, "m", bits(2.0))).unwrap();
    memtable.insert(Point::new(60_000_000_002, "m", bits(3.0)).with_tag("k", "v")).unwrap();
    memtable.insert(Point::new(180_000_000_000, "m", bits(4.0))).unwrap();
    let (table, bytes) = SSTable::create(&memtable);
    let keys: Vec<i64> = table.index_entries().iter().map(|e| e.0).collect();
    assert_eq!(keys, vec![0, 60_000_000_000, 180_000_000_000]);
    assert_eq!(table.index_entries()[0].1, 16);
    assert_eq!(table.time_range(), (5, 180_000_000_000));
    let reopened = SSTable::open(&bytes).unwrap();
    assert_eq!(reopened.index_entries(), table.index_entries());
    assert_eq!(reopened.time_range(), (5, 180_000_000_000));
    let compacted = reopened.compact(&table);
    assert_eq!(compacted.index_entries(), reopened.index_entries());
    let early = reopened.query(0..100).unwrap();
    assert_eq!(early.len(), 1);
    assert_eq!(early[0], Point::new(5, "m", bits(1.0)));
    assert_eq!(reopened.query(i64::MIN..i64::MAX).unwrap(), memtable.to_vec());
    let middle = reopened.query(60_000_000_002..180_000_000_001).unwrap();
    assert_eq!(middle.len(), 2);
    assert_eq!(middle[0].tags.get("k").map(|v| v.as_str()), Some("v"));
    assert_eq!(table.query(6..7).unwrap().len(), 0);
}

#[test]
fn empty_table() {
    let (table, bytes) = SSTable::create(&Memtable::default());
    assert_eq!(bytes.len(), 16 + 4 + 24);
    assert_eq!(table.time_range(), (0, 0));
    assert!(SSTable::open(&bytes).unwrap().index_entries().is_empty());
}

#[test]
fn open_reports_bad_files() {
    assert!(matches!(SSTable::open(&[0u8; 10]), Err(Error::Io(_))));
    let mut bad_magic = vec![0u8; 40];
    bad_magic[..4].copy_from_slice(b"XSDB");
    match SSTable::open(&bad_magic) {
        Err(Error::Corruption(m)) => assert_eq!(m, "invalid magic bytes"),
        other => panic!("unexpected {:?}", other),
    }
    let mut bad_version = vec![0u8; 40];
    bad_version[..4].copy_from_slice(b"TSDB");
    bad_version[4] = 2;
    match SSTable::open(&bad_version) {
        Err(Error::Corruption(m)) => assert_eq!(m, "unsupported version: 2"),
        other => panic!("unexpected {:?}", other),
    }
    let mut short = vec![0u8; 20];
    short[..4].copy_from_slice(b"TSDB");
    short[4] = 1;
    assert!(matches!(SSTable::open(&short), Err(Error::Io(_))));
    let mut no_footer_magic = vec![0u8; 40];
    no_footer_magic[..4].copy_from_slice(b"TSDB");
    no_footer_magic[4] = 1;
    match SSTable::open(&no_footer_magic) {
        Err(Error::Corruption(m)) => assert_eq!(m, "invalid footer magic"),
        other => panic!("unexpected {:?}", other),
    }
    let mut far_index = no_footer_magic.clone();
    far_index[36..40].copy_from_slice(b"TSDB");
    far_index[16..24].copy_from_slice(&1000u64.to_le_bytes());
    assert!(matches!(SSTable::open(&far_index), Err(Error::Io(_))));
}

#[test]
fn duplicate_index_keys_keep_the_last_offset() {
    let mut file = vec![0u8; 16];
    file[..4].copy_from_slice(b"TSDB");
    file[4] = 1;
    file[6] = 1;
    // index: three entries, keys 7, 3, 7
    file.extend_from_slice(&3u32.to_le_bytes());
    // offsets 7 and 8 point at zero bytes of the header: empty data blocks
    for (k, o) in [(7i64, 1u64), (3, 7), (7, 8)] {
        file.extend_from_slice(&k.to_le_bytes());
        file.extend_from_slice(&o.to_le_bytes());
    }
    file.extend_from_slice(&16u64.to_le_bytes());
    file.extend_from_slice(&[0u8; 12]);
    file.extend_from_slice(b"TSDB");
    let t = SSTable::open(&file).unwrap();
    assert_eq!(t.index_entries(), &vec![(3, 7), (7, 8)]);
    assert_eq!(t.time_range(), (0, 0));
    assert_eq!(t.query(0..10).unwrap().len(), 0);
    // an entry that points into the index is not a block: the table opens, with its
    // index, and reading its points fails
    let mut bad = file.clone();
    bad[16 + 4 + 16 + 8..16 + 4 + 32].copy_from_slice(&30u64.to_le_bytes());
    let damaged = SSTable::open(&bad).unwrap();
    assert_eq!(damaged.index_entries(), &vec![(3, 30), (7, 8)]);
    assert_eq!(damaged.time_range(), (0, 0));
    match damaged.query(0..10) {
        Err(Error::Corruption(m)) => assert_eq!(m, "invalid data block"),
        other => panic!("unexpected {:?}", other),
    }
}

#[test]
fn varints_and_strings() {
    let mut out = Vec::new();
    write_varint(&mut out, 0);
    write_varint(&mut out, 127);
    write_varint(&mut out, 128);
    write_varint(&mut out, 300);
    assert_eq!(out, vec![0, 0x7F, 0x80, 0x01, 0xAC, 0x02]);
    let mut out = Vec::new();
    write_varint(&mut out, u64::MAX);
    assert_eq!(out.len(), 10);
    assert_eq!(out[9], 1);
    let mut s = Vec::new();
    write_string(&mut s, "hé");
    assert_eq!(s, vec![3, b'h', 0xC3, 0xA9]);
}
