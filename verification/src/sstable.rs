//! SSTable (Sorted String Table) file layout.
//!
//! A table file is a 16-byte header, the data blocks, the index block and a 24-byte
//! footer. Points are grouped into one-minute buckets; each bucket is one data block
//! and one index entry (bucket start, offset of its block).

use crate::compression::{compress_gorilla, gorilla_bytes};
use crate::error::{decimal, push_decimal, unexpected_eof, Error, Result};
use crate::memtable::{all_storable, all_valid, in_range, points_in_range, sorted_by_time, Memtable};
use crate::block::{block_ok, lemma_read_block, points_ok, read_block, read_block_at};
use crate::wal::{checksum_ieee, crc32};
use crate::point::{utf8_len, views, Point, PointView, TagView};
use crate::query::{bucket_start, time_bucket};
use vstd::bytes::*;
use vstd::prelude::*;
use vstd::slice::{slice_subrange, slice_to_vec};

verus! {

broadcast use vstd::seq::group_seq_axioms;

/// Format version written in the header.
pub const SSTABLE_VERSION: u16 = 1;

/// Values stored as they are.
pub const COMPRESSION_NONE: u8 = 0;

/// Values stored Gorilla-compressed.
pub const COMPRESSION_GORILLA: u8 = 1;

/// Width of a data block's time bucket: one minute, in nanoseconds.
pub const BUCKET_SIZE: i64 = 60_000_000_000;

/// The magic bytes "TSDB" that start and end a table file.
pub open spec fn magic() -> Seq<u8> {
    seq![0x54u8, 0x53u8, 0x44u8, 0x42u8]
}

/// The variable-length encoding of `v`: seven bits per byte, least significant group
/// first, the high bit set on every byte but the last.
pub open spec fn varint(v: u64) -> Seq<u8>
    decreases v,
{
    if v < 0x80 {
        seq![v as u8]
    } else {
        proof {
            assert(v >= 0x80 ==> v >> 7u64 < v) by (bit_vector);
        }
        seq![((v & 0x7f) | 0x80) as u8] + varint(v >> 7u64)
    }
}

/// Write a variable-length integer
pub fn write_varint(out: &mut Vec<u8>, value: u64)
    ensures
        final(out)@ == old(out)@ + varint(value),
{
    let mut v = value;
    while v >= 0x80
        invariant
            old(out)@ + varint(value) == out@ + varint(v),
        decreases v,
    {
        assert(v >= 0x80 ==> v >> 7u64 < v) by (bit_vector);
        let ghost prev = out@;
        out.push(((v & 0x7f) | 0x80) as u8);
        assert(prev + varint(v) =~= out@ + varint(v >> 7u64));
        v = v >> 7;
    }
    let ghost prev = out@;
    out.push(v as u8);
    assert(prev + varint(v) =~= out@);
}

/// A string as written in a table: its byte length as a varint, then its UTF-8 bytes.
pub open spec fn string_bytes(s: Seq<char>) -> Seq<u8> {
    varint(utf8_len(s) as u64) + vstd::utf8::encode_utf8(s)
}

/// Write a string with length prefix
pub fn write_string(out: &mut Vec<u8>, s: &str)
    ensures
        final(out)@ == old(out)@ + string_bytes(s@),
{
    let bytes = s.as_bytes();
    write_varint(out, bytes.len() as u64);
    let mut b = slice_to_vec(bytes);
    out.append(&mut b);
    assert(out@ =~= old(out)@ + string_bytes(s@));
}

/// The 16-byte header: magic, version, compression, nine reserved zero bytes.
pub open spec fn header_bytes() -> Seq<u8> {
    magic() + spec_u16_to_le_bytes(SSTABLE_VERSION) + seq![COMPRESSION_GORILLA] + Seq::new(
        9,
        |i: int| 0u8,
    )
}

fn push_magic(out: &mut Vec<u8>)
    ensures
        final(out)@ == old(out)@ + magic(),
{
    out.push(0x54u8);
    out.push(0x53u8);
    out.push(0x44u8);
    out.push(0x42u8);
    assert(out@ =~= old(out)@ + magic());
}

fn push_bytes(out: &mut Vec<u8>, mut bytes: Vec<u8>)
    ensures
        final(out)@ == old(out)@ + bytes@,
{
    out.append(&mut bytes);
}

fn write_header(out: &mut Vec<u8>)
    ensures
        final(out)@ == old(out)@ + header_bytes(),
{
    push_magic(out);
    push_bytes(out, u16_to_le_bytes(SSTABLE_VERSION));
    out.push(COMPRESSION_GORILLA);
    let mut i: usize = 0;
    let ghost before = out@;
    while i < 9
        invariant
            i <= 9,
            out@ == before + Seq::new(i as nat, |k: int| 0u8),
        decreases 9 - i,
    {
        out.push(0u8);
        assert(out@ =~= before + Seq::new((i + 1) as nat, |k: int| 0u8));
        i = i + 1;
    }
    assert(out@ =~= old(out)@ + header_bytes());
}

/// The timestamp before position `i` of a block: the previous point's, 0 for the first.
pub open spec fn prev_timestamp(ps: Seq<PointView>, i: int) -> i64 {
    if i == 0 {
        0
    } else {
        ps[i - 1].timestamp
    }
}

/// The timestamps of a block, each as the varint of its distance to the one before.
pub open spec fn timestamp_deltas(ps: Seq<PointView>) -> Seq<u8>
    decreases ps.len(),
{
    if ps.len() == 0 {
        Seq::empty()
    } else {
        timestamp_deltas(ps.drop_last()) + varint(
            (ps.last().timestamp - prev_timestamp(ps, ps.len() - 1)) as u64,
        )
    }
}

/// The values of the points.
pub open spec fn values_of(ps: Seq<PointView>) -> Seq<u64> {
    ps.map_values(|p: PointView| p.value)
}

/// The metric names of the points, one string each.
pub open spec fn metrics_bytes(ps: Seq<PointView>) -> Seq<u8>
    decreases ps.len(),
{
    if ps.len() == 0 {
        Seq::empty()
    } else {
        metrics_bytes(ps.drop_last()) + string_bytes(ps.last().metric)
    }
}

/// The tags of one point: key and value strings, tag after tag.
pub open spec fn tag_list_bytes(tags: Seq<TagView>) -> Seq<u8>
    decreases tags.len(),
{
    if tags.len() == 0 {
        Seq::empty()
    } else {
        tag_list_bytes(tags.drop_last()) + string_bytes(tags.last().0) + string_bytes(tags.last().1)
    }
}

/// The tags of the points: for each point the varint count of its tags, then the tags.
pub open spec fn tags_bytes(ps: Seq<PointView>) -> Seq<u8>
    decreases ps.len(),
{
    if ps.len() == 0 {
        Seq::empty()
    } else {
        tags_bytes(ps.drop_last()) + varint(ps.last().tags.len() as u64) + tag_list_bytes(
            ps.last().tags,
        )
    }
}

/// A data block: point count, timestamp deltas, compressed values with their length,
/// metric names, tags.
pub open spec fn block_bytes(ps: Seq<PointView>) -> Seq<u8> {
    let values = gorilla_bytes(values_of(ps));
    spec_u32_to_le_bytes(ps.len() as u32) + timestamp_deltas(ps) + spec_u32_to_le_bytes(
        values.len() as u32,
    ) + values + metrics_bytes(ps) + tags_bytes(ps)
}

/// Largest number of points one table can hold (the compressed values' bit count must
/// fit in a machine word).
pub open spec fn table_size_ok(n: nat) -> bool {
    76 * n + 8 <= usize::MAX
}

/// Write the data block of `points[lo..hi]`.
fn write_data_block(out: &mut Vec<u8>, points: &Vec<Point>, lo: usize, hi: usize)
    requires
        lo <= hi <= points@.len(),
        table_size_ok(points@.len() as nat),
        all_valid(views(points@)),
    ensures
        final(out)@ == old(out)@ + block_bytes(views(points@).subrange(lo as int, hi as int)),
{
    let ghost ps = views(points@).subrange(lo as int, hi as int);
    let n = hi - lo;
    push_bytes(out, u32_to_le_bytes(n as u32));
    let ghost after_count = out@;
    let mut prev: i64 = 0;
    let mut k: usize = lo;
    while k < hi
        invariant
            lo <= k <= hi <= points@.len(),
            all_valid(views(points@)),
            ps == views(points@).subrange(lo as int, hi as int),
            out@ == after_count + timestamp_deltas(ps.take(k - lo)),
            prev == prev_timestamp(ps, k - lo),
            prev >= 0,
        decreases hi - k,
    {
        let t = points[k].timestamp;
        assert(crate::point::point_valid(views(points@)[k as int]));
        assert(ps.take(k - lo + 1).drop_last() =~= ps.take(k - lo));
        write_varint(out, (t - prev) as u64);
        prev = t;
        k = k + 1;
    }
    assert(ps.take(hi - lo) =~= ps);
    let ghost after_deltas = out@;
    let mut values: Vec<u64> = Vec::new();
    let mut k: usize = lo;
    while k < hi
        invariant
            lo <= k <= hi <= points@.len(),
            ps == views(points@).subrange(lo as int, hi as int),
            values@ == values_of(ps.take(k - lo)),
        decreases hi - k,
    {
        values.push(points[k].value);
        assert(values@ =~= values_of(ps.take(k - lo + 1)));
        k = k + 1;
    }
    assert(ps.take(hi - lo) =~= ps);
    let compressed = compress_gorilla(values.as_slice());
    push_bytes(out, u32_to_le_bytes(compressed.len() as u32));
    push_bytes(out, compressed);
    let ghost after_values = out@;
    let mut k: usize = lo;
    while k < hi
        invariant
            lo <= k <= hi <= points@.len(),
            ps == views(points@).subrange(lo as int, hi as int),
            out@ == after_values + metrics_bytes(ps.take(k - lo)),
        decreases hi - k,
    {
        assert(ps.take(k - lo + 1).drop_last() =~= ps.take(k - lo));
        write_string(out, points[k].metric.as_str());
        k = k + 1;
    }
    let ghost after_metrics = out@;
    let mut k: usize = lo;
    while k < hi
        invariant
            lo <= k <= hi <= points@.len(),
            ps == views(points@).subrange(lo as int, hi as int),
            out@ == after_metrics + tags_bytes(ps.take(k - lo)),
        decreases hi - k,
    {
        assert(ps.take(k - lo + 1).drop_last() =~= ps.take(k - lo));
        let ghost before_point = out@;
        let tags = &points[k].tags;
        let count = tags.len();
        write_varint(out, count as u64);
        let ghost after_tag_count = out@;
        let mut t: usize = 0;
        while t < count
            invariant
                t <= count == tags@.len(),
                out@ == after_tag_count + tag_list_bytes(tags@.take(t as int)),
            decreases count - t,
        {
            assert(tags@.take(t + 1).drop_last() =~= tags@.take(t as int));
            let (key, value) = tags.entry(t);
            write_string(out, key.as_str());
            write_string(out, value.as_str());
            t = t + 1;
        }
        assert(tags@.take(count as int) =~= tags@);
        k = k + 1;
    }
    assert(ps.take(hi - lo) =~= ps);
}

/// Start of the one-minute bucket that holds `ts`.
pub open spec fn bucket_of(ts: i64) -> i64 {
    bucket_start(ts, BUCKET_SIZE) as i64
}

/// The points cut into runs of equal bucket, each with its bucket. For points in time
/// order these are the buckets, in increasing order.
pub open spec fn runs(ps: Seq<PointView>) -> Seq<(i64, Seq<PointView>)>
    decreases ps.len(),
{
    if ps.len() == 0 {
        Seq::empty()
    } else {
        let r = runs(ps.drop_last());
        let b = bucket_of(ps.last().timestamp);
        if r.len() > 0 && r.last().0 == b {
            r.update(r.len() - 1, (b, r.last().1.push(ps.last())))
        } else {
            r.push((b, seq![ps.last()]))
        }
    }
}

/// The data blocks of the runs, one after the other.
pub open spec fn blocks_bytes(rs: Seq<(i64, Seq<PointView>)>) -> Seq<u8>
    decreases rs.len(),
{
    if rs.len() == 0 {
        Seq::empty()
    } else {
        blocks_bytes(rs.drop_last()) + block_bytes(rs.last().1)
    }
}

/// Size of the header.
pub const HEADER_SIZE: u64 = 16;

/// Size of the footer.
pub const FOOTER_SIZE: u64 = 24;

/// The index entries of the runs: bucket start and offset of the run's block in the file.
pub open spec fn block_index(rs: Seq<(i64, Seq<PointView>)>) -> Seq<(i64, u64)> {
    Seq::new(rs.len(), |i: int| (rs[i].0, (HEADER_SIZE + blocks_bytes(rs.take(i)).len()) as u64))
}

/// One index entry: timestamp and offset, both little-endian 8-byte words.
pub open spec fn entry_bytes(e: (i64, u64)) -> Seq<u8> {
    spec_u64_to_le_bytes(e.0 as u64) + spec_u64_to_le_bytes(e.1)
}

/// The index entries, one after the other.
pub open spec fn entries_bytes(entries: Seq<(i64, u64)>) -> Seq<u8>
    decreases entries.len(),
{
    if entries.len() == 0 {
        Seq::empty()
    } else {
        entries_bytes(entries.drop_last()) + entry_bytes(entries.last())
    }
}

/// The index block: entry count, then the entries.
pub open spec fn index_bytes(entries: Seq<(i64, u64)>) -> Seq<u8> {
    spec_u32_to_le_bytes(entries.len() as u32) + entries_bytes(entries)
}

/// The footer: index offset, index size, size of the data blocks, checksum, magic.
pub open spec fn footer_bytes(index_offset: u64, index_size: u32, data_size: u32, checksum: u32) -> Seq<u8> {
    spec_u64_to_le_bytes(index_offset) + spec_u32_to_le_bytes(index_size) + spec_u32_to_le_bytes(
        data_size,
    ) + spec_u32_to_le_bytes(checksum) + magic()
}

/// Everything of the file of a table holding `ps` before its footer: header, data
/// blocks, index block.
pub open spec fn table_body(ps: Seq<PointView>) -> Seq<u8> {
    header_bytes() + blocks_bytes(runs(ps)) + index_bytes(block_index(runs(ps)))
}

/// The whole file of a table holding `ps`. The footer's sizes are stored cut to 32 bits;
/// its checksum is the CRC-32 of everything before it.
pub open spec fn table_bytes(ps: Seq<PointView>) -> Seq<u8> {
    let rs = runs(ps);
    let data = blocks_bytes(rs);
    let index = index_bytes(block_index(rs));
    let index_offset = HEADER_SIZE + data.len();
    table_body(ps) + footer_bytes(
        index_offset as u64,
        index.len() as u32,
        data.len() as u32,
        crc32(table_body(ps)),
    )
}

/// First and last timestamp, (0, 0) when there is no point.
pub open spec fn span(ps: Seq<PointView>) -> (i64, i64) {
    if ps.len() == 0 {
        (0, 0)
    } else {
        (ps[0].timestamp, ps.last().timestamp)
    }
}

/// The header takes `HEADER_SIZE` bytes.
proof fn lemma_header_len()
    ensures
        header_bytes().len() == HEADER_SIZE,
{
    lemma_auto_spec_u16_to_from_le_bytes();
}

/// The last run has the bucket of the last point.
proof fn lemma_runs_last(ps: Seq<PointView>)
    requires
        ps.len() > 0,
    ensures
        runs(ps).len() > 0,
        runs(ps).last().0 == bucket_of(ps.last().timestamp),
    decreases ps.len(),
{
}

/// A stretch of points of one bucket, after a change of bucket, forms one more run.
proof fn lemma_runs_extend(ps: Seq<PointView>, i: int, j: int, b: i64)
    requires
        0 <= i < j <= ps.len(),
        forall|k: int| i <= k < j ==> bucket_of(#[trigger] ps[k].timestamp) == b,
        i == 0 || bucket_of(ps[i - 1].timestamp) != b,
    ensures
        runs(ps.take(j)) == runs(ps.take(i)).push((b, ps.subrange(i, j))),
    decreases j - i,
{
    let s = ps.take(j);
    assert(s.drop_last() =~= ps.take(j - 1));
    assert(s.last() == ps[j - 1]);
    if j == i + 1 {
        if i > 0 {
            lemma_runs_last(ps.take(i));
            assert(ps.take(i).last() == ps[i - 1]);
        } else {
            assert(ps.take(i) =~= Seq::<PointView>::empty());
        }
        assert(ps.subrange(i, j) =~= seq![ps[i]]);
    } else {
        lemma_runs_extend(ps, i, j - 1, b);
        assert(ps.subrange(i, j - 1).push(ps[j - 1]) =~= ps.subrange(i, j));
    }
}

/// One more block adds one index entry, at the offset where its bytes begin.
proof fn lemma_block_index_push(rs: Seq<(i64, Seq<PointView>)>, x: (i64, Seq<PointView>))
    ensures
        block_index(rs.push(x)) == block_index(rs).push(
            (x.0, (HEADER_SIZE + blocks_bytes(rs).len()) as u64),
        ),
{
    let r2 = rs.push(x);
    assert forall|i: int| 0 <= i < rs.len() implies #[trigger] r2.take(i) == rs.take(i) by {
        assert(r2.take(i) =~= rs.take(i));
    }
    assert(r2.take(rs.len() as int) =~= rs);
    assert(block_index(r2) =~= block_index(rs).push(
        (x.0, (HEADER_SIZE + blocks_bytes(rs).len()) as u64),
    ));
}

fn write_index_block(out: &mut Vec<u8>, index: &Vec<(i64, u64)>)
    ensures
        final(out)@ == old(out)@ + index_bytes(index@),
{
    push_bytes(out, u32_to_le_bytes(index.len() as u32));
    let ghost base = out@;
    let mut i: usize = 0;
    while i < index.len()
        invariant
            i <= index@.len(),
            out@ == base + entries_bytes(index@.take(i as int)),
        decreases index@.len() - i,
    {
        assert(index@.take(i + 1).drop_last() =~= index@.take(i as int));
        let (ts, offset) = index[i];
        push_bytes(out, u64_to_le_bytes(ts as u64));
        push_bytes(out, u64_to_le_bytes(offset));
        i = i + 1;
    }
    assert(index@.take(index@.len() as int) =~= index@);
}

/// What a table records about its file.
pub struct SSTableView {
    pub index: Seq<(i64, u64)>,
    pub time_range: (i64, i64),
    pub compression: u8,
    /// The points of the data blocks, block after block; `None` when a block cannot be
    /// read.
    pub points: Option<Seq<PointView>>,
}

/// Sorted String Table (immutable, time-ordered storage)
#[derive(Debug)]
pub struct SSTable {
    /// Bucket start -> offset of the bucket's data block
    index: Vec<(i64, u64)>,
    time_range: (i64, i64),
    compression: u8,
    /// The points of the data blocks, block after block; `None` when a block cannot be
    /// read
    points: Option<Vec<Point>>,
}

impl View for SSTable {
    type V = SSTableView;

    closed spec fn view(&self) -> SSTableView {
        SSTableView {
            index: self.index@,
            time_range: self.time_range,
            compression: self.compression,
            points: match self.points {
                Some(v) => Some(views(v@)),
                None => None,
            },
        }
    }
}

impl SSTable {
    /// The index keeps one entry per bucket, by increasing bucket, as an ordered map.
    #[verifier::type_invariant]
    spec fn index_ordered(&self) -> bool {
        keys_increasing(self.index@)
    }
}

impl SSTable {
    /// Lay out the points of a memtable as a table file: the table and the file's bytes.
    #[verifier::spinoff_prover]
    #[verifier::rlimit(60)]
    pub fn create(memtable: &Memtable) -> (r: (SSTable, Vec<u8>))
        requires
            table_size_ok(memtable@.points.len()),
        ensures
            r.1@ == table_bytes(memtable@.points),
            r.0@ == (SSTableView {
                index: block_index(runs(memtable@.points)),
                time_range: span(memtable@.points),
                compression: COMPRESSION_GORILLA,
                points: Some(memtable@.points),
            }),
            table_fits(memtable@.points) ==> forall|o: Result<SSTable>|
                open_result(r.1@, o) ==> (o matches Ok(t) && t@ == r.0@),
    {
        let points = memtable.to_vec();
        let ghost ps = views(points@);
        let n = points.len();
        let mut out: Vec<u8> = Vec::new();
        write_header(&mut out);
        let time_range = if n == 0 {
            (0i64, 0i64)
        } else {
            (points[0].timestamp, points[n - 1].timestamp)
        };
        let mut index: Vec<(i64, u64)> = Vec::new();
        let mut i: usize = 0;
        assert(ps.take(0) =~= Seq::<PointView>::empty());
        assert(out@ =~= header_bytes() + blocks_bytes(runs(ps.take(0))));
        while i < n
            invariant
                n == points@.len(),
                ps == views(points@),
                table_size_ok(n as nat),
                all_valid(ps),
                i <= n,
                i == 0 || i == n || bucket_of(ps[i as int].timestamp) != bucket_of(ps[i - 1].timestamp),
                out@ == header_bytes() + blocks_bytes(runs(ps.take(i as int))),
                index@ == block_index(runs(ps.take(i as int))),
            decreases n - i,
        {
            let b = time_bucket(points[i].timestamp, BUCKET_SIZE);
            let mut j = i + 1;
            while j < n && time_bucket(points[j].timestamp, BUCKET_SIZE) == b
                invariant
                    n == points@.len(),
                    ps == views(points@),
                    i < j <= n,
                    b == bucket_of(ps[i as int].timestamp),
                    forall|k: int| i <= k < j ==> bucket_of(#[trigger] ps[k].timestamp) == b,
                decreases n - j,
            {
                j = j + 1;
            }
            let ghost rs = runs(ps.take(i as int));
            let ghost x = (b, ps.subrange(i as int, j as int));
            proof {
                lemma_runs_extend(ps, i as int, j as int, b);
                lemma_block_index_push(rs, x);
                lemma_header_len();
                assert(rs.push(x).drop_last() =~= rs);
            }
            index.push((b, out.len() as u64));
            write_data_block(&mut out, &points, i, j);
            assert(out@ =~= header_bytes() + blocks_bytes(rs.push(x)));
            i = j;
        }
        assert(ps.take(n as int) =~= ps);
        let index_offset = out.len() as u64;
        write_index_block(&mut out, &index);
        let index_size = #[verifier::truncate] ((out.len() as u64 - index_offset) as u32);
        proof {
            lemma_header_len();
        }
        let data_size = #[verifier::truncate] ((index_offset - HEADER_SIZE) as u32);
        proof {
            assert(out@ =~= table_body(ps));
        }
        let checksum = checksum_ieee(out.as_slice());
        push_bytes(&mut out, u64_to_le_bytes(index_offset));
        push_bytes(&mut out, u32_to_le_bytes(index_size));
        push_bytes(&mut out, u32_to_le_bytes(data_size));
        push_bytes(&mut out, u32_to_le_bytes(checksum));
        push_magic(&mut out);
        assert(out@ =~= table_bytes(ps));
        let total = out.len();
        proof {
            assert(table_bytes(ps).len() == total);
            lemma_created_table_opens(ps);
            lemma_runs_increasing(ps);
        }
        (SSTable { index, time_range, compression: COMPRESSION_GORILLA, points: Some(points) }, out)
    }
}

/// Position of the first entry whose key is not below `k`, in entries with increasing keys.
pub open spec fn key_rank(s: Seq<(i64, u64)>, k: i64) -> nat
    decreases s.len(),
{
    if s.len() == 0 {
        0
    } else if s.last().0 < k {
        s.len()
    } else {
        key_rank(s.drop_last(), k)
    }
}

/// Keys strictly increase along the entries.
pub open spec fn keys_increasing(s: Seq<(i64, u64)>) -> bool {
    forall|i: int, j: int| 0 <= i < j < s.len() ==> s[i].0 < s[j].0
}

/// An ordered map after setting key `k` to `v`.
pub open spec fn index_insert(s: Seq<(i64, u64)>, k: i64, v: u64) -> Seq<(i64, u64)> {
    let r = key_rank(s, k) as int;
    if r < s.len() && s[r].0 == k {
        s.update(r, (k, v))
    } else {
        s.insert(r, (k, v))
    }
}

/// The ordered map that inserting the entries one after the other gives; a later entry
/// with the same key replaces an earlier one.
pub open spec fn index_of(entries: Seq<(i64, u64)>) -> Seq<(i64, u64)>
    decreases entries.len(),
{
    if entries.len() == 0 {
        Seq::empty()
    } else {
        index_insert(index_of(entries.drop_last()), entries.last().0, entries.last().1)
    }
}

/// In increasing keys, the rank of `k` is the number of keys below it.
proof fn lemma_key_rank(s: Seq<(i64, u64)>, k: i64, r: int)
    requires
        keys_increasing(s),
        0 <= r <= s.len(),
        forall|j: int| 0 <= j < r ==> s[j].0 < k,
        forall|j: int| r <= j < s.len() ==> s[j].0 >= k,
    ensures
        key_rank(s, k) == r,
    decreases s.len(),
{
    if s.len() > 0 && r < s.len() {
        lemma_key_rank(s.drop_last(), k, r);
    }
}

/// Insertion keeps the keys increasing.
proof fn lemma_index_insert(s: Seq<(i64, u64)>, k: i64, v: u64, r: int)
    requires
        keys_increasing(s),
        0 <= r <= s.len(),
        forall|j: int| 0 <= j < r ==> s[j].0 < k,
        forall|j: int| r <= j < s.len() ==> s[j].0 >= k,
    ensures
        keys_increasing(index_insert(s, k, v)),
{
    lemma_key_rank(s, k, r);
    let t = index_insert(s, k, v);
    if r < s.len() && s[r].0 == k {
        assert forall|i: int, j: int| 0 <= i < j < t.len() implies t[i].0 < t[j].0 by {
            assert(s[i].0 < s[j].0);
        }
    } else {
        assert forall|i: int, j: int| 0 <= i < j < t.len() implies t[i].0 < t[j].0 by {
            if j < r {
                assert(s[i].0 < s[j].0);
            } else if j == r {
            } else if i < r {
                assert(s[j - 1].0 >= k);
            } else if i == r {
                assert(s[j - 1].0 >= k);
                assert(s[j - 1].0 != k) by {
                    if s[j - 1].0 == k {
                        assert(s[r].0 <= s[j - 1].0);
                        if r < j - 1 {
                            assert(s[r].0 < s[j - 1].0);
                        }
                    }
                }
            } else {
                assert(s[i - 1].0 < s[j - 1].0);
            }
        }
    }
}

/// Set `k` to `v` in an index whose keys increase.
fn index_set(index: &mut Vec<(i64, u64)>, k: i64, v: u64)
    requires
        keys_increasing(old(index)@),
    ensures
        final(index)@ == index_insert(old(index)@, k, v),
        keys_increasing(final(index)@),
{
    let mut r = index.len();
    while r > 0 && index[r - 1].0 >= k
        invariant
            r <= index@.len(),
            keys_increasing(index@),
            forall|j: int| r <= j < index@.len() ==> index@[j].0 >= k,
        decreases r,
    {
        r = r - 1;
    }
    proof {
        assert forall|j: int| 0 <= j < r implies index@[j].0 < k by {
            if j < r - 1 {
                assert(index@[j].0 < index@[r - 1].0);
            }
        }
        lemma_key_rank(index@, k, r as int);
        lemma_index_insert(index@, k, v, r as int);
    }
    if r < index.len() && index[r].0 == k {
        index.set(r, (k, v));
    } else {
        index.insert(r, (k, v));
    }
}

/// A map built from entries whose keys increase holds them as they are.
proof fn lemma_index_of_increasing(entries: Seq<(i64, u64)>)
    requires
        keys_increasing(entries),
    ensures
        index_of(entries) == entries,
    decreases entries.len(),
{
    if entries.len() > 0 {
        let d = entries.drop_last();
        assert(keys_increasing(d));
        lemma_index_of_increasing(d);
        let k = entries.last().0;
        lemma_key_rank(d, k, d.len() as int);
        assert(d.insert(d.len() as int, (k, entries.last().1)) =~= entries);
    }
}

/// Why reading a table file fails, or what it holds.
pub enum TableParse {
    /// The file ends before a part that has to be read.
    Truncated,
    /// The footer cannot be reached: the file is shorter than a footer.
    NoFooter,
    /// The file does not start with the magic bytes.
    BadMagic,
    /// The header names another format version.
    BadVersion(u16),
    /// The footer does not end with the magic bytes.
    BadFooterMagic,
    /// The entries of the index block, and the compression byte.
    Table(Seq<(i64, u64)>, u8),
}

/// The index entries stored at `pos`: a count and that many 16-byte entries, or `None`
/// when the file ends first.
pub open spec fn read_entries(bytes: Seq<u8>, pos: int, count: nat) -> Option<Seq<(i64, u64)>>
    decreases count,
{
    if count == 0 {
        Some(Seq::empty())
    } else {
        match read_entries(bytes, pos, (count - 1) as nat) {
            Some(prefix) => {
                let at = pos + 16 * (count - 1);
                if at + 16 > bytes.len() {
                    None
                } else {
                    Some(
                        prefix.push(
                            (
                                spec_u64_from_le_bytes(bytes.subrange(at, at + 8)) as i64,
                                spec_u64_from_le_bytes(bytes.subrange(at + 8, at + 16)),
                            ),
                        ),
                    )
                }
            },
            None => None,
        }
    }
}

/// Once reading index entries fails, reading more fails too.
proof fn lemma_read_entries_stays_none(bytes: Seq<u8>, pos: int, i: nat, c: nat)
    requires
        i <= c,
        read_entries(bytes, pos, i) is None,
    ensures
        read_entries(bytes, pos, c) is None,
    decreases c - i,
{
    if i < c {
        lemma_read_entries_stays_none(bytes, pos, i, (c - 1) as nat);
    }
}

/// Reading a table file.
pub open spec fn parse_table(bytes: Seq<u8>) -> TableParse {
    if bytes.len() < HEADER_SIZE {
        TableParse::Truncated
    } else if bytes.subrange(0, 4) != magic() {
        TableParse::BadMagic
    } else if spec_u16_from_le_bytes(bytes.subrange(4, 6)) != SSTABLE_VERSION {
        TableParse::BadVersion(spec_u16_from_le_bytes(bytes.subrange(4, 6)))
    } else if bytes.len() < FOOTER_SIZE {
        TableParse::NoFooter
    } else {
        let f = bytes.len() - FOOTER_SIZE;
        if bytes.subrange(f + 20, f + 24) != magic() {
            TableParse::BadFooterMagic
        } else {
            let index_offset = spec_u64_from_le_bytes(bytes.subrange(f, f + 8));
            if index_offset + 4 > bytes.len() {
                TableParse::Truncated
            } else {
                let count = spec_u32_from_le_bytes(
                    bytes.subrange(index_offset as int, index_offset + 4),
                );
                match read_entries(bytes, index_offset + 4, count as nat) {
                    Some(entries) => TableParse::Table(entries, bytes[6]),
                    None => TableParse::Truncated,
                }
            }
        }
    }
}

/// Whether `r` is the outcome of opening a table file with contents `bytes`.
pub open spec fn open_result(bytes: Seq<u8>, r: Result<SSTable>) -> bool {
    match parse_table(bytes) {
        TableParse::Truncated => r matches Err(Error::Io(_)),
        TableParse::NoFooter => r matches Err(Error::Io(_)),
        TableParse::BadMagic => r matches Err(Error::Corruption(m)) && m@ == "invalid magic bytes"@,
        TableParse::BadVersion(v) => r matches Err(Error::Corruption(m)) && m@ == version_text(v),
        TableParse::BadFooterMagic => r matches Err(Error::Corruption(m)) && m@
            == "invalid footer magic"@,
        TableParse::Table(entries, compression) => r matches Ok(t) && t@ == (SSTableView {
            index: index_of(entries),
            time_range: match read_blocks(bytes, index_of(entries)) {
                Some(ps) => span(ps),
                None => (0, 0),
            },
            compression,
            points: read_blocks(bytes, index_of(entries)),
        }),
    }
}

/// The points of the blocks that the index entries point at, block after block, or
/// `None` when a block cannot be read.
pub open spec fn read_blocks(bytes: Seq<u8>, index: Seq<(i64, u64)>) -> Option<Seq<PointView>>
    decreases index.len(),
{
    if index.len() == 0 {
        Some(Seq::empty())
    } else {
        match read_blocks(bytes, index.drop_last()) {
            Some(a) => match read_block(bytes, index.last().1 as int) {
                Some(b) => Some(a + b),
                None => None,
            },
            None => None,
        }
    }
}

/// Once reading the blocks of a prefix of the index fails, reading all of them fails.
proof fn lemma_read_blocks_stays_none(bytes: Seq<u8>, index: Seq<(i64, u64)>, i: int)
    requires
        0 <= i <= index.len(),
        read_blocks(bytes, index.take(i)) is None,
    ensures
        read_blocks(bytes, index) is None,
    decreases index.len() - i,
{
    if i < index.len() {
        assert(index.take(i + 1).drop_last() =~= index.take(i));
        lemma_read_blocks_stays_none(bytes, index, i + 1);
    } else {
        assert(index.take(i) =~= index);
    }
}

/// Text of the error for an unsupported format version.
pub open spec fn version_text(version: u16) -> Seq<char> {
    "unsupported version: "@ + decimal(version as nat)
}

fn version_message(version: u16) -> (r: String)
    ensures
        r@ == version_text(version),
{
    let mut m = "unsupported version: ".to_owned();
    push_decimal(&mut m, version as u64);
    m
}

/// The I/O error of a seek before the start of a file, made by `std::io::Error::new`
/// with kind `InvalidInput` and the text such a seek gives. Nothing is stated of the
/// value: it is carried, not inspected.
#[verifier::external_body]
fn invalid_seek() -> std::io::Error {
    std::io::Error::new(std::io::ErrorKind::InvalidInput, "invalid seek to a negative or overflowing position")
}

fn has_magic(bytes: &[u8], at: usize) -> (r: bool)
    requires
        at + 4 <= bytes@.len(),
    ensures
        r == (bytes@.subrange(at as int, at + 4) == magic()),
{
    let r = bytes[at] == 0x54u8 && bytes[at + 1] == 0x53u8 && bytes[at + 2] == 0x44u8 && bytes[at + 3]
        == 0x42u8;
    proof {
        let w = bytes@.subrange(at as int, at + 4);
        if r {
            assert(w =~= magic());
        } else if w == magic() {
            assert(w[0] == magic()[0]);
            assert(w[1] == magic()[1]);
            assert(w[2] == magic()[2]);
            assert(w[3] == magic()[3]);
        }
    }
    r
}

/// A copy of the points.
fn copy_points(v: &Vec<Point>) -> (r: Vec<Point>)
    ensures
        views(r@) == views(v@),
{
    let mut points: Vec<Point> = Vec::new();
    let mut i: usize = 0;
    while i < v.len()
        invariant
            i <= v@.len(),
            views(points@) == views(v@).take(i as int),
        decreases v@.len() - i,
    {
        let ghost before = views(points@);
        let c = v[i].clone();
        points.push(c);
        assert(views(points@) =~= before.push(views(v@)[i as int]));
        assert(views(v@).take(i + 1) =~= views(v@).take(i as int).push(views(v@)[i as int]));
        i = i + 1;
    }
    assert(views(v@).take(v@.len() as int) =~= views(v@));
    points
}

/// Read the blocks that the index entries point at, block after block.
fn read_table_blocks(bytes: &[u8], index: &Vec<(i64, u64)>) -> (r: Option<Vec<Point>>)
    ensures
        r is Some <==> read_blocks(bytes@, index@) is Some,
        r matches Some(v) ==> read_blocks(bytes@, index@) == Some(views(v@)),
{
    let ghost idx = index@;
    let len = bytes.len();
    let mut points: Vec<Point> = Vec::new();
    let mut b: usize = 0;
    assert(idx.take(0) =~= Seq::<(i64, u64)>::empty());
    assert(views(points@) =~= Seq::<PointView>::empty());
    while b < index.len()
        invariant
            b <= index@.len(),
            index@ == idx,
            len == bytes@.len(),
            read_blocks(bytes@, idx.take(b as int)) == Some(views(points@)),
        decreases index@.len() - b,
    {
        let off = index[b].1;
        proof {
            assert(idx.take(b + 1).drop_last() =~= idx.take(b as int));
            assert(idx.take(b + 1).last() == idx[b as int]);
        }
        if off > len as u64 {
            proof {
                lemma_read_blocks_stays_none(bytes@, idx, b + 1);
            }
            return None;
        }
        match read_block_at(bytes, off as usize) {
            None => {
                proof {
                    lemma_read_blocks_stays_none(bytes@, idx, b + 1);
                }
                return None;
            },
            Some(mut ps) => {
                let ghost before = views(points@);
                let ghost got = views(ps@);
                points.append(&mut ps);
                assert(views(points@) =~= before + got);
            },
        }
        b = b + 1;
    }
    assert(idx.take(idx.len() as int) =~= idx);
    Some(points)
}

impl SSTable {
    /// Read a table from the bytes of its file
    #[verifier::spinoff_prover]
    #[verifier::rlimit(40)]
    pub fn open(bytes: &[u8]) -> (r: Result<SSTable>)
        ensures
            open_result(bytes@, r),
    {
        let len = bytes.len();
        if len < 16 {
            return Err(Error::Io(unexpected_eof()));
        }
        if !has_magic(bytes, 0) {
            proof {
                reveal_strlit("invalid magic bytes");
            }
            return Err(Error::Corruption("invalid magic bytes".to_owned()));
        }
        let version = u16_from_le_bytes(slice_subrange(bytes, 4, 6));
        if version != SSTABLE_VERSION {
            return Err(Error::Corruption(version_message(version)));
        }
        let compression = bytes[6];
        if len < 24 {
            return Err(Error::Io(invalid_seek()));
        }
        let f = len - 24;
        if !has_magic(bytes, f + 20) {
            return Err(Error::Corruption("invalid footer magic".to_owned()));
        }
        let index_offset = u64_from_le_bytes(slice_subrange(bytes, f, f + 8));
        if index_offset > len as u64 || len as u64 - index_offset < 4 {
            return Err(Error::Io(unexpected_eof()));
        }
        let start = index_offset as usize;
        let count = u32_from_le_bytes(slice_subrange(bytes, start, start + 4));
        let mut index: Vec<(i64, u64)> = Vec::new();
        let mut entries: Ghost<Seq<(i64, u64)>> = Ghost(Seq::empty());
        let mut i: u32 = 0;
        let mut pos: usize = start + 4;
        while i < count
            invariant
                i <= count,
                len == bytes@.len(),
                start + 4 <= pos <= len,
                pos == start + 4 + 16 * i,
                read_entries(bytes@, start + 4, i as nat) == Some(entries@),
                index@ == index_of(entries@),
                keys_increasing(index@),
                parse_table(bytes@) == (match read_entries(bytes@, start + 4, count as nat) {
                    Some(e) => TableParse::Table(e, compression),
                    None => TableParse::Truncated,
                }),
            decreases count - i,
        {
            if len - pos < 16 {
                proof {
                    lemma_read_entries_stays_none(bytes@, start + 4, (i + 1) as nat, count as nat);
                }
                return Err(Error::Io(unexpected_eof()));
            }
            let ts = #[verifier::truncate] (u64_from_le_bytes(slice_subrange(bytes, pos, pos + 8)) as i64);
            let offset = u64_from_le_bytes(slice_subrange(bytes, pos + 8, pos + 16));
            index_set(&mut index, ts, offset);
            proof {
                let e = entries@;
                entries@ = e.push((ts, offset));
                assert(entries@.drop_last() =~= e);
            }
            pos = pos + 16;
            i = i + 1;
        }
        let ghost ents = entries@;
        assert(parse_table(bytes@) == TableParse::Table(ents, compression));
        let points = read_table_blocks(bytes, &index);
        let time_range = match &points {
            Some(v) => {
                let n = v.len();
                if n == 0 {
                    (0i64, 0i64)
                } else {
                    (v[0].timestamp, v[n - 1].timestamp)
                }
            },
            None => (0i64, 0i64),
        };
        Ok(SSTable { index, time_range, compression, points })
    }
}

impl SSTable {
    /// Query points in a time range: the table's points in `[start, end)`, in the order
    /// of its blocks; an error when its blocks could not be read.
    pub fn query(&self, range: std::ops::Range<i64>) -> (r: Result<Vec<Point>>)
        ensures
            match self@.points {
                Some(ps) => r matches Ok(v) && views(v@) == points_in_range(ps, range.start, range.end),
                None => r matches Err(Error::Corruption(m)) && m@ == "invalid data block"@,
            },
    {
        let points = match &self.points {
            Some(v) => v,
            None => {
                proof {
                    reveal_strlit("invalid data block");
                }
                return Err(Error::Corruption("invalid data block".to_owned()));
            },
        };
        let start = range.start;
        let end = range.end;
        let mut out: Vec<Point> = Vec::new();
        let mut i: usize = 0;
        while i < points.len()
            invariant
                i <= points@.len(),
                views(out@) == points_in_range(views(points@).take(i as int), start, end),
            decreases points@.len() - i,
        {
            let ghost before = views(out@);
            let ghost s = views(points@);
            proof {
                assert(s.take(i + 1) =~= s.take(i as int).push(s[i as int]));
                s.take(i as int).lemma_filter_push(s[i as int], |p: PointView| in_range(p, start, end));
            }
            let t = points[i].timestamp;
            if start <= t && t < end {
                out.push(points[i].clone());
                assert(views(out@) =~= before.push(s[i as int]));
            }
            i = i + 1;
        }
        assert(views(points@).take(points@.len() as int) =~= views(points@));
        Ok(out)
    }

    /// Get the time range of this SSTable
    pub fn time_range(&self) -> (r: (i64, i64))
        ensures
            r == self@.time_range,
    {
        self.time_range
    }

    /// The index entries: bucket start and block offset, by increasing bucket.
    pub fn index_entries(&self) -> (r: &Vec<(i64, u64)>)
        ensures
            r@ == self@.index,
    {
        &self.index
    }

    /// The compression of the table's values.
    pub fn compression(&self) -> (r: u8)
        ensures
            r == self@.compression,
    {
        self.compression
    }

    /// Compact this SSTable with another (merge). Merging is not done yet: the result
    /// describes the same data as this table.
    pub fn compact(&self, other: &SSTable) -> (r: SSTable)
        ensures
            r@ == self@,
    {
        proof {
            use_type_invariant(self);
        }
        let mut index: Vec<(i64, u64)> = Vec::new();
        let mut i: usize = 0;
        while i < self.index.len()
            invariant
                i <= self.index@.len(),
                index@ == self.index@.take(i as int),
            decreases self.index@.len() - i,
        {
            index.push(self.index[i]);
            assert(index@ =~= self.index@.take(i + 1));
            i = i + 1;
        }
        assert(self.index@.take(self.index@.len() as int) =~= self.index@);
        let points = match &self.points {
            Some(v) => Some(copy_points(v)),
            None => None,
        };
        SSTable { index, time_range: self.time_range, compression: self.compression, points }
    }
}

/// Later non-negative timestamps fall in the same or a later bucket.
proof fn lemma_bucket_monotone(a: i64, b: i64)
    requires
        0 <= a <= b,
    ensures
        bucket_of(a) <= bucket_of(b),
        0 <= bucket_of(a),
{
    let x = a as int;
    let y = b as int;
    let m = BUCKET_SIZE as int;
    assert(0 <= (x / m) * m <= (y / m) * m <= y) by (nonlinear_arith)
        requires
            0 <= x <= y,
            m > 0,
    ;
}

/// Runs of points in time order have increasing buckets.
proof fn lemma_runs_increasing(ps: Seq<PointView>)
    requires
        sorted_by_time(ps),
        all_valid(ps),
    ensures
        forall|i: int, j: int| 0 <= i < j < runs(ps).len() ==> runs(ps)[i].0 < runs(ps)[j].0,
        runs(ps).len() <= ps.len(),
    decreases ps.len(),
{
    if ps.len() > 0 {
        let d = ps.drop_last();
        assert(sorted_by_time(d));
        assert(all_valid(d)) by {
            assert forall|i: int| 0 <= i < d.len() implies crate::point::point_valid(#[trigger] d[i]) by {
                assert(d[i] == ps[i]);
            }
        }
        lemma_runs_increasing(d);
        let r = runs(d);
        let b = bucket_of(ps.last().timestamp);
        if r.len() > 0 {
            lemma_runs_last(d);
            assert(crate::point::point_valid(ps[ps.len() - 2]));
            assert(crate::point::point_valid(ps[ps.len() - 1]));
            lemma_bucket_monotone(ps[ps.len() - 2].timestamp, ps.last().timestamp);
        }
    }
}

/// Each index entry takes 16 bytes.
proof fn lemma_entries_len(e: Seq<(i64, u64)>)
    ensures
        entries_bytes(e).len() == 16 * e.len(),
    decreases e.len(),
{
    lemma_auto_spec_u64_to_from_le_bytes();
    if e.len() > 0 {
        lemma_entries_len(e.drop_last());
    }
}

/// An index block reads back as its entries, and an index block cut short does not read.
pub proof fn lemma_index_block_round_trip(bytes: Seq<u8>, pos: int, e: Seq<(i64, u64)>)
    requires
        0 <= pos,
    ensures
        pos + 16 * e.len() <= bytes.len() && bytes.subrange(pos, pos + 16 * e.len()) == entries_bytes(
            e,
        ) ==> read_entries(bytes, pos, e.len()) == Some(e),
        0 < e.len() && bytes.len() < pos + 16 * e.len() ==> read_entries(bytes, pos, e.len()) is None,
        entries_bytes(e).len() == 16 * e.len(),
{
    lemma_entries_len(e);
    if pos + 16 * e.len() <= bytes.len() && bytes.subrange(pos, pos + 16 * e.len()) == entries_bytes(e) {
        lemma_read_entries_back(bytes, pos, e, e.len());
        assert(e.take(e.len() as int) =~= e);
    }
}

/// Index entries laid out at `pos` read back as themselves.
proof fn lemma_read_entries_back(bytes: Seq<u8>, pos: int, e: Seq<(i64, u64)>, k: nat)
    requires
        k <= e.len(),
        0 <= pos,
        pos + 16 * e.len() <= bytes.len(),
        bytes.subrange(pos, pos + 16 * e.len()) == entries_bytes(e),
    ensures
        read_entries(bytes, pos, k) == Some(e.take(k as int)),
    decreases k,
{
    lemma_auto_spec_u64_to_from_le_bytes();
    lemma_entries_len(e);
    if k > 0 {
        lemma_read_entries_back(bytes, pos, e, (k - 1) as nat);
        let i = k - 1;
        let at = pos + 16 * i;
        // entries_bytes(e) = entries_bytes(e.take(i)) + entry_bytes(e[i]) + ...
        lemma_entries_prefix(e, i);
        lemma_entries_len(e.take(i as int));
        let eb = entry_bytes(e[i as int]);
        let w = bytes.subrange(pos, pos + 16 * e.len());
        assert(bytes.subrange(at, at + 8) =~= spec_u64_to_le_bytes(e[i as int].0 as u64)) by {
            assert forall|j: int| 0 <= j < 8 implies #[trigger] bytes.subrange(at, at + 8)[j] == spec_u64_to_le_bytes(
                e[i as int].0 as u64,
            )[j] by {
                assert(bytes.subrange(at, at + 8)[j] == w[16 * i + j]);
                assert(entries_bytes(e.take(i + 1))[16 * i + j] == eb[j]);
            }
        }
        assert(bytes.subrange(at + 8, at + 16) =~= spec_u64_to_le_bytes(e[i as int].1)) by {
            assert forall|j: int| 0 <= j < 8 implies #[trigger] bytes.subrange(at + 8, at + 16)[j] == spec_u64_to_le_bytes(
                e[i as int].1,
            )[j] by {
                assert(bytes.subrange(at + 8, at + 16)[j] == w[16 * i + 8 + j]);
                assert(entries_bytes(e.take(i + 1))[16 * i + 8 + j] == eb[8 + j]);
            }
        }
        let t = e[i as int].0;
        assert((t as u64) as i64 == t) by (bit_vector);
        assert(e.take(i as int).push(e[i as int]) =~= e.take(k as int));
    } else {
        assert(e.take(0) =~= Seq::<(i64, u64)>::empty());
    }
}

/// The bytes of the first `i + 1` entries are those of the first `i` followed by entry
/// `i`, and they start the bytes of all entries.
proof fn lemma_entries_prefix(e: Seq<(i64, u64)>, i: int)
    requires
        0 <= i < e.len(),
    ensures
        entries_bytes(e.take(i + 1)) == entries_bytes(e.take(i)) + entry_bytes(e[i]),
        entries_bytes(e).len() >= entries_bytes(e.take(i + 1)).len(),
        forall|j: int|
            0 <= j < entries_bytes(e.take(i + 1)).len() ==> #[trigger] entries_bytes(e)[j]
                == entries_bytes(e.take(i + 1))[j],
    decreases e.len() - i,
{
    assert(e.take(i + 1).drop_last() =~= e.take(i));
    if i + 1 < e.len() {
        lemma_entries_prefix(e, i + 1);
    } else {
        assert(e.take(i + 1) =~= e);
    }
}

/// The points of the runs, run after run.
pub open spec fn flatten(rs: Seq<(i64, Seq<PointView>)>) -> Seq<PointView>
    decreases rs.len(),
{
    if rs.len() == 0 {
        Seq::empty()
    } else {
        flatten(rs.drop_last()) + rs.last().1
    }
}

/// The runs of points in time order are, one after the other, the points; each run is in
/// time order and holds only points of `ps`.
proof fn lemma_runs_shape(ps: Seq<PointView>)
    requires
        sorted_by_time(ps),
    ensures
        flatten(runs(ps)) == ps,
        forall|j: int| 0 <= j < runs(ps).len() ==> sorted_by_time(#[trigger] runs(ps)[j].1),
        forall|j: int| 0 <= j < runs(ps).len() ==> #[trigger] runs(ps)[j].1.len() <= ps.len(),
        forall|j: int, k: int|
            0 <= j < runs(ps).len() && 0 <= k < runs(ps)[j].1.len() ==> ps.contains(
                #[trigger] runs(ps)[j].1[k],
            ),
    decreases ps.len(),
{
    if ps.len() > 0 {
        let d = ps.drop_last();
        let x = ps.last();
        assert(sorted_by_time(d));
        lemma_runs_shape(d);
        let r = runs(d);
        let b = bucket_of(x.timestamp);
        let rs = runs(ps);
        assert forall|j: int, k: int| 0 <= j < r.len() && 0 <= k < r[j].1.len() implies ps.contains(
            #[trigger] r[j].1[k],
        ) && r[j].1[k].timestamp <= x.timestamp by {
            assert(d.contains(r[j].1[k]));
            let m = choose|m: int| 0 <= m < d.len() && d[m] == r[j].1[k];
            assert(ps[m] == d[m]);
            assert(ps[m].timestamp <= ps[ps.len() - 1].timestamp);
        }
        if r.len() > 0 && r.last().0 == b {
            let last = r.last().1;
            assert(rs == r.update(r.len() - 1, (b, last.push(x))));
            assert(flatten(r) == flatten(r.drop_last()) + last);
            assert(rs.drop_last() =~= r.drop_last());
            assert(flatten(rs) =~= flatten(r.drop_last()) + last.push(x));
            assert(flatten(r) + seq![x] =~= flatten(r.drop_last()) + last.push(x));
            assert(d.push(x) =~= ps);
            assert forall|j: int| 0 <= j < rs.len() implies sorted_by_time(#[trigger] rs[j].1) by {
                if j == rs.len() - 1 {
                    assert(sorted_by_time(last));
                    assert forall|a: int, c: int| 0 <= a <= c < last.push(x).len() implies last.push(
                        x,
                    )[a].timestamp <= last.push(x)[c].timestamp by {
                        if c == last.len() && a < c {
                            assert(last[a] == r[r.len() - 1].1[a]);
                        }
                    }
                }
            }
            assert forall|j: int, k: int| 0 <= j < rs.len() && 0 <= k < rs[j].1.len() implies ps.contains(
                #[trigger] rs[j].1[k],
            ) by {
                if j == rs.len() - 1 && k == last.len() {
                    assert(ps[ps.len() - 1] == x);
                } else {
                    assert(rs[j].1[k] == r[j].1[k]);
                }
            }
        } else {
            assert(rs == r.push((b, seq![x])));
            assert(rs.drop_last() =~= r);
            assert(flatten(rs) =~= flatten(r) + seq![x]);
            assert(d.push(x) =~= ps);
            assert forall|j: int, k: int| 0 <= j < rs.len() && 0 <= k < rs[j].1.len() implies ps.contains(
                #[trigger] rs[j].1[k],
            ) by {
                if j == rs.len() - 1 {
                    assert(ps[ps.len() - 1] == x);
                } else {
                    assert(rs[j] == r[j]);
                }
            }
        }
    } else {
        assert(runs(ps) =~= Seq::<(i64, Seq<PointView>)>::empty());
    }
}

/// The data blocks of runs put one after the other.
proof fn lemma_blocks_add(a: Seq<(i64, Seq<PointView>)>, b: Seq<(i64, Seq<PointView>)>)
    ensures
        blocks_bytes(a + b) == blocks_bytes(a) + blocks_bytes(b),
    decreases b.len(),
{
    if b.len() == 0 {
        assert(a + b =~= a);
    } else {
        assert((a + b).drop_last() =~= a + b.drop_last());
        lemma_blocks_add(a, b.drop_last());
    }
}

/// What a table needs to read back as its points: points that suit a table, a bit count
/// for all of them that a machine word holds (what `create` requires), no more minute
/// buckets than the index's 32-bit count holds, and in each bucket few enough points
/// that their compressed values fit the block's 32-bit byte length.
pub open spec fn table_ok(ps: Seq<PointView>) -> bool {
    &&& points_ok(ps)
    &&& table_size_ok(ps.len())
    &&& table_fits(ps)
}

/// The layout can hold the table of these points: no more minute buckets than the
/// index's 32-bit count holds, and in each bucket few enough points that their
/// compressed values fit the block's 32-bit byte length.
pub open spec fn table_fits(ps: Seq<PointView>) -> bool {
    &&& runs(ps).len() <= u32::MAX
    &&& forall|k: int| 0 <= k < runs(ps).len() ==> 76 * (#[trigger] runs(ps)[k]).1.len() <= 8 * (u32::MAX as int)
}

/// Each run of the points of a table that suits reading back suits a block.
proof fn lemma_run_ok(ps: Seq<PointView>, i: int)
    requires
        table_ok(ps),
        0 <= i < runs(ps).len(),
    ensures
        block_ok(runs(ps)[i].1),
{
    lemma_runs_shape(ps);
    let run = runs(ps)[i].1;
    assert(sorted_by_time(run));
    assert(76 * runs(ps)[i].1.len() <= 8 * (u32::MAX as int));
    assert(run.len() <= ps.len());
    assert forall|a: int| 0 <= a < run.len() implies {
        &&& #[trigger] run[a].timestamp >= 0
        &&& crate::block::strings_fit(run[a])
        &&& run[a].tags.len() <= u64::MAX
        &&& crate::point::keys_distinct(run[a].tags)
    } by {
        assert(ps.contains(runs(ps)[i].1[a]));
        let m = choose|m: int| 0 <= m < ps.len() && ps[m] == run[a];
        assert(ps[m].timestamp >= 0);
    }
}

/// In a table file, the block of run `i` stands at the offset that the index records.
#[verifier::rlimit(60)]
proof fn lemma_block_in_table(ps: Seq<PointView>, i: int)
    requires
        0 <= i < runs(ps).len(),
        table_bytes(ps).len() <= u64::MAX,
    ensures
        block_index(runs(ps))[i].1 == HEADER_SIZE + blocks_bytes(runs(ps).take(i)).len(),
        HEADER_SIZE + blocks_bytes(runs(ps).take(i)).len() + block_bytes(runs(ps)[i].1).len()
            <= table_bytes(ps).len(),
        table_bytes(ps).subrange(
            HEADER_SIZE + blocks_bytes(runs(ps).take(i)).len(),
            HEADER_SIZE + blocks_bytes(runs(ps).take(i)).len() + block_bytes(runs(ps)[i].1).len(),
        ) == block_bytes(runs(ps)[i].1),
{
    let rs = runs(ps);
    let k = i + 1;
    let pre = blocks_bytes(rs.take(i));
    let blk = block_bytes(rs[i].1);
    let post = blocks_bytes(rs.skip(k));
    assert(rs =~= rs.take(k) + rs.skip(k));
    lemma_blocks_add(rs.take(k), rs.skip(k));
    assert(rs.take(k).drop_last() =~= rs.take(i));
    assert(blocks_bytes(rs.take(k)) == pre + blk);
    lemma_header_len();
    let h = header_bytes();
    let body = table_body(ps);
    assert(body == h + (pre + blk + post) + index_bytes(block_index(rs)));
    let bytes = table_bytes(ps);
    assert(bytes.len() >= body.len());
    let off = HEADER_SIZE + pre.len();
    assert forall|j: int| 0 <= j < blk.len() implies #[trigger] bytes.subrange(off, off + blk.len())[j]
        == blk[j] by {
        assert(bytes[off + j] == body[off + j]);
        assert(body[off + j] == (pre + blk + post)[pre.len() + j]);
    }
    assert(bytes.subrange(off, off + blk.len()) =~= blk);
}

/// Every block of a table file reads back as its run, and the blocks read back together as
/// the points.
proof fn lemma_read_table_blocks(ps: Seq<PointView>, k: int)
    requires
        table_ok(ps),
        0 <= k <= runs(ps).len(),
        table_bytes(ps).len() <= u64::MAX,
    ensures
        read_blocks(table_bytes(ps), block_index(runs(ps)).take(k)) == Some(
            flatten(runs(ps).take(k)),
        ),
    decreases k,
{
    let rs = runs(ps);
    let idx = block_index(rs);
    let bytes = table_bytes(ps);
    if k == 0 {
        assert(idx.take(0) =~= Seq::<(i64, u64)>::empty());
        assert(rs.take(0) =~= Seq::<(i64, Seq<PointView>)>::empty());
    } else {
        let i = k - 1;
        lemma_read_table_blocks(ps, i);
        assert(idx.take(k).drop_last() =~= idx.take(i));
        assert(rs.take(k).drop_last() =~= rs.take(i));
        assert(idx.take(k).last() == idx[i]);
        lemma_block_in_table(ps, i);
        lemma_run_ok(ps, i);
        lemma_read_block(bytes, HEADER_SIZE + blocks_bytes(rs.take(i)).len(), rs[i].1);
        assert(rs.take(k).last() == rs[i]);
    }
}

/// The footer of a table file describes its layout: the index block starts at the stored
/// index offset and ends where the footer starts, its stored size is 4 bytes of count
/// plus 16 bytes for each entry it counts (one per minute bucket of the points), the
/// stored data size is what lies between the 16-byte header and the index, the stored
/// checksum is the CRC-32 of everything before the footer, and the file ends with the
/// magic bytes. Sizes are those the 32-bit fields hold.
pub proof fn lemma_footer_fields(ps: Seq<PointView>)
    requires
        table_bytes(ps).len() <= u64::MAX,
        4 + 16 * runs(ps).len() <= u32::MAX,
        blocks_bytes(runs(ps)).len() <= u32::MAX,
    ensures
        ({
            let bytes = table_bytes(ps);
            let f = bytes.len() - 24;
            let index_offset = spec_u64_from_le_bytes(bytes.subrange(f, f + 8));
            let index_size = crate::wal::u32_at(bytes, f + 8);
            let data_size = crate::wal::u32_at(bytes, f + 12);
            let checksum = crate::wal::u32_at(bytes, f + 16);
            let count = crate::wal::u32_at(bytes, index_offset as int);
            &&& bytes.len() >= 16 + 4 + 24
            &&& index_offset + index_size == f
            &&& count == runs(ps).len()
            &&& index_size == 4 + 16 * count
            &&& data_size == index_offset - 16
            &&& checksum == crc32(bytes.subrange(0, f))
            &&& bytes.subrange(f + 20, f + 24) == magic()
        }),
{
    lemma_auto_spec_u32_to_from_le_bytes();
    lemma_auto_spec_u64_to_from_le_bytes();
    lemma_header_len();
    let rs = runs(ps);
    let data = blocks_bytes(rs);
    let idx = block_index(rs);
    let ib = index_bytes(idx);
    let io = HEADER_SIZE + data.len();
    let h = header_bytes();
    let body = table_body(ps);
    let ft = footer_bytes(io as u64, ib.len() as u32, data.len() as u32, crc32(body));
    let bytes = table_bytes(ps);
    lemma_entries_len(idx);
    assert(ib.len() == 4 + 16 * idx.len());
    assert(ft.len() == 24);
    assert(body == h + data + ib);
    assert(bytes == body + ft);
    let f = bytes.len() - 24;
    assert(f == body.len());
    assert(bytes.subrange(0, f) =~= body);
    assert(bytes.subrange(f, f + 8) =~= spec_u64_to_le_bytes(io as u64)) by {
        assert forall|j: int| 0 <= j < 8 implies #[trigger] bytes.subrange(f, f + 8)[j]
            == spec_u64_to_le_bytes(io as u64)[j] by {
            assert(bytes[f + j] == ft[j]);
        }
    }
    assert(bytes.subrange(f + 8, f + 12) =~= spec_u32_to_le_bytes(ib.len() as u32)) by {
        assert forall|j: int| 0 <= j < 4 implies #[trigger] bytes.subrange(f + 8, f + 12)[j]
            == spec_u32_to_le_bytes(ib.len() as u32)[j] by {
            assert(bytes[f + 8 + j] == ft[8 + j]);
        }
    }
    assert(bytes.subrange(f + 12, f + 16) =~= spec_u32_to_le_bytes(data.len() as u32)) by {
        assert forall|j: int| 0 <= j < 4 implies #[trigger] bytes.subrange(f + 12, f + 16)[j]
            == spec_u32_to_le_bytes(data.len() as u32)[j] by {
            assert(bytes[f + 12 + j] == ft[12 + j]);
        }
    }
    assert(bytes.subrange(f + 16, f + 20) =~= spec_u32_to_le_bytes(crc32(body))) by {
        assert forall|j: int| 0 <= j < 4 implies #[trigger] bytes.subrange(f + 16, f + 20)[j]
            == spec_u32_to_le_bytes(crc32(body))[j] by {
            assert(bytes[f + 16 + j] == ft[16 + j]);
        }
    }
    assert(bytes.subrange(f + 20, f + 24) =~= magic()) by {
        assert forall|j: int| 0 <= j < 4 implies #[trigger] bytes.subrange(f + 20, f + 24)[j]
            == magic()[j] by {
            assert(bytes[f + 20 + j] == ft[20 + j]);
        }
    }
    assert(bytes.subrange(io, io + 4) =~= spec_u32_to_le_bytes(idx.len() as u32)) by {
        assert forall|j: int| 0 <= j < 4 implies #[trigger] bytes.subrange(io, io + 4)[j]
            == spec_u32_to_le_bytes(idx.len() as u32)[j] by {
            assert(bytes[io + j] == ib[j]);
        }
    }
    assert(spec_u64_from_le_bytes(bytes.subrange(f, f + 8)) == io);
}

/// The table of a memtable's points, when the layout can hold it, opens back as the
/// table that laying it out gave: its index, its time range, its compression, its points.
pub proof fn lemma_created_table_opens(ps: Seq<PointView>)
    requires
        sorted_by_time(ps),
        all_valid(ps),
        all_storable(ps),
        table_size_ok(ps.len()),
        table_bytes(ps).len() <= u64::MAX,
    ensures
        table_fits(ps) ==> forall|o: Result<SSTable>|
            open_result(table_bytes(ps), o) ==> (o matches Ok(t) && t@ == (SSTableView {
                index: block_index(runs(ps)),
                time_range: span(ps),
                compression: COMPRESSION_GORILLA,
                points: Some(ps),
            })),
{
    if table_fits(ps) {
        assert forall|i: int| 0 <= i < ps.len() implies {
            &&& #[trigger] ps[i].timestamp >= 0
            &&& crate::block::strings_fit(ps[i])
            &&& ps[i].tags.len() <= u64::MAX
            &&& crate::point::keys_distinct(ps[i].tags)
        } by {
            assert(crate::point::point_valid(ps[i]));
            crate::block::lemma_point_fits(ps[i]);
        }
        assert(table_ok(ps));
        lemma_table_round_trip(ps);
    }
}

/// Reading back a table file gives the index that laying it out recorded, with the
/// values' compression, and the points, for points in time order that suit the blocks;
/// the keys of that index increase, so rebuilding it as a map changes nothing. So opening
/// the file of a table gives that table: its index, its time range, its points.
#[verifier::rlimit(60)]
pub proof fn lemma_table_round_trip(ps: Seq<PointView>)
    requires
        sorted_by_time(ps),
        all_valid(ps),
        table_ok(ps),
        table_bytes(ps).len() <= u64::MAX,
    ensures
        parse_table(table_bytes(ps)) == TableParse::Table(
            block_index(runs(ps)),
            COMPRESSION_GORILLA,
        ),
        index_of(block_index(runs(ps))) == block_index(runs(ps)),
        read_blocks(table_bytes(ps), block_index(runs(ps))) == Some(ps),
        forall|r: Result<SSTable>|
            open_result(table_bytes(ps), r) ==> (r matches Ok(t) && t@ == (SSTableView {
                index: block_index(runs(ps)),
                time_range: span(ps),
                compression: COMPRESSION_GORILLA,
                points: Some(ps),
            })),
{
    lemma_table_index_round_trip(ps);
    let rs = runs(ps);
    lemma_read_table_blocks(ps, rs.len() as int);
    assert(block_index(rs).take(rs.len() as int) =~= block_index(rs));
    assert(rs.take(rs.len() as int) =~= rs);
    lemma_runs_shape(ps);
}

/// Reading back the header, footer and index of a table file gives the index that laying
/// it out recorded.
proof fn lemma_table_index_round_trip(ps: Seq<PointView>)
    requires
        sorted_by_time(ps),
        all_valid(ps),
        table_ok(ps),
        table_bytes(ps).len() <= u64::MAX,
    ensures
        parse_table(table_bytes(ps)) == TableParse::Table(
            block_index(runs(ps)),
            COMPRESSION_GORILLA,
        ),
        index_of(block_index(runs(ps))) == block_index(runs(ps)),
{
    lemma_auto_spec_u16_to_from_le_bytes();
    lemma_auto_spec_u32_to_from_le_bytes();
    lemma_auto_spec_u64_to_from_le_bytes();
    lemma_header_len();
    lemma_runs_increasing(ps);
    let rs = runs(ps);
    let data = blocks_bytes(rs);
    let idx = block_index(rs);
    let ib = index_bytes(idx);
    let io = HEADER_SIZE + data.len();
    let h = header_bytes();
    let ft = footer_bytes(io as u64, ib.len() as u32, data.len() as u32, crc32(table_body(ps)));
    let bytes = table_bytes(ps);
    lemma_entries_len(idx);
    assert(ib.len() == 4 + 16 * idx.len());
    assert(ft.len() == 24);
    assert(bytes == h + data + ib + ft);
    assert(bytes.len() == 16 + data.len() + ib.len() + 24);
    // Header
    assert(bytes.subrange(0, 4) =~= magic()) by {
        assert forall|j: int| 0 <= j < 4 implies #[trigger] bytes.subrange(0, 4)[j] == magic()[j] by {
            assert(bytes[j] == h[j]);
        }
    }
    assert(bytes.subrange(4, 6) =~= spec_u16_to_le_bytes(SSTABLE_VERSION)) by {
        assert forall|j: int| 0 <= j < 2 implies #[trigger] bytes.subrange(4, 6)[j]
            == spec_u16_to_le_bytes(SSTABLE_VERSION)[j] by {
            assert(bytes[4 + j] == h[4 + j]);
        }
    }
    assert(bytes[6] == h[6]);
    // Footer
    let f = bytes.len() - FOOTER_SIZE;
    assert(f == io + ib.len());
    assert(bytes.subrange(f + 20, f + 24) =~= magic()) by {
        assert forall|j: int| 0 <= j < 4 implies #[trigger] bytes.subrange(f + 20, f + 24)[j]
            == magic()[j] by {
            assert(bytes[f + 20 + j] == ft[20 + j]);
        }
    }
    assert(bytes.subrange(f, f + 8) =~= spec_u64_to_le_bytes(io as u64)) by {
        assert forall|j: int| 0 <= j < 8 implies #[trigger] bytes.subrange(f, f + 8)[j]
            == spec_u64_to_le_bytes(io as u64)[j] by {
            assert(bytes[f + j] == ft[j]);
        }
    }
    // Index block
    assert(bytes.subrange(io, io + 4) =~= spec_u32_to_le_bytes(idx.len() as u32)) by {
        assert forall|j: int| 0 <= j < 4 implies #[trigger] bytes.subrange(io, io + 4)[j]
            == spec_u32_to_le_bytes(idx.len() as u32)[j] by {
            assert(bytes[io + j] == ib[j]);
        }
    }
    assert(bytes.subrange(io + 4, io + 4 + 16 * idx.len()) =~= entries_bytes(idx)) by {
        assert forall|j: int| 0 <= j < 16 * idx.len() implies #[trigger] bytes.subrange(
            io + 4,
            io + 4 + 16 * idx.len(),
        )[j] == entries_bytes(idx)[j] by {
            assert(bytes[io + 4 + j] == ib[4 + j]);
        }
    }
    lemma_read_entries_back(bytes, io + 4, idx, idx.len());
    assert(idx.take(idx.len() as int) =~= idx);
    // The keys of the index increase.
    assert(keys_increasing(idx));
    lemma_index_of_increasing(idx);
}

} // verus!
