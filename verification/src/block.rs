//! Reading the data blocks of a table file back into points.

use crate::memtable::sorted_by_time;
use crate::compression::{
    encode_values, gorilla_bits, gorilla_bytes, gorilla_decode, lemma_gorilla_bytes, lemma_record_len,
    pad_to_byte, try_decompress_gorilla,
};
use crate::point::{
    keys_distinct, lemma_key_pos_at, tags_insert, utf8_len, views, Point, PointView, TagView, Tags,
};
use crate::wal::u32_at;
use vstd::bytes::{lemma_auto_spec_u32_to_from_le_bytes, spec_u32_to_le_bytes, u32_from_le_bytes};
use crate::sstable::{
    block_bytes, metrics_bytes, prev_timestamp, string_bytes, tag_list_bytes, tags_bytes,
    timestamp_deltas, values_of, varint,
};
use vstd::prelude::*;
use vstd::slice::slice_subrange;
use vstd::utf8::{decode_utf8, encode_utf8, encode_utf8_decode_utf8, encode_utf8_valid_utf8, valid_utf8};

verus! {

broadcast use vstd::seq::group_seq_axioms;

/// The value of the varint at `pos` and the position after it, reading at most `depth`
/// bytes; `None` when the bytes end first, the varint is longer, or the value does not
/// fit in 64 bits.
pub open spec fn read_varint(bytes: Seq<u8>, pos: int, depth: nat) -> Option<(u64, int)>
    decreases depth,
{
    if depth == 0 || pos < 0 || pos >= bytes.len() {
        None
    } else if bytes[pos] < 0x80 {
        Some((bytes[pos] as u64, pos + 1))
    } else {
        match read_varint(bytes, pos + 1, (depth - 1) as nat) {
            Some((rest, next)) => if rest <= 0x1ff_ffff_ffff_ffffu64 {
                Some((((rest << 7u64) | ((bytes[pos] & 0x7fu8) as u64)), next))
            } else {
                None
            },
            None => None,
        }
    }
}

/// Read the varint at `pos`, with at most `depth` bytes.
pub fn read_varint_at(bytes: &[u8], pos: usize, depth: usize) -> (r: Option<(u64, usize)>)
    ensures
        r is Some <==> read_varint(bytes@, pos as int, depth as nat) is Some,
        r matches Some((v, n)) ==> read_varint(bytes@, pos as int, depth as nat) == Some(
            (v, n as int),
        ) && pos < n <= bytes@.len(),
    decreases depth,
{
    if depth == 0 || pos >= bytes.len() {
        return None;
    }
    let b = bytes[pos];
    if b < 0x80 {
        return Some((b as u64, pos + 1));
    }
    match read_varint_at(bytes, pos + 1, depth - 1) {
        Some((rest, next)) => {
            if rest <= 0x1ff_ffff_ffff_ffff {
                Some(((rest << 7) | ((b & 0x7f) as u64), next))
            } else {
                None
            }
        },
        None => None,
    }
}

/// A varint of a value with no bit at position `7 * k` or above takes at most `k` bytes.
proof fn lemma_varint_len_below(v: u64, k: u64)
    requires
        1 <= k <= 9,
        v >> ((7 * k) as u64) == 0,
    ensures
        varint(v).len() <= k,
    decreases k,
{
    if v >= 0x80 {
        assert(v >= 0x80 ==> v >> 7u64 < v) by (bit_vector);
        assert(k >= 2 && (v >> 7u64) >> ((7 * (k - 1)) as u64) == 0) by (bit_vector)
            requires
                1 <= k <= 9,
                v >> ((7 * k) as u64) == 0,
                v >= 0x80,
        ;
        lemma_varint_len_below(v >> 7u64, (k - 1) as u64);
    }
}

/// A varint takes at most ten bytes.
pub proof fn lemma_varint_len(v: u64)
    ensures
        1 <= varint(v).len() <= 10,
{
    if v >= 0x80 {
        assert(v >= 0x80 ==> v >> 7u64 < v) by (bit_vector);
        assert((v >> 7u64) >> 63u64 == 0) by (bit_vector);
        lemma_varint_len_below(v >> 7u64, 9);
    }
}

/// Reading back a varint written at `pos` gives its value and the position after it.
pub proof fn lemma_read_varint(bytes: Seq<u8>, pos: int, v: u64, depth: nat)
    requires
        0 <= pos,
        pos + varint(v).len() <= bytes.len(),
        bytes.subrange(pos, pos + varint(v).len()) == varint(v),
        varint(v).len() <= depth,
    ensures
        read_varint(bytes, pos, depth) == Some((v, pos + varint(v).len())),
    decreases v,
{
    let e = varint(v);
    assert(bytes[pos] == bytes.subrange(pos, pos + e.len())[0]);
    if v >= 0x80 {
        assert(v >= 0x80 ==> v >> 7u64 < v) by (bit_vector);
        let w = varint(v >> 7u64);
        let b = ((v & 0x7f) | 0x80) as u8;
        assert(e == seq![b] + w);
        assert(bytes.subrange(pos + 1, pos + 1 + w.len()) =~= bytes.subrange(pos, pos + e.len()).subrange(
            1,
            e.len() as int,
        ));
        assert(e.subrange(1, e.len() as int) =~= w);
        lemma_read_varint(bytes, pos + 1, v >> 7u64, (depth - 1) as nat);
        assert(b >= 0x80 && (v >> 7u64) <= 0x1ff_ffff_ffff_ffffu64 && (((v >> 7u64) << 7u64) | ((b
            & 0x7fu8) as u64)) == v) by (bit_vector)
            requires
                b == ((v & 0x7f) | 0x80) as u8,
                v >= 0x80,
        ;
    } else {
        assert(e == seq![v as u8]);
    }
}

/// The string at `pos`: its byte length as a varint, then that many bytes of UTF-8; and
/// the position after it.
pub open spec fn read_string(bytes: Seq<u8>, pos: int) -> Option<(Seq<char>, int)> {
    match read_varint(bytes, pos, 10) {
        Some((n, p)) => if p + n <= bytes.len() && valid_utf8(bytes.subrange(p, p + n)) {
            Some((decode_utf8(bytes.subrange(p, p + n)), p + n))
        } else {
            None
        },
        None => None,
    }
}

/// Calls `std::str::from_utf8`, which accepts exactly the byte sequences that are
/// well-formed UTF-8 and gives the string slice made of those bytes.
#[verifier::external_body]
fn str_from_utf8(bytes: &[u8]) -> (r: Option<&str>)
    ensures
        r is Some <==> valid_utf8(bytes@),
        r matches Some(s) ==> encode_utf8(s@) == bytes@,
{
    std::str::from_utf8(bytes).ok()
}

/// Read the string at `pos`.
pub fn read_string_at(bytes: &[u8], pos: usize) -> (r: Option<(String, usize)>)
    ensures
        r is Some <==> read_string(bytes@, pos as int) is Some,
        r matches Some((t, n)) ==> read_string(bytes@, pos as int) == Some((t@, n as int)) && n
            <= bytes@.len(),
{
    match read_varint_at(bytes, pos, 10) {
        None => None,
        Some((n, p)) => {
            if n > (bytes.len() - p) as u64 {
                return None;
            }
            let end = p + n as usize;
            match str_from_utf8(slice_subrange(bytes, p, end)) {
                Some(s) => {
                    proof {
                        encode_utf8_decode_utf8(s@);
                    }
                    Some((s.to_owned(), end))
                },
                None => None,
            }
        },
    }
}

/// Reading back a string written at `pos` gives it and the position after it.
pub proof fn lemma_read_string(bytes: Seq<u8>, pos: int, t: Seq<char>)
    requires
        0 <= pos,
        utf8_len(t) <= u64::MAX,
        pos + string_bytes(t).len() <= bytes.len(),
        bytes.subrange(pos, pos + string_bytes(t).len()) == string_bytes(t),
    ensures
        read_string(bytes, pos) == Some((t, pos + string_bytes(t).len())),
{
    let n = utf8_len(t) as u64;
    let v = varint(n);
    let e = encode_utf8(t);
    let sb = string_bytes(t);
    assert(sb == v + e);
    lemma_varint_len(n);
    assert(bytes.subrange(pos, pos + v.len()) =~= sb.subrange(0, v.len() as int));
    assert(sb.subrange(0, v.len() as int) =~= v);
    lemma_read_varint(bytes, pos, n, 10);
    let p = pos + v.len();
    assert(bytes.subrange(p, p + n) =~= sb.subrange(v.len() as int, sb.len() as int));
    assert(sb.subrange(v.len() as int, sb.len() as int) =~= e);
    encode_utf8_valid_utf8(t);
    encode_utf8_decode_utf8(t);
}

/// `bytes` holds `a` then `b` from `pos` on, so it holds `a` at `pos` and `b` after it.
pub proof fn lemma_split(bytes: Seq<u8>, pos: int, a: Seq<u8>, b: Seq<u8>)
    requires
        0 <= pos,
        pos + a.len() + b.len() <= bytes.len(),
        bytes.subrange(pos, pos + a.len() + b.len()) == a + b,
    ensures
        bytes.subrange(pos, pos + a.len()) == a,
        bytes.subrange(pos + a.len(), pos + a.len() + b.len()) == b,
{
    assert(bytes.subrange(pos, pos + a.len()) =~= (a + b).subrange(0, a.len() as int));
    assert((a + b).subrange(0, a.len() as int) =~= a);
    assert(bytes.subrange(pos + a.len(), pos + a.len() + b.len()) =~= (a + b).subrange(
        a.len() as int,
        (a.len() + b.len()) as int,
    ));
    assert((a + b).subrange(a.len() as int, (a.len() + b.len()) as int) =~= b);
}

/// The timestamps of `count` points from `pos` on, each stored as the varint of its
/// distance to the one before (0 before the first), and the position after them.
pub open spec fn read_timestamps(bytes: Seq<u8>, pos: int, count: nat) -> Option<(Seq<i64>, int)>
    decreases count,
{
    if count == 0 {
        Some((Seq::empty(), pos))
    } else {
        match read_timestamps(bytes, pos, (count - 1) as nat) {
            Some((ts, p)) => match read_varint(bytes, p, 10) {
                Some((d, q)) => {
                    let prev: int = if ts.len() == 0 {
                        0
                    } else {
                        ts.last() as int
                    };
                    if prev + d <= i64::MAX {
                        Some((ts.push((prev + d) as i64), q))
                    } else {
                        None
                    }
                },
                None => None,
            },
            None => None,
        }
    }
}

/// `count` strings from `pos` on, and the position after them.
pub open spec fn read_strings(bytes: Seq<u8>, pos: int, count: nat) -> Option<(Seq<Seq<char>>, int)>
    decreases count,
{
    if count == 0 {
        Some((Seq::empty(), pos))
    } else {
        match read_strings(bytes, pos, (count - 1) as nat) {
            Some((ss, p)) => match read_string(bytes, p) {
                Some((t, q)) => Some((ss.push(t), q)),
                None => None,
            },
            None => None,
        }
    }
}

/// `count` tags (key string, value string) from `pos` on, and the position after them.
pub open spec fn read_tag_pairs(bytes: Seq<u8>, pos: int, count: nat) -> Option<(Seq<TagView>, int)>
    decreases count,
{
    if count == 0 {
        Some((Seq::empty(), pos))
    } else {
        match read_tag_pairs(bytes, pos, (count - 1) as nat) {
            Some((ts, p)) => match read_string(bytes, p) {
                Some((k, q)) => match read_string(bytes, q) {
                    Some((v, r)) => Some((ts.push((k, v)), r)),
                    None => None,
                },
                None => None,
            },
            None => None,
        }
    }
}

/// The tags of `count` points from `pos` on: for each point a varint count and that many
/// tags; and the position after them.
pub open spec fn read_tag_lists(bytes: Seq<u8>, pos: int, count: nat) -> Option<
    (Seq<Seq<TagView>>, int),
>
    decreases count,
{
    if count == 0 {
        Some((Seq::empty(), pos))
    } else {
        match read_tag_lists(bytes, pos, (count - 1) as nat) {
            Some((ls, p)) => match read_varint(bytes, p, 10) {
                Some((c, q)) => match read_tag_pairs(bytes, q, c as nat) {
                    Some((tags, r)) => Some((ls.push(tags), r)),
                    None => None,
                },
                None => None,
            },
            None => None,
        }
    }
}

/// The timestamps of the points.
pub open spec fn timestamps_of(ps: Seq<PointView>) -> Seq<i64> {
    ps.map_values(|p: PointView| p.timestamp)
}

/// The metric names of the points.
pub open spec fn metrics_of(ps: Seq<PointView>) -> Seq<Seq<char>> {
    ps.map_values(|p: PointView| p.metric)
}

/// The tags of the points.
pub open spec fn tag_lists_of(ps: Seq<PointView>) -> Seq<Seq<TagView>> {
    ps.map_values(|p: PointView| p.tags)
}

/// The strings of a point have byte lengths that a 64-bit length can hold.
pub open spec fn strings_fit(p: PointView) -> bool {
    &&& utf8_len(p.metric) <= u64::MAX
    &&& forall|i: int|
        0 <= i < p.tags.len() ==> utf8_len(#[trigger] p.tags[i].0) <= u64::MAX && utf8_len(
            p.tags[i].1,
        ) <= u64::MAX
}

/// Reading back the timestamps of points in time order, none negative.
pub proof fn lemma_read_timestamps(bytes: Seq<u8>, pos: int, ps: Seq<PointView>)
    requires
        0 <= pos,
        sorted_by_time(ps),
        forall|i: int| 0 <= i < ps.len() ==> #[trigger] ps[i].timestamp >= 0,
        pos + timestamp_deltas(ps).len() <= bytes.len(),
        bytes.subrange(pos, pos + timestamp_deltas(ps).len()) == timestamp_deltas(ps),
    ensures
        read_timestamps(bytes, pos, ps.len()) == Some(
            (timestamps_of(ps), pos + timestamp_deltas(ps).len()),
        ),
    decreases ps.len(),
{
    if ps.len() > 0 {
        let d = ps.drop_last();
        let n = ps.len() - 1;
        let delta = (ps.last().timestamp - prev_timestamp(ps, n)) as u64;
        assert(timestamp_deltas(ps) == timestamp_deltas(d) + varint(delta));
        lemma_split(bytes, pos, timestamp_deltas(d), varint(delta));
        assert(sorted_by_time(d));
        lemma_read_timestamps(bytes, pos, d);
        let p = pos + timestamp_deltas(d).len();
        lemma_varint_len(delta);
        lemma_read_varint(bytes, p, delta, 10);
        if n > 0 {
            assert(ps[n - 1].timestamp <= ps[n].timestamp);
            assert(timestamps_of(d).last() == ps[n - 1].timestamp);
        }
        assert(timestamps_of(d).push(ps.last().timestamp) =~= timestamps_of(ps));
    } else {
        assert(timestamps_of(ps) =~= Seq::<i64>::empty());
    }
}

/// Reading back the metric names of the points.
pub proof fn lemma_read_metrics(bytes: Seq<u8>, pos: int, ps: Seq<PointView>)
    requires
        0 <= pos,
        forall|i: int| 0 <= i < ps.len() ==> strings_fit(#[trigger] ps[i]),
        pos + metrics_bytes(ps).len() <= bytes.len(),
        bytes.subrange(pos, pos + metrics_bytes(ps).len()) == metrics_bytes(ps),
    ensures
        read_strings(bytes, pos, ps.len()) == Some((metrics_of(ps), pos + metrics_bytes(ps).len())),
    decreases ps.len(),
{
    if ps.len() > 0 {
        let d = ps.drop_last();
        assert(metrics_bytes(ps) == metrics_bytes(d) + string_bytes(ps.last().metric));
        lemma_split(bytes, pos, metrics_bytes(d), string_bytes(ps.last().metric));
        assert forall|i: int| 0 <= i < d.len() implies strings_fit(#[trigger] d[i]) by {
            assert(strings_fit(ps[i]));
        }
        lemma_read_metrics(bytes, pos, d);
        assert(strings_fit(ps[ps.len() - 1]));
        lemma_read_string(bytes, pos + metrics_bytes(d).len(), ps.last().metric);
        assert(metrics_of(d).push(ps.last().metric) =~= metrics_of(ps));
    } else {
        assert(metrics_of(ps) =~= Seq::<Seq<char>>::empty());
    }
}

/// Reading back the tags of one point.
pub proof fn lemma_read_tag_pairs(bytes: Seq<u8>, pos: int, tags: Seq<TagView>)
    requires
        0 <= pos,
        forall|i: int|
            0 <= i < tags.len() ==> utf8_len(#[trigger] tags[i].0) <= u64::MAX && utf8_len(
                tags[i].1,
            ) <= u64::MAX,
        pos + tag_list_bytes(tags).len() <= bytes.len(),
        bytes.subrange(pos, pos + tag_list_bytes(tags).len()) == tag_list_bytes(tags),
    ensures
        read_tag_pairs(bytes, pos, tags.len()) == Some((tags, pos + tag_list_bytes(tags).len())),
    decreases tags.len(),
{
    if tags.len() > 0 {
        let d = tags.drop_last();
        let l = tags.last();
        let kb = string_bytes(l.0);
        let vb = string_bytes(l.1);
        assert(tag_list_bytes(tags) == tag_list_bytes(d) + kb + vb);
        lemma_split(bytes, pos, tag_list_bytes(d) + kb, vb);
        lemma_split(bytes, pos, tag_list_bytes(d), kb);
        assert forall|i: int| 0 <= i < d.len() implies utf8_len(#[trigger] d[i].0) <= u64::MAX
            && utf8_len(d[i].1) <= u64::MAX by {
            assert(d[i] == tags[i]);
        }
        lemma_read_tag_pairs(bytes, pos, d);
        assert(l == tags[tags.len() - 1]);
        lemma_read_string(bytes, pos + tag_list_bytes(d).len(), l.0);
        lemma_read_string(bytes, pos + tag_list_bytes(d).len() + kb.len(), l.1);
        assert(d.push((l.0, l.1)) =~= tags);
    } else {
        assert(tags =~= Seq::<TagView>::empty());
    }
}

/// Reading back the tags of the points.
pub proof fn lemma_read_tag_lists(bytes: Seq<u8>, pos: int, ps: Seq<PointView>)
    requires
        0 <= pos,
        forall|i: int| 0 <= i < ps.len() ==> strings_fit(#[trigger] ps[i]),
        forall|i: int| 0 <= i < ps.len() ==> #[trigger] ps[i].tags.len() <= u64::MAX,
        pos + tags_bytes(ps).len() <= bytes.len(),
        bytes.subrange(pos, pos + tags_bytes(ps).len()) == tags_bytes(ps),
    ensures
        read_tag_lists(bytes, pos, ps.len()) == Some((tag_lists_of(ps), pos + tags_bytes(ps).len())),
    decreases ps.len(),
{
    if ps.len() > 0 {
        let d = ps.drop_last();
        let l = ps.last();
        let cb = varint(l.tags.len() as u64);
        let tb = tag_list_bytes(l.tags);
        assert(tags_bytes(ps) == tags_bytes(d) + cb + tb);
        lemma_split(bytes, pos, tags_bytes(d) + cb, tb);
        lemma_split(bytes, pos, tags_bytes(d), cb);
        assert forall|i: int| 0 <= i < d.len() implies strings_fit(#[trigger] d[i]) by {
            assert(strings_fit(ps[i]));
        }
        assert forall|i: int| 0 <= i < d.len() implies #[trigger] d[i].tags.len() <= u64::MAX by {
            assert(ps[i].tags.len() <= u64::MAX);
        }
        lemma_read_tag_lists(bytes, pos, d);
        let p = pos + tags_bytes(d).len();
        assert(strings_fit(ps[ps.len() - 1]));
        assert(ps[ps.len() - 1].tags.len() <= u64::MAX);
        lemma_varint_len(l.tags.len() as u64);
        lemma_read_varint(bytes, p, l.tags.len() as u64, 10);
        lemma_read_tag_pairs(bytes, p + cb.len(), l.tags);
        assert(tag_lists_of(d).push(l.tags) =~= tag_lists_of(ps));
    } else {
        assert(tag_lists_of(ps) =~= Seq::<Seq<TagView>>::empty());
    }
}

/// Once reading timestamps fails, reading more fails too.
proof fn lemma_timestamps_stay_none(bytes: Seq<u8>, pos: int, i: nat, c: nat)
    requires
        i <= c,
        read_timestamps(bytes, pos, i) is None,
    ensures
        read_timestamps(bytes, pos, c) is None,
    decreases c - i,
{
    if i < c {
        lemma_timestamps_stay_none(bytes, pos, i, (c - 1) as nat);
    }
}

/// Once reading strings fails, reading more fails too.
proof fn lemma_strings_stay_none(bytes: Seq<u8>, pos: int, i: nat, c: nat)
    requires
        i <= c,
        read_strings(bytes, pos, i) is None,
    ensures
        read_strings(bytes, pos, c) is None,
    decreases c - i,
{
    if i < c {
        lemma_strings_stay_none(bytes, pos, i, (c - 1) as nat);
    }
}

/// Once reading tags fails, reading more fails too.
proof fn lemma_tag_pairs_stay_none(bytes: Seq<u8>, pos: int, i: nat, c: nat)
    requires
        i <= c,
        read_tag_pairs(bytes, pos, i) is None,
    ensures
        read_tag_pairs(bytes, pos, c) is None,
    decreases c - i,
{
    if i < c {
        lemma_tag_pairs_stay_none(bytes, pos, i, (c - 1) as nat);
    }
}

/// Once reading tag lists fails, reading more fails too.
proof fn lemma_tag_lists_stay_none(bytes: Seq<u8>, pos: int, i: nat, c: nat)
    requires
        i <= c,
        read_tag_lists(bytes, pos, i) is None,
    ensures
        read_tag_lists(bytes, pos, c) is None,
    decreases c - i,
{
    if i < c {
        lemma_tag_lists_stay_none(bytes, pos, i, (c - 1) as nat);
    }
}

/// Read the timestamps of `count` points.
fn read_timestamps_at(bytes: &[u8], pos: usize, count: u32) -> (r: Option<(Vec<i64>, usize)>)
    requires
        pos <= bytes@.len(),
    ensures
        r is Some <==> read_timestamps(bytes@, pos as int, count as nat) is Some,
        r matches Some((ts, n)) ==> read_timestamps(bytes@, pos as int, count as nat) == Some(
            (ts@, n as int),
        ) && n <= bytes@.len(),
{
    let mut ts: Vec<i64> = Vec::new();
    let mut p = pos;
    let mut prev: i64 = 0;
    let mut i: u32 = 0;
    while i < count
        invariant
            i <= count,
            p <= bytes@.len(),
            read_timestamps(bytes@, pos as int, i as nat) == Some((ts@, p as int)),
            prev == (if ts@.len() == 0 {
                0
            } else {
                ts@.last()
            }),
            prev >= 0,
        decreases count - i,
    {
        match read_varint_at(bytes, p, 10) {
            None => {
                proof {
                    lemma_timestamps_stay_none(bytes@, pos as int, (i + 1) as nat, count as nat);
                }
                return None;
            },
            Some((d, q)) => {
                if d > (i64::MAX - prev) as u64 {
                    proof {
                        lemma_timestamps_stay_none(bytes@, pos as int, (i + 1) as nat, count as nat);
                    }
                    return None;
                }
                let t = prev + d as i64;
                ts.push(t);
                prev = t;
                p = q;
            },
        }
        i = i + 1;
    }
    Some((ts, p))
}

/// The strings of a vector.
pub open spec fn string_views(v: Seq<String>) -> Seq<Seq<char>> {
    v.map_values(|t: String| t@)
}

/// Read `count` strings.
fn read_strings_at(bytes: &[u8], pos: usize, count: u32) -> (r: Option<(Vec<String>, usize)>)
    ensures
        r is Some <==> read_strings(bytes@, pos as int, count as nat) is Some,
        r matches Some((ss, n)) ==> read_strings(bytes@, pos as int, count as nat) == Some(
            (string_views(ss@), n as int),
        ),
{
    let mut ss: Vec<String> = Vec::new();
    let mut p = pos;
    let mut i: u32 = 0;
    while i < count
        invariant
            i <= count,
            read_strings(bytes@, pos as int, i as nat) == Some((string_views(ss@), p as int)),
        decreases count - i,
    {
        match read_string_at(bytes, p) {
            None => {
                proof {
                    lemma_strings_stay_none(bytes@, pos as int, (i + 1) as nat, count as nat);
                }
                return None;
            },
            Some((t, q)) => {
                let ghost before = ss@;
                ss.push(t);
                assert(string_views(ss@) =~= string_views(before).push(t@));
                p = q;
            },
        }
        i = i + 1;
    }
    Some((ss, p))
}

/// The tags of a vector of key and value strings.
pub open spec fn pair_views(v: Seq<(String, String)>) -> Seq<TagView> {
    v.map_values(|e: (String, String)| (e.0@, e.1@))
}

/// Read `count` tags.
fn read_tag_pairs_at(bytes: &[u8], pos: usize, count: u64) -> (r: Option<(Vec<(String, String)>, usize)>)
    requires
        pos <= bytes@.len(),
    ensures
        r is Some <==> read_tag_pairs(bytes@, pos as int, count as nat) is Some,
        r matches Some((ts, n)) ==> read_tag_pairs(bytes@, pos as int, count as nat) == Some(
            (pair_views(ts@), n as int),
        ) && n <= bytes@.len(),
{
    let mut ts: Vec<(String, String)> = Vec::new();
    let mut p = pos;
    let mut i: u64 = 0;
    while i < count
        invariant
            i <= count,
            read_tag_pairs(bytes@, pos as int, i as nat) == Some((pair_views(ts@), p as int)),
            p <= bytes@.len(),
        decreases count - i,
    {
        match read_string_at(bytes, p) {
            None => {
                proof {
                    lemma_tag_pairs_stay_none(bytes@, pos as int, (i + 1) as nat, count as nat);
                }
                return None;
            },
            Some((k, q)) => {
                match read_string_at(bytes, q) {
                    None => {
                        proof {
                            lemma_tag_pairs_stay_none(bytes@, pos as int, (i + 1) as nat, count as nat);
                        }
                        return None;
                    },
                    Some((v, e)) => {
                        let ghost before = ts@;
                        let ghost kv = k@;
                        let ghost vv = v@;
                        ts.push((k, v));
                        assert(pair_views(ts@) =~= pair_views(before).push((kv, vv)));
                        p = e;
                    },
                }
            },
        }
        i = i + 1;
    }
    Some((ts, p))
}

/// The tags of each list of a vector.
pub open spec fn list_views(v: Seq<Vec<(String, String)>>) -> Seq<Seq<TagView>> {
    v.map_values(|l: Vec<(String, String)>| pair_views(l@))
}

/// Read the tags of `count` points.
fn read_tag_lists_at(bytes: &[u8], pos: usize, count: u32) -> (r: Option<
    (Vec<Vec<(String, String)>>, usize),
>)
    requires
        pos <= bytes@.len(),
    ensures
        r is Some <==> read_tag_lists(bytes@, pos as int, count as nat) is Some,
        r matches Some((ls, n)) ==> read_tag_lists(bytes@, pos as int, count as nat) == Some(
            (list_views(ls@), n as int),
        ),
{
    let mut ls: Vec<Vec<(String, String)>> = Vec::new();
    let mut p = pos;
    let mut i: u32 = 0;
    while i < count
        invariant
            i <= count,
            p <= bytes@.len(),
            read_tag_lists(bytes@, pos as int, i as nat) == Some((list_views(ls@), p as int)),
        decreases count - i,
    {
        match read_varint_at(bytes, p, 10) {
            None => {
                proof {
                    lemma_tag_lists_stay_none(bytes@, pos as int, (i + 1) as nat, count as nat);
                }
                return None;
            },
            Some((c, q)) => {
                match read_tag_pairs_at(bytes, q, c) {
                    None => {
                        proof {
                            lemma_tag_lists_stay_none(bytes@, pos as int, (i + 1) as nat, count as nat);
                        }
                        return None;
                    },
                    Some((tags, e)) => {
                        let ghost before = ls@;
                        let ghost tv = pair_views(tags@);
                        ls.push(tags);
                        assert(list_views(ls@) =~= list_views(before).push(tv));
                        p = e;
                    },
                }
            },
        }
        i = i + 1;
    }
    Some((ls, p))
}

/// The tags that setting each pair in turn gives, starting from none.
pub open spec fn tags_from(pairs: Seq<TagView>) -> Seq<TagView>
    decreases pairs.len(),
{
    if pairs.len() == 0 {
        Seq::empty()
    } else {
        tags_insert(tags_from(pairs.drop_last()), pairs.last().0, pairs.last().1)
    }
}

/// Set each pair in turn.
fn make_tags(pairs: &Vec<(String, String)>) -> (r: Tags)
    ensures
        r@ == tags_from(pair_views(pairs@)),
{
    let mut tags = Tags::new();
    let mut i: usize = 0;
    while i < pairs.len()
        invariant
            i <= pairs@.len(),
            tags@ == tags_from(pair_views(pairs@).take(i as int)),
        decreases pairs@.len() - i,
    {
        assert(pair_views(pairs@).take(i + 1).drop_last() =~= pair_views(pairs@).take(i as int));
        tags.insert(pairs[i].0.clone(), pairs[i].1.clone());
        i = i + 1;
    }
    assert(pair_views(pairs@).take(pairs@.len() as int) =~= pair_views(pairs@));
    tags
}

/// The points of the data block at `pos`: the point count, the timestamps, the length
/// of the compressed values and the values, the metric names, the tags.
pub open spec fn read_block(bytes: Seq<u8>, pos: int) -> Option<Seq<PointView>> {
    if pos < 0 || pos + 4 > bytes.len() {
        None
    } else {
        let n = u32_at(bytes, pos) as nat;
        match read_timestamps(bytes, pos + 4, n) {
            None => None,
            Some((ts, p)) => if p + 4 > bytes.len() {
                None
            } else {
                let vlen = u32_at(bytes, p) as int;
                let vs = p + 4;
                if vs + vlen > bytes.len() || 8 * vlen > usize::MAX {
                    None
                } else {
                    match gorilla_decode(bytes.subrange(vs, vs + vlen)) {
                        None => None,
                        Some(vals) => if vals.len() != n {
                            None
                        } else {
                            match read_strings(bytes, vs + vlen, n) {
                                None => None,
                                Some((ms, q)) => match read_tag_lists(bytes, q, n) {
                                    None => None,
                                    Some((tls, e)) => Some(
                                        Seq::new(
                                            n,
                                            |i: int|
                                                PointView {
                                                    timestamp: ts[i],
                                                    metric: ms[i],
                                                    value: vals[i],
                                                    tags: tags_from(tls[i]),
                                                },
                                        ),
                                    ),
                                },
                            }
                        },
                    }
                }
            },
        }
    }
}

/// Reading `count` timestamps, strings or tag lists gives `count` of them.
proof fn lemma_read_counts(bytes: Seq<u8>, pos: int, count: nat)
    ensures
        read_timestamps(bytes, pos, count) matches Some((ts, _)) ==> ts.len() == count,
        read_strings(bytes, pos, count) matches Some((ss, _)) ==> ss.len() == count,
        read_tag_lists(bytes, pos, count) matches Some((ls, _)) ==> ls.len() == count,
    decreases count,
{
    if count > 0 {
        lemma_read_counts(bytes, pos, (count - 1) as nat);
    }
}

/// Read the points of the data block at `pos`.
pub fn read_block_at(bytes: &[u8], pos: usize) -> (r: Option<Vec<Point>>)
    ensures
        r is Some <==> read_block(bytes@, pos as int) is Some,
        r matches Some(v) ==> read_block(bytes@, pos as int) == Some(views(v@)),
{
    if pos > bytes.len() || bytes.len() - pos < 4 {
        return None;
    }
    let n = u32_from_le_bytes(slice_subrange(bytes, pos, pos + 4));
    let (ts, p) = match read_timestamps_at(bytes, pos + 4, n) {
        None => return None,
        Some(x) => x,
    };
    if bytes.len() - p < 4 {
        return None;
    }
    let vlen = u32_from_le_bytes(slice_subrange(bytes, p, p + 4));
    let vs = p + 4;
    if vlen as usize > bytes.len() - vs || vlen as usize > usize::MAX / 8 {
        return None;
    }
    let vals = match try_decompress_gorilla(slice_subrange(bytes, vs, vs + vlen as usize)) {
        None => return None,
        Some(v) => v,
    };
    if vals.len() != n as usize {
        return None;
    }
    let (ms, q) = match read_strings_at(bytes, vs + vlen as usize, n) {
        None => return None,
        Some(x) => x,
    };
    let (tls, _e) = match read_tag_lists_at(bytes, q, n) {
        None => return None,
        Some(x) => x,
    };
    proof {
        lemma_read_counts(bytes@, pos + 4, n as nat);
        lemma_read_counts(bytes@, vs + vlen, n as nat);
        lemma_read_counts(bytes@, q as int, n as nat);
    }
    let ghost want = read_block(bytes@, pos as int).unwrap();
    let mut out: Vec<Point> = Vec::new();
    let mut i: usize = 0;
    while i < n as usize
        invariant
            i <= n,
            ts@.len() == n,
            vals@.len() == n,
            string_views(ms@).len() == n,
            list_views(tls@).len() == n,
            want.len() == n,
            forall|j: int| 0 <= j < n ==> #[trigger] want[j] == (PointView {
                timestamp: ts@[j],
                metric: string_views(ms@)[j],
                value: vals@[j],
                tags: tags_from(list_views(tls@)[j]),
            }),
            views(out@) == want.take(i as int),
        decreases n - i,
    {
        let tags = make_tags(&tls[i]);
        let p = Point { timestamp: ts[i], metric: ms[i].clone(), value: vals[i], tags };
        let ghost before = views(out@);
        out.push(p);
        assert(views(out@) =~= before.push(p@));
        assert(want.take(i + 1) =~= want.take(i as int).push(want[i as int]));
        i = i + 1;
    }
    assert(want.take(n as int) =~= want);
    Some(out)
}

/// The records of `n` values take at most 76 bits each.
proof fn lemma_encode_len(prev: u64, vals: Seq<u64>)
    ensures
        encode_values(prev, vals).len() <= 76 * vals.len(),
    decreases vals.len(),
{
    if vals.len() > 0 {
        lemma_record_len(prev, vals[0]);
        lemma_encode_len(vals[0], vals.drop_first());
    }
}

/// Setting tags with distinct keys one after the other gives them back.
pub proof fn lemma_tags_from_distinct(tags: Seq<TagView>)
    requires
        keys_distinct(tags),
    ensures
        tags_from(tags) == tags,
    decreases tags.len(),
{
    if tags.len() > 0 {
        let d = tags.drop_last();
        assert(keys_distinct(d));
        lemma_tags_from_distinct(d);
        assert forall|j: int| 0 <= j < d.len() implies d[j].0 != tags.last().0 by {
            assert(tags[j].0 != tags[tags.len() - 1].0);
        }
        lemma_key_pos_at(d, tags.last().0, d.len() as int);
        assert(d.push((tags.last().0, tags.last().1)) =~= tags);
    }
}

/// What the points of a table need to read back: points in time order, none before
/// 1970, strings and tag counts that the stored lengths can hold, distinct tag keys.
pub open spec fn points_ok(ps: Seq<PointView>) -> bool {
    &&& sorted_by_time(ps)
    &&& forall|i: int|
        0 <= i < ps.len() ==> {
            &&& #[trigger] ps[i].timestamp >= 0
            &&& strings_fit(ps[i])
            &&& ps[i].tags.len() <= u64::MAX
            &&& keys_distinct(ps[i].tags)
        }
}

/// What a data block needs to read back as its points: points that suit a table, few
/// enough that the compressed values (at most 76 bits a point) fit the block's 32-bit
/// byte length, and a bit count that a machine word holds.
pub open spec fn block_ok(ps: Seq<PointView>) -> bool {
    &&& points_ok(ps)
    &&& 76 * ps.len() <= 8 * (u32::MAX as int)
    &&& 76 * ps.len() + 8 <= usize::MAX
}

/// Each tag string of a point, and the number of its tags, is at most its tags' size.
proof fn lemma_tags_size_bounds(tags: Seq<TagView>)
    ensures
        4 * tags.len() <= crate::point::tags_size(tags),
        forall|i: int|
            0 <= i < tags.len() ==> utf8_len(#[trigger] tags[i].0) <= crate::point::tags_size(tags)
                && utf8_len(tags[i].1) <= crate::point::tags_size(tags),
    decreases tags.len(),
{
    if tags.len() > 0 {
        let d = tags.drop_last();
        lemma_tags_size_bounds(d);
        assert forall|i: int| 0 <= i < tags.len() implies utf8_len(#[trigger] tags[i].0)
            <= crate::point::tags_size(tags) && utf8_len(tags[i].1) <= crate::point::tags_size(tags) by {
            if i < d.len() {
                assert(tags[i] == d[i]);
            }
        }
    }
}

/// A point whose size a machine word holds has strings and a tag count that the stored
/// 64-bit lengths hold.
pub proof fn lemma_point_fits(p: PointView)
    requires
        crate::point::point_size(p) <= usize::MAX,
    ensures
        strings_fit(p),
        p.tags.len() <= u64::MAX,
{
    lemma_tags_size_bounds(p.tags);
}

/// A data block written at `pos` reads back as its points.
pub proof fn lemma_read_block(bytes: Seq<u8>, pos: int, ps: Seq<PointView>)
    requires
        0 <= pos,
        block_ok(ps),
        pos + block_bytes(ps).len() <= bytes.len(),
        bytes.subrange(pos, pos + block_bytes(ps).len()) == block_bytes(ps),
    ensures
        read_block(bytes, pos) == Some(ps),
{
    lemma_auto_spec_u32_to_from_le_bytes();
    let n = ps.len();
    let vals = values_of(ps);
    let vb = gorilla_bytes(vals);
    lemma_gorilla_bytes(vals);
    lemma_encode_len(0, vals);
    assert(gorilla_bits(vals).len() <= 76 * n);
    assert(pad_to_byte(gorilla_bits(vals)).len() <= 76 * n + 7);
    let cb = spec_u32_to_le_bytes(n as u32);
    let td = timestamp_deltas(ps);
    let lb = spec_u32_to_le_bytes(vb.len() as u32);
    let mb = metrics_bytes(ps);
    let tb = tags_bytes(ps);
    assert(block_bytes(ps) == cb + td + lb + vb + mb + tb);
    lemma_split(bytes, pos, cb + td + lb + vb + mb, tb);
    lemma_split(bytes, pos, cb + td + lb + vb, mb);
    lemma_split(bytes, pos, cb + td + lb, vb);
    lemma_split(bytes, pos, cb + td, lb);
    lemma_split(bytes, pos, cb, td);
    assert(cb.len() == 4 && lb.len() == 4);
    assert(u32_at(bytes, pos) == n);
    assert forall|i: int| 0 <= i < ps.len() implies #[trigger] ps[i].timestamp >= 0 by {}
    lemma_read_timestamps(bytes, pos + 4, ps);
    let p = pos + 4 + td.len();
    assert(u32_at(bytes, p) == vb.len());
    let vs = p + 4;
    assert(bytes.subrange(vs, vs + vb.len()) == vb);
    assert(values_of(ps).len() == n);
    let mpos = vs + vb.len();
    assert forall|i: int| 0 <= i < ps.len() implies strings_fit(#[trigger] ps[i]) by {
        assert(ps[i].timestamp >= 0);
    }
    lemma_read_metrics(bytes, mpos, ps);
    assert forall|i: int| 0 <= i < ps.len() implies #[trigger] ps[i].tags.len() <= u64::MAX by {
        assert(ps[i].timestamp >= 0);
    }
    lemma_read_tag_lists(bytes, mpos + mb.len(), ps);
    let r = read_block(bytes, pos).unwrap();
    assert forall|i: int| 0 <= i < n implies #[trigger] r[i] == ps[i] by {
        assert(ps[i].timestamp >= 0);
        lemma_tags_from_distinct(ps[i].tags);
    }
    assert(r =~= ps);
}

} // verus!
