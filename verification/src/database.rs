//! The database's configuration, statistics and the in-memory part of reading it.

use crate::error::{Error, Result};
use crate::memtable::{
    all_valid, in_range, insert_by_time, points_in_range, sorted_by_time, Memtable, MemtableView,
};
use crate::point::{point_size, point_valid, validation_result, views, Point, PointView};
use crate::query::{
    lemma_insert_by_time_same_time, lemma_stable_time_order_unique, query_valid,
    query_validation_result, same_time, lemma_same_time_equal,
    sort_by_timestamp, stable_time_order, Query,
};
use crate::sstable::{span, SSTable, SSTableView, COMPRESSION_GORILLA};
use crate::wal::{cut_short, frames, lemma_wal_round_trip, scan_log, LogScan};
use vstd::prelude::*;

verus! {

broadcast use vstd::seq::group_seq_axioms;

/// Database configuration
#[derive(Debug, Clone)]
pub struct Config {
    /// Maximum memtable size before flush (default: 1GB)
    pub max_memtable_size: usize,
    /// Enable WAL fsync after each write (default: true)
    pub wal_sync: bool,
    /// SSTable directory (default: "data/sst")
    pub sst_dir: String,
    /// WAL directory (default: "data/wal")
    pub wal_dir: String,
}

impl Default for Config {
    fn default() -> (r: Config)
        ensures
            r.max_memtable_size == 1073741824,
            r.wal_sync,
            r.sst_dir@ == "data/sst"@,
            r.wal_dir@ == "data/wal"@,
    {
        Config {
            max_memtable_size: 1073741824,
            wal_sync: true,
            sst_dir: "data/sst".to_owned(),
            wal_dir: "data/wal".to_owned(),
        }
    }
}

/// Database statistics
#[derive(Debug, Clone)]
pub struct DatabaseStats {
    /// Current memtable size in bytes
    pub memtable_size: usize,
    /// Number of points in memtable
    pub memtable_points: usize,
    /// Number of SSTables
    pub num_sstables: usize,
    /// Database path
    pub path: String,
}

/// Statistics of a database with this memtable, this many tables and this path.
pub fn database_stats(memtable: &Memtable, num_sstables: usize, path: &str) -> (r: DatabaseStats)
    ensures
        r.memtable_size == memtable@.size,
        r.memtable_points == memtable@.points.len(),
        r.num_sstables == num_sstables,
        r.path@ == path@,
{
    DatabaseStats {
        memtable_size: memtable.size(),
        memtable_points: memtable.len(),
        num_sstables,
        path: path.to_owned(),
    }
}

/// Total size in bytes of the points of `s`.
pub open spec fn total_size(s: Seq<PointView>) -> nat
    decreases s.len(),
{
    if s.len() == 0 {
        0
    } else {
        total_size(s.drop_last()) + point_size(s.last())
    }
}

/// The first `i` points take no more bytes than all of them.
proof fn lemma_total_size_prefix(s: Seq<PointView>, i: int)
    requires
        0 <= i <= s.len(),
    ensures
        total_size(s.take(i)) <= total_size(s),
    decreases s.len() - i,
{
    if i < s.len() {
        lemma_total_size_prefix(s, i + 1);
        assert(s.take(i + 1).drop_last() =~= s.take(i));
    } else {
        assert(s.take(i) =~= s);
    }
}

/// The memtable that writing the points one after the other into a new memtable with
/// limit `max_size` gives, each write as `Memtable::insert` states it.
pub open spec fn after_writes(max_size: usize, ps: Seq<PointView>) -> MemtableView
    decreases ps.len(),
{
    if ps.len() == 0 {
        MemtableView { points: Seq::empty(), size: 0, max_size: max_size as nat }
    } else {
        let m = after_writes(max_size, ps.drop_last());
        MemtableView {
            points: insert_by_time(m.points, ps.last()),
            size: m.size + point_size(ps.last()),
            max_size: m.max_size,
        }
    }
}

/// Writing points one after the other leaves them in a stable order by time, with their
/// total size.
proof fn lemma_after_writes(max_size: usize, ps: Seq<PointView>)
    ensures
        stable_time_order(ps, after_writes(max_size, ps).points),
        after_writes(max_size, ps).size == total_size(ps),
        after_writes(max_size, ps).max_size == max_size,
    decreases ps.len(),
{
    if ps.len() == 0 {
        reveal(Seq::filter);
        assert forall|t: i64| #[trigger] same_time(Seq::<PointView>::empty(), t) == same_time(ps, t) by {
            assert(ps =~= Seq::<PointView>::empty());
        }
    } else {
        let d = ps.drop_last();
        let x = ps.last();
        lemma_after_writes(max_size, d);
        let o = after_writes(max_size, d).points;
        assert(d.push(x) =~= ps);
        assert forall|t: i64| #[trigger] same_time(insert_by_time(o, x), t) == same_time(ps, t) by {
            lemma_insert_by_time_same_time(o, x, t);
            d.lemma_filter_push(x, |q: PointView| q.timestamp == t);
        }
        lemma_insert_by_time_same_time(o, x, 0);
    }
}

/// Recovery rebuilds what the writes built: a memtable that holds the points read back
/// from the log in a stable order by time, with their total size and the limit
/// `max_size`, is exactly the memtable that writing those points one after the other
/// into a new memtable with that limit gives.
pub proof fn lemma_recovery_matches_writes(max_size: usize, ps: Seq<PointView>, m: MemtableView)
    requires
        stable_time_order(ps, m.points),
        m.size == total_size(ps),
        m.max_size == max_size,
    ensures
        m == after_writes(max_size, ps),
{
    lemma_after_writes(max_size, ps);
    lemma_stable_time_order_unique(ps, m.points, after_writes(max_size, ps).points);
}

/// Crash recovery: a log holding the records of written points, whose last write may
/// have been cut short by the crash, reads back as the records of the whole writes, with
/// no error; and the memtable rebuilt from the points those records decode to (`decode`
/// stands for the payload encoding) is exactly the memtable that those writes built.
pub proof fn lemma_crash_recovery(
    payloads: Seq<Seq<u8>>,
    tail: Seq<u8>,
    cut: Seq<u8>,
    decode: spec_fn(Seq<u8>) -> PointView,
    max_size: usize,
    m: MemtableView,
)
    requires
        forall|i: int| 0 <= i < payloads.len() ==> #[trigger] payloads[i].len() <= u32::MAX,
        tail.len() == 0 || cut_short(tail, cut),
        stable_time_order(payloads.map_values(decode), m.points),
        m.size == total_size(payloads.map_values(decode)),
        m.max_size == max_size,
    ensures
        scan_log(frames(payloads) + tail) == (LogScan { records: payloads, mismatch: None }),
        m == after_writes(max_size, scan_log(frames(payloads) + tail).records.map_values(decode)),
{
    lemma_wal_round_trip(payloads, tail, cut);
    lemma_recovery_matches_writes(max_size, payloads.map_values(decode), m);
}

/// Rebuilds the memtable from the points read back from the write-ahead log, inserting
/// them in log order. The memtable then holds them in time order, points with equal
/// timestamps in log order. The first invalid point stops the rebuild with its
/// validation error.
pub fn recover_memtable(max_size: usize, points: &Vec<Point>) -> (r: Result<Memtable>)
    requires
        total_size(views(points@)) <= usize::MAX,
    ensures
        r is Ok <==> all_valid(views(points@)),
        r matches Ok(m) ==> stable_time_order(views(points@), m@.points) && m@.size == total_size(
            views(points@),
        ) && m@.max_size == max_size,
        r matches Ok(m) ==> m@ == after_writes(max_size, views(points@)),
        r matches Err(e) ==> exists|i: int|
            0 <= i < points@.len() && all_valid(views(points@).take(i)) && validation_result(
                #[trigger] points@[i]@,
                Err(e),
            ),
{
    let ghost s = views(points@);
    let mut memtable = Memtable::new(max_size);
    let mut i: usize = 0;
    assert(s.take(0) =~= Seq::<PointView>::empty());
    while i < points.len()
        invariant
            i <= points@.len(),
            s == views(points@),
            total_size(s) <= usize::MAX,
            all_valid(s.take(i as int)),
            stable_time_order(s.take(i as int), memtable@.points),
            memtable@.size == total_size(s.take(i as int)),
            memtable@.max_size == max_size,
        decreases points@.len() - i,
    {
        let p = points[i].clone();
        let ghost pv = p@;
        let ghost o = memtable@.points;
        proof {
            assert(s.take(i + 1) =~= s.take(i as int).push(pv));
            assert(s.take(i + 1).drop_last() =~= s.take(i as int));
            lemma_total_size_prefix(s, i + 1);
        }
        match memtable.insert(p) {
            Ok(()) => {},
            Err(e) => {
                assert(points@[i as int]@ == pv);
                return Err(e);
            },
        }
        proof {
            assert forall|tt: i64| #[trigger] same_time(memtable@.points, tt) == same_time(
                s.take(i + 1),
                tt,
            ) by {
                lemma_insert_by_time_same_time(o, pv, tt);
                s.take(i as int).lemma_filter_push(pv, |q: PointView| q.timestamp == tt);
            }
            lemma_insert_by_time_same_time(o, pv, 0);
        }
        i = i + 1;
    }
    assert(s.take(points@.len() as int) =~= s);
    proof {
        lemma_recovery_matches_writes(max_size, s, memtable@);
    }
    Ok(memtable)
}

/// Adds a point that the write-ahead log has taken to the memtable, and says whether the
/// memtable is then due to be flushed. An invalid point leaves the memtable unchanged
/// and gives its validation error.
pub fn write_point(memtable: &mut Memtable, point: Point) -> (r: Result<bool>)
    requires
        old(memtable)@.size + point_size(point@) <= usize::MAX,
    ensures
        r matches Err(e) ==> validation_result(point@, Err(e)),
        r is Ok <==> point_valid(point@),
        r matches Ok(flush) ==> final(memtable)@ == (MemtableView {
            points: insert_by_time(old(memtable)@.points, point@),
            size: old(memtable)@.size + point_size(point@),
            max_size: old(memtable)@.max_size,
        }) && flush == (final(memtable)@.size >= final(memtable)@.max_size),
        r is Err ==> final(memtable)@ == old(memtable)@,
{
    match memtable.insert(point) {
        Ok(()) => Ok(memtable.needs_flush()),
        Err(e) => Err(e),
    }
}

/// Time range `a` comes no later than `b`: by start, then by end.
pub open spec fn range_le(a: (i64, i64), b: (i64, i64)) -> bool {
    a.0 < b.0 || (a.0 == b.0 && a.1 <= b.1)
}

/// What each table of `s` records.
pub open spec fn table_views(s: Seq<SSTable>) -> Seq<SSTableView> {
    s.map_values(|t: SSTable| t@)
}

/// The tables of `s` whose time range is `k`, in order.
pub open spec fn same_range(s: Seq<SSTableView>, k: (i64, i64)) -> Seq<SSTableView> {
    s.filter(|t: SSTableView| t.time_range == k)
}

/// `r` holds the tables of `s` ordered by time range, tables with equal ranges in the
/// order they had in `s`.
pub open spec fn stable_range_order(s: Seq<SSTableView>, r: Seq<SSTableView>) -> bool {
    &&& forall|i: int, j: int|
        0 <= i <= j < r.len() ==> range_le(#[trigger] r[i].time_range, #[trigger] r[j].time_range)
    &&& forall|k: (i64, i64)| #[trigger] same_range(r, k) == same_range(s, k)
}

/// Time range `a` comes after `b`.
fn range_after(a: (i64, i64), b: (i64, i64)) -> (r: bool)
    ensures
        r == !range_le(a, b),
{
    a.0 > b.0 || (a.0 == b.0 && a.1 > b.1)
}

/// Placing `x` after the tables whose range is not later than its own keeps the order
/// and adds `x` after the tables with its range.
proof fn lemma_place_table(o: Seq<SSTableView>, x: SSTableView, j: int, k: (i64, i64))
    requires
        0 <= j <= o.len(),
        forall|a: int, b: int|
            0 <= a <= b < o.len() ==> range_le(#[trigger] o[a].time_range, #[trigger] o[b].time_range),
        forall|m: int| 0 <= m < j ==> range_le(#[trigger] o[m].time_range, x.time_range),
        forall|m: int| j <= m < o.len() ==> !range_le(#[trigger] o[m].time_range, x.time_range),
    ensures
        forall|a: int, b: int|
            0 <= a <= b < o.insert(j, x).len() ==> range_le(
                #[trigger] o.insert(j, x)[a].time_range,
                #[trigger] o.insert(j, x)[b].time_range,
            ),
        same_range(o.insert(j, x), k) == (if x.time_range == k {
            same_range(o, k).push(x)
        } else {
            same_range(o, k)
        }),
{
    let r = o.insert(j, x);
    assert forall|a: int, b: int| 0 <= a <= b < r.len() implies range_le(
        #[trigger] r[a].time_range,
        #[trigger] r[b].time_range,
    ) by {
        if a < j && b > j {
            assert(range_le(o[a].time_range, o[b - 1].time_range));
        } else if a < j && b < j {
            assert(range_le(o[a].time_range, o[b].time_range));
        } else if a > j && b > j {
            assert(range_le(o[a - 1].time_range, o[b - 1].time_range));
        } else if a == j && b > j {
            assert(!range_le(o[b - 1].time_range, x.time_range));
        }
    }
    let pre = o.take(j);
    let post = o.skip(j);
    let pred = |t: SSTableView| t.time_range == k;
    assert(o =~= pre + post);
    assert(r =~= pre + (seq![x] + post));
    Seq::filter_distributes_over_add(pre, post, pred);
    Seq::filter_distributes_over_add(seq![x], post, pred);
    Seq::filter_distributes_over_add(pre, seq![x] + post, pred);
    Seq::<SSTableView>::empty().lemma_filter_push(x, pred);
    assert(Seq::<SSTableView>::empty().push(x) =~= seq![x]);
    reveal(Seq::filter);
    if x.time_range == k {
        assert forall|m: int| 0 <= m < post.len() implies !pred(post[m]) by {
            assert(!range_le(o[j + m].time_range, x.time_range));
        }
        post.lemma_all_neg_filter_empty(pred);
    }
}

/// Orders tables by time range, by start and then by end; tables with equal ranges keep
/// their order.
pub fn order_tables(tables: Vec<SSTable>) -> (r: Vec<SSTable>)
    ensures
        stable_range_order(table_views(tables@), table_views(r@)),
{
    let ghost s = table_views(tables@);
    let n = tables.len();
    let mut rest = tables;
    let mut out: Vec<SSTable> = Vec::new();
    let mut i: usize = 0;
    assert(s.skip(0) =~= s);
    assert(s.take(0) =~= Seq::<SSTableView>::empty());
    assert(table_views(out@) =~= Seq::<SSTableView>::empty());
    while i < n
        invariant
            i <= n,
            n == s.len(),
            table_views(rest@) == s.skip(i as int),
            stable_range_order(s.take(i as int), table_views(out@)),
        decreases n - i,
    {
        let ghost before = rest@;
        assert(table_views(rest@).len() == n - i);
        let t = rest.remove(0);
        proof {
            let bv = table_views(before);
            assert(bv == s.skip(i as int));
            assert(t@ == bv[0]);
            assert(bv[0] == s[i as int]);
            assert(table_views(rest@) =~= bv.skip(1));
            assert(bv.skip(1) =~= s.skip(i + 1));
        }
        let key = t.time_range();
        let ghost o = table_views(out@);
        let mut j = out.len();
        while j > 0 && range_after(out[j - 1].time_range(), key)
            invariant
                j <= out@.len(),
                o == table_views(out@),
                forall|m: int| j <= m < out@.len() ==> !range_le(#[trigger] o[m].time_range, key),
            decreases j,
        {
            j = j - 1;
        }
        let ghost x = t@;
        proof {
            assert forall|m: int| 0 <= m < j implies range_le(#[trigger] o[m].time_range, key) by {
                assert(range_le(o[m].time_range, o[j - 1].time_range));
            }
        }
        out.insert(j, t);
        proof {
            assert(table_views(out@) =~= o.insert(j as int, x));
            assert(s.take(i + 1) =~= s.take(i as int).push(x));
            assert forall|k: (i64, i64)| #[trigger] same_range(table_views(out@), k) == same_range(
                s.take(i + 1),
                k,
            ) by {
                lemma_place_table(o, x, j as int, k);
                s.take(i as int).lemma_filter_push(x, |t: SSTableView| t.time_range == k);
            }
            lemma_place_table(o, x, j as int, key);
        }
        i = i + 1;
    }
    assert(s.take(n as int) =~= s);
    out
}

/// A table's time range meets the query's range.
pub open spec fn overlaps(range: (i64, i64), start: i64, end: i64) -> bool {
    range.0 <= end && range.1 >= start
}

/// The points of `s` of metric `m`, in order.
pub open spec fn of_metric(s: Seq<PointView>, m: Seq<char>) -> Seq<PointView> {
    s.filter(|p: PointView| p.metric == m)
}

/// The points in `[start, end)` of the tables whose time range meets it, table after
/// table; `None` when the blocks of such a table could not be read.
pub open spec fn table_hits(ts: Seq<SSTableView>, start: i64, end: i64) -> Option<Seq<PointView>>
    decreases ts.len(),
{
    if ts.len() == 0 {
        Some(Seq::empty())
    } else {
        match table_hits(ts.drop_last(), start, end) {
            None => None,
            Some(h) => if overlaps(ts.last().time_range, start, end) {
                match ts.last().points {
                    Some(ps) => Some(h + points_in_range(ps, start, end)),
                    None => None,
                }
            } else {
                Some(h)
            },
        }
    }
}

/// Once a prefix of the tables holds one that cannot be read, so do all of them.
proof fn lemma_table_hits_stay_none(ts: Seq<SSTableView>, start: i64, end: i64, i: int)
    requires
        0 <= i <= ts.len(),
        table_hits(ts.take(i), start, end) is None,
    ensures
        table_hits(ts, start, end) is None,
    decreases ts.len() - i,
{
    if i < ts.len() {
        assert(ts.take(i + 1).drop_last() =~= ts.take(i));
        lemma_table_hits_stay_none(ts, start, end, i + 1);
    } else {
        assert(ts.take(i) =~= ts);
    }
}

/// Flushing the memtable's points into one more table keeps what a query reads. When the
/// older tables can be read: the same points (as a multiset) before and after; the very
/// same candidates when there was no table before; and the very same result, ordered by
/// time, whenever no flushed point of the metric in the range shares its timestamp with
/// an older table's point of the metric in the range (such ties may change order, as the
/// flushed table comes last). When an older table cannot be read, the query fails before
/// and after.
pub proof fn lemma_flush_keeps_query(
    ps: Seq<PointView>,
    index: Seq<(i64, u64)>,
    old: Seq<SSTableView>,
    start: i64,
    end: i64,
    metric: Seq<char>,
)
    requires
        sorted_by_time(ps),
    ensures
        ({
            let flushed = SSTableView {
                index,
                time_range: span(ps),
                compression: COMPRESSION_GORILLA,
                points: Some(ps),
            };
            let x = points_in_range(ps, start, end);
            &&& table_hits(old, start, end) is None ==> table_hits(old.push(flushed), start, end) is None
            &&& table_hits(old, start, end) matches Some(h) ==> {
                let before = of_metric(x + h, metric);
                &&& table_hits(old.push(flushed), start, end) matches Some(h2)
                &&& ({
                    let after = of_metric(points_in_range(Seq::empty(), start, end) + h2, metric);
                    &&& before.to_multiset() == after.to_multiset()
                    &&& old.len() == 0 ==> before == after
                    &&& no_shared_time(of_metric(x, metric), of_metric(h, metric)) ==> forall|
                        v1: Seq<PointView>,
                        v2: Seq<PointView>,
                    | stable_time_order(before, v1) && stable_time_order(after, v2) ==> v1 == v2
                })
            }
        }),
{
    let flushed = SSTableView { index, time_range: span(ps), compression: COMPRESSION_GORILLA, points: Some(ps) };
    assert(old.push(flushed).drop_last() =~= old);
    if let Some(h) = table_hits(old, start, end) {
        lemma_flush_same_points(ps, h, start, end, metric);
        let x = points_in_range(ps, start, end);
        if !overlaps(span(ps), start, end) {
            lemma_no_overlap_empty(ps, start, end);
            assert(h + x =~= h);
        }
        assert(table_hits(old.push(flushed), start, end) == Some(h + x));
        if old.len() == 0 {
            assert(h =~= Seq::<PointView>::empty());
        }
    }
}

/// A table whose time range misses the range holds no point in it.
proof fn lemma_no_overlap_empty(ps: Seq<PointView>, start: i64, end: i64)
    requires
        sorted_by_time(ps),
        !overlaps(span(ps), start, end),
    ensures
        points_in_range(ps, start, end) == Seq::<PointView>::empty(),
{
    let pr = |p: PointView| in_range(p, start, end);
    assert forall|i: int| 0 <= i < ps.len() implies !pr(ps[i]) by {
        assert(ps[0].timestamp <= ps[i].timestamp <= ps[ps.len() - 1].timestamp);
    }
    assert(ps.all(|q: PointView| !pr(q)));
    ps.lemma_all_neg_filter_empty(pr);
    assert(points_in_range(ps, start, end) =~= Seq::<PointView>::empty());
}

/// The candidates of a query before and after a flush, from the memtable's points `x` in
/// the range and the older tables' points `h` in the range.
proof fn lemma_flush_same_points(ps: Seq<PointView>, h: Seq<PointView>, start: i64, end: i64, metric: Seq<char>)
    requires
        sorted_by_time(ps),
    ensures
        ({
            let x = points_in_range(ps, start, end);
            let before = of_metric(x + h, metric);
            let after = of_metric(points_in_range(Seq::empty(), start, end) + (h + x), metric);
            &&& before.to_multiset() == after.to_multiset()
            &&& h.len() == 0 ==> before == after
            &&& no_shared_time(of_metric(x, metric), of_metric(h, metric)) ==> forall|
                v1: Seq<PointView>,
                v2: Seq<PointView>,
            | stable_time_order(before, v1) && stable_time_order(after, v2) ==> v1 == v2
        }),
{
    let x = points_in_range(ps, start, end);
    let pm = |p: PointView| p.metric == metric;
    reveal(Seq::filter);
    assert(points_in_range(Seq::<PointView>::empty(), start, end) =~= Seq::<PointView>::empty());
    assert(Seq::<PointView>::empty() + (h + x) =~= h + x);
    Seq::filter_distributes_over_add(x, h, pm);
    Seq::filter_distributes_over_add(h, x, pm);
    vstd::seq_lib::lemma_multiset_commutative(x.filter(pm), h.filter(pm));
    vstd::seq_lib::lemma_multiset_commutative(h.filter(pm), x.filter(pm));
    if h.len() == 0 {
        assert(x + h =~= h + x);
    }
    if no_shared_time(of_metric(x, metric), of_metric(h, metric)) {
        let xm = x.filter(pm);
        let hm = h.filter(pm);
        assert forall|t: i64| #[trigger] same_time(xm + hm, t) == same_time(hm + xm, t) by {
            let pt = |q: PointView| q.timestamp == t;
            Seq::filter_distributes_over_add(xm, hm, pt);
            Seq::filter_distributes_over_add(hm, xm, pt);
            lemma_no_shared_time(xm, hm, t);
            assert(same_time(xm, t).len() == 0 ==> same_time(xm, t) =~= Seq::<PointView>::empty());
            assert(same_time(hm, t).len() == 0 ==> same_time(hm, t) =~= Seq::<PointView>::empty());
            assert(same_time(xm, t) + same_time(hm, t) =~= same_time(hm, t) + same_time(xm, t));
        }
        assert forall|v1: Seq<PointView>, v2: Seq<PointView>|
            stable_time_order(xm + hm, v1) && stable_time_order(hm + xm, v2) implies v1 == v2 by {
            assert forall|t: i64| #[trigger] same_time(v1, t) == same_time(v2, t) by {
                assert(same_time(v1, t) == same_time(xm + hm, t));
                assert(same_time(v2, t) == same_time(hm + xm, t));
            }
            lemma_same_time_equal(v1, v2);
        }
    }
}

/// No point of `a` has the timestamp of a point of `b`.
pub open spec fn no_shared_time(a: Seq<PointView>, b: Seq<PointView>) -> bool {
    forall|i: int, j: int| 0 <= i < a.len() && 0 <= j < b.len() ==> #[trigger] a[i].timestamp
        != #[trigger] b[j].timestamp
}

/// Sequences that share no timestamp do not both hold points of one timestamp.
proof fn lemma_no_shared_time(a: Seq<PointView>, b: Seq<PointView>, t: i64)
    requires
        no_shared_time(a, b),
    ensures
        same_time(a, t).len() == 0 || same_time(b, t).len() == 0,
{
    let pt = |q: PointView| q.timestamp == t;
    if same_time(a, t).len() > 0 && same_time(b, t).len() > 0 {
        let p = same_time(a, t)[0];
        let q = same_time(b, t)[0];
        a.lemma_filter_contains_rev(pt, p);
        b.lemma_filter_contains_rev(pt, q);
        a.lemma_filter_pred(pt, 0);
        b.lemma_filter_pred(pt, 0);
        let i = choose|i: int| 0 <= i < a.len() && a[i] == p;
        let j = choose|j: int| 0 <= j < b.len() && b[j] == q;
        assert(a[i].timestamp != b[j].timestamp);
    }
}

/// The points that a query reads before its filters and aggregations: the points of the
/// query's metric in `[start, end)`, from the memtable and from the tables whose time
/// range meets the query's, ordered by timestamp (points with equal timestamps: the
/// memtable's first, then table after table). An invalid query gives its validation error.
pub fn collect_query_points(memtable: &Memtable, sstables: &Vec<SSTable>, query: &Query) -> (r:
    Result<Vec<Point>>)
    ensures
        match r {
            Ok(v) => {
                &&& query_valid(query.metric@, query.start, query.end)
                &&& table_hits(table_views(sstables@), query.start, query.end) matches Some(h)
                &&& stable_time_order(
                    of_metric(
                        points_in_range(memtable@.points, query.start, query.end) + h,
                        query.metric@,
                    ),
                    views(v@),
                )
            },
            Err(e) => if query_valid(query.metric@, query.start, query.end) {
                &&& table_hits(table_views(sstables@), query.start, query.end) is None
                &&& e matches Error::Corruption(m)
                &&& m@ == "invalid data block"@
            } else {
                query_validation_result(query.metric@, query.start, query.end, Err(e))
            },
        },
{
    match query.validate() {
        Ok(()) => {},
        Err(e) => {
            return Err(e);
        },
    }
    let start = query.start;
    let end = query.end;
    let mut results = memtable.query(start..end);
    let ghost from_memtable = views(results@);
    let ghost tv = table_views(sstables@);
    let mut i: usize = 0;
    assert(tv.take(0) =~= Seq::<SSTableView>::empty());
    assert(views(results@) =~= from_memtable + table_hits(tv.take(0), start, end).unwrap());
    while i < sstables.len()
        invariant
            i <= sstables@.len(),
            tv == table_views(sstables@),
            query_valid(query.metric@, start, end),
            start == query.start,
            end == query.end,
            table_hits(tv.take(i as int), start, end) is Some,
            views(results@) == from_memtable + table_hits(tv.take(i as int), start, end).unwrap(),
        decreases sstables@.len() - i,
    {
        let range = sstables[i].time_range();
        let ghost before = views(results@);
        proof {
            assert(tv.take(i + 1).drop_last() =~= tv.take(i as int));
            assert(tv.take(i + 1).last() == sstables@[i as int]@);
        }
        if range.0 <= end && range.1 >= start {
            let found = sstables[i].query(start..end);
            match found {
                Ok(mut found) => {
                    let ghost got = views(found@);
                    results.append(&mut found);
                    assert(views(results@) =~= before + got);
                },
                Err(e) => {
                    proof {
                        lemma_table_hits_stay_none(tv, start, end, i + 1);
                    }
                    return Err(e);
                },
            }
        } else {
            assert(before + Seq::<PointView>::empty() =~= before);
        }
        i = i + 1;
    }
    assert(tv.take(sstables@.len() as int) =~= tv);
    let ghost all = views(results@);
    let mut selected: Vec<Point> = Vec::new();
    let mut j: usize = 0;
    while j < results.len()
        invariant
            j <= results@.len(),
            all == views(results@),
            views(selected@) == of_metric(all.take(j as int), query.metric@),
        decreases results@.len() - j,
    {
        let ghost before = views(selected@);
        proof {
            assert(all.take(j + 1) =~= all.take(j as int).push(all[j as int]));
            all.take(j as int).lemma_filter_push(all[j as int], |p: PointView| p.metric == query.metric@);
        }
        if results[j].metric == query.metric {
            selected.push(results[j].clone());
            assert(views(selected@) =~= before.push(all[j as int]));
        }
        j = j + 1;
    }
    assert(all.take(results@.len() as int) =~= all);
    Ok(sort_by_timestamp(selected))
}

} // verus!
