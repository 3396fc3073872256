//! Query types and the parts of query execution that work on whole numbers.

use crate::error::{Error, Result};
use crate::memtable::{
    count_at_most, insert_by_time, lemma_count_at_most_split, sorted_by_time, sorted_split,
};
use crate::point::{
    keys_distinct, key_pos, lemma_key_pos, lemma_key_pos_at, tag_lookup, tags_insert, views, Point, PointView,
    TagView, Tags,
};
use std::time::Duration;
use vstd::prelude::*;

verus! {

broadcast use vstd::seq::group_seq_axioms;

/// Column to select
#[derive(Debug, Clone, PartialEq)]
pub enum Column {
    /// All columns (*)
    All,
    /// Timestamp only
    Timestamp,
    /// Value only
    Value,
    /// Metric only
    Metric,
    /// Specific tag
    Tag(String),
}

/// Gives `Clone::clone` of `std::time::Duration` a contract: `Duration` is `Copy`, and its
/// clone is a copy of the value.
pub assume_specification[ <std::time::Duration as std::clone::Clone>::clone ](d: &Duration) -> (r: Duration)
    ensures
        r == *d,
;

/// Group by clause
#[derive(Debug, Clone)]
pub enum GroupBy {
    /// Group by time interval
    Time(Duration),
    /// Group by tag
    Tag(String),
}

/// Aggregation function
#[derive(Debug, Clone, Copy, PartialEq, Eq, Structural)]
pub enum Aggregation {
    /// Average
    Avg,
    /// Sum
    Sum,
    /// Minimum
    Min,
    /// Maximum
    Max,
    /// Count
    Count,
}

/// Downsampling configuration
#[derive(Debug, Clone)]
pub struct Downsample {
    /// Time interval for downsampling
    pub interval: Duration,
    /// Aggregation function
    pub aggregation: Aggregation,
}

/// Query for time-series data
#[derive(Debug, Clone)]
pub struct Query {
    /// Metric name (e.g., "activity.completed")
    pub metric: String,
    /// Start timestamp (Unix nanoseconds)
    pub start: i64,
    /// End timestamp (Unix nanoseconds)
    pub end: i64,
    /// Tag filters (optional)
    pub tags: Option<Tags>,
    /// Columns to return
    pub columns: Vec<Column>,
    /// Group by clause
    pub group_by: Option<Vec<GroupBy>>,
    /// Downsampling
    pub downsample: Option<Downsample>,
    /// Aggregations
    pub aggregations: Vec<Aggregation>,
}

/// The tag filters of a query as a sequence (none when there is no filter).
pub open spec fn filter_tags(tags: Option<Tags>) -> Seq<TagView> {
    match tags {
        Some(t) => t@,
        None => Seq::empty(),
    }
}

/// A query as `Query::new` makes it, for a metric name and a time range.
pub open spec fn is_fresh_query(q: Query, metric: Seq<char>, start: i64, end: i64) -> bool {
    &&& q.metric@ == metric
    &&& q.start == start
    &&& q.end == end
    &&& q.tags is None
    &&& q.columns@.len() == 1 && q.columns@[0] is All
    &&& q.group_by is None
    &&& q.downsample is None
    &&& q.aggregations@.len() == 0
}

impl Default for Query {
    fn default() -> (r: Query)
        ensures
            is_fresh_query(r, Seq::empty(), 0, i64::MAX),
    {
        Query {
            metric: String::new(),
            start: 0,
            end: i64::MAX,
            tags: None,
            columns: vec![Column::All],
            group_by: None,
            downsample: None,
            aggregations: Vec::new(),
        }
    }
}

/// A query is valid when its metric name is not empty and its range is a non-empty
/// interval of non-negative timestamps.
pub open spec fn query_valid(metric: Seq<char>, start: i64, end: i64) -> bool {
    metric.len() > 0 && start >= 0 && end >= 0 && start < end
}

/// Whether `r` is the outcome of validating a query with this metric name and range.
pub open spec fn query_validation_result(metric: Seq<char>, start: i64, end: i64, r: Result<()>) -> bool {
    if metric.len() == 0 {
        r matches Err(Error::InvalidMetricName(m)) && m@ == "empty metric name"@
    } else if start < 0 || end < 0 {
        r matches Err(Error::InvalidTimestamp(t)) && t == start
    } else if start >= end {
        r matches Err(Error::Query(m)) && m@ == "start must be before end"@
    } else {
        r is Ok
    }
}

impl Query {
    /// Create a new query
    pub fn new(metric: &str, start: i64, end: i64) -> (r: Query)
        ensures
            is_fresh_query(r, metric@, start, end),
    {
        let mut q = Query::default();
        q.metric = metric.to_owned();
        q.start = start;
        q.end = end;
        q
    }

    /// Add tag filter
    pub fn with_tag(self, key: &str, value: &str) -> (r: Query)
        ensures
            r.tags is Some,
            filter_tags(r.tags) == tags_insert(filter_tags(self.tags), key@, value@),
            r.metric == self.metric,
            r.start == self.start,
            r.end == self.end,
            r.columns == self.columns,
            r.group_by == self.group_by,
            r.downsample == self.downsample,
            r.aggregations == self.aggregations,
    {
        let mut q = self;
        let mut tags = match q.tags {
            Some(t) => t,
            None => Tags::new(),
        };
        tags.insert(key.to_owned(), value.to_owned());
        q.tags = Some(tags);
        q
    }

    /// Add tag filters
    pub fn with_tags(self, tags: Tags) -> (r: Query)
        ensures
            r == (Query { tags: Some(tags), ..self }),
    {
        let mut q = self;
        q.tags = Some(tags);
        q
    }

    /// Add downsampling
    pub fn with_downsample(self, interval: Duration, aggregation: Aggregation) -> (r: Query)
        ensures
            r == (Query { downsample: Some(Downsample { interval, aggregation }), ..self }),
    {
        let mut q = self;
        q.downsample = Some(Downsample { interval, aggregation });
        q
    }

    /// Add group by
    pub fn with_group_by(self, group_by: Vec<GroupBy>) -> (r: Query)
        ensures
            r == (Query { group_by: Some(group_by), ..self }),
    {
        let mut q = self;
        q.group_by = Some(group_by);
        q
    }

    /// Add aggregation
    pub fn with_aggregation(self, aggregation: Aggregation) -> (r: Query)
        ensures
            r.aggregations@ == self.aggregations@.push(aggregation),
            r.metric == self.metric,
            r.start == self.start,
            r.end == self.end,
            r.tags == self.tags,
            r.columns == self.columns,
            r.group_by == self.group_by,
            r.downsample == self.downsample,
    {
        let mut q = self;
        q.aggregations.push(aggregation);
        q
    }

    /// Validate the query
    pub fn validate(&self) -> (r: Result<()>)
        ensures
            query_validation_result(self.metric@, self.start, self.end, r),
            r is Ok <==> query_valid(self.metric@, self.start, self.end),
    {
        if self.metric.as_str().is_empty() {
            return Err(Error::InvalidMetricName("empty metric name".to_owned()));
        }
        if self.start < 0 || self.end < 0 {
            return Err(Error::InvalidTimestamp(self.start));
        }
        if self.start >= self.end {
            return Err(Error::Query("start must be before end".to_owned()));
        }
        Ok(())
    }
}

/// The point has every tag of the filter, with the same value.
pub open spec fn tags_match(p: PointView, filter: Seq<TagView>) -> bool {
    forall|i: int| 0 <= i < filter.len() ==> tag_lookup(p.tags, #[trigger] filter[i].0) == Some(filter[i].1)
}

/// The points of `s` that carry every tag of the filter.
pub open spec fn points_with_tags(s: Seq<PointView>, filter: Seq<TagView>) -> Seq<PointView> {
    s.filter(|p: PointView| tags_match(p, filter))
}

/// Whether a point carries every tag of the filter.
pub fn matches_tags(point: &Point, filter: &Tags) -> (r: bool)
    ensures
        r == tags_match(point@, filter@),
{
    let n = filter.len();
    let mut i: usize = 0;
    while i < n
        invariant
            n == filter@.len(),
            i <= n,
            forall|j: int| 0 <= j < i ==> tag_lookup(point@.tags, #[trigger] filter@[j].0) == Some(filter@[j].1),
        decreases n - i,
    {
        let (k, v) = filter.entry(i);
        match point.tags.get(k.as_str()) {
            Some(pv) => {
                if *pv != *v {
                    assert(tag_lookup(point@.tags, filter@[i as int].0) != Some(filter@[i as int].1));
                    return false;
                }
            },
            None => {
                assert(tag_lookup(point@.tags, filter@[i as int].0) != Some(filter@[i as int].1));
                return false;
            },
        }
        i = i + 1;
    }
    true
}

/// Keep the points that carry every tag of the filter, in order.
pub fn filter_by_tags(points: &Vec<Point>, filter: &Tags) -> (r: Vec<Point>)
    ensures
        views(r@) == points_with_tags(views(points@), filter@),
{
    let mut out: Vec<Point> = Vec::new();
    let mut i: usize = 0;
    let ghost s = views(points@);
    while i < points.len()
        invariant
            i <= points@.len(),
            s == views(points@),
            views(out@) == points_with_tags(s.take(i as int), filter@),
        decreases points@.len() - i,
    {
        let ghost prev_out = views(out@);
        if matches_tags(&points[i], filter) {
            let p = points[i].clone();
            out.push(p);
            assert(views(out@) =~= prev_out.push(s[i as int]));
        }
        assert(s.take(i + 1) =~= s.take(i as int).push(s[i as int]));
        proof {
            s.take(i as int).lemma_filter_push(s[i as int], |p: PointView| tags_match(p, filter@));
        }
        i = i + 1;
    }
    assert(s.take(points@.len() as int) =~= s);
    out
}

/// Rust's integer division, which rounds toward zero.
pub open spec fn div_toward_zero(a: int, b: int) -> int {
    if a >= 0 {
        a / b
    } else {
        -((-a) / b)
    }
}

/// Start of the time bucket of width `interval` that holds `ts` (buckets are aligned to
/// multiples of the width, rounding toward zero).
pub open spec fn bucket_start(ts: i64, interval: i64) -> int {
    div_toward_zero(ts as int, interval as int) * interval
}

/// The bucket of a timestamp is a multiple of the width on the same side of zero, no
/// farther from zero than the timestamp and less than one width away from it (the
/// truncating division of Rust's `/`, then multiplied back).
pub proof fn lemma_bucket_start(ts: i64, interval: i64)
    requires
        interval > 0,
    ensures
        bucket_start(ts, interval) % (interval as int) == 0,
        ts >= 0 ==> 0 <= bucket_start(ts, interval) <= ts < bucket_start(ts, interval) + interval,
        ts < 0 ==> bucket_start(ts, interval) - interval < ts <= bucket_start(ts, interval) <= 0,
{
    let a = ts as int;
    let b = interval as int;
    if a >= 0 {
        assert(0 <= (a / b) * b <= a < (a / b) * b + b) by (nonlinear_arith)
            requires
                a >= 0,
                b > 0,
        ;
        vstd::arithmetic::div_mod::lemma_mod_multiples_basic(a / b, b);
    } else {
        let c = -a;
        assert(0 <= (c / b) * b <= c < (c / b) * b + b) by (nonlinear_arith)
            requires
                c > 0,
                b > 0,
        ;
        vstd::arithmetic::div_mod::lemma_mod_multiples_basic(-(c / b), b);
        assert(-(c / b) * b == -((c / b) * b)) by (nonlinear_arith);
    }
}

/// Start of the time bucket of width `interval` that holds `ts`.
pub fn time_bucket(ts: i64, interval: i64) -> (r: i64)
    requires
        interval > 0,
    ensures
        r == bucket_start(ts, interval),
{
    let q = ts / interval;
    proof {
        let a = ts as int;
        let b = interval as int;
        if a >= 0 {
            assert(0 <= (a / b) * b <= a) by (nonlinear_arith)
                requires
                    a >= 0,
                    b > 0,
            ;
        } else {
            assert(0 <= ((-a) / b) * b <= -a) by (nonlinear_arith)
                requires
                    a < 0,
                    b > 0,
            ;
            assert(-((-a) / b) * b == -(((-a) / b) * b)) by (nonlinear_arith);
        }
    }
    q * interval
}

/// For each timestamp, the points with that timestamp, in order.
pub open spec fn same_time(s: Seq<PointView>, t: i64) -> Seq<PointView> {
    s.filter(|p: PointView| p.timestamp == t)
}

/// `r` holds the points of `s` ordered by timestamp, points with equal timestamps in the
/// order they had in `s`.
pub open spec fn stable_time_order(s: Seq<PointView>, r: Seq<PointView>) -> bool {
    &&& sorted_by_time(r)
    &&& forall|t: i64| #[trigger] same_time(r, t) == same_time(s, t)
}

/// A point of a sequence is among the points of its timestamp.
proof fn lemma_in_same_time(s: Seq<PointView>, i: int)
    requires
        0 <= i < s.len(),
    ensures
        same_time(s, s[i].timestamp).contains(s[i]),
{
    let t = s[i].timestamp;
    s.lemma_filter_contains(|q: PointView| q.timestamp == t, i);
}

/// Among the points of a timestamp, every one is a point of the sequence, with that
/// timestamp.
proof fn lemma_same_time_member(s: Seq<PointView>, t: i64, p: PointView)
    requires
        same_time(s, t).contains(p),
    ensures
        s.contains(p),
        p.timestamp == t,
{
    let pred = |q: PointView| q.timestamp == t;
    s.lemma_filter_contains_rev(pred, p);
    let k = choose|k: int| 0 <= k < s.filter(pred).len() && s.filter(pred)[k] == p;
    s.lemma_filter_pred(pred, k);
}

/// Two sequences in time order that hold, for every timestamp, the same points of that
/// timestamp in the same order, are equal.
pub proof fn lemma_same_time_equal(a: Seq<PointView>, b: Seq<PointView>)
    requires
        sorted_by_time(a),
        sorted_by_time(b),
        forall|t: i64| #[trigger] same_time(a, t) == same_time(b, t),
    ensures
        a == b,
    decreases a.len() + b.len(),
{
    if a.len() == 0 && b.len() == 0 {
        assert(a =~= b);
    } else if a.len() == 0 || b.len() == 0 {
        let (e, f) = if a.len() == 0 {
            (a, b)
        } else {
            (b, a)
        };
        let t = f[0].timestamp;
        lemma_in_same_time(f, 0);
        assert(same_time(e, t) == same_time(f, t));
        reveal(Seq::filter);
        assert(same_time(e, t).len() == 0);
    } else {
        let x = a.last();
        let y = b.last();
        lemma_in_same_time(a, a.len() - 1);
        lemma_in_same_time(b, b.len() - 1);
        assert(same_time(a, x.timestamp) == same_time(b, x.timestamp));
        assert(same_time(a, y.timestamp) == same_time(b, y.timestamp));
        lemma_same_time_member(b, x.timestamp, x);
        lemma_same_time_member(a, y.timestamp, y);
        let mb = choose|m: int| 0 <= m < b.len() && b[m] == x;
        let ma = choose|m: int| 0 <= m < a.len() && a[m] == y;
        assert(b[mb].timestamp <= b[b.len() - 1].timestamp);
        assert(a[ma].timestamp <= a[a.len() - 1].timestamp);
        let t = x.timestamp;
        assert(y.timestamp == t);
        let da = a.drop_last();
        let db = b.drop_last();
        assert(da.push(x) =~= a);
        assert(db.push(y) =~= b);
        assert forall|s: i64| #[trigger] same_time(da, s) == same_time(db, s) by {
            da.lemma_filter_push(x, |q: PointView| q.timestamp == s);
            db.lemma_filter_push(y, |q: PointView| q.timestamp == s);
            assert(same_time(a, s) == same_time(b, s));
            if s == t {
                assert(same_time(a, s).drop_last() =~= same_time(da, s));
                assert(same_time(b, s).drop_last() =~= same_time(db, s));
            }
        }
        da.lemma_filter_push(x, |q: PointView| q.timestamp == t);
        db.lemma_filter_push(y, |q: PointView| q.timestamp == t);
        assert(same_time(a, t).last() == x);
        assert(same_time(b, t).last() == y);
        assert(sorted_by_time(da));
        assert(sorted_by_time(db));
        lemma_same_time_equal(da, db);
    }
}

/// A stable order by time of a sequence is unique.
pub proof fn lemma_stable_time_order_unique(s: Seq<PointView>, a: Seq<PointView>, b: Seq<PointView>)
    requires
        stable_time_order(s, a),
        stable_time_order(s, b),
    ensures
        a == b,
{
    assert forall|t: i64| #[trigger] same_time(a, t) == same_time(b, t) by {
        assert(same_time(a, t) == same_time(s, t));
        assert(same_time(b, t) == same_time(s, t));
    }
    lemma_same_time_equal(a, b);
}

/// A single point is kept by the same-time filter exactly when it has that time.
proof fn lemma_filter_single(p: PointView, t: i64)
    ensures
        same_time(seq![p], t) == (if p.timestamp == t { seq![p] } else { Seq::<PointView>::empty() }),
{
    Seq::<PointView>::empty().lemma_filter_push(p, |q: PointView| q.timestamp == t);
    assert(Seq::<PointView>::empty().push(p) =~= seq![p]);
    reveal(Seq::filter);
}

/// Placing a point by time into a sorted sequence adds it after the points with the
/// same timestamp.
pub proof fn lemma_insert_by_time_same_time(s: Seq<PointView>, p: PointView, t: i64)
    requires
        sorted_by_time(s),
    ensures
        same_time(insert_by_time(s, p), t) == (if p.timestamp == t {
            same_time(s, t).push(p)
        } else {
            same_time(s, t)
        }),
        sorted_by_time(insert_by_time(s, p)),
{
    let c = count_at_most(s, p.timestamp) as int;
    let split = sorted_split(s, p.timestamp, 0);
    lemma_count_at_most_split(s, p.timestamp, split);
    let a = s.take(c);
    let b = s.skip(c);
    let pred = |q: PointView| q.timestamp == t;
    assert(s =~= a + b);
    assert(insert_by_time(s, p) =~= a + (seq![p] + b));
    Seq::filter_distributes_over_add(a, b, pred);
    Seq::filter_distributes_over_add(seq![p], b, pred);
    Seq::filter_distributes_over_add(a, seq![p] + b, pred);
    lemma_filter_single(p, t);
    if p.timestamp == t {
        assert(same_time(b, t) =~= Seq::<PointView>::empty()) by {
            lemma_filter_none(b, t);
        }
    }
}

/// Points later than `t` all leave the same-time filter.
proof fn lemma_filter_none(b: Seq<PointView>, t: i64)
    requires
        forall|j: int| 0 <= j < b.len() ==> b[j].timestamp > t,
    ensures
        same_time(b, t) == Seq::<PointView>::empty(),
    decreases b.len(),
{
    reveal(Seq::filter);
    if b.len() > 0 {
        lemma_filter_none(b.drop_last(), t);
    }
}

/// Order points by timestamp; points with equal timestamps keep their order.
pub fn sort_by_timestamp(points: Vec<Point>) -> (r: Vec<Point>)
    ensures
        stable_time_order(views(points@), views(r@)),
{
    let mut out: Vec<Point> = Vec::new();
    let mut i: usize = 0;
    let ghost s = views(points@);
    assert(views(out@) =~= s.take(0));
    while i < points.len()
        invariant
            i <= points@.len(),
            s == views(points@),
            stable_time_order(s.take(i as int), views(out@)),
        decreases points@.len() - i,
    {
        let t = points[i].timestamp;
        let mut j = out.len();
        while j > 0 && out[j - 1].timestamp > t
            invariant
                j <= out@.len(),
                sorted_by_time(views(out@)),
                forall|m: int| j <= m < out@.len() ==> out@[m].timestamp > t,
            decreases j,
        {
            j = j - 1;
        }
        let ghost o = views(out@);
        let p = points[i].clone();
        let ghost pv = p@;
        proof {
            assert forall|m: int| 0 <= m < j implies o[m].timestamp <= t by {
                assert(o[j - 1].timestamp <= t);
            }
            lemma_count_at_most_split(o, t, j as int);
        }
        out.insert(j, p);
        proof {
            assert(views(out@) =~= insert_by_time(o, pv));
            assert(s.take(i + 1) =~= s.take(i as int).push(pv));
            assert forall|tt: i64| #[trigger] same_time(views(out@), tt) == same_time(s.take(i + 1), tt) by {
                lemma_insert_by_time_same_time(o, pv, tt);
                s.take(i as int).lemma_filter_push(pv, |q: PointView| q.timestamp == tt);
            }
            lemma_insert_by_time_same_time(o, pv, t);
        }
        i = i + 1;
    }
    assert(s.take(points@.len() as int) =~= s);
    out
}

/// A group of points: their common key and their positions, in increasing order.
#[derive(Debug)]
pub struct Group {
    pub key: i64,
    pub members: Vec<usize>,
}

/// Groups as (key, positions).
pub open spec fn group_views(gs: Seq<Group>) -> Seq<(i64, Seq<usize>)> {
    gs.map_values(|g: Group| (g.key, g.members@))
}

/// Position `j` is listed in a group with its key.
pub open spec fn in_some_group(keys: Seq<i64>, groups: Seq<(i64, Seq<usize>)>, j: int) -> bool {
    exists|g: int, a: int|
        0 <= g < groups.len() && 0 <= a < groups[g].1.len() && #[trigger] groups[g].1[a] == j
            && groups[g].0 == keys[j]
}

/// `groups` partitions the positions of `keys` by key: each group lists, in increasing
/// order, every position that holds its key; keys differ between groups, and groups
/// come in the order in which their keys first occur.
pub open spec fn grouping_of(keys: Seq<i64>, groups: Seq<(i64, Seq<usize>)>) -> bool {
    &&& forall|g: int| 0 <= g < groups.len() ==> #[trigger] groups[g].1.len() > 0
    &&& forall|g: int, a: int, b: int|
        0 <= g < groups.len() && 0 <= a < b < groups[g].1.len() ==> #[trigger] groups[g].1[a]
            < #[trigger] groups[g].1[b]
    &&& forall|g: int, a: int|
        0 <= g < groups.len() && 0 <= a < groups[g].1.len() ==> #[trigger] groups[g].1[a]
            < keys.len() && keys[groups[g].1[a] as int] == groups[g].0
    &&& forall|j: int| 0 <= j < keys.len() ==> #[trigger] in_some_group(keys, groups, j)
    &&& forall|g1: int, g2: int|
        0 <= g1 < g2 < groups.len() ==> #[trigger] groups[g1].0 != #[trigger] groups[g2].0
    &&& forall|g1: int, g2: int|
        0 <= g1 < g2 < groups.len() ==> #[trigger] groups[g1].1[0] < #[trigger] groups[g2].1[0]
}

/// Adding the next index to the group of its key keeps the grouping exact.
proof fn lemma_grouping_add_to(keys: Seq<i64>, gs: Seq<(i64, Seq<usize>)>, i: int, g: int)
    requires
        0 <= i < keys.len(),
        i <= usize::MAX,
        grouping_of(keys.take(i), gs),
        0 <= g < gs.len(),
        gs[g].0 == keys[i],
    ensures
        grouping_of(keys.take(i + 1), gs.update(g, (gs[g].0, gs[g].1.push(i as usize)))),
{
    let k1 = keys.take(i + 1);
    let k0 = keys.take(i);
    let ng = gs.update(g, (gs[g].0, gs[g].1.push(i as usize)));
    assert forall|h: int, a: int, b: int|
        0 <= h < ng.len() && 0 <= a < b < ng[h].1.len() implies #[trigger] ng[h].1[a]
        < #[trigger] ng[h].1[b] by {
        if h == g && b == gs[g].1.len() {
            assert(gs[g].1[a] < k0.len());
        } else {
            assert(gs[h].1[a] < gs[h].1[b]);
        }
    }
    assert forall|h: int, a: int|
        0 <= h < ng.len() && 0 <= a < ng[h].1.len() implies #[trigger] ng[h].1[a] < k1.len()
        && k1[ng[h].1[a] as int] == ng[h].0 by {
        if h == g && a == gs[g].1.len() {
        } else {
            assert(gs[h].1[a] < k0.len() && k0[gs[h].1[a] as int] == gs[h].0);
        }
    }
    assert forall|j: int| 0 <= j < k1.len() implies #[trigger] in_some_group(k1, ng, j) by {
        if j == i {
            assert(ng[g].1[gs[g].1.len() as int] == j);
        } else {
            assert(in_some_group(k0, gs, j));
            assert(k0[j] == k1[j]);
            let (h, a) = choose|h: int, a: int|
                0 <= h < gs.len() && 0 <= a < gs[h].1.len() && #[trigger] gs[h].1[a] == j
                    && gs[h].0 == k0[j];
            assert(ng[h].1[a] == j);
        }
    }
    assert forall|g1: int, g2: int| 0 <= g1 < g2 < ng.len() implies #[trigger] ng[g1].0
        != #[trigger] ng[g2].0 by {
        assert(gs[g1].0 != gs[g2].0);
    }
    assert forall|g1: int, g2: int| 0 <= g1 < g2 < ng.len() implies #[trigger] ng[g1].1[0]
        < #[trigger] ng[g2].1[0] by {
        assert(gs[g1].1[0] < gs[g2].1[0]);
    }
    assert forall|h: int| 0 <= h < ng.len() implies #[trigger] ng[h].1.len() > 0 by {
        assert(gs[h].1.len() > 0);
    }
}

/// Opening a group for a key not seen before keeps the grouping exact.
proof fn lemma_grouping_add_new(keys: Seq<i64>, gs: Seq<(i64, Seq<usize>)>, i: int)
    requires
        0 <= i < keys.len(),
        i <= usize::MAX,
        grouping_of(keys.take(i), gs),
        forall|g: int| 0 <= g < gs.len() ==> gs[g].0 != keys[i],
    ensures
        grouping_of(keys.take(i + 1), gs.push((keys[i], seq![i as usize]))),
{
    let k1 = keys.take(i + 1);
    let k0 = keys.take(i);
    let ng = gs.push((keys[i], seq![i as usize]));
    assert forall|h: int, a: int, b: int|
        0 <= h < ng.len() && 0 <= a < b < ng[h].1.len() implies #[trigger] ng[h].1[a]
        < #[trigger] ng[h].1[b] by {
        assert(gs[h].1[a] < gs[h].1[b]);
    }
    assert forall|h: int, a: int|
        0 <= h < ng.len() && 0 <= a < ng[h].1.len() implies #[trigger] ng[h].1[a] < k1.len()
        && k1[ng[h].1[a] as int] == ng[h].0 by {
        if h < gs.len() {
            assert(gs[h].1[a] < k0.len() && k0[gs[h].1[a] as int] == gs[h].0);
        }
    }
    assert forall|j: int| 0 <= j < k1.len() implies #[trigger] in_some_group(k1, ng, j) by {
        if j == i {
            assert(ng[gs.len() as int].1[0] == j);
        } else {
            assert(in_some_group(k0, gs, j));
            assert(k0[j] == k1[j]);
            let (h, a) = choose|h: int, a: int|
                0 <= h < gs.len() && 0 <= a < gs[h].1.len() && #[trigger] gs[h].1[a] == j
                    && gs[h].0 == k0[j];
            assert(ng[h].1[a] == j);
        }
    }
    assert forall|g1: int, g2: int| 0 <= g1 < g2 < ng.len() implies #[trigger] ng[g1].0
        != #[trigger] ng[g2].0 by {
        if g2 < gs.len() {
            assert(gs[g1].0 != gs[g2].0);
        }
    }
    assert forall|g1: int, g2: int| 0 <= g1 < g2 < ng.len() implies #[trigger] ng[g1].1[0]
        < #[trigger] ng[g2].1[0] by {
        if g2 < gs.len() {
            assert(gs[g1].1[0] < gs[g2].1[0]);
        } else {
            assert(gs[g1].1.len() > 0);
            assert(gs[g1].1[0] < k0.len());
        }
    }
    assert forall|h: int| 0 <= h < ng.len() implies #[trigger] ng[h].1.len() > 0 by {
        if h < gs.len() {
            assert(gs[h].1.len() > 0);
        }
    }
}

/// Group the positions of `keys` by key, groups in the order in which their keys first
/// occur.
pub fn group_by_key(keys: &Vec<i64>) -> (r: Vec<Group>)
    ensures
        grouping_of(keys@, group_views(r@)),
{
    let mut groups: Vec<Group> = Vec::new();
    let mut i: usize = 0;
    assert(group_views(groups@) =~= Seq::<(i64, Seq<usize>)>::empty());
    while i < keys.len()
        invariant
            i <= keys@.len(),
            grouping_of(keys@.take(i as int), group_views(groups@)),
        decreases keys@.len() - i,
    {
        let k = keys[i];
        let ghost gv = group_views(groups@);
        let mut g: usize = 0;
        while g < groups.len() && groups[g].key != k
            invariant
                g <= groups@.len(),
                forall|h: int| 0 <= h < g ==> groups@[h].key != k,
            decreases groups@.len() - g,
        {
            g = g + 1;
        }
        if g < groups.len() {
            let mut grp = groups.remove(g);
            grp.members.push(i);
            groups.insert(g, grp);
            proof {
                lemma_grouping_add_to(keys@, gv, i as int, g as int);
                assert(group_views(groups@) =~= gv.update(g as int, (gv[g as int].0, gv[g as int].1.push(i))));
            }
        } else {
            let mut members: Vec<usize> = Vec::new();
            members.push(i);
            groups.push(Group { key: k, members });
            proof {
                lemma_grouping_add_new(keys@, gv, i as int);
                assert(group_views(groups@) =~= gv.push((k, seq![i])));
            }
        }
        i = i + 1;
    }
    assert(keys@.take(keys@.len() as int) =~= keys@);
    groups
}

/// The time bucket of each point.
pub fn bucket_keys(points: &Vec<Point>, interval: i64) -> (r: Vec<i64>)
    requires
        interval > 0,
    ensures
        r@.len() == points@.len(),
        forall|j: int| 0 <= j < r@.len() ==> r@[j] == bucket_start(#[trigger] points@[j].timestamp, interval),
{
    let mut out: Vec<i64> = Vec::new();
    let mut i: usize = 0;
    while i < points.len()
        invariant
            interval > 0,
            i <= points@.len(),
            out@.len() == i,
            forall|j: int| 0 <= j < i ==> out@[j] == bucket_start(#[trigger] points@[j].timestamp, interval),
        decreases points@.len() - i,
    {
        out.push(time_bucket(points[i].timestamp, interval));
        i = i + 1;
    }
    out
}

/// Group points by the time bucket of width `interval` that holds them.
pub fn group_by_time(points: &Vec<Point>, interval: i64) -> (r: Vec<Group>)
    requires
        interval > 0,
    ensures
        grouping_of(
            Seq::new(points@.len(), |j: int| bucket_start(points@[j].timestamp, interval) as i64),
            group_views(r@),
        ),
{
    let keys = bucket_keys(points, interval);
    assert(keys@ =~= Seq::new(points@.len(), |j: int| bucket_start(points@[j].timestamp, interval) as i64));
    group_by_key(&keys)
}

/// The value of tag `tag` on a point, empty when the point does not carry it.
pub open spec fn tag_value(p: PointView, tag: Seq<char>) -> Seq<char> {
    match tag_lookup(p.tags, tag) {
        Some(v) => v,
        None => Seq::empty(),
    }
}

/// The first position whose point has the same value of tag `tag` as the point at `j`.
pub open spec fn first_with_tag_value(s: Seq<PointView>, tag: Seq<char>, j: int) -> int {
    choose|m: int|
        0 <= m <= j && tag_value(s[m], tag) == tag_value(s[j], tag) && forall|k: int|
            0 <= k < m ==> tag_value(#[trigger] s[k], tag) != tag_value(s[j], tag)
}

/// The value of tag `tag` on a point.
fn tag_value_of(p: &Point, tag: &str) -> (r: String)
    ensures
        r@ == tag_value(p@, tag@),
{
    match p.tags.get(tag) {
        Some(v) => v.clone(),
        None => String::new(),
    }
}

/// A tag, as a raw entry, is among the tags of a point whose keys are distinct exactly
/// when looking its key up gives its value.
proof fn lemma_lookup_entry(tags: Seq<TagView>, k: Seq<char>, v: Seq<char>)
    requires
        keys_distinct(tags),
    ensures
        tag_lookup(tags, k) == Some(v) <==> exists|j: int| 0 <= j < tags.len() && tags[j] == (k, v),
        tag_lookup(tags, k) is None <==> forall|j: int| 0 <= j < tags.len() ==> tags[j].0 != k,
{
    lemma_key_pos(tags, k);
    let p = key_pos(tags, k) as int;
    if exists|j: int| 0 <= j < tags.len() && tags[j] == (k, v) {
        let j = choose|j: int| 0 <= j < tags.len() && tags[j] == (k, v);
        if p < j {
            assert(tags[p].0 == tags[j].0);
        }
        assert(p <= j);
        if p < j {
            assert(false);
        }
    }
    if p < tags.len() {
        assert(tags[p].0 == k);
    }
}

/// The point has the tag (key and value) `t` among its tags.
pub open spec fn has_tag(p: PointView, t: TagView) -> bool {
    exists|j: int| 0 <= j < p.tags.len() && p.tags[j] == t
}

/// The tag filter keeps a point (whose tag keys are distinct) exactly when the point
/// carries every tag of the filter: for each (key, value) of the filter, the point has a
/// tag with that key and that value. One matching tag is not enough.
pub proof fn lemma_tag_filter_keeps_points_with_every_tag(p: PointView, filter: Seq<TagView>)
    requires
        keys_distinct(p.tags),
    ensures
        tags_match(p, filter) <==> forall|i: int| 0 <= i < filter.len() ==> has_tag(p, #[trigger] filter[i]),
{
    assert forall|i: int| 0 <= i < filter.len() implies (tag_lookup(p.tags, #[trigger] filter[i].0) == Some(
        filter[i].1,
    ) <==> has_tag(p, filter[i])) by {
        lemma_lookup_entry(p.tags, filter[i].0, filter[i].1);
        assert(filter[i] == (filter[i].0, filter[i].1));
    }
    if forall|i: int| 0 <= i < filter.len() ==> has_tag(p, #[trigger] filter[i]) {
        assert forall|i: int| 0 <= i < filter.len() implies tag_lookup(p.tags, #[trigger] filter[i].0)
            == Some(filter[i].1) by {
            assert(has_tag(p, filter[i]));
        }
    }
    if tags_match(p, filter) {
        assert forall|i: int| 0 <= i < filter.len() implies has_tag(p, #[trigger] filter[i]) by {
            assert(tag_lookup(p.tags, filter[i].0) == Some(filter[i].1));
        }
    }
}

/// The value of tag `k` on a point (whose tag keys are distinct) is what the point
/// stores under `k`, and empty when it has no tag `k`; other tags play no part.
pub proof fn lemma_tag_value_is_stored_value(p: PointView, k: Seq<char>)
    requires
        keys_distinct(p.tags),
    ensures
        forall|j: int| 0 <= j < p.tags.len() && p.tags[j].0 == k ==> tag_value(p, k) == #[trigger] p.tags[j].1,
        (forall|j: int| 0 <= j < p.tags.len() ==> p.tags[j].0 != k) ==> tag_value(p, k) == Seq::<char>::empty(),
{
    assert forall|j: int| 0 <= j < p.tags.len() && p.tags[j].0 == k implies tag_value(p, k) == #[trigger] p.tags[j].1 by {
        lemma_lookup_entry(p.tags, k, p.tags[j].1);
        assert(p.tags[j] == (k, p.tags[j].1));
    }
    lemma_lookup_entry(p.tags, k, Seq::empty());
}

/// The first position, from `k` on, whose value of tag `tag` is that of the point at `j`.
proof fn lemma_first_from(s: Seq<PointView>, tag: Seq<char>, j: int, k: int) -> (m: int)
    requires
        0 <= k <= j < s.len(),
        forall|l: int| 0 <= l < k ==> tag_value(#[trigger] s[l], tag) != tag_value(s[j], tag),
    ensures
        0 <= m <= j,
        tag_value(s[m], tag) == tag_value(s[j], tag),
        forall|l: int| 0 <= l < m ==> tag_value(#[trigger] s[l], tag) != tag_value(s[j], tag),
    decreases j - k,
{
    if tag_value(s[k], tag) == tag_value(s[j], tag) {
        k
    } else {
        lemma_first_from(s, tag, j, k + 1)
    }
}

/// `first_with_tag_value` is the first position with the value of the point at `j`.
proof fn lemma_first_with_tag_value(s: Seq<PointView>, tag: Seq<char>, j: int)
    requires
        0 <= j < s.len(),
    ensures
        0 <= first_with_tag_value(s, tag, j) <= j,
        tag_value(s[first_with_tag_value(s, tag, j)], tag) == tag_value(s[j], tag),
        forall|l: int| 0 <= l < first_with_tag_value(s, tag, j) ==> tag_value(#[trigger] s[l], tag) != tag_value(s[j], tag),
{
    let m = lemma_first_from(s, tag, j, 0);
    assert(0 <= m <= j && tag_value(s[m], tag) == tag_value(s[j], tag) && forall|l: int|
        0 <= l < m ==> tag_value(#[trigger] s[l], tag) != tag_value(s[j], tag));
}

/// Grouping by tag `tag` puts two points in one group exactly when they have the same
/// value of that tag (empty when absent): the group key of a point is the first
/// position whose point has its value.
pub proof fn lemma_tag_groups_by_value(s: Seq<PointView>, tag: Seq<char>, i: int, j: int)
    requires
        0 <= i < s.len(),
        0 <= j < s.len(),
    ensures
        first_with_tag_value(s, tag, i) == first_with_tag_value(s, tag, j) <==> tag_value(s[i], tag)
            == tag_value(s[j], tag),
{
    lemma_first_with_tag_value(s, tag, i);
    lemma_first_with_tag_value(s, tag, j);
    let fi = first_with_tag_value(s, tag, i);
    let fj = first_with_tag_value(s, tag, j);
    if tag_value(s[i], tag) == tag_value(s[j], tag) {
        if fi < fj {
            assert(tag_value(s[fi], tag) != tag_value(s[j], tag));
        } else if fj < fi {
            assert(tag_value(s[fj], tag) != tag_value(s[i], tag));
        }
    }
}

/// For each point, the position of the first point with the same value of tag `tag`.
pub fn tag_value_codes(points: &Vec<Point>, tag: &str) -> (r: Vec<i64>)
    requires
        points@.len() <= i64::MAX,
    ensures
        r@.len() == points@.len(),
        forall|j: int|
            0 <= j < r@.len() ==> r@[j] == first_with_tag_value(views(points@), tag@, j),
{
    let ghost s = views(points@);
    let mut values: Vec<String> = Vec::new();
    let mut i: usize = 0;
    while i < points.len()
        invariant
            i <= points@.len(),
            s == views(points@),
            values@.len() == i,
            forall|j: int| 0 <= j < i ==> (#[trigger] values@[j])@ == tag_value(s[j], tag@),
        decreases points@.len() - i,
    {
        let v = tag_value_of(&points[i], tag);
        values.push(v);
        i = i + 1;
    }
    let mut codes: Vec<i64> = Vec::new();
    let mut j: usize = 0;
    while j < points.len()
        invariant
            j <= points@.len() <= i64::MAX,
            s == views(points@),
            values@.len() == points@.len(),
            forall|k: int| 0 <= k < points@.len() ==> (#[trigger] values@[k])@ == tag_value(s[k], tag@),
            codes@.len() == j,
            forall|k: int| 0 <= k < j ==> codes@[k] == first_with_tag_value(s, tag@, k),
        decreases points@.len() - j,
    {
        let mut m: usize = 0;
        while values[m] != values[j]
            invariant
                m <= j < values@.len(),
                forall|k: int| 0 <= k < m ==> values@[k]@ != values@[j as int]@,
            decreases j - m,
        {
            m = m + 1;
        }
        proof {
            let w = m as int;
            assert(forall|k: int| 0 <= k < w ==> tag_value(#[trigger] s[k], tag@) != tag_value(s[j as int], tag@)) by {
                assert forall|k: int| 0 <= k < w implies tag_value(#[trigger] s[k], tag@) != tag_value(s[j as int], tag@) by {
                    assert(values@[k]@ == tag_value(s[k], tag@));
                }
            }
            let f = first_with_tag_value(s, tag@, j as int);
            assert(values@[w]@ == tag_value(s[w], tag@));
            assert(values@[j as int]@ == tag_value(s[j as int], tag@));
            if f != w {
                if f < w {
                    assert(values@[f]@ == tag_value(s[f], tag@));
                } else {
                    assert(tag_value(s[w], tag@) != tag_value(s[j as int], tag@));
                }
            }
        }
        codes.push(m as i64);
        j = j + 1;
    }
    codes
}

/// Group points by the value of tag `tag` (empty when absent).
pub fn group_by_tag(points: &Vec<Point>, tag: &str) -> (r: Vec<Group>)
    requires
        points@.len() <= i64::MAX,
    ensures
        grouping_of(
            Seq::new(points@.len(), |j: int| first_with_tag_value(views(points@), tag@, j) as i64),
            group_views(r@),
        ),
{
    let keys = tag_value_codes(points, tag);
    assert(keys@ =~= Seq::new(points@.len(), |j: int| first_with_tag_value(views(points@), tag@, j) as i64));
    group_by_key(&keys)
}

} // verus!
