//! In-memory time-series storage

use crate::error::Result;
use crate::point::{keys_distinct, point_size, point_valid, validation_result, views, Point, PointView};
use vstd::prelude::*;

verus! {

broadcast use vstd::seq::group_seq_axioms;

/// Timestamps never decrease along `s`.
pub open spec fn sorted_by_time(s: Seq<PointView>) -> bool {
    forall|i: int, j: int| 0 <= i <= j < s.len() ==> s[i].timestamp <= s[j].timestamp
}

/// Every point is valid.
pub open spec fn all_valid(s: Seq<PointView>) -> bool {
    forall|i: int| 0 <= i < s.len() ==> point_valid(#[trigger] s[i])
}

/// Every point has distinct tag keys and a size that a machine word holds.
pub open spec fn all_storable(s: Seq<PointView>) -> bool {
    forall|i: int|
        0 <= i < s.len() ==> keys_distinct((#[trigger] s[i]).tags) && point_size(s[i]) <= usize::MAX
}

/// Number of points whose timestamp is at most `t`.
pub open spec fn count_at_most(s: Seq<PointView>, t: i64) -> nat
    decreases s.len(),
{
    if s.len() == 0 {
        0
    } else {
        count_at_most(s.drop_last(), t) + (if s.last().timestamp <= t {
            1nat
        } else {
            0nat
        })
    }
}

/// `s` with `p` placed after every point whose timestamp is not later than its own.
pub open spec fn insert_by_time(s: Seq<PointView>, p: PointView) -> Seq<PointView> {
    s.insert(count_at_most(s, p.timestamp) as int, p)
}

/// The timestamp lies in `[start, end)`.
pub open spec fn in_range(p: PointView, start: i64, end: i64) -> bool {
    start <= p.timestamp && p.timestamp < end
}

/// The points of `s` in `[start, end)`, in order.
pub open spec fn points_in_range(s: Seq<PointView>, start: i64, end: i64) -> Seq<PointView> {
    s.filter(|p: PointView| in_range(p, start, end))
}

/// In a sorted sequence, the points at most `t` are exactly the first `i`.
pub proof fn lemma_count_at_most_split(s: Seq<PointView>, t: i64, i: int)
    requires
        sorted_by_time(s),
        0 <= i <= s.len(),
        forall|j: int| 0 <= j < i ==> s[j].timestamp <= t,
        forall|j: int| i <= j < s.len() ==> s[j].timestamp > t,
    ensures
        count_at_most(s, t) == i,
    decreases s.len(),
{
    if s.len() > 0 {
        if i == s.len() {
            lemma_count_at_most_split(s.drop_last(), t, i - 1);
        } else {
            lemma_count_at_most_split(s.drop_last(), t, i);
        }
    }
}

/// In a sorted sequence, the position that separates the points not later than `t`
/// from the later ones.
pub(crate) proof fn sorted_split(s: Seq<PointView>, t: i64, k: int) -> (m: int)
    requires
        sorted_by_time(s),
        0 <= k <= s.len(),
        forall|j: int| 0 <= j < k ==> s[j].timestamp <= t,
    ensures
        0 <= m <= s.len(),
        forall|j: int| 0 <= j < m ==> s[j].timestamp <= t,
        forall|j: int| m <= j < s.len() ==> s[j].timestamp > t,
    decreases s.len() - k,
{
    if k < s.len() && s[k].timestamp <= t {
        sorted_split(s, t, k + 1)
    } else {
        k
    }
}

/// The points of a time-ordered sequence that lie in a range are in time order too.
proof fn lemma_range_sorted(s: Seq<PointView>, start: i64, end: i64)
    requires
        sorted_by_time(s),
    ensures
        sorted_by_time(points_in_range(s, start, end)),
    decreases s.len(),
{
    reveal(Seq::filter);
    if s.len() > 0 {
        let rest = s.drop_last();
        let pred = |q: PointView| in_range(q, start, end);
        lemma_range_sorted(rest, start, end);
        assert forall|j: int| 0 <= j < rest.filter(pred).len() implies rest.filter(pred)[j].timestamp
            <= s.last().timestamp by {
            rest.lemma_filter_contains_rev(pred, rest.filter(pred)[j]);
        }
    }
}

/// Querying a range after writing a point: the write keeps the points in time order
/// and adds exactly that point; the query gives what it gave before, with the point
/// placed by time among the results when its timestamp lies in the range, and
/// unchanged when it does not.
pub proof fn lemma_query_after_insert(s: Seq<PointView>, p: PointView, start: i64, end: i64)
    requires
        sorted_by_time(s),
    ensures
        sorted_by_time(insert_by_time(s, p)),
        insert_by_time(s, p).to_multiset() == s.to_multiset().insert(p),
        points_in_range(insert_by_time(s, p), start, end) == (if in_range(p, start, end) {
            insert_by_time(points_in_range(s, start, end), p)
        } else {
            points_in_range(s, start, end)
        }),
        sorted_by_time(points_in_range(insert_by_time(s, p), start, end)),
{
    let t = p.timestamp;
    let c = count_at_most(s, t) as int;
    let split = sorted_split(s, t, 0);
    lemma_count_at_most_split(s, t, split);
    vstd::seq_lib::to_multiset_insert(s, c, p);
    let a = s.take(c);
    let b = s.skip(c);
    let pred = |q: PointView| in_range(q, start, end);
    assert(s =~= a + b);
    assert(insert_by_time(s, p) =~= a + (seq![p] + b));
    Seq::filter_distributes_over_add(a, b, pred);
    Seq::filter_distributes_over_add(seq![p], b, pred);
    Seq::filter_distributes_over_add(a, seq![p] + b, pred);
    Seq::<PointView>::empty().lemma_filter_push(p, pred);
    assert(Seq::<PointView>::empty().push(p) =~= seq![p]);
    reveal(Seq::filter);
    assert(sorted_by_time(insert_by_time(s, p))) by {
        assert forall|i: int, j: int| 0 <= i <= j < insert_by_time(s, p).len() implies
            insert_by_time(s, p)[i].timestamp <= insert_by_time(s, p)[j].timestamp by {
            if i < c && j > c {
                assert(s[i].timestamp <= s[j - 1].timestamp);
            }
        }
    }
    if in_range(p, start, end) {
        let fa = a.filter(pred);
        let fb = b.filter(pred);
        let fs = s.filter(pred);
        assert(fs == fa + fb);
        lemma_range_sorted(s, start, end);
        assert forall|j: int| 0 <= j < fa.len() implies fs[j].timestamp <= t by {
            a.lemma_filter_contains_rev(pred, fa[j]);
            assert(fs[j] == fa[j]);
        }
        assert forall|j: int| fa.len() <= j < fs.len() implies fs[j].timestamp > t by {
            b.lemma_filter_contains_rev(pred, fb[j - fa.len()]);
            assert(fs[j] == fb[j - fa.len()]);
        }
        lemma_count_at_most_split(fs, t, fa.len() as int);
        assert(insert_by_time(fs, p) =~= fa + (seq![p] + fb));
    }
    lemma_range_sorted(insert_by_time(s, p), start, end);
}

/// The default largest size before a flush: 1 GiB.
pub const DEFAULT_MAX_SIZE: usize = 1073741824;

/// What a memtable holds: its points in time order, its size in bytes and its limit.
pub struct MemtableView {
    pub points: Seq<PointView>,
    pub size: nat,
    pub max_size: nat,
}

/// In-memory write buffer with time-based indexing
#[derive(Debug)]
pub struct Memtable {
    /// Points ordered by timestamp; points with equal timestamps in insertion order
    points: Vec<Point>,
    /// Current size in bytes
    size: usize,
    /// Maximum size before flush
    max_size: usize,
}

impl View for Memtable {
    type V = MemtableView;

    closed spec fn view(&self) -> MemtableView {
        MemtableView { points: views(self.points@), size: self.size as nat, max_size: self.max_size as nat }
    }
}

impl Memtable {
    #[verifier::type_invariant]
    spec fn inv(&self) -> bool {
        &&& sorted_by_time(views(self.points@))
        &&& all_valid(views(self.points@))
        &&& all_storable(views(self.points@))
    }

    /// Create a new memtable
    pub fn new(max_size: usize) -> (r: Memtable)
        ensures
            r@.points == Seq::<PointView>::empty(),
            r@.size == 0,
            r@.max_size == max_size,
    {
        let r = Memtable { points: Vec::new(), size: 0, max_size };
        assert(views(r.points@) =~= Seq::<PointView>::empty());
        r
    }

    /// Create a memtable with default max size (1GB)
    pub fn default() -> (r: Memtable)
        ensures
            r@.points == Seq::<PointView>::empty(),
            r@.size == 0,
            r@.max_size == DEFAULT_MAX_SIZE,
    {
        Self::new(DEFAULT_MAX_SIZE)
    }

    /// Insert a point into the memtable
    pub fn insert(&mut self, point: Point) -> (r: Result<()>)
        requires
            old(self)@.size + point_size(point@) <= usize::MAX,
        ensures
            validation_result(point@, r),
            r is Ok <==> point_valid(point@),
            r is Ok ==> final(self)@ == (MemtableView {
                points: insert_by_time(old(self)@.points, point@),
                size: old(self)@.size + point_size(point@),
                max_size: old(self)@.max_size,
            }),
            r is Err ==> final(self)@ == old(self)@,
            sorted_by_time(final(self)@.points),
            all_valid(final(self)@.points),
            all_storable(final(self)@.points),
    {
        proof {
            use_type_invariant(&*self);
            use_type_invariant(&point.tags);
        }
        match point.validate() {
            Ok(()) => {},
            Err(e) => {
                return Err(e);
            },
        }
        let psize = point.size();
        let t = point.timestamp;
        let mut i = self.points.len();
        while i > 0 && self.points[i - 1].timestamp > t
            invariant
                i <= self.points@.len(),
                sorted_by_time(views(self.points@)),
                all_storable(views(self.points@)),
                keys_distinct(point@.tags),
                point_size(point@) <= usize::MAX,
                forall|j: int| i <= j < self.points@.len() ==> self.points@[j].timestamp > t,
            decreases i,
        {
            i = i - 1;
        }
        let ghost old_points = views(self.points@);
        let ghost pv = point@;
        proof {
            assert forall|j: int| 0 <= j < i implies old_points[j].timestamp <= t by {
                assert(old_points[i - 1].timestamp <= t);
            }
            lemma_count_at_most_split(old_points, t, i as int);
        }
        let mut points: Vec<Point> = Vec::new();
        std::mem::swap(&mut points, &mut self.points);
        points.insert(i, point);
        proof {
            assert(views(points@) =~= old_points.insert(i as int, pv));
            let np = views(points@);
            assert forall|j: int| 0 <= j < np.len() implies keys_distinct((#[trigger] np[j]).tags)
                && point_size(np[j]) <= usize::MAX by {
                if j < i {
                    assert(np[j] == old_points[j]);
                } else if j > i {
                    assert(np[j] == old_points[j - 1]);
                }
            }
        }
        self.points = points;
        self.size = self.size + psize;
        proof {
            use_type_invariant(&*self);
        }
        Ok(())
    }

    /// Whether the size stays countable when `point` is added.
    pub fn can_hold(&self, point: &Point) -> (r: bool)
        ensures
            r == (self@.size + point_size(point@) <= usize::MAX),
    {
        match point.checked_size() {
            Some(s) => self.size.checked_add(s).is_some(),
            None => false,
        }
    }

    /// Query points in a time range
    pub fn query(&self, range: std::ops::Range<i64>) -> (r: Vec<Point>)
        requires
            range.start <= range.end,
        ensures
            views(r@) == points_in_range(self@.points, range.start, range.end),
    {
        let start = range.start;
        let end = range.end;
        let mut out: Vec<Point> = Vec::new();
        let mut i: usize = 0;
        while i < self.points.len()
            invariant
                i <= self.points@.len(),
                views(out@) == points_in_range(views(self.points@).take(i as int), start, end),
            decreases self.points@.len() - i,
        {
            let ghost s = views(self.points@);
            assert(s.take(i + 1).drop_last() =~= s.take(i as int));
            let ghost prev_out = views(out@);
            let ts = self.points[i].timestamp;
            if start <= ts && ts < end {
                let p = self.points[i].clone();
                assert(p@ == s[i as int]);
                out.push(p);
                assert(views(out@) =~= prev_out.push(s[i as int]));
            }
            assert(s.take(i + 1) =~= s.take(i as int).push(s[i as int]));
            proof {
                s.take(i as int).lemma_filter_push(s[i as int], |p: PointView| in_range(p, start, end));
            }
            assert(points_in_range(s.take(i + 1), start, end) == (if in_range(s[i as int], start, end) {
                points_in_range(s.take(i as int), start, end).push(s[i as int])
            } else {
                points_in_range(s.take(i as int), start, end)
            }));
            i = i + 1;
        }
        assert(views(self.points@).take(self.points@.len() as int) =~= views(self.points@));
        out
    }

    /// Check if the memtable needs to be flushed
    pub fn needs_flush(&self) -> (r: bool)
        ensures
            r == (self@.size >= self@.max_size),
    {
        self.size >= self.max_size
    }

    /// Get the current size in bytes
    pub fn size(&self) -> (r: usize)
        ensures
            r == self@.size,
    {
        self.size
    }

    /// Get the number of points in the memtable
    pub fn len(&self) -> (r: usize)
        ensures
            r == self@.points.len(),
    {
        self.points.len()
    }

    /// Check if the memtable is empty
    pub fn is_empty(&self) -> (r: bool)
        ensures
            r == (self@.points.len() == 0),
    {
        self.points.len() == 0
    }

    /// Clear the memtable (after flush)
    pub fn clear(&mut self)
        ensures
            final(self)@ == (MemtableView {
                points: Seq::empty(),
                size: 0,
                max_size: old(self)@.max_size,
            }),
    {
        self.points = Vec::new();
        self.size = 0;
        assert(views(self.points@) =~= Seq::<PointView>::empty());
    }

    /// Get the time range of points in the memtable
    pub fn time_range(&self) -> (r: Option<(i64, i64)>)
        ensures
            self@.points.len() == 0 ==> r is None,
            self@.points.len() > 0 ==> r == Some(
                (self@.points[0].timestamp, self@.points.last().timestamp),
            ),
            r matches Some((lo, hi)) ==> forall|j: int|
                0 <= j < self@.points.len() ==> lo <= #[trigger] self@.points[j].timestamp <= hi,
    {
        proof {
            use_type_invariant(self);
        }
        if self.points.len() == 0 {
            return None;
        }
        let min = self.points[0].timestamp;
        let max = self.points[self.points.len() - 1].timestamp;
        proof {
            let ps = views(self.points@);
            assert forall|j: int| 0 <= j < ps.len() implies min <= #[trigger] ps[j].timestamp <= max by {
                assert(ps[0].timestamp <= ps[j].timestamp);
                assert(ps[j].timestamp <= ps[ps.len() - 1].timestamp);
            }
        }
        Some((min, max))
    }

    /// Convert memtable to a sorted vector of points
    pub fn to_vec(&self) -> (r: Vec<Point>)
        ensures
            views(r@) == self@.points,
            sorted_by_time(views(r@)),
            all_valid(views(r@)),
            all_storable(views(r@)),
    {
        proof {
            use_type_invariant(self);
        }
        let mut out: Vec<Point> = Vec::new();
        let mut i: usize = 0;
        while i < self.points.len()
            invariant
                i <= self.points@.len(),
                views(out@) == views(self.points@).take(i as int),
            decreases self.points@.len() - i,
        {
            let ghost prev_out = views(out@);
            let p = self.points[i].clone();
            assert(p@ == views(self.points@)[i as int]);
            out.push(p);
            assert(views(out@) =~= prev_out.push(p@));
            assert(views(out@) =~= views(self.points@).take(i + 1));
            i = i + 1;
        }
        assert(views(self.points@).take(self.points@.len() as int) =~= views(self.points@));
        out
    }
}

} // verus!
