//! Time-series data point

use crate::error::{Error, Result};
use vstd::prelude::*;

verus! {

broadcast use vstd::seq::group_seq_axioms;

/// Number of bytes in the UTF-8 encoding of a string.
pub open spec fn utf8_len(s: Seq<char>) -> nat {
    vstd::utf8::encode_utf8(s).len()
}

/// Number of bytes in the UTF-8 encoding of `s`.
pub fn byte_len(s: &String) -> (r: usize)
    ensures
        r == utf8_len(s@),
{
    s.as_str().as_bytes().len()
}

/// A tag as the specifications see it: (key, value).
pub type TagView = (Seq<char>, Seq<char>);

/// Position of the first tag whose key is `key`, or `tags.len()` when there is none.
pub open spec fn key_pos(tags: Seq<TagView>, key: Seq<char>) -> nat
    decreases tags.len(),
{
    if tags.len() == 0 {
        0
    } else if tags[0].0 == key {
        0
    } else {
        1 + key_pos(tags.drop_first(), key)
    }
}

/// The value stored under `key`, if any.
pub open spec fn tag_lookup(tags: Seq<TagView>, key: Seq<char>) -> Option<Seq<char>> {
    let i = key_pos(tags, key);
    if i < tags.len() {
        Some(tags[i as int].1)
    } else {
        None
    }
}

/// The tags after setting `key` to `value`: an existing entry is overwritten in place,
/// a new key goes at the end.
pub open spec fn tags_insert(tags: Seq<TagView>, key: Seq<char>, value: Seq<char>) -> Seq<TagView> {
    let i = key_pos(tags, key);
    if i < tags.len() {
        tags.update(i as int, (key, value))
    } else {
        tags.push((key, value))
    }
}

/// No key occurs twice.
pub open spec fn keys_distinct(tags: Seq<TagView>) -> bool {
    forall|i: int, j: int| 0 <= i < j < tags.len() ==> tags[i].0 != tags[j].0
}

/// `key_pos` lies within the tags, passes only other keys and stops at the key.
pub proof fn lemma_key_pos(tags: Seq<TagView>, key: Seq<char>)
    ensures
        key_pos(tags, key) <= tags.len(),
        forall|j: int| 0 <= j < key_pos(tags, key) ==> tags[j].0 != key,
        key_pos(tags, key) < tags.len() ==> tags[key_pos(tags, key) as int].0 == key,
    decreases tags.len(),
{
    if tags.len() > 0 && tags[0].0 != key {
        lemma_key_pos(tags.drop_first(), key);
        assert forall|j: int| 0 <= j < key_pos(tags, key) implies tags[j].0 != key by {
            if j > 0 {
                assert(tags[j] == tags.drop_first()[j - 1]);
            }
        }
    }
}

/// `key_pos` is the first position that holds the key.
pub proof fn lemma_key_pos_at(tags: Seq<TagView>, key: Seq<char>, i: int)
    requires
        0 <= i <= tags.len(),
        forall|j: int| 0 <= j < i ==> tags[j].0 != key,
        i == tags.len() || tags[i].0 == key,
    ensures
        key_pos(tags, key) == i,
{
    lemma_key_pos(tags, key);
    let p = key_pos(tags, key) as int;
    if p < i {
        assert(tags[p].0 == key);
    } else if p > i {
        assert(tags[i].0 != key);
    }
}

/// Setting a key keeps the keys distinct; that key then reads back the value, and every
/// other key reads as before.
pub proof fn lemma_tags_insert_lookup(
    tags: Seq<TagView>,
    key: Seq<char>,
    value: Seq<char>,
    other: Seq<char>,
)
    requires
        keys_distinct(tags),
    ensures
        keys_distinct(tags_insert(tags, key, value)),
        tag_lookup(tags_insert(tags, key, value), key) == Some(value),
        other != key ==> tag_lookup(tags_insert(tags, key, value), other) == tag_lookup(tags, other),
{
    lemma_key_pos(tags, key);
    lemma_key_pos(tags, other);
    let r = tags_insert(tags, key, value);
    let p = key_pos(tags, key) as int;
    let q = key_pos(tags, other) as int;
    if p < tags.len() {
        assert forall|i: int, j: int| 0 <= i < j < r.len() implies r[i].0 != r[j].0 by {
            if i != p && j != p {
                assert(tags[i].0 != tags[j].0);
            } else if i == p {
                assert(tags[p].0 != tags[j].0);
            } else {
                assert(tags[i].0 != tags[p].0);
            }
        }
    }
    lemma_key_pos_at(r, key, p);
    if other != key {
        assert forall|j: int| 0 <= j < q implies r[j].0 != other by {
            if j != p {
                assert(r[j] == tags[j]);
            }
        }
        if q < tags.len() {
            assert(r[q] == tags[q]);
            lemma_key_pos_at(r, other, q);
        } else if p < tags.len() {
            lemma_key_pos_at(r, other, q);
        } else {
            assert(r[q].0 == key);
            lemma_key_pos_at(r, other, q + 1);
        }
    }
}

/// Dimensions of a point: a map from tag key to tag value. Keys are distinct; entries
/// keep the order in which their keys were first set.
#[derive(Debug)]
pub struct Tags {
    entries: Vec<(String, String)>,
}

impl View for Tags {
    type V = Seq<TagView>;

    closed spec fn view(&self) -> Seq<TagView> {
        entry_views(self.entries@)
    }
}

/// The tags of key and value strings.
pub open spec fn entry_views(v: Seq<(String, String)>) -> Seq<TagView> {
    v.map_values(|e: (String, String)| (e.0@, e.1@))
}

/// Two sets of tags map the same keys to the same values.
pub open spec fn same_tags(a: Seq<TagView>, b: Seq<TagView>) -> bool {
    &&& a.len() == b.len()
    &&& forall|i: int| 0 <= i < a.len() ==> tag_lookup(b, #[trigger] a[i].0) == Some(a[i].1)
}

/// Tags with distinct keys that map the same keys to the same values hold the same
/// entries, perhaps in another order.
pub proof fn lemma_same_tags_same_map(a: Seq<TagView>, b: Seq<TagView>, key: Seq<char>)
    requires
        keys_distinct(a),
        keys_distinct(b),
        same_tags(a, b),
    ensures
        tag_lookup(a, key) == tag_lookup(b, key),
{
    lemma_key_pos(a, key);
    lemma_key_pos(b, key);
    let pa = key_pos(a, key) as int;
    if pa < a.len() {
        assert(tag_lookup(b, a[pa].0) == Some(a[pa].1));
    } else if key_pos(b, key) < b.len() {
        // every key of `a` is a key of `b`, at distinct positions, and as many: so every
        // key of `b` is a key of `a`
        let pb = key_pos(b, key) as int;
        let f = |i: int| key_pos(b, a[i].0) as int;
        assert forall|i: int| 0 <= i < a.len() implies 0 <= #[trigger] f(i) < b.len() && f(i) != pb by {
            lemma_key_pos(b, a[i].0);
            assert(tag_lookup(b, a[i].0) == Some(a[i].1));
            assert(a[i].0 != key);
        }
        assert forall|i: int, j: int| 0 <= i < j < a.len() implies #[trigger] f(i) != #[trigger] f(j) by {
            lemma_key_pos(b, a[i].0);
            lemma_key_pos(b, a[j].0);
            assert(tag_lookup(b, a[i].0) == Some(a[i].1));
            assert(tag_lookup(b, a[j].0) == Some(a[j].1));
        }
        lemma_injective_bound(f, a.len() as int, b.len() as int, pb);
    }
}

/// `n` distinct positions below `m`, all other than `skip < m`, need `n < m`.
proof fn lemma_injective_bound(f: spec_fn(int) -> int, n: int, m: int, skip: int)
    requires
        0 <= n,
        0 <= skip < m,
        forall|i: int| 0 <= i < n ==> 0 <= #[trigger] f(i) < m && f(i) != skip,
        forall|i: int, j: int| 0 <= i < j < n ==> #[trigger] f(i) != #[trigger] f(j),
    ensures
        n < m,
{
    let s = Set::new(|x: int| exists|i: int| 0 <= i < n && #[trigger] f(i) == x);
    let full = Set::new(|x: int| 0 <= x < m && x != skip);
    assert(s.subset_of(full));
    vstd::set_lib::lemma_int_range(0, m);
    let r = vstd::set_lib::set_int_range(0, m);
    assert(full =~= r.remove(skip));
    assert(full.finite() && full.len() == m - 1);
    vstd::set_lib::lemma_len_subset(s, full);
    lemma_image_len(f, n);
}

/// The image of `n` distinct values has `n` elements.
proof fn lemma_image_len(f: spec_fn(int) -> int, n: int)
    requires
        0 <= n,
        forall|i: int, j: int| 0 <= i < j < n ==> #[trigger] f(i) != #[trigger] f(j),
    ensures
        Set::new(|x: int| exists|i: int| 0 <= i < n && #[trigger] f(i) == x).finite(),
        Set::new(|x: int| exists|i: int| 0 <= i < n && #[trigger] f(i) == x).len() == n,
    decreases n,
{
    let s = Set::new(|x: int| exists|i: int| 0 <= i < n && #[trigger] f(i) == x);
    if n == 0 {
        assert(s =~= Set::<int>::empty());
    } else {
        lemma_image_len(f, n - 1);
        let t = Set::new(|x: int| exists|i: int| 0 <= i < n - 1 && #[trigger] f(i) == x);
        assert(s =~= t.insert(f(n - 1)));
        assert(!t.contains(f(n - 1)));
    }
}

impl PartialEq for Tags {
    /// Equal tags map the same keys to the same values, whatever the order of their
    /// entries.
    fn eq(&self, other: &Self) -> (r: bool) {
        proof {
            use_type_invariant(self);
            use_type_invariant(other);
        }
        if self.entries.len() != other.entries.len() {
            return false;
        }
        let mut i: usize = 0;
        while i < self.entries.len()
            invariant
                i <= self@.len(),
                self@.len() == other@.len(),
                forall|j: int| 0 <= j < i ==> tag_lookup(other@, #[trigger] self@[j].0) == Some(self@[j].1),
            decreases self@.len() - i,
        {
            let (k, v) = self.entry(i);
            match other.get(k.as_str()) {
                Some(w) => {
                    if !(*w == *v) {
                        assert(tag_lookup(other@, self@[i as int].0) != Some(self@[i as int].1));
                        return false;
                    }
                },
                None => {
                    assert(tag_lookup(other@, self@[i as int].0) != Some(self@[i as int].1));
                    return false;
                },
            }
            i = i + 1;
        }
        true
    }
}

impl vstd::std_specs::cmp::PartialEqSpecImpl for Tags {
    open spec fn obeys_eq_spec() -> bool {
        true
    }

    open spec fn eq_spec(&self, other: &Self) -> bool {
        same_tags(self@, other@)
    }
}

impl Tags {
    #[verifier::type_invariant]
    pub open spec fn keys_are_distinct(&self) -> bool {
        keys_distinct(self@)
    }

    /// An empty set of tags.
    pub fn new() -> (r: Tags)
        ensures
            r@ == Seq::<TagView>::empty(),
            keys_distinct(r@),
    {
        let r = Tags { entries: Vec::new() };
        assert(r@ =~= Seq::<TagView>::empty());
        r
    }

    /// Position of `key`, or the number of tags when it is absent.
    fn find(&self, key: &String) -> (r: usize)
        ensures
            r == key_pos(self@, key@),
    {
        let mut i: usize = 0;
        while i < self.entries.len()
            invariant
                i <= self.entries.len(),
                forall|j: int| 0 <= j < i ==> self@[j].0 != key@,
            decreases self.entries.len() - i,
        {
            if self.entries[i].0 == *key {
                proof {
                    lemma_key_pos_at(self@, key@, i as int);
                }
                return i;
            }
            i = i + 1;
        }
        proof {
            lemma_key_pos_at(self@, key@, i as int);
        }
        i
    }

    /// Set `key` to `value`, overwriting an earlier value of the same key.
    pub fn insert(&mut self, key: String, value: String)
        ensures
            final(self)@ == tags_insert(old(self)@, key@, value@),
            keys_distinct(final(self)@),
    {
        proof {
            use_type_invariant(&*self);
            lemma_tags_insert_lookup(self@, key@, value@, key@);
        }
        let i = self.find(&key);
        let ghost k = key@;
        let ghost v = value@;
        let ghost before = self@;
        let mut entries: Vec<(String, String)> = Vec::new();
        std::mem::swap(&mut entries, &mut self.entries);
        assert(entry_views(entries@) == before);
        if i < entries.len() {
            entries.set(i, (key, value));
        } else {
            entries.push((key, value));
        }
        assert(entry_views(entries@) =~= tags_insert(before, k, v));
        self.entries = entries;
        proof {
            use_type_invariant(&*self);
        }
    }

    /// The value stored under `key`.
    pub fn get(&self, key: &str) -> (r: Option<&String>)
        ensures
            match r {
                Some(v) => tag_lookup(self@, key@) == Some(v@),
                None => tag_lookup(self@, key@) is None,
            },
    {
        let k = key.to_owned();
        let i = self.find(&k);
        if i < self.entries.len() {
            Some(&self.entries[i].1)
        } else {
            None
        }
    }

    /// Number of tags.
    pub fn len(&self) -> (r: usize)
        ensures
            r == self@.len(),
    {
        self.entries.len()
    }

    /// The `i`-th tag as (key, value).
    pub fn entry(&self, i: usize) -> (r: (&String, &String))
        requires
            i < self@.len(),
        ensures
            (r.0@, r.1@) == self@[i as int],
    {
        (&self.entries[i].0, &self.entries[i].1)
    }
}

impl Clone for Tags {
    fn clone(&self) -> (r: Self)
        ensures
            r@ == self@,
            keys_distinct(r@),
    {
        proof {
            use_type_invariant(self);
        }
        let mut entries: Vec<(String, String)> = Vec::new();
        let mut i: usize = 0;
        while i < self.entries.len()
            invariant
                i <= self.entries.len(),
                entries@.len() == i,
                forall|j: int|
                    0 <= j < i ==> (#[trigger] entries@[j]).0@ == self.entries@[j].0@
                        && entries@[j].1@ == self.entries@[j].1@,
            decreases self.entries.len() - i,
        {
            let k = self.entries[i].0.clone();
            let v = self.entries[i].1.clone();
            entries.push((k, v));
            i = i + 1;
        }
        assert(entry_views(entries@) =~= self@);
        let r = Tags { entries };
        r
    }
}

/// A point as the specifications see it.
pub struct PointView {
    pub timestamp: i64,
    pub metric: Seq<char>,
    pub value: u64,
    pub tags: Seq<TagView>,
}

/// A single time-series data point
#[derive(Debug, PartialEq)]
pub struct Point {
    /// Unix timestamp in nanoseconds (UTC)
    pub timestamp: i64,
    /// Metric name (e.g., "activity.completed")
    pub metric: String,
    /// Measurement value, as the bit pattern of an IEEE 754 double
    pub value: u64,
    /// Dimensions/tags (e.g., {"user": "casey", "project": "equilibrium-tokens"})
    pub tags: Tags,
}

impl View for Point {
    type V = PointView;

    open spec fn view(&self) -> PointView {
        PointView {
            timestamp: self.timestamp,
            metric: self.metric@,
            value: self.value,
            tags: self.tags@,
        }
    }
}

impl Clone for Point {
    fn clone(&self) -> (r: Self)
        ensures
            r@ == self@,
    {
        Point {
            timestamp: self.timestamp,
            metric: self.metric.clone(),
            value: self.value,
            tags: self.tags.clone(),
        }
    }
}

/// A double is finite when its exponent field is not all ones.
pub open spec fn is_finite_bits(bits: u64) -> bool {
    (bits >> 52u64) & 0x7ffu64 != 0x7ffu64
}

/// How a non-finite double is displayed.
pub open spec fn non_finite_text(bits: u64) -> Seq<char> {
    if bits & 0xf_ffff_ffff_ffffu64 != 0 {
        "NaN"@
    } else if bits >> 63u64 == 1 {
        "-inf"@
    } else {
        "inf"@
    }
}

/// Longest metric name, in bytes.
pub const MAX_METRIC_LEN: usize = 256;

/// A point is valid when its timestamp is not negative, its metric name has between
/// 1 and 256 bytes and its value is finite.
pub open spec fn point_valid(p: PointView) -> bool {
    &&& p.timestamp >= 0
    &&& p.metric.len() > 0
    &&& utf8_len(p.metric) <= MAX_METRIC_LEN
    &&& is_finite_bits(p.value)
}

/// Whether `r` is the outcome of validating `p`: the first failed check gives the error.
pub open spec fn validation_result(p: PointView, r: Result<()>) -> bool {
    if p.timestamp < 0 {
        r matches Err(Error::InvalidTimestamp(t)) && t == p.timestamp
    } else if p.metric.len() == 0 {
        r matches Err(Error::InvalidMetricName(m)) && m@ == "empty metric name"@
    } else if utf8_len(p.metric) > MAX_METRIC_LEN {
        r matches Err(Error::InvalidMetricName(m)) && m@ == "metric name too long"@
    } else if !is_finite_bits(p.value) {
        r matches Err(Error::Query(m)) && m@ == "invalid value: "@ + non_finite_text(p.value)
    } else {
        r is Ok
    }
}

/// The views of a sequence of points.
pub open spec fn views(s: Seq<Point>) -> Seq<PointView> {
    s.map_values(|p: Point| p@)
}

/// Serialized size of one tag: two length prefixes and the two strings.
pub open spec fn tag_entry_size(e: TagView) -> nat {
    2 + utf8_len(e.0) + 2 + utf8_len(e.1)
}

/// Serialized size of all the tags.
pub open spec fn tags_size(tags: Seq<TagView>) -> nat
    decreases tags.len(),
{
    if tags.len() == 0 {
        0
    } else {
        tags_size(tags.drop_last()) + tag_entry_size(tags.last())
    }
}

/// Serialized size of a point: timestamp, value, metric with its length, tag count and tags.
pub open spec fn point_size(p: PointView) -> nat {
    8 + 8 + 2 + utf8_len(p.metric) + 2 + tags_size(p.tags)
}

/// The first `i` tags take no more bytes than all of them.
proof fn lemma_tags_size_prefix(tags: Seq<TagView>, i: int)
    requires
        0 <= i <= tags.len(),
    ensures
        0 <= tags_size(tags.take(i)) <= tags_size(tags),
    decreases tags.len() - i,
{
    if i < tags.len() {
        lemma_tags_size_prefix(tags, i + 1);
        assert(tags.take(i + 1).drop_last() =~= tags.take(i));
    } else {
        assert(tags.take(i) =~= tags);
    }
}

impl Point {
    /// Create a new point without tags
    pub fn new(timestamp: i64, metric: &str, value: u64) -> (r: Point)
        ensures
            r@ == (PointView { timestamp, metric: metric@, value, tags: Seq::empty() }),
            keys_distinct(r@.tags),
    {
        Point { timestamp, metric: metric.to_owned(), value, tags: Tags::new() }
    }

    /// Add a tag to the point
    pub fn with_tag(self, key: &str, value: &str) -> (r: Point)
        ensures
            r@ == (PointView { tags: tags_insert(self@.tags, key@, value@), ..self@ }),
            keys_distinct(r@.tags),
    {
        let mut p = self;
        p.tags.insert(key.to_owned(), value.to_owned());
        p
    }

    /// Replace the tags of the point
    pub fn with_tags(self, tags: Tags) -> (r: Point)
        ensures
            r@ == (PointView { tags: tags@, ..self@ }),
            keys_distinct(r@.tags),
    {
        proof {
            use_type_invariant(&tags);
        }
        let mut p = self;
        p.tags = tags;
        p
    }

    /// Validate the point
    pub fn validate(&self) -> (r: Result<()>)
        ensures
            validation_result(self@, r),
            r is Ok <==> point_valid(self@),
    {
        if self.timestamp < 0 {
            return Err(Error::InvalidTimestamp(self.timestamp));
        }
        if self.metric.as_str().is_empty() {
            return Err(Error::InvalidMetricName("empty metric name".to_owned()));
        }
        if byte_len(&self.metric) > MAX_METRIC_LEN {
            return Err(Error::InvalidMetricName("metric name too long".to_owned()));
        }
        let exponent = (self.value >> 52u64) & 0x7ffu64;
        if exponent == 0x7ffu64 {
            let msg = if self.value & 0xf_ffff_ffff_ffffu64 != 0 {
                proof {
                    reveal_strlit("invalid value: NaN");
                    reveal_strlit("invalid value: ");
                    reveal_strlit("NaN");
                }
                assert("invalid value: NaN"@ =~= "invalid value: "@ + "NaN"@);
                "invalid value: NaN".to_owned()
            } else if self.value >> 63u64 == 1 {
                proof {
                    reveal_strlit("invalid value: -inf");
                    reveal_strlit("invalid value: ");
                    reveal_strlit("-inf");
                }
                assert("invalid value: -inf"@ =~= "invalid value: "@ + "-inf"@);
                "invalid value: -inf".to_owned()
            } else {
                proof {
                    reveal_strlit("invalid value: inf");
                    reveal_strlit("invalid value: ");
                    reveal_strlit("inf");
                }
                assert("invalid value: inf"@ =~= "invalid value: "@ + "inf"@);
                "invalid value: inf".to_owned()
            };
            return Err(Error::Query(msg));
        }
        Ok(())
    }

    /// The size of this point in bytes, or `None` when it does not fit in a machine word.
    pub fn checked_size(&self) -> (r: Option<usize>)
        ensures
            r matches Some(n) ==> n == point_size(self@),
            r is None ==> point_size(self@) > usize::MAX,
    {
        let mut size: usize = match byte_len(&self.metric).checked_add(20) {
            Some(s) => s,
            None => return None,
        };
        let n = self.tags.len();
        let mut i: usize = 0;
        while i < n
            invariant
                n == self@.tags.len(),
                i <= n,
                size == 8 + 8 + 2 + utf8_len(self@.metric) + 2 + tags_size(self@.tags.take(i as int)),
            decreases n - i,
        {
            let (k, v) = self.tags.entry(i);
            proof {
                lemma_tags_size_prefix(self@.tags, i + 1);
                assert(self@.tags.take(i + 1).drop_last() =~= self@.tags.take(i as int));
            }
            let a = match size.checked_add(4) {
                Some(x) => x,
                None => {
                    proof { lemma_tags_size_prefix(self@.tags, i + 1); }
                    return None;
                },
            };
            let b = match a.checked_add(byte_len(k)) {
                Some(x) => x,
                None => return None,
            };
            size = match b.checked_add(byte_len(v)) {
                Some(x) => x,
                None => return None,
            };
            i = i + 1;
        }
        assert(self@.tags.take(n as int) =~= self@.tags);
        Some(size)
    }

    /// Calculate the size of this point in bytes (when serialized)
    pub fn size(&self) -> (r: usize)
        requires
            point_size(self@) <= usize::MAX,
        ensures
            r == point_size(self@),
    {
        let mut size: usize = 8 + 8 + 2 + byte_len(&self.metric) + 2;
        let n = self.tags.len();
        let mut i: usize = 0;
        while i < n
            invariant
                n == self@.tags.len(),
                i <= n,
                point_size(self@) <= usize::MAX,
                size == 8 + 8 + 2 + utf8_len(self@.metric) + 2 + tags_size(self@.tags.take(i as int)),
            decreases n - i,
        {
            let (k, v) = self.tags.entry(i);
            proof {
                lemma_tags_size_prefix(self@.tags, i + 1);
                assert(self@.tags.take(i + 1).drop_last() =~= self@.tags.take(i as int));
            }
            size = size + 2 + byte_len(k) + 2 + byte_len(v);
            i = i + 1;
        }
        assert(self@.tags.take(n as int) =~= self@.tags);
        size
    }
}

} // verus!
