//! Core data types: sample values, tagged data points, configuration,
//! and aggregation descriptors.

use vstd::prelude::*;
use vstd::string::StringSliceAdditionalSpecFns;
use vstd::utf8::decode_utf8;
use vstd::utf8::encode_utf8;

verus! {

/// Mathematical model of a [`Value`].
pub ghost enum ValueView {
    Integer(i64),
    Float(u64),
    Boolean(bool),
    Str(Seq<char>),
    Bytes(Seq<u8>),
}

/// Value variants supported by the engine.
///
/// Floating-point samples are carried as the raw IEEE-754 bit pattern of the
/// double; the engine stores, indexes and round-trips them bit-exactly and
/// leaves numeric interpretation to the host.
#[derive(Debug)]
pub enum Value {
    /// Integer value.
    Integer(i64),
    /// IEEE-754 double, as its raw bit pattern.
    Float(u64),
    /// Boolean value.
    Boolean(bool),
    /// String value.
    String(String),
    /// Byte array value.
    Bytes(Vec<u8>),
}

impl View for Value {
    type V = ValueView;

    open spec fn view(&self) -> ValueView {
        match self {
            Value::Integer(i) => ValueView::Integer(*i),
            Value::Float(bits) => ValueView::Float(*bits),
            Value::Boolean(b) => ValueView::Boolean(*b),
            Value::String(s) => ValueView::Str(s@),
            Value::Bytes(b) => ValueView::Bytes(b@),
        }
    }
}

/// Size in bytes that a value of this shape accounts for.
pub open spec fn spec_value_size(v: ValueView) -> int {
    match v {
        ValueView::Integer(_) => 8,
        ValueView::Float(_) => 8,
        ValueView::Boolean(_) => 1,
        ValueView::Str(s) => encode_utf8(s).len() as int,
        ValueView::Bytes(b) => b.len() as int,
    }
}

impl Value {
    /// Size in bytes for memory accounting.
    pub fn size_bytes(&self) -> (n: usize)
        ensures
            n == spec_value_size(self@),
    {
        match self {
            Value::Integer(_) => 8,
            Value::Float(_) => 8,
            Value::Boolean(_) => 1,
            Value::String(s) => s.as_str().as_bytes().len(),
            Value::Bytes(b) => b.len(),
        }
    }

    /// Structural copy of the value.
    pub fn duplicate(&self) -> (r: Self)
        ensures
            r@ == self@,
    {
        match self {
            Value::Integer(i) => Value::Integer(*i),
            Value::Float(bits) => Value::Float(*bits),
            Value::Boolean(b) => Value::Boolean(*b),
            Value::String(s) => Value::String(s.clone()),
            Value::Bytes(b) => Value::Bytes(clone_bytes(b)),
        }
    }
}

/// Structural copy of a byte vector.
pub fn clone_bytes(b: &Vec<u8>) -> (r: Vec<u8>)
    ensures
        r@ == b@,
{
    let mut r: Vec<u8> = Vec::new();
    let mut i: usize = 0;
    while i < b.len()
        invariant
            i <= b.len(),
            r@ == b@.take(i as int),
        decreases b.len() - i,
    {
        r.push(b[i]);
        i = i + 1;
        proof {
            assert(r@ =~= b@.take(i as int));
        }
    }
    proof {
        assert(r@ =~= b@);
    }
    r
}

impl Clone for Value {
    /// Clone preserves the value's mathematical model.
    fn clone(&self) -> (r: Self)
        ensures
            r@ == self@,
    {
        self.duplicate()
    }
}

/// One tag pair: a short string key and a short string value.
#[derive(Debug)]
pub struct TagPair {
    pub key: String,
    pub value: String,
}

impl TagPair {
    /// Structural copy of the pair.
    pub fn duplicate(&self) -> (r: Self)
        ensures
            r.key@ == self.key@,
            r.value@ == self.value@,
    {
        TagPair { key: self.key.clone(), value: self.value.clone() }
    }
}

/// A set of tags: a mapping from string key to string value.
///
/// Pairs are kept in first-insertion order with pairwise-distinct keys;
/// inserting an existing key replaces its value in place.
#[derive(Debug)]
pub struct TagSet {
    pairs: Vec<TagPair>,
}

/// Model of a tag set: the key/value pairs in stored order.
pub type TagsView = Seq<(Seq<char>, Seq<char>)>;

/// Whether a pair sequence has pairwise-distinct keys.
pub open spec fn distinct_keys(pairs: TagsView) -> bool {
    forall|i: int, j: int| 0 <= i < j < pairs.len() ==> pairs[i].0 != pairs[j].0
}

/// Whether a pair sequence holds this key/value pair.
pub open spec fn pairs_has(pairs: TagsView, k: Seq<char>, v: Seq<char>) -> bool {
    exists|i: int| 0 <= i < pairs.len() && pairs[i] == (k, v)
}

/// Each stored pair is in the denoted map; a key stored nowhere is absent.
pub proof fn lemma_tags_map_member(pairs: TagsView, i: int)
    requires
        distinct_keys(pairs),
        0 <= i < pairs.len(),
    ensures
        tags_as_map(pairs).dom().contains(pairs[i].0),
        tags_as_map(pairs)[pairs[i].0] == pairs[i].1,
{
    let k = pairs[i].0;
    assert(exists|j: int| 0 <= j < pairs.len() && pairs[j].0 == k) by {
        assert(0 <= i < pairs.len() && pairs[i].0 == k);
    }
    assert(tags_as_map(pairs).dom().contains(k));
    let w = choose|j: int| 0 <= j < pairs.len() && pairs[j].0 == k;
    if w < i {
        assert(pairs[w].0 != pairs[i].0);
    } else if w > i {
        assert(pairs[i].0 != pairs[w].0);
    }
    assert(w == i);
}

/// The key/value mapping a pair sequence denotes.
pub open spec fn tags_as_map(pairs: TagsView) -> Map<Seq<char>, Seq<char>> {
    Map::new(
        |k: Seq<char>| exists|i: int| 0 <= i < pairs.len() && pairs[i].0 == k,
        |k: Seq<char>|
            pairs[choose|i: int| 0 <= i < pairs.len() && pairs[i].0 == k].1,
    )
}

impl View for TagSet {
    type V = TagsView;

    closed spec fn view(&self) -> TagsView {
        Seq::new(self.pairs@.len(), |i: int| (self.pairs@[i].key@, self.pairs@[i].value@))
    }
}

impl TagSet {
    /// Well-formed: keys are pairwise distinct.
    pub open spec fn wf(&self) -> bool {
        distinct_keys(self@)
    }

    /// Whether some stored pair has this key and value.
    pub open spec fn spec_has_pair(&self, k: Seq<char>, v: Seq<char>) -> bool {
        pairs_has(self@, k, v)
    }

    /// An empty tag set.
    pub fn new() -> (t: Self)
        ensures
            t@ == Seq::<(Seq<char>, Seq<char>)>::empty(),
            t.wf(),
    {
        let t = TagSet { pairs: Vec::new() };
        proof {
            assert(t@ =~= Seq::<(Seq<char>, Seq<char>)>::empty());
        }
        t
    }

    /// Number of stored pairs.
    pub fn len(&self) -> (n: usize)
        ensures
            n == self@.len(),
    {
        self.pairs.len()
    }

    /// Whether the set holds no pairs.
    pub fn is_empty(&self) -> (b: bool)
        ensures
            b == (self@.len() == 0),
    {
        self.pairs.len() == 0
    }

    /// The pair at a position, as references to its key and value.
    pub fn pair_at(&self, i: usize) -> (r: (&String, &String))
        requires
            i < self@.len(),
        ensures
            r.0@ == self@[i as int].0,
            r.1@ == self@[i as int].1,
    {
        (&self.pairs[i].key, &self.pairs[i].value)
    }

    /// Insert a pair; an existing key has its value replaced.
    pub fn insert(&mut self, key: String, value: String)
        requires
            old(self).wf(),
        ensures
            final(self).wf(),
            tags_as_map(final(self)@) =~= tags_as_map(old(self)@).insert(key@, value@),
            final(self).spec_has_pair(key@, value@),
            final(self)@.len() <= old(self)@.len() + 1,
            forall|k: Seq<char>, v: Seq<char>|
                k != key@ ==> (final(self).spec_has_pair(k, v) <==> old(self).spec_has_pair(k, v)),
            (forall|j: int| 0 <= j < old(self)@.len() ==> old(self)@[j].0 != key@) ==> final(self)@
                == old(self)@.push((key@, value@)),
    {
        let ghost pre = self@;
        let mut i: usize = 0;
        while i < self.pairs.len()
            invariant
                pre == old(self)@,
                self@ == pre,
                distinct_keys(pre),
                i <= pre.len(),
                forall|j: int| 0 <= j < i ==> pre[j].0 != key@,
            decreases self.pairs.len() - i,
        {
            if string_eq(&self.pairs[i].key, &key) {
                proof {
                    assert(pre[i as int].0 == key@);
                }
                let ghost prepairs = self.pairs@;
                let _prev = self.pairs.remove(i);
                let ghost mid = self.pairs@;
                self.pairs.insert(i, TagPair { key, value });
                proof {
                    assert(mid == prepairs.remove(i as int));
                    assert(self.pairs@ == mid.insert(i as int, self.pairs@[i as int]));
                    assert forall|j: int| 0 <= j < self@.len() && j != i implies self@[j] == pre[j] by {
                        if j < i {
                            assert(self.pairs@[j] == prepairs[j]);
                        } else {
                            assert(mid[j - 1] == prepairs[j]);
                            assert(self.pairs@[j] == mid[j - 1]);
                        }
                    }
                    assert(self@ =~= pre.update(i as int, (key@, value@)));
                    assert(distinct_keys(self@)) by {
                        assert forall|a: int, b: int| 0 <= a < b < self@.len() implies self@[a].0
                            != self@[b].0 by {
                            assert(pre[a].0 != pre[b].0);
                        }
                    }
                    lemma_tags_map_replace(pre, self@, i as int, value@);
                    assert(self@[i as int] == (key@, value@));
                    assert forall|k2: Seq<char>, v2: Seq<char>| k2 != key@ implies (pairs_has(
                        self@,
                        k2,
                        v2,
                    ) <==> pairs_has(pre, k2, v2)) by {
                        if pairs_has(self@, k2, v2) {
                            let j = choose|j: int|
                                0 <= j < self@.len() && self@[j] == (k2, v2);
                            assert(pre[j] == (k2, v2));
                        }
                        if pairs_has(pre, k2, v2) {
                            let j = choose|j: int| 0 <= j < pre.len() && pre[j] == (k2, v2);
                            assert(self@[j] == (k2, v2));
                        }
                    }
                }
                return;
            }
            i = i + 1;
        }
        self.pairs.push(TagPair { key, value });
        proof {
            assert(self@ =~= pre.push((key@, value@)));
            assert(distinct_keys(self@)) by {
                assert forall|a: int, b: int| 0 <= a < b < self@.len() implies self@[a].0
                    != self@[b].0 by {
                    if b < pre.len() {
                        assert(pre[a].0 != pre[b].0);
                    } else {
                        assert(pre[a].0 != key@);
                    }
                }
            }
            lemma_tags_map_push(pre, self@, key@, value@);
            assert(self@[pre.len() as int] == (key@, value@));
            assert forall|k2: Seq<char>, v2: Seq<char>| k2 != key@ implies (pairs_has(
                self@,
                k2,
                v2,
            ) <==> pairs_has(pre, k2, v2)) by {
                if pairs_has(self@, k2, v2) {
                    let j = choose|j: int| 0 <= j < self@.len() && self@[j] == (k2, v2);
                    assert(j < pre.len());
                    assert(pre[j] == (k2, v2));
                }
                if pairs_has(pre, k2, v2) {
                    let j = choose|j: int| 0 <= j < pre.len() && pre[j] == (k2, v2);
                    assert(self@[j] == (k2, v2));
                }
            }
        }
    }

    /// The value stored under a key, if any.
    pub fn get(&self, key: &str) -> (r: Option<&String>)
        requires
            self.wf(),
        ensures
            match r {
                Some(v) => tags_as_map(self@).dom().contains(key@) && tags_as_map(self@)[key@]
                    == v@,
                None => !tags_as_map(self@).dom().contains(key@),
            },
    {
        let mut i: usize = 0;
        while i < self.pairs.len()
            invariant
                self.wf(),
                i <= self@.len(),
                forall|j: int| 0 <= j < i ==> self@[j].0 != key@,
            decreases self.pairs.len() - i,
        {
            if str_eq(self.pairs[i].key.as_str(), key) {
                proof {
                    assert(self@[i as int].0 == key@);
                    lemma_tags_map_member(self@, i as int);
                }
                return Some(&self.pairs[i].value);
            }
            i = i + 1;
        }
        proof {
            assert(!tags_as_map(self@).dom().contains(key@));
        }
        None
    }

    /// Structural copy of the tag set.
    pub fn duplicate(&self) -> (r: Self)
        ensures
            r@ == self@,
    {
        let mut pairs: Vec<TagPair> = Vec::new();
        let mut i: usize = 0;
        while i < self.pairs.len()
            invariant
                i <= self.pairs.len(),
                pairs@.len() == i,
                forall|j: int| 0 <= j < i ==> pairs@[j].key@ == self.pairs@[j].key@
                    && pairs@[j].value@ == self.pairs@[j].value@,
            decreases self.pairs.len() - i,
        {
            pairs.push(self.pairs[i].duplicate());
            i = i + 1;
        }
        let r = TagSet { pairs };
        proof {
            assert(r@ =~= self@);
        }
        r
    }
}

/// Replacing the value at one position updates the denoted map at that key only.
proof fn lemma_tags_map_replace(pre: TagsView, post: TagsView, i: int, v: Seq<char>)
    requires
        distinct_keys(pre),
        0 <= i < pre.len(),
        post == pre.update(i, (pre[i].0, v)),
    ensures
        tags_as_map(post) =~= tags_as_map(pre).insert(pre[i].0, v),
{
    assert forall|k: Seq<char>| tags_as_map(post).dom().contains(k) implies tags_as_map(
        pre,
    ).insert(pre[i].0, v).dom().contains(k) by {
        let j = choose|j: int| 0 <= j < post.len() && post[j].0 == k;
        assert(0 <= j < pre.len() && pre[j].0 == k);
    }
    assert forall|k: Seq<char>| tags_as_map(pre).insert(pre[i].0, v).dom().contains(
        k,
    ) implies tags_as_map(post).dom().contains(k) by {
        if k == pre[i].0 {
            assert(post[i].0 == k);
        } else {
            let j = choose|j: int| 0 <= j < pre.len() && pre[j].0 == k;
            assert(post[j].0 == k);
        }
    }
    assert forall|k: Seq<char>| tags_as_map(post).dom().contains(k) implies tags_as_map(post)[k]
        == tags_as_map(pre).insert(pre[i].0, v)[k] by {
        let j = choose|j: int| 0 <= j < post.len() && post[j].0 == k;
        if j == i {
            assert(k == pre[i].0);
            assert(tags_as_map(post)[k] == v);
        } else {
            assert(pre[j].0 == k);
            assert(k != pre[i].0);
            let j2 = choose|j2: int| 0 <= j2 < pre.len() && pre[j2].0 == k;
            assert(j2 == j);
            assert(tags_as_map(post)[k] == post[j].1);
        }
    }
}

/// Appending a pair with a fresh key adds exactly that key to the denoted map.
proof fn lemma_tags_map_push(pre: TagsView, post: TagsView, k: Seq<char>, v: Seq<char>)
    requires
        distinct_keys(pre),
        forall|j: int| 0 <= j < pre.len() ==> pre[j].0 != k,
        post == pre.push((k, v)),
    ensures
        tags_as_map(post) =~= tags_as_map(pre).insert(k, v),
{
    assert forall|q: Seq<char>| tags_as_map(post).dom().contains(q) implies tags_as_map(
        pre,
    ).insert(k, v).dom().contains(q) by {
        let j = choose|j: int| 0 <= j < post.len() && post[j].0 == q;
        if j < pre.len() {
            assert(pre[j].0 == q);
        }
    }
    assert forall|q: Seq<char>| tags_as_map(pre).insert(k, v).dom().contains(q) implies tags_as_map(
        post,
    ).dom().contains(q) by {
        if q == k {
            assert(post[pre.len() as int].0 == q);
        } else {
            let j = choose|j: int| 0 <= j < pre.len() && pre[j].0 == q;
            assert(post[j].0 == q);
        }
    }
    assert forall|q: Seq<char>| tags_as_map(post).dom().contains(q) implies tags_as_map(post)[q]
        == tags_as_map(pre).insert(k, v)[q] by {
        let j = choose|j: int| 0 <= j < post.len() && post[j].0 == q;
        if j == pre.len() {
            assert(q == k);
        } else {
            assert(pre[j].0 == q);
            assert(q != k);
            let j2 = choose|j2: int| 0 <= j2 < pre.len() && pre[j2].0 == q;
            assert(j2 == j);
        }
    }
}

/// Mathematical model of a [`DataPoint`].
pub ghost struct DataPointView {
    pub timestamp: i64,
    pub value: ValueView,
    pub tags: Option<TagsView>,
}

/// A single data point in the time series.
#[derive(Debug)]
pub struct DataPoint {
    /// Timestamp in nanoseconds since the Unix epoch.
    pub timestamp: i64,
    /// The value at this timestamp.
    pub value: Value,
    /// Optional tags for metadata.
    pub tags: Option<TagSet>,
}

impl View for DataPoint {
    type V = DataPointView;

    open spec fn view(&self) -> DataPointView {
        DataPointView {
            timestamp: self.timestamp,
            value: self.value@,
            tags: match self.tags {
                Some(t) => Some(t@),
                None => None,
            },
        }
    }
}

/// Size in bytes a data point accounts for: timestamp, value, and the
/// lengths of its tag keys and values.
pub open spec fn spec_point_size(p: DataPointView) -> int {
    8 + spec_value_size(p.value) + match p.tags {
        Some(pairs) => spec_tags_size(pairs, pairs.len() as int),
        None => 0,
    }
}

/// Summed byte length of the first `n` tag pairs.
pub open spec fn spec_tags_size(pairs: TagsView, n: int) -> int
    decreases n,
{
    if n <= 0 {
        0
    } else {
        spec_tags_size(pairs, n - 1) + encode_utf8(pairs[n - 1].0).len() + encode_utf8(
            pairs[n - 1].1,
        ).len()
    }
}

/// Well-formedness of a data point: its tag set, if present, has distinct keys.
pub open spec fn spec_point_wf(p: DataPointView) -> bool {
    match p.tags {
        Some(pairs) => distinct_keys(pairs),
        None => true,
    }
}

impl DataPoint {
    /// Whether the tag set, if present, is well-formed.
    pub open spec fn wf(&self) -> bool {
        spec_point_wf(self@)
    }

    /// A data point stamped with the current wall-clock time, no tags.
    pub fn new(value: Value) -> (p: Self)
        ensures
            p@.value == value@,
            p@.tags is None,
            p.wf(),
    {
        let timestamp = crate::clock::now_nanos();
        DataPoint { timestamp, value, tags: None }
    }

    /// A data point with a timestamp and no tags.
    pub fn with_timestamp(timestamp: i64, value: Value) -> (p: Self)
        ensures
            p@ == (DataPointView { timestamp, value: value@, tags: None::<TagsView> }),
            p.wf(),
    {
        DataPoint { timestamp, value, tags: None }
    }

    /// A data point with a timestamp and tags.
    pub fn with_tags(timestamp: i64, value: Value, tags: TagSet) -> (p: Self)
        requires
            tags.wf(),
        ensures
            p@ == (DataPointView { timestamp, value: value@, tags: Some(tags@) }),
            p.wf(),
    {
        DataPoint { timestamp, value, tags: Some(tags) }
    }

    /// Size in bytes for memory accounting.
    pub fn size_bytes(&self) -> (n: usize)
        requires
            spec_point_size(self@) <= usize::MAX,
        ensures
            n == spec_point_size(self@),
    {
        let value_size = self.value.size_bytes();
        let tags_size: usize = match &self.tags {
            Some(t) => tag_pairs_size(t),
            None => 0,
        };
        proof {
            lemma_tags_size_nonneg_all(self@);
        }
        8 + value_size + tags_size
    }

    /// Structural copy of the data point.
    pub fn duplicate(&self) -> (r: Self)
        ensures
            r@ == self@,
    {
        DataPoint {
            timestamp: self.timestamp,
            value: self.value.duplicate(),
            tags: match &self.tags {
                Some(t) => Some(t.duplicate()),
                None => None,
            },
        }
    }
}

/// A data point accounts for at least its timestamp's eight bytes.
pub proof fn lemma_point_size_nonneg(p: DataPointView)
    ensures
        spec_point_size(p) >= 8,
{
    lemma_tags_size_nonneg_all(p);
}

/// `spec_tags_size` is non-negative for every prefix.
proof fn lemma_tags_size_nonneg(pairs: TagsView, n: int)
    ensures
        spec_tags_size(pairs, n) >= 0,
    decreases n,
{
    if n > 0 {
        lemma_tags_size_nonneg(pairs, n - 1);
    }
}

/// Helper shape of the above for `spec_point_size` bounds.
proof fn lemma_tags_size_nonneg_all(p: DataPointView)
    ensures
        match p.tags {
            Some(pairs) => spec_tags_size(pairs, pairs.len() as int) >= 0,
            None => true,
        },
{
    match p.tags {
        Some(pairs) => lemma_tags_size_nonneg(pairs, pairs.len() as int),
        None => (),
    }
}

impl Clone for DataPoint {
    /// Clone preserves the data point's mathematical model.
    fn clone(&self) -> (r: Self)
        ensures
            r@ == self@,
    {
        self.duplicate()
    }
}

/// Summed byte length of all keys and values of a tag set.
fn tag_pairs_size(t: &TagSet) -> (n: usize)
    requires
        spec_tags_size(t@, t@.len() as int) <= usize::MAX,
    ensures
        n == spec_tags_size(t@, t@.len() as int),
{
    let mut n: usize = 0;
    let mut i: usize = 0;
    let count = t.len();
    while i < count
        invariant
            count == t@.len(),
            i <= count,
            n == spec_tags_size(t@, i as int),
            spec_tags_size(t@, count as int) <= usize::MAX,
        decreases count - i,
    {
        let (k, v) = t.pair_at(i);
        let ks = k.as_str().as_bytes().len();
        let vs = v.as_str().as_bytes().len();
        proof {
            lemma_tags_size_prefix_bound(t@, i + 1, count as int);
            lemma_tags_size_nonneg(t@, i as int);
        }
        n = n + ks + vs;
        i = i + 1;
    }
    n
}

/// A prefix sum of tag sizes is bounded by any longer prefix sum.
proof fn lemma_tags_size_prefix_bound(pairs: TagsView, n: int, m: int)
    requires
        n <= m,
    ensures
        spec_tags_size(pairs, n) <= spec_tags_size(pairs, m),
    decreases m - n,
{
    if n < m {
        lemma_tags_size_prefix_bound(pairs, n, m - 1);
    }
}

/// Configuration for the storage engine.
#[derive(Debug)]
pub struct TimeSeriesConfig {
    /// Maximum number of data points retained in the ring buffer.
    pub max_capacity: usize,
    /// Time-to-live for data points in seconds (0 = no expiration).
    pub ttl_seconds: u64,
    /// Enable the block compression codec.
    pub enable_compression: bool,
    /// Compression level (1-22).
    pub compression_level: i32,
    /// Enable the persistent log.
    pub enable_persistence: bool,
    /// Path for persistent storage, kept for the host that owns the file.
    pub storage_path: Option<String>,
    /// Background flush period in seconds.
    pub flush_interval_seconds: u64,
}

impl Default for TimeSeriesConfig {
    /// The default configuration: one million points, one hour TTL,
    /// balanced compression, no persistence, one minute flush period.
    fn default() -> (c: Self)
        ensures
            c.max_capacity == 1000000,
            c.ttl_seconds == 3600,
            c.enable_compression,
            c.compression_level == 3,
            !c.enable_persistence,
            c.storage_path is None,
            c.flush_interval_seconds == 60,
    {
        TimeSeriesConfig {
            max_capacity: 1000000,
            ttl_seconds: 3600,
            enable_compression: true,
            compression_level: 3,
            enable_persistence: false,
            storage_path: None,
            flush_interval_seconds: 60,
        }
    }
}

/// Aggregation types for queries.
#[derive(Debug, Clone, Copy, PartialEq, Eq, Structural)]
pub enum AggregationType {
    /// Count of data points.
    Count,
    /// Minimum projected numeric value.
    Min,
    /// Maximum projected numeric value.
    Max,
    /// Average of projected numeric values.
    Average,
    /// Sum of projected numeric values.
    Sum,
    /// First value in the window.
    First,
    /// Last value in the window.
    Last,
}

/// One aggregation result over a time window.
#[derive(Debug)]
pub struct AggregationResult {
    /// The aggregation performed.
    pub aggregation: AggregationType,
    /// The aggregated value, `None` when no point contributed.
    pub value: Option<Value>,
    /// Number of data points aggregated.
    pub count: usize,
    /// Start timestamp of the window.
    pub start_timestamp: i64,
    /// End timestamp of the window.
    pub end_timestamp: i64,
}

/// The models of a sequence of data points, in order.
pub open spec fn points_view(s: Seq<DataPoint>) -> Seq<DataPointView> {
    Seq::new(s.len(), |i: int| s[i]@)
}

/// Whether every point in a model sequence has well-formed tags.
pub open spec fn points_wf(ps: Seq<DataPointView>) -> bool {
    forall|i: int| 0 <= i < ps.len() ==> #[trigger] spec_point_wf(ps[i])
}

/// Equality of two byte vectors by content.
pub fn bytes_eq(a: &Vec<u8>, b: &Vec<u8>) -> (r: bool)
    ensures
        r == (a@ == b@),
{
    let r = a == b;
    proof {
        if r {
            assert(a@ =~= b@);
        }
    }
    r
}

impl PartialEq for Value {
    /// Equality by variant and content.
    fn eq(&self, other: &Self) -> (r: bool) {
        match (self, other) {
            (Value::Integer(a), Value::Integer(b)) => a == b,
            (Value::Float(a), Value::Float(b)) => a == b,
            (Value::Boolean(a), Value::Boolean(b)) => a == b,
            (Value::String(a), Value::String(b)) => string_eq(a, b),
            (Value::Bytes(a), Value::Bytes(b)) => bytes_eq(a, b),
            _ => false,
        }
    }
}

impl vstd::std_specs::cmp::PartialEqSpecImpl for Value {
    open spec fn obeys_eq_spec() -> bool {
        true
    }

    open spec fn eq_spec(&self, other: &Self) -> bool {
        self@ == other@
    }
}

impl PartialEq for TagSet {
    /// Equality by stored pairs, in order.
    fn eq(&self, other: &Self) -> (r: bool) {
        if self.pairs.len() != other.pairs.len() {
            return false;
        }
        let mut i: usize = 0;
        while i < self.pairs.len()
            invariant
                self@.len() == other@.len(),
                i <= self@.len(),
                forall|j: int| 0 <= j < i ==> self@[j] == other@[j],
            decreases self.pairs.len() - i,
        {
            if !string_eq(&self.pairs[i].key, &other.pairs[i].key) {
                proof {
                    if self@ == other@ {
                        assert(self@[i as int] == other@[i as int]);
                    }
                }
                return false;
            }
            if !string_eq(&self.pairs[i].value, &other.pairs[i].value) {
                proof {
                    if self@ == other@ {
                        assert(self@[i as int] == other@[i as int]);
                    }
                }
                return false;
            }
            i = i + 1;
        }
        proof {
            assert(self@ =~= other@);
        }
        true
    }
}

impl vstd::std_specs::cmp::PartialEqSpecImpl for TagSet {
    open spec fn obeys_eq_spec() -> bool {
        true
    }

    open spec fn eq_spec(&self, other: &Self) -> bool {
        self@ == other@
    }
}

impl PartialEq for DataPoint {
    /// Equality by timestamp, value and tags.
    fn eq(&self, other: &Self) -> (r: bool) {
        if self.timestamp != other.timestamp {
            return false;
        }
        if !(self.value == other.value) {
            return false;
        }
        match (&self.tags, &other.tags) {
            (None, None) => true,
            (Some(a), Some(b)) => a == b,
            _ => false,
        }
    }
}

impl vstd::std_specs::cmp::PartialEqSpecImpl for DataPoint {
    open spec fn obeys_eq_spec() -> bool {
        true
    }

    open spec fn eq_spec(&self, other: &Self) -> bool {
        self@ == other@
    }
}

/// Equality of two strings by content.
pub fn string_eq(a: &String, b: &String) -> (r: bool)
    ensures
        r == (a@ == b@),
{
    str_eq(a.as_str(), b.as_str())
}

/// Equality of two string slices by content, decided on their UTF-8 bytes.
pub fn str_eq(a: &str, b: &str) -> (r: bool)
    ensures
        r == (a@ == b@),
{
    proof {
        vstd::utf8::encode_utf8_decode_utf8(a@);
        vstd::utf8::encode_utf8_decode_utf8(b@);
    }
    let ab = a.as_bytes();
    let bb = b.as_bytes();
    if ab.len() != bb.len() {
        return false;
    }
    let mut i: usize = 0;
    while i < ab.len()
        invariant
            ab@ == a.spec_bytes(),
            bb@ == b.spec_bytes(),
            ab@.len() == bb@.len(),
            i <= ab@.len(),
            forall|j: int| 0 <= j < i ==> ab@[j] == bb@[j],
        decreases ab@.len() - i,
    {
        if ab[i] != bb[i] {
            proof {
                assert(a.spec_bytes() != b.spec_bytes());
            }
            return false;
        }
        i = i + 1;
    }
    proof {
        assert(a.spec_bytes() =~= b.spec_bytes());
        assert(decode_utf8(a.spec_bytes()) == decode_utf8(b.spec_bytes()));
    }
    true
}

} // verus!
