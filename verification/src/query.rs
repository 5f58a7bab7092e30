//! Query planner and executor: immutable chainable query specifications,
//! plan selection over the combined index, limits, and time-bucketed
//! aggregations.
//!
//! Numeric folds over projected doubles (minimum, maximum, sum, average)
//! are left to the host: the executor returns the exact per-window operand
//! lists, and the host projects and folds them in floating point.

use crate::error::TimeSeriesError;
use crate::index::{
    spec_combined_positions, spec_select, spec_tag_positions, spec_time_positions, CombinedIndex,
};
use crate::types::{
    points_view, AggregationResult, AggregationType, DataPoint, DataPointView, TagSet, TagsView,
    Value, ValueView,
};
use vstd::prelude::*;

verus! {

/// Model of a query specification.
pub ghost struct QueryView {
    pub start_time: Option<i64>,
    pub end_time: Option<i64>,
    pub tags: TagsView,
    pub tag_and_operation: bool,
    pub limit: Option<usize>,
    pub aggregation: Option<AggregationType>,
    pub group_by_interval: Option<i64>,
}

/// An immutable, chainable query specification: optional time range,
/// optional tag predicate with an AND/OR combinator, optional limit,
/// optional aggregation, optional group-by interval in nanoseconds.
#[derive(Debug)]
pub struct QueryBuilder {
    start_time: Option<i64>,
    end_time: Option<i64>,
    tags: TagSet,
    tag_and_operation: bool,
    limit: Option<usize>,
    aggregation: Option<AggregationType>,
    group_by_interval: Option<i64>,
}

impl View for QueryBuilder {
    type V = QueryView;

    closed spec fn view(&self) -> QueryView {
        QueryView {
            start_time: self.start_time,
            end_time: self.end_time,
            tags: self.tags@,
            tag_and_operation: self.tag_and_operation,
            limit: self.limit,
            aggregation: self.aggregation,
            group_by_interval: self.group_by_interval,
        }
    }
}

impl QueryBuilder {
    /// Whether the specification's tag set is well-formed.
    pub closed spec fn wf(&self) -> bool {
        self.tags.wf()
    }

    /// An unconstrained query.
    pub fn new() -> (q: Self)
        ensures
            q.wf(),
            q@.start_time is None,
            q@.end_time is None,
            q@.tags.len() == 0,
            q@.tag_and_operation,
            q@.limit is None,
            q@.aggregation is None,
            q@.group_by_interval is None,
    {
        QueryBuilder {
            start_time: None,
            end_time: None,
            tags: TagSet::new(),
            tag_and_operation: true,
            limit: None,
            aggregation: None,
            group_by_interval: None,
        }
    }

    /// Constrain the start of the time range.
    pub fn start_time(self, timestamp: i64) -> (q: Self)
        requires
            self.wf(),
        ensures
            q.wf(),
            q@ == (QueryView { start_time: Some(timestamp), ..self@ }),
    {
        QueryBuilder { start_time: Some(timestamp), ..self }
    }

    /// Constrain the end of the time range.
    pub fn end_time(self, timestamp: i64) -> (q: Self)
        requires
            self.wf(),
        ensures
            q.wf(),
            q@ == (QueryView { end_time: Some(timestamp), ..self@ }),
    {
        QueryBuilder { end_time: Some(timestamp), ..self }
    }

    /// Constrain both ends of the time range.
    pub fn time_range(self, start: i64, end: i64) -> (q: Self)
        requires
            self.wf(),
        ensures
            q.wf(),
            q@ == (QueryView { start_time: Some(start), end_time: Some(end), ..self@ }),
    {
        QueryBuilder { start_time: Some(start), end_time: Some(end), ..self }
    }

    /// Add one tag pair to the predicate.
    pub fn tag(self, key: String, value: String) -> (q: Self)
        requires
            self.wf(),
        ensures
            q.wf(),
            q@.start_time == self@.start_time,
            q@.end_time == self@.end_time,
            q@.tag_and_operation == self@.tag_and_operation,
            q@.limit == self@.limit,
            q@.aggregation == self@.aggregation,
            q@.group_by_interval == self@.group_by_interval,
            crate::types::tags_as_map(q@.tags) == crate::types::tags_as_map(self@.tags).insert(
                key@,
                value@,
            ),
    {
        let mut tags = self.tags;
        tags.insert(key, value);
        QueryBuilder { tags, ..self }
    }

    /// Add several tag pairs to the predicate.
    pub fn tags(self, tags: &TagSet) -> (q: Self)
        requires
            self.wf(),
            tags.wf(),
        ensures
            q.wf(),
            q@.start_time == self@.start_time,
            q@.end_time == self@.end_time,
            q@.tag_and_operation == self@.tag_and_operation,
            q@.limit == self@.limit,
            q@.aggregation == self@.aggregation,
            q@.group_by_interval == self@.group_by_interval,
    {
        let mut merged = self.tags;
        let n = tags.len();
        let mut i: usize = 0;
        while i < n
            invariant
                merged.wf(),
                tags.wf(),
                n == tags@.len(),
                i <= n,
            decreases n - i,
        {
            let (k, v) = tags.pair_at(i);
            merged.insert(k.clone(), v.clone());
            i = i + 1;
        }
        QueryBuilder { tags: merged, ..self }
    }

    /// Require every tag pair to match (AND).
    pub fn tags_and(self) -> (q: Self)
        requires
            self.wf(),
        ensures
            q.wf(),
            q@ == (QueryView { tag_and_operation: true, ..self@ }),
    {
        QueryBuilder { tag_and_operation: true, ..self }
    }

    /// Let any tag pair match (OR).
    pub fn tags_or(self) -> (q: Self)
        requires
            self.wf(),
        ensures
            q.wf(),
            q@ == (QueryView { tag_and_operation: false, ..self@ }),
    {
        QueryBuilder { tag_and_operation: false, ..self }
    }

    /// Limit the number of raw samples returned.
    pub fn limit(self, count: usize) -> (q: Self)
        requires
            self.wf(),
        ensures
            q.wf(),
            q@ == (QueryView { limit: Some(count), ..self@ }),
    {
        QueryBuilder { limit: Some(count), ..self }
    }

    /// Request an aggregation instead of raw samples.
    pub fn aggregate(self, aggregation: AggregationType) -> (q: Self)
        requires
            self.wf(),
        ensures
            q.wf(),
            q@ == (QueryView { aggregation: Some(aggregation), ..self@ }),
    {
        QueryBuilder { aggregation: Some(aggregation), ..self }
    }

    /// Bucket the aggregation by a time interval in nanoseconds.
    pub fn group_by_interval(self, interval_nanos: i64) -> (q: Self)
        requires
            self.wf(),
        ensures
            q.wf(),
            q@ == (QueryView { group_by_interval: Some(interval_nanos), ..self@ }),
    {
        QueryBuilder { group_by_interval: Some(interval_nanos), ..self }
    }
}

/// One window of operands for a numeric aggregation: the host projects the
/// values to doubles and folds them.
#[derive(Debug)]
pub struct NumericGroup {
    /// The aggregation requested.
    pub aggregation: AggregationType,
    /// The values of the window's samples, in candidate order.
    pub values: Vec<Value>,
    /// Number of samples in the window.
    pub count: usize,
    /// Start timestamp of the window.
    pub start_timestamp: i64,
    /// End timestamp of the window.
    pub end_timestamp: i64,
}

/// A query result: raw samples, finished aggregations, or numeric operand
/// windows awaiting the host's floating-point fold.
#[derive(Debug)]
pub enum QueryResult {
    /// Raw samples.
    DataPoints(Vec<DataPoint>),
    /// Finished aggregations (count, first, last).
    Aggregations(Vec<AggregationResult>),
    /// Operand windows for numeric aggregations.
    NumericGroups(Vec<NumericGroup>),
}

impl QueryResult {
    /// Number of entries in the result.
    pub fn len(&self) -> usize {
        match self {
            QueryResult::DataPoints(points) => points.len(),
            QueryResult::Aggregations(aggs) => aggs.len(),
            QueryResult::NumericGroups(groups) => groups.len(),
        }
    }

    /// Whether the result holds no entries.
    pub fn is_empty(&self) -> bool {
        self.len() == 0
    }

    /// The raw samples, if this result carries them.
    pub fn to_data_points(self) -> (r: Option<Vec<DataPoint>>)
        ensures
            match r {
                Some(_) => self is DataPoints,
                None => !(self is DataPoints),
            },
    {
        match self {
            QueryResult::DataPoints(points) => Some(points),
            _ => None,
        }
    }

    /// The finished aggregations, if this result carries them.
    pub fn to_aggregations(self) -> (r: Option<Vec<AggregationResult>>)
        ensures
            match r {
                Some(_) => self is Aggregations,
                None => !(self is Aggregations),
            },
    {
        match self {
            QueryResult::Aggregations(aggs) => Some(aggs),
            _ => None,
        }
    }

    /// The numeric operand windows, if this result carries them.
    pub fn to_numeric_groups(self) -> (r: Option<Vec<NumericGroup>>)
        ensures
            match r {
                Some(_) => self is NumericGroups,
                None => !(self is NumericGroups),
            },
    {
        match self {
            QueryResult::NumericGroups(groups) => Some(groups),
            _ => None,
        }
    }
}

/// The candidate samples a query specification selects from the index,
/// before aggregation and limiting, in ascending position order; with no
/// predicate and a limit, the latest samples in time order instead.
pub open spec fn spec_candidates(
    q: QueryView,
    points: Seq<DataPointView>,
    entries: crate::index::TimeEntriesView,
) -> Seq<DataPointView> {
    let n = points.len() as int;
    match (q.start_time, q.end_time) {
        (Some(s), Some(e)) => if q.tags.len() == 0 {
            spec_select(points, spec_time_positions(points, n, s, e))
        } else {
            spec_select(
                points,
                spec_combined_positions(points, n, s, e, q.tags, q.tag_and_operation),
            )
        },
        (Some(s), None) => if q.tags.len() == 0 {
            spec_select(points, spec_time_positions(points, n, s, i64::MAX))
        } else {
            spec_select(
                points,
                spec_combined_positions(points, n, s, i64::MAX, q.tags, q.tag_and_operation),
            )
        },
        (None, Some(e)) => if q.tags.len() == 0 {
            spec_select(points, spec_time_positions(points, n, i64::MIN, e))
        } else {
            spec_select(
                points,
                spec_combined_positions(points, n, i64::MIN, e, q.tags, q.tag_and_operation),
            )
        },
        (None, None) => if q.tags.len() == 0 {
            match q.limit {
                Some(limit) => {
                    let all = crate::index::flat_in_range(entries, i64::MIN, i64::MAX);
                    let k = if limit as int <= all.len() {
                        limit as int
                    } else {
                        all.len() as int
                    };
                    spec_select(points, all.skip(all.len() - k))
                },
                None => spec_select(
                    points,
                    spec_time_positions(points, n, i64::MIN, i64::MAX),
                ),
            }
        } else {
            spec_select(points, spec_tag_positions(points, n, q.tags, q.tag_and_operation))
        },
    }
}

impl QueryBuilder {
    /// The samples the plan selects, per the plan table: a two-sided range
    /// uses the time index (with the tag index when tags are present), a
    /// one-sided range is extended to the missing extreme, no predicates
    /// with a limit yields the latest samples, and tags alone use the tag
    /// index.
    fn execute_filters(&self, index: &CombinedIndex) -> (r: Vec<DataPoint>)
        requires
            self.wf(),
            index.wf(),
        ensures
            points_view(r@) == spec_candidates(self@, index.points(), index.time_entries()),
    {
        match (self.start_time, self.end_time) {
            (Some(start), Some(end)) => {
                if self.tags.is_empty() {
                    index.query_time_range(start, end)
                } else {
                    index.query_combined(start, end, &self.tags, self.tag_and_operation)
                }
            },
            (Some(start), None) => {
                if self.tags.is_empty() {
                    index.query_time_range(start, i64::MAX)
                } else {
                    index.query_combined(start, i64::MAX, &self.tags, self.tag_and_operation)
                }
            },
            (None, Some(end)) => {
                if self.tags.is_empty() {
                    index.query_time_range(i64::MIN, end)
                } else {
                    index.query_combined(i64::MIN, end, &self.tags, self.tag_and_operation)
                }
            },
            (None, None) => {
                if self.tags.is_empty() {
                    match self.limit {
                        Some(limit) => index.get_latest(limit),
                        None => index.query_time_range(i64::MIN, i64::MAX),
                    }
                } else {
                    index.query_tags(&self.tags, self.tag_and_operation)
                }
            },
        }
    }
}

/// The values of the candidates, in order.
pub open spec fn spec_values_of(cands: Seq<DataPointView>) -> Seq<ValueView> {
    Seq::new(cands.len(), |i: int| cands[i].value)
}

/// The views of a value list.
pub open spec fn values_view(vs: Seq<Value>) -> Seq<ValueView> {
    Seq::new(vs.len(), |i: int| vs[i]@)
}

/// The smallest timestamp among the candidates.
pub open spec fn spec_min_ts(s: Seq<DataPointView>) -> i64
    recommends
        s.len() > 0,
    decreases s.len(),
{
    if s.len() <= 1 {
        s[0].timestamp
    } else {
        let m = spec_min_ts(s.drop_last());
        if s.last().timestamp < m {
            s.last().timestamp
        } else {
            m
        }
    }
}

/// The largest timestamp among the candidates.
pub open spec fn spec_max_ts(s: Seq<DataPointView>) -> i64
    recommends
        s.len() > 0,
    decreases s.len(),
{
    if s.len() <= 1 {
        s[0].timestamp
    } else {
        let m = spec_max_ts(s.drop_last());
        if s.last().timestamp > m {
            s.last().timestamp
        } else {
            m
        }
    }
}

/// The bucket a timestamp falls into: its floor-division by the interval.
pub open spec fn spec_bucket(ts: i64, interval: i64) -> int
    recommends
        interval > 0,
{
    (ts as int) / (interval as int)
}

/// The candidates falling into one bucket, in candidate order.
pub open spec fn spec_filter_bucket(cands: Seq<DataPointView>, interval: i64, b: int) -> Seq<
    DataPointView,
>
    decreases cands.len(),
{
    if cands.len() == 0 {
        Seq::empty()
    } else {
        spec_filter_bucket(cands.drop_last(), interval, b) + (if spec_bucket(
            cands.last().timestamp,
            interval,
        ) == b {
            seq![cands.last()]
        } else {
            Seq::empty()
        })
    }
}

/// Whether the aggregation needs a floating-point fold.
pub open spec fn spec_is_numeric(agg: AggregationType) -> bool {
    agg is Min || agg is Max || agg is Sum || agg is Average
}

/// The finished value of a count/first/last aggregation over a non-empty
/// window.
pub open spec fn spec_cfl_value(agg: AggregationType, group: Seq<DataPointView>) -> ValueView
    recommends
        group.len() > 0,
        !spec_is_numeric(agg),
{
    match agg {
        AggregationType::Count => ValueView::Integer(group.len() as i64),
        AggregationType::First => group[0].value,
        _ => group.last().value,
    }
}

/// A value clamped into the timestamp range.
pub open spec fn spec_clamp_ts(x: int) -> int {
    if x < i64::MIN {
        i64::MIN as int
    } else if x > i64::MAX {
        i64::MAX as int
    } else {
        x
    }
}

/// The start of a bucket's window, clamped to the timestamp range.
pub open spec fn spec_window_start(b: int, interval: i64) -> int {
    spec_clamp_ts(b * interval)
}

/// The end of a bucket's window, clamped to the timestamp range.
pub open spec fn spec_window_end(b: int, interval: i64) -> int {
    spec_clamp_ts(b * interval + interval - 1)
}

/// A finished aggregation entry matches one window.
pub open spec fn spec_agg_entry_ok(
    a: AggregationResult,
    agg: AggregationType,
    group: Seq<DataPointView>,
    b: int,
    interval: i64,
) -> bool {
    &&& a.aggregation == agg
    &&& a.count == group.len()
    &&& (match a.value {
        Some(v) => group.len() > 0 && v@ == spec_cfl_value(agg, group),
        None => group.len() == 0,
    })
    &&& a.start_timestamp == spec_window_start(b, interval)
    &&& a.end_timestamp == spec_window_end(b, interval)
}

/// A numeric operand window matches one bucket.
pub open spec fn spec_numeric_entry_ok(
    g: NumericGroup,
    agg: AggregationType,
    group: Seq<DataPointView>,
    b: int,
    interval: i64,
) -> bool {
    &&& g.aggregation == agg
    &&& g.count == group.len()
    &&& values_view(g.values@) == spec_values_of(group)
    &&& g.start_timestamp == spec_window_start(b, interval)
    &&& g.end_timestamp == spec_window_end(b, interval)
}

/// What a simple (ungrouped) aggregation returns: over an empty candidate
/// set, one empty entry spanning the requested range; otherwise one entry
/// over all candidates, spanning the requested or observed range.
pub open spec fn spec_simple_agg_ok(
    qr: QueryResult,
    agg: AggregationType,
    cands: Seq<DataPointView>,
    qstart: Option<i64>,
    qend: Option<i64>,
) -> bool {
    if cands.len() == 0 {
        &&& qr matches QueryResult::Aggregations(aggs)
        &&& aggs@.len() == 1
        &&& aggs@[0].aggregation == agg
        &&& aggs@[0].value is None
        &&& aggs@[0].count == 0
        &&& aggs@[0].start_timestamp == (match qstart {
            Some(s) => s,
            None => 0,
        })
        &&& aggs@[0].end_timestamp == (match qend {
            Some(e) => e,
            None => 0,
        })
    } else {
        let st = match qstart {
            Some(s) => s,
            None => spec_min_ts(cands),
        };
        let en = match qend {
            Some(e) => e,
            None => spec_max_ts(cands),
        };
        if spec_is_numeric(agg) {
            &&& qr matches QueryResult::NumericGroups(gs)
            &&& gs@.len() == 1
            &&& gs@[0].aggregation == agg
            &&& gs@[0].count == cands.len()
            &&& values_view(gs@[0].values@) == spec_values_of(cands)
            &&& gs@[0].start_timestamp == st
            &&& gs@[0].end_timestamp == en
        } else {
            &&& qr matches QueryResult::Aggregations(aggs)
            &&& aggs@.len() == 1
            &&& aggs@[0].aggregation == agg
            &&& aggs@[0].count == cands.len()
            &&& (aggs@[0].value matches Some(v) && v@ == spec_cfl_value(agg, cands))
            &&& aggs@[0].start_timestamp == st
            &&& aggs@[0].end_timestamp == en
        }
    }
}

/// What a grouped aggregation returns: one entry per occupied bucket, in
/// ascending bucket order; empty buckets are omitted.
pub open spec fn spec_grouped_ok(
    qr: QueryResult,
    agg: AggregationType,
    cands: Seq<DataPointView>,
    interval: i64,
) -> bool {
    if cands.len() == 0 {
        qr matches QueryResult::Aggregations(aggs) && aggs@.len() == 0
    } else {
        exists|bs: Seq<int>|
            {
                &&& #[trigger] spec_bucket_list_ok(bs, cands, interval)
                &&& (if spec_is_numeric(agg) {
                    qr matches QueryResult::NumericGroups(gs) && gs@.len() == bs.len() && forall|
                        i: int,
                    |
                        0 <= i < bs.len() ==> spec_numeric_entry_ok(
                            #[trigger] gs@[i],
                            agg,
                            spec_filter_bucket(cands, interval, bs[i]),
                            bs[i],
                            interval,
                        )
                } else {
                    qr matches QueryResult::Aggregations(aggs) && aggs@.len() == bs.len()
                        && forall|i: int|
                        0 <= i < bs.len() ==> spec_agg_entry_ok(
                            #[trigger] aggs@[i],
                            agg,
                            spec_filter_bucket(cands, interval, bs[i]),
                            bs[i],
                            interval,
                        )
                })
            }
    }
}

/// A bucket list is exactly the candidates' occupied buckets, ascending.
pub open spec fn spec_bucket_list_ok(
    bs: Seq<int>,
    cands: Seq<DataPointView>,
    interval: i64,
) -> bool {
    &&& (forall|a: int, b: int| 0 <= a < b < bs.len() ==> bs[a] < bs[b])
    &&& (forall|b: int|
        bs.contains(b) <==> exists|i: int|
            0 <= i < cands.len() && spec_bucket(#[trigger] cands[i].timestamp, interval) == b)
}

/// Floor division of a timestamp by a positive interval.
fn floor_div(ts: i64, interval: i64) -> (b: i64)
    requires
        interval > 0,
    ensures
        b as int == spec_bucket(ts, interval),
{
    if ts >= 0 {
        let q = (ts as u64) / (interval as u64);
        proof {
            vstd::arithmetic::div_mod::lemma_fundamental_div_mod(
                ts as int,
                interval as int,
            );
            lemma_quotient_unique(ts as int, interval as int, (ts as int) / (interval as int));
            assert((ts as u64 as int) / (interval as u64 as int) == (ts as int) / (
            interval as int));
            vstd::arithmetic::div_mod::lemma_div_is_ordered_by_denominator(
                ts as int,
                1,
                interval as int,
            );
        }
        q as i64
    } else {
        let n = (-(ts as i128)) as u128;
        let iv = interval as u128;
        let q = (n + iv - 1) / iv;
        proof {
            let ni = n as int;
            let ii = interval as int;
            let qi = q as int;
            vstd::arithmetic::div_mod::lemma_fundamental_div_mod(ni + ii - 1, ii);
            assert(ii * qi - ii + 1 <= ni <= ii * qi);
            let mq: int = 0 - qi;
            assert(ii * mq <= (ts as int) && (ts as int) < ii * mq + ii) by (nonlinear_arith)
                requires
                    ii * qi - ii + 1 <= ni <= ii * qi,
                    (ts as int) == 0 - ni,
                    mq == 0 - qi,
            {}
            lemma_quotient_unique(ts as int, ii, mq);
            assert(ii * qi <= ni + ii - 1);
            assert(qi <= ni) by (nonlinear_arith)
                requires
                    ii * qi <= ni + ii - 1,
                    ii >= 1,
                    qi >= 0,
                    ni >= 1,
            {}
        }
        (-(q as i128)) as i64
    }
}

/// A bucket some candidate occupies has a non-empty group.
proof fn lemma_filter_bucket_nonempty(cands: Seq<DataPointView>, interval: i64, b: int)
    requires
        exists|j: int|
            0 <= j < cands.len() && spec_bucket(#[trigger] cands[j].timestamp, interval) == b,
    ensures
        spec_filter_bucket(cands, interval, b).len() > 0,
    decreases cands.len(),
{
    let j = choose|j: int|
        0 <= j < cands.len() && spec_bucket(#[trigger] cands[j].timestamp, interval) == b;
    if j == cands.len() - 1 {
    } else {
        assert(cands.drop_last()[j] == cands[j]);
        lemma_filter_bucket_nonempty(cands.drop_last(), interval, b);
    }
}

impl QueryBuilder {
    /// Run the query against a combined index.  Without an aggregation the
    /// raw candidates are returned, truncated to the limit; a count, first
    /// or last aggregation is finished here; a numeric aggregation returns
    /// its operand windows for the host to fold; a non-positive group-by
    /// interval is a `Query` error.
    pub fn execute(&self, index: &CombinedIndex) -> (r: Result<QueryResult, TimeSeriesError>)
        requires
            self.wf(),
            index.wf(),
        ensures
            ({
                let cands = spec_candidates(self@, index.points(), index.time_entries());
                match self@.aggregation {
                    None => r matches Ok(qr) && (qr matches QueryResult::DataPoints(ps)
                        && points_view(ps@) == (match self@.limit {
                        Some(l) => cands.take(
                            if l as int <= cands.len() {
                                l as int
                            } else {
                                cands.len() as int
                            },
                        ),
                        None => cands,
                    })),
                    Some(agg) => match self@.group_by_interval {
                        None => r matches Ok(qr) && spec_simple_agg_ok(
                            qr,
                            agg,
                            cands,
                            self@.start_time,
                            self@.end_time,
                        ),
                        Some(interval) => if interval <= 0 {
                            r matches Err(e) && e is Query
                        } else {
                            r matches Ok(qr) && spec_grouped_ok(qr, agg, cands, interval)
                        },
                    },
                }
            }),
    {
        let ghost cands = spec_candidates(self@, index.points(), index.time_entries());
        let candidates = self.execute_filters(index);
        let agg = match self.aggregation {
            None => {
                let mut pts = candidates;
                let ghost full = points_view(pts@);
                match self.limit {
                    Some(l) => {
                        if l < pts.len() {
                            pts.truncate(l);
                            proof {
                                assert(points_view(pts@) =~= full.take(l as int));
                            }
                        } else {
                            proof {
                                assert(points_view(pts@) =~= full.take(full.len() as int));
                            }
                        }
                    },
                    None => {},
                }
                return Ok(QueryResult::DataPoints(pts));
            },
            Some(agg) => agg,
        };
        let numeric = match agg {
            AggregationType::Min => true,
            AggregationType::Max => true,
            AggregationType::Sum => true,
            AggregationType::Average => true,
            _ => false,
        };
        match self.group_by_interval {
            Some(interval) => {
                if interval <= 0 {
                    return Err(
                        TimeSeriesError::query("group-by interval must be positive"),
                    );
                }
                if candidates.len() == 0 {
                    let empty: Vec<AggregationResult> = Vec::new();
                    return Ok(QueryResult::Aggregations(empty));
                }
                let buckets = collect_buckets(&candidates, interval);
                let nb = buckets.len();
                if numeric {
                    let mut groups: Vec<NumericGroup> = Vec::new();
                    let mut i: usize = 0;
                    while i < nb
                        invariant
                            interval > 0,
                            cands == points_view(candidates@),
                            nb == buckets@.len(),
                            i <= nb,
                            spec_bucket_list_ok(buckets_view(buckets@), cands, interval),
                            groups@.len() == i,
                            forall|j: int|
                                0 <= j < i ==> spec_numeric_entry_ok(
                                    #[trigger] groups@[j],
                                    agg,
                                    spec_filter_bucket(
                                        cands,
                                        interval,
                                        buckets_view(buckets@)[j],
                                    ),
                                    buckets_view(buckets@)[j],
                                    interval,
                                ),
                            spec_is_numeric(agg),
                        decreases nb - i,
                    {
                        let b = buckets[i];
                        let g = collect_group(&candidates, interval, b);
                        let (ws, we) = window_bounds(b, interval);
                        let values = collect_values(&g);
                        groups.push(
                            NumericGroup {
                                aggregation: agg,
                                values,
                                count: g.len(),
                                start_timestamp: ws,
                                end_timestamp: we,
                            },
                        );
                        i = i + 1;
                    }
                    proof {
                        assert(spec_grouped_ok(
                            QueryResult::NumericGroups(groups),
                            agg,
                            cands,
                            interval,
                        )) by {
                            let bs = buckets_view(buckets@);
                            assert(spec_bucket_list_ok(bs, cands, interval));
                        }
                    }
                    Ok(QueryResult::NumericGroups(groups))
                } else {
                    let mut results: Vec<AggregationResult> = Vec::new();
                    let mut i: usize = 0;
                    while i < nb
                        invariant
                            interval > 0,
                            cands == points_view(candidates@),
                            nb == buckets@.len(),
                            i <= nb,
                            spec_bucket_list_ok(buckets_view(buckets@), cands, interval),
                            results@.len() == i,
                            forall|j: int|
                                0 <= j < i ==> spec_agg_entry_ok(
                                    #[trigger] results@[j],
                                    agg,
                                    spec_filter_bucket(
                                        cands,
                                        interval,
                                        buckets_view(buckets@)[j],
                                    ),
                                    buckets_view(buckets@)[j],
                                    interval,
                                ),
                            !spec_is_numeric(agg),
                        decreases nb - i,
                    {
                        let b = buckets[i];
                        let g = collect_group(&candidates, interval, b);
                        proof {
                            assert(buckets_view(buckets@).contains(b as int)) by {
                                assert(buckets_view(buckets@)[i as int] == b as int);
                            }
                            lemma_filter_bucket_nonempty(cands, interval, b as int);
                        }
                        let (ws, we) = window_bounds(b, interval);
                        let value = match agg {
                            AggregationType::Count => Value::Integer(g.len() as i64),
                            AggregationType::First => g[0].value.duplicate(),
                            _ => g[g.len() - 1].value.duplicate(),
                        };
                        results.push(
                            AggregationResult {
                                aggregation: agg,
                                value: Some(value),
                                count: g.len(),
                                start_timestamp: ws,
                                end_timestamp: we,
                            },
                        );
                        i = i + 1;
                    }
                    proof {
                        assert(spec_grouped_ok(
                            QueryResult::Aggregations(results),
                            agg,
                            cands,
                            interval,
                        )) by {
                            let bs = buckets_view(buckets@);
                            assert(spec_bucket_list_ok(bs, cands, interval));
                        }
                    }
                    Ok(QueryResult::Aggregations(results))
                }
            },
            None => {
                if candidates.len() == 0 {
                    let start_timestamp = match self.start_time {
                        Some(s) => s,
                        None => 0,
                    };
                    let end_timestamp = match self.end_time {
                        Some(e) => e,
                        None => 0,
                    };
                    let mut aggs: Vec<AggregationResult> = Vec::new();
                    aggs.push(
                        AggregationResult {
                            aggregation: agg,
                            value: None,
                            count: 0,
                            start_timestamp,
                            end_timestamp,
                        },
                    );
                    return Ok(QueryResult::Aggregations(aggs));
                }
                let st = match self.start_time {
                    Some(s) => s,
                    None => min_ts_of(&candidates),
                };
                let en = match self.end_time {
                    Some(e) => e,
                    None => max_ts_of(&candidates),
                };
                if numeric {
                    let count = candidates.len();
                    let values = collect_values(&candidates);
                    let mut groups: Vec<NumericGroup> = Vec::new();
                    groups.push(
                        NumericGroup {
                            aggregation: agg,
                            values,
                            count,
                            start_timestamp: st,
                            end_timestamp: en,
                        },
                    );
                    Ok(QueryResult::NumericGroups(groups))
                } else {
                    let count = candidates.len();
                    let value = match agg {
                        AggregationType::Count => Value::Integer(count as i64),
                        AggregationType::First => candidates[0].value.duplicate(),
                        _ => candidates[count - 1].value.duplicate(),
                    };
                    let mut aggs: Vec<AggregationResult> = Vec::new();
                    aggs.push(
                        AggregationResult {
                            aggregation: agg,
                            value: Some(value),
                            count,
                            start_timestamp: st,
                            end_timestamp: en,
                        },
                    );
                    Ok(QueryResult::Aggregations(aggs))
                }
            },
        }
    }
}

/// Statistics of a query engine.
#[derive(Debug, Clone, Copy)]
pub struct QueryEngineStats {
    pub total_data_points: usize,
    pub unique_timestamps: usize,
    pub unique_tag_keys: usize,
    pub memory_usage: usize,
    pub min_timestamp: Option<i64>,
    pub max_timestamp: Option<i64>,
}

/// The query engine: a combined index and the executor over it.
#[derive(Debug)]
pub struct QueryEngine {
    index: CombinedIndex,
}

impl QueryEngine {
    /// The models of the stored samples, in position order.
    pub closed spec fn points(&self) -> Seq<DataPointView> {
        self.index.points()
    }

    /// The time index's entries.
    pub closed spec fn time_entries(&self) -> crate::index::TimeEntriesView {
        self.index.time_entries()
    }

    /// Well-formed: the index mirrors the arena.
    pub closed spec fn wf(&self) -> bool {
        self.index.wf()
    }

    /// An empty engine.
    pub fn new() -> (e: Self)
        ensures
            e.wf(),
            e.points() == Seq::<DataPointView>::empty(),
    {
        QueryEngine { index: CombinedIndex::new() }
    }

    /// An engine over an existing index.
    pub fn with_index(index: CombinedIndex) -> (e: Self)
        requires
            index.wf(),
        ensures
            e.wf(),
            e.points() == index.points(),
    {
        QueryEngine { index }
    }

    /// Borrow the underlying index, for executing a query against it.
    pub fn index(&self) -> (r: &CombinedIndex)
        ensures
            r.points() == self.points(),
            r.time_entries() == self.time_entries(),
            self.wf() ==> r.wf(),
    {
        &self.index
    }

    /// Register one sample.
    pub fn add_data_point(&mut self, data_point: DataPoint)
        requires
            old(self).wf(),
            data_point.wf(),
            old(self).points().len() < usize::MAX,
        ensures
            final(self).wf(),
            final(self).points() == old(self).points().push(data_point@),
    {
        self.index.add_point(data_point);
    }

    /// Register several samples, in order.
    pub fn add_data_points(&mut self, data_points: Vec<DataPoint>)
        requires
            old(self).wf(),
            crate::types::points_wf(points_view(data_points@)),
            old(self).points().len() + data_points@.len() <= usize::MAX,
        ensures
            final(self).wf(),
            final(self).points() == old(self).points() + points_view(data_points@),
    {
        self.index.add_points(data_points);
    }

    /// Run a query.
    pub fn execute_query(&self, query: &QueryBuilder) -> (r: Result<
        QueryResult,
        TimeSeriesError,
    >)
        requires
            self.wf(),
            query.wf(),
        ensures
            ({
                let cands = spec_candidates(query@, self.points(), self.time_entries());
                match query@.aggregation {
                    None => r matches Ok(qr) && (qr matches QueryResult::DataPoints(ps)
                        && points_view(ps@) == (match query@.limit {
                        Some(l) => cands.take(
                            if l as int <= cands.len() {
                                l as int
                            } else {
                                cands.len() as int
                            },
                        ),
                        None => cands,
                    })),
                    Some(agg) => match query@.group_by_interval {
                        None => r matches Ok(qr) && spec_simple_agg_ok(
                            qr,
                            agg,
                            cands,
                            query@.start_time,
                            query@.end_time,
                        ),
                        Some(interval) => if interval <= 0 {
                            r matches Err(e) && e is Query
                        } else {
                            r matches Ok(qr) && spec_grouped_ok(qr, agg, cands, interval)
                        },
                    },
                }
            }),
    {
        query.execute(&self.index)
    }

    /// A fresh unconstrained query specification.
    pub fn query(&self) -> (q: QueryBuilder)
        ensures
            q.wf(),
            q@.start_time is None,
            q@.end_time is None,
            q@.tags.len() == 0,
            q@.limit is None,
            q@.aggregation is None,
            q@.group_by_interval is None,
    {
        QueryBuilder::new()
    }

    /// The latest `count` samples in timestamp order.
    pub fn get_latest(&self, count: usize) -> (r: Vec<DataPoint>)
        requires
            self.wf(),
        ensures
            ({
                let all = crate::index::flat_in_range(
                    self.time_entries(),
                    i64::MIN,
                    i64::MAX,
                );
                let k = if count as int <= all.len() {
                    count as int
                } else {
                    all.len() as int
                };
                points_view(r@) == spec_select(self.points(), all.skip(all.len() - k))
            }),
    {
        self.index.get_latest(count)
    }

    /// The samples whose timestamp lies in `[start, end]`, ascending by
    /// position.
    pub fn get_time_range(&self, start: i64, end: i64) -> (r: Vec<DataPoint>)
        requires
            self.wf(),
        ensures
            points_view(r@) == spec_select(
                self.points(),
                spec_time_positions(self.points(), self.points().len() as int, start, end),
            ),
    {
        self.index.query_time_range(start, end)
    }

    /// A snapshot of engine statistics; the memory figure is an estimate.
    pub fn stats(&self) -> (s: QueryEngineStats)
        requires
            self.wf(),
        ensures
            s.total_data_points == self.points().len(),
    {
        let index_stats = self.index.stats();
        QueryEngineStats {
            total_data_points: index_stats.total_data_points,
            unique_timestamps: index_stats.time_stats.unique_timestamps,
            unique_tag_keys: index_stats.unique_tag_keys,
            memory_usage: index_stats.memory_usage,
            min_timestamp: index_stats.time_stats.min_timestamp,
            max_timestamp: index_stats.time_stats.max_timestamp,
        }
    }

    /// Drop every sample and index entry.
    pub fn clear(&mut self)
        ensures
            final(self).wf(),
            final(self).points() == Seq::<DataPointView>::empty(),
    {
        self.index.clear();
    }
}

impl Default for QueryEngine {
    /// The empty engine.
    fn default() -> (e: Self)
        ensures
            e.wf(),
            e.points() == Seq::<DataPointView>::empty(),
    {
        QueryEngine::new()
    }
}

impl Default for QueryBuilder {
    /// An unconstrained query.
    fn default() -> (q: Self)
        ensures
            q.wf(),
    {
        QueryBuilder::new()
    }
}

/// The quotient is the unique integer whose multiple brackets the
/// dividend.
proof fn lemma_quotient_unique(ts: int, i: int, b: int)
    requires
        i > 0,
        i * b <= ts < i * b + i,
    ensures
        b == ts / i,
    decreases 0int,
{
    vstd::arithmetic::div_mod::lemma_fundamental_div_mod(ts, i);
    let q = ts / i;
    let r = ts % i;
    assert(b == q) by (nonlinear_arith)
        requires
            ts == i * q + r,
            0 <= r < i,
            i * b <= ts < i * b + i,
            i > 0,
    {}
}


/// Window bounds of one bucket, clamped to the timestamp range.
fn window_bounds(b: i64, interval: i64) -> (se: (i64, i64))
    requires
        interval > 0,
    ensures
        se.0 as int == spec_window_start(b as int, interval),
        se.1 as int == spec_window_end(b as int, interval),
{
    proof {
        assert(-170141183460469231731687303715884105728 < (b as int) * (interval as int)
            && (b as int) * (interval as int) < 85070591730234615865843651857942052864)
            by (nonlinear_arith)
            requires
                -9223372036854775808 <= b as int <= 9223372036854775807,
                0 < interval as int <= 9223372036854775807,
        {}
    }
    let s128 = (b as i128) * (interval as i128);
    let e128 = s128 + (interval as i128) - 1;
    let s = if s128 < i64::MIN as i128 {
        i64::MIN
    } else if s128 > i64::MAX as i128 {
        i64::MAX
    } else {
        s128 as i64
    };
    let e = if e128 < i64::MIN as i128 {
        i64::MIN
    } else if e128 > i64::MAX as i128 {
        i64::MAX
    } else {
        e128 as i64
    };
    (s, e)
}

/// The values of a candidate list, in order.
fn collect_values(cands: &Vec<DataPoint>) -> (r: Vec<Value>)
    ensures
        values_view(r@) == spec_values_of(points_view(cands@)),
{
    let n = cands.len();
    let mut r: Vec<Value> = Vec::new();
    let mut i: usize = 0;
    while i < n
        invariant
            n == cands@.len(),
            i <= n,
            r@.len() == i,
            forall|j: int| 0 <= j < i ==> (#[trigger] r@[j])@ == cands@[j]@.value,
        decreases n - i,
    {
        r.push(cands[i].value.duplicate());
        i = i + 1;
    }
    proof {
        assert(values_view(r@) =~= spec_values_of(points_view(cands@)));
    }
    r
}

/// The smallest timestamp among a non-empty candidate list.
pub(crate) fn min_ts_of(cands: &Vec<DataPoint>) -> (r: i64)
    requires
        cands@.len() > 0,
    ensures
        r == spec_min_ts(points_view(cands@)),
{
    let ghost ps = points_view(cands@);
    let n = cands.len();
    let mut r = cands[0].timestamp;
    let mut i: usize = 1;
    proof {
        assert(ps.take(1).len() == 1);
        assert(spec_min_ts(ps.take(1)) == ps.take(1)[0].timestamp);
    }
    while i < n
        invariant
            ps == points_view(cands@),
            n == ps.len(),
            1 <= i <= n,
            r == spec_min_ts(ps.take(i as int)),
        decreases n - i,
    {
        let t = cands[i].timestamp;
        proof {
            assert(ps.take(i as int + 1).drop_last() =~= ps.take(i as int));
            assert(ps.take(i as int + 1).last() == ps[i as int]);
            assert(ps.take(i as int + 1).len() > 1);
        }
        if t < r {
            r = t;
        }
        i = i + 1;
    }
    proof {
        assert(ps.take(n as int) =~= ps);
    }
    r
}

/// The largest timestamp among a non-empty candidate list.
pub(crate) fn max_ts_of(cands: &Vec<DataPoint>) -> (r: i64)
    requires
        cands@.len() > 0,
    ensures
        r == spec_max_ts(points_view(cands@)),
{
    let ghost ps = points_view(cands@);
    let n = cands.len();
    let mut r = cands[0].timestamp;
    let mut i: usize = 1;
    proof {
        assert(ps.take(1).len() == 1);
        assert(spec_max_ts(ps.take(1)) == ps.take(1)[0].timestamp);
    }
    while i < n
        invariant
            ps == points_view(cands@),
            n == ps.len(),
            1 <= i <= n,
            r == spec_max_ts(ps.take(i as int)),
        decreases n - i,
    {
        let t = cands[i].timestamp;
        proof {
            assert(ps.take(i as int + 1).drop_last() =~= ps.take(i as int));
            assert(ps.take(i as int + 1).last() == ps[i as int]);
            assert(ps.take(i as int + 1).len() > 1);
        }
        if t > r {
            r = t;
        }
        i = i + 1;
    }
    proof {
        assert(ps.take(n as int) =~= ps);
    }
    r
}

/// The mapping of an executable bucket list into the model.
pub open spec fn buckets_view(bs: Seq<i64>) -> Seq<int> {
    Seq::new(bs.len(), |i: int| bs[i] as int)
}

/// The occupied buckets of a candidate list, ascending and distinct.
fn collect_buckets(cands: &Vec<DataPoint>, interval: i64) -> (r: Vec<i64>)
    requires
        interval > 0,
    ensures
        spec_bucket_list_ok(buckets_view(r@), points_view(cands@), interval),
{
    let ghost ps = points_view(cands@);
    let n = cands.len();
    let mut r: Vec<i64> = Vec::new();
    let mut i: usize = 0;
    while i < n
        invariant
            interval > 0,
            ps == points_view(cands@),
            n == ps.len(),
            i <= n,
            forall|a: int, b: int| 0 <= a < b < r@.len() ==> r@[a] < r@[b],
            forall|b: int|
                buckets_view(r@).contains(b) <==> exists|j: int|
                    0 <= j < i && spec_bucket(#[trigger] ps[j].timestamp, interval) == b,
        decreases n - i,
    {
        let bv = floor_div(cands[i].timestamp, interval);
        let ghost rpre = r@;
        let m = r.len();
        let mut pos: usize = 0;
        while pos < m && r[pos] < bv
            invariant
                m == r@.len(),
                pos <= m,
                r@ == rpre,
                forall|a: int, b: int| 0 <= a < b < r@.len() ==> r@[a] < r@[b],
                forall|a: int| 0 <= a < pos ==> r@[a] < bv,
            decreases m - pos,
        {
            pos = pos + 1;
        }
        let present = pos < m && r[pos] == bv;
        if !present {
            proof {
                assert(pos == m || r@[pos as int] > bv);
            }
            r.insert(pos, bv);
            proof {
                assert forall|a: int, b: int| 0 <= a < b < r@.len() implies r@[a] < r@[b] by {
                    let ra = if a < pos {
                        rpre[a]
                    } else if a == pos {
                        bv
                    } else {
                        rpre[a - 1]
                    };
                    assert(r@[a] == ra);
                    let rb = if b < pos {
                        rpre[b]
                    } else if b == pos {
                        bv
                    } else {
                        rpre[b - 1]
                    };
                    assert(r@[b] == rb);
                    if b == pos {
                        assert(rpre[a] < bv);
                    } else if a == pos && b > pos {
                        assert(bv < rpre[pos as int] || pos == rpre.len());
                        assert(rpre[pos as int] <= rpre[b - 1] || pos == b - 1 || pos
                            >= rpre.len());
                    } else if a < pos && b > pos {
                        assert(rpre[a] < bv);
                        assert(bv < rpre[pos as int] || pos == rpre.len());
                    }
                }
            }
        }
        proof {
            assert(buckets_view(r@).contains(bv as int)) by {
                if present {
                    assert(buckets_view(r@)[pos as int] == bv as int);
                } else {
                    assert(r@[pos as int] == bv);
                    assert(buckets_view(r@)[pos as int] == bv as int);
                }
            }
            assert forall|b: int| buckets_view(r@).contains(b) <==> (exists|j: int|
                0 <= j < i + 1 && spec_bucket(#[trigger] ps[j].timestamp, interval) == b) by {
                if buckets_view(r@).contains(b) {
                    let w = choose|w: int|
                        0 <= w < r@.len() && #[trigger] buckets_view(r@)[w] == b;
                    if present {
                        assert(buckets_view(rpre).contains(b)) by {
                            assert(rpre[w] == r@[w]);
                            assert(buckets_view(rpre)[w] == b);
                        }
                    } else {
                        if b == bv as int {
                            assert(spec_bucket(ps[i as int].timestamp, interval) == b);
                        } else {
                            assert(w != pos);
                            let orig = if w < pos {
                                w
                            } else {
                                w - 1
                            };
                            assert(rpre[orig] == r@[w]);
                            assert(buckets_view(rpre)[orig] == b);
                            assert(buckets_view(rpre).contains(b));
                        }
                    }
                }
                if exists|j: int|
                    0 <= j < i + 1 && spec_bucket(#[trigger] ps[j].timestamp, interval) == b {
                    let j = choose|j: int|
                        0 <= j < i + 1 && spec_bucket(#[trigger] ps[j].timestamp, interval) == b;
                    if j < i {
                        assert(buckets_view(rpre).contains(b));
                        let w = choose|w: int|
                            0 <= w < rpre.len() && #[trigger] buckets_view(rpre)[w] == b;
                        if present {
                            assert(r@[w] == rpre[w]);
                            assert(buckets_view(r@)[w] == b);
                        } else {
                            let shifted = if w < pos {
                                w
                            } else {
                                w + 1
                            };
                            assert(r@[shifted] == rpre[w]);
                            assert(buckets_view(r@)[shifted] == b);
                        }
                    } else {
                        assert(b == bv as int);
                    }
                }
            }
        }
        i = i + 1;
    }
    r
}

/// The candidates of one bucket, in candidate order.
fn collect_group(cands: &Vec<DataPoint>, interval: i64, b: i64) -> (r: Vec<DataPoint>)
    requires
        interval > 0,
    ensures
        points_view(r@) == spec_filter_bucket(points_view(cands@), interval, b as int),
{
    let ghost ps = points_view(cands@);
    let n = cands.len();
    let mut r: Vec<DataPoint> = Vec::new();
    let mut i: usize = 0;
    proof {
        assert(points_view(r@) =~= spec_filter_bucket(ps.take(0), interval, b as int));
    }
    while i < n
        invariant
            ps == points_view(cands@),
            n == ps.len(),
            i <= n,
            interval > 0,
            points_view(r@) == spec_filter_bucket(ps.take(i as int), interval, b as int),
        decreases n - i,
    {
        let ghost before = points_view(r@);
        let cb = floor_div(cands[i].timestamp, interval);
        proof {
            assert(ps.take(i as int + 1).drop_last() =~= ps.take(i as int));
            assert(ps.take(i as int + 1).last() == ps[i as int]);
        }
        if cb == b {
            r.push(cands[i].duplicate());
            proof {
                assert(points_view(r@) =~= before.push(ps[i as int]));
                assert(points_view(r@) =~= spec_filter_bucket(
                    ps.take(i as int + 1),
                    interval,
                    b as int,
                ));
            }
        } else {
            proof {
                assert(points_view(r@) =~= spec_filter_bucket(
                    ps.take(i as int + 1),
                    interval,
                    b as int,
                ));
            }
        }
        i = i + 1;
    }
    proof {
        assert(ps.take(n as int) =~= ps);
    }
    r
}

} // verus!
