//! Dual index: an ordered time index, an inverted tag index, and the
//! combined index that owns the sample arena.

use crate::positions::{
    dedup_sorted, intersect_sorted, sort_positions, sorted_pos, strictly_sorted_pos, union_all,
};
use crate::types::{
    points_view, points_wf, spec_point_wf, str_eq, string_eq, tags_as_map, DataPoint,
    DataPointView, TagSet, TagsView,
};
use vstd::prelude::*;
use vstd::seq_lib::group_to_multiset_ensures;

verus! {

/// One time-index entry: a timestamp and the positions stored under it,
/// in insertion order.
#[derive(Debug)]
pub struct TimeEntry {
    pub ts: i64,
    pub positions: Vec<usize>,
}

/// Model of the time index: `(timestamp, positions)` pairs in key order.
pub type TimeEntriesView = Seq<(i64, Seq<usize>)>;

/// Positions of `es` stored under timestamps in `[lo, hi]`, in key order
/// and, within one timestamp, insertion order.
pub open spec fn flat_in_range(es: TimeEntriesView, lo: i64, hi: i64) -> Seq<usize>
    decreases es.len(),
{
    if es.len() == 0 {
        Seq::empty()
    } else {
        flat_in_range(es.drop_last(), lo, hi) + (if lo <= es.last().0 <= hi {
            es.last().1
        } else {
            Seq::empty()
        })
    }
}

/// Ordered mapping from timestamp to the positions stored under it.
///
/// Entries are kept strictly sorted by timestamp; each holds at least one
/// position.  `total_points` counts every stored position.
#[derive(Debug)]
pub struct TimeIndex {
    entries: Vec<TimeEntry>,
    total_points: usize,
}

/// Statistics of a time index.
#[derive(Debug, Clone, Copy)]
pub struct IndexStats {
    pub unique_timestamps: usize,
    pub total_points: usize,
    pub memory_usage: usize,
    pub min_timestamp: Option<i64>,
    pub max_timestamp: Option<i64>,
}

/// Summed position count of the entries.
pub open spec fn sum_counts(es: TimeEntriesView) -> int
    decreases es.len(),
{
    if es.len() == 0 {
        0
    } else {
        sum_counts(es.drop_last()) + es.last().1.len()
    }
}

impl TimeIndex {
    /// The entries, in key order.
    pub closed spec fn entries_view(&self) -> TimeEntriesView {
        Seq::new(self.entries@.len(), |i: int| (self.entries@[i].ts, self.entries@[i].positions@))
    }

    /// The stored position count.
    pub closed spec fn spec_total_points(&self) -> usize {
        self.total_points
    }

    /// Whether some entry holds this timestamp.
    pub open spec fn spec_has_ts(&self, ts: i64) -> bool {
        spec_entries_has(self.entries_view(), ts)
    }

    /// The positions stored under a timestamp, empty when absent.
    pub open spec fn spec_positions_at(&self, ts: i64) -> Seq<usize> {
        spec_entries_positions_at(self.entries_view(), ts)
    }

    /// Well-formed: strictly ordered timestamps, no empty entry, exact count.
    pub open spec fn wf(&self) -> bool {
        &&& forall|i: int, j: int|
            0 <= i < j < self.entries_view().len() ==> self.entries_view()[i].0
                < self.entries_view()[j].0
        &&& forall|i: int|
            0 <= i < self.entries_view().len() ==> #[trigger] self.entries_view()[i].1.len() > 0
        &&& self.spec_total_points() == sum_counts(self.entries_view())
    }

    /// An empty time index.
    pub fn new() -> (t: Self)
        ensures
            t.wf(),
            t.entries_view() == Seq::<(i64, Seq<usize>)>::empty(),
            t.spec_total_points() == 0,
    {
        let t = TimeIndex { entries: Vec::new(), total_points: 0 };
        proof {
            assert(t.entries_view() =~= Seq::<(i64, Seq<usize>)>::empty());
        }
        t
    }

    /// Register a position under a timestamp.
    pub fn add_point(&mut self, timestamp: i64, position: usize)
        requires
            old(self).wf(),
            old(self).spec_total_points() < usize::MAX,
        ensures
            final(self).wf(),
            final(self).spec_total_points() == old(self).spec_total_points() + 1,
            final(self).spec_positions_at(timestamp) == old(self).spec_positions_at(
                timestamp,
            ).push(position),
            forall|t: i64|
                t != timestamp ==> final(self).spec_positions_at(t) == old(
                    self,
                ).spec_positions_at(t),
            final(self).entries_view().len() == old(self).entries_view().len() + (if old(
                self,
            ).spec_has_ts(timestamp) {
                0int
            } else {
                1int
            }),
    {
        let ghost pre = self.entries_view();
        let n = self.entries.len();
        let mut i: usize = 0;
        while i < n && self.entries[i].ts < timestamp
            invariant
                pre == old(self).entries_view(),
                self == old(self),
                n == pre.len(),
                i <= n,
                forall|k: int| 0 <= k < i ==> pre[k].0 < timestamp,
            decreases n - i,
        {
            i = i + 1;
        }
        if i < n && self.entries[i].ts == timestamp {
            let mut e = self.entries.remove(i);
            e.positions.push(position);
            self.entries.insert(i, e);
            self.total_points = self.total_points + 1;
            proof {
                assert(self.entries_view() =~= pre.update(
                    i as int,
                    (timestamp, pre[i as int].1.push(position)),
                ));
                lemma_sum_counts_update(pre, self.entries_view(), i as int);
                assert(pre[i as int].0 == timestamp);
                lemma_positions_at_update(pre, self.entries_view(), i as int, timestamp, position);
            }
        } else {
            self.entries.insert(i, TimeEntry { ts: timestamp, positions: vec_of_one(position) });
            self.total_points = self.total_points + 1;
            proof {
                assert(self.entries_view() =~= pre.insert(
                    i as int,
                    (timestamp, seq![position]),
                ));
                assert(forall|k: int| i <= k < pre.len() ==> pre[k].0 >= timestamp);
                assert(forall|k: int| i <= k < pre.len() ==> #[trigger] pre[k].0 != timestamp);
                lemma_sum_counts_insert(pre, self.entries_view(), i as int);
                lemma_positions_at_insert(pre, self.entries_view(), i as int, timestamp, position);
            }
        }
    }

    /// Register several `(timestamp, position)` pairs, in order.
    pub fn add_points(&mut self, points: &[(i64, usize)])
        requires
            old(self).wf(),
            old(self).spec_total_points() + points@.len() <= usize::MAX,
        ensures
            final(self).wf(),
            final(self).spec_total_points() == old(self).spec_total_points() + points@.len(),
            forall|t: i64|
                final(self).spec_positions_at(t) == old(self).spec_positions_at(t)
                    + pairs_positions_at(points@, t),
    {
        let n = points.len();
        let mut i: usize = 0;
        proof {
            assert forall|t: i64| self.spec_positions_at(t) =~= old(self).spec_positions_at(t)
                + pairs_positions_at(points@.take(0), t) by {
                assert(points@.take(0) =~= Seq::<(i64, usize)>::empty());
            }
        }
        while i < n
            invariant
                self.wf(),
                n == points@.len(),
                i <= n,
                self.spec_total_points() == old(self).spec_total_points() + i,
                old(self).spec_total_points() + points@.len() <= usize::MAX,
                forall|t: i64|
                    self.spec_positions_at(t) == old(self).spec_positions_at(t)
                        + pairs_positions_at(points@.take(i as int), t),
            decreases n - i,
        {
            let ghost mid = *self;
            let pair = *vstd::slice::slice_index_get(points, i);
            self.add_point(pair.0, pair.1);
            proof {
                let taken = points@.take(i as int);
                let taken2 = points@.take(i as int + 1);
                assert(taken2.drop_last() =~= taken);
                assert(taken2.last() == points@[i as int]);
                assert forall|t: i64| self.spec_positions_at(t) =~= old(self).spec_positions_at(
                    t,
                ) + pairs_positions_at(taken2, t) by {
                    if t == pair.0 {
                        assert(pairs_positions_at(taken2, t) =~= pairs_positions_at(taken, t).push(
                            pair.1,
                        ));
                        assert(self.spec_positions_at(t) =~= mid.spec_positions_at(t).push(
                            pair.1,
                        ));
                    } else {
                        assert(pairs_positions_at(taken2, t) =~= pairs_positions_at(taken, t));
                    }
                }
            }
            i = i + 1;
        }
        proof {
            assert(points@.take(n as int) =~= points@);
        }
    }

    /// The positions stored under an exact timestamp.
    pub fn get_exact(&self, timestamp: i64) -> (r: Option<&Vec<usize>>)
        requires
            self.wf(),
        ensures
            match r {
                Some(v) => self.spec_has_ts(timestamp) && v@ == self.spec_positions_at(timestamp),
                None => !self.spec_has_ts(timestamp),
            },
    {
        let n = self.entries.len();
        let mut i: usize = 0;
        while i < n
            invariant
                self.wf(),
                n == self.entries_view().len(),
                i <= n,
                forall|k: int| 0 <= k < i ==> self.entries_view()[k].0 != timestamp,
            decreases n - i,
        {
            if self.entries[i].ts == timestamp {
                proof {
                    assert(self.entries_view()[i as int].0 == timestamp);
                    let w = choose|w: int|
                        0 <= w < self.entries_view().len()
                            && #[trigger] self.entries_view()[w].0 == timestamp;
                    if w < i {
                        assert(self.entries_view()[w].0 != timestamp);
                    } else if w > i {
                        assert(self.entries_view()[i as int].0 < self.entries_view()[w].0);
                    }
                }
                return Some(&self.entries[i].positions);
            }
            i = i + 1;
        }
        None
    }

    /// The positions stored under timestamps in `[start, end]`, sorted
    /// ascending.  Exactly the positions whose timestamp lies in the range
    /// are returned, with multiplicity.  Half-open or exclusive ranges are
    /// expressed by adjusting the endpoints by one.
    pub fn get_range(&self, start: i64, end: i64) -> (r: Vec<usize>)
        requires
            self.wf(),
        ensures
            sorted_pos(r@),
            r@.to_multiset() == flat_in_range(self.entries_view(), start, end).to_multiset(),
            forall|p: usize|
                r@.contains(p) <==> exists|t: i64|
                    start <= t <= end && #[trigger] self.spec_positions_at(t).contains(p),
    {
        let n = self.entries.len();
        let mut acc: Vec<usize> = Vec::new();
        let mut i: usize = 0;
        proof {
            assert(acc@ =~= flat_in_range(self.entries_view().take(0), start, end));
        }
        while i < n
            invariant
                self.wf(),
                n == self.entries_view().len(),
                i <= n,
                acc@ == flat_in_range(self.entries_view().take(i as int), start, end),
            decreases n - i,
        {
            let ghost accpre = acc@;
            let ghost prefix = self.entries_view().take(i as int);
            let ghost prefix2 = self.entries_view().take(i as int + 1);
            let e = &self.entries[i];
            if e.ts >= start && e.ts <= end {
                acc.extend_from_slice(e.positions.as_slice());
            }
            proof {
                assert(prefix2.drop_last() =~= prefix);
                assert(prefix2.last() == self.entries_view()[i as int]);
                assert(acc@ =~= flat_in_range(prefix2, start, end));
            }
            i = i + 1;
        }
        proof {
            assert(self.entries_view().take(n as int) =~= self.entries_view());
        }
        let sorted = sort_positions(&mut acc);
        proof {
            lemma_flat_in_range_membership(self, start, end);
        }
        sorted
    }

    /// The first `count` positions at or after `timestamp`, in key order.
    pub fn get_first_after(&self, timestamp: i64, count: usize) -> (r: Vec<usize>)
        requires
            self.wf(),
        ensures
            ({
                let all = flat_in_range(self.entries_view(), timestamp, i64::MAX);
                r@ == all.take(if count as int <= all.len() {
                    count as int
                } else {
                    all.len() as int
                })
            }),
    {
        let all = self.collect_range(timestamp, i64::MAX);
        let take_n = if count <= all.len() {
            count
        } else {
            all.len()
        };
        let mut r: Vec<usize> = Vec::new();
        let mut i: usize = 0;
        while i < take_n
            invariant
                take_n <= all@.len(),
                i <= take_n,
                r@ == all@.take(i as int).take(i as int),
                r@ == all@.take(i as int),
            decreases take_n - i,
        {
            r.push(all[i]);
            proof {
                assert(r@ =~= all@.take(i as int + 1));
            }
            i = i + 1;
        }
        r
    }

    /// The last `count` positions strictly before `timestamp`, in key order.
    pub fn get_last_before(&self, timestamp: i64, count: usize) -> (r: Vec<usize>)
        requires
            self.wf(),
        ensures
            ({
                let all = spec_flat_before(self.entries_view(), timestamp);
                r@ == all.skip(all.len() - (if count as int <= all.len() {
                    count as int
                } else {
                    all.len() as int
                }))
            }),
    {
        if timestamp == i64::MIN {
            let r: Vec<usize> = Vec::new();
            proof {
                lemma_flat_before_empty(self.entries_view(), timestamp);
                assert(r@ =~= spec_flat_before(self.entries_view(), timestamp).skip(0));
            }
            return r;
        }
        let all = self.collect_range(i64::MIN, timestamp - 1);
        proof {
            lemma_flat_before_eq(self.entries_view(), timestamp);
        }
        let take_n = if count <= all.len() {
            count
        } else {
            all.len()
        };
        let start = all.len() - take_n;
        let mut r: Vec<usize> = Vec::new();
        let mut i: usize = start;
        while i < all.len()
            invariant
                start <= i <= all@.len(),
                r@ == all@.subrange(start as int, i as int),
            decreases all.len() - i,
        {
            r.push(all[i]);
            proof {
                assert(r@ =~= all@.subrange(start as int, i as int + 1));
            }
            i = i + 1;
        }
        proof {
            assert(all@.subrange(start as int, all@.len() as int) =~= all@.skip(start as int));
        }
        r
    }

    /// Positions under timestamps in `[start, end]`, in key order and,
    /// within one timestamp, insertion order.
    fn collect_range(&self, start: i64, end: i64) -> (r: Vec<usize>)
        requires
            self.wf(),
        ensures
            r@ == flat_in_range(self.entries_view(), start, end),
    {
        let n = self.entries.len();
        let mut acc: Vec<usize> = Vec::new();
        let mut i: usize = 0;
        proof {
            assert(acc@ =~= flat_in_range(self.entries_view().take(0), start, end));
        }
        while i < n
            invariant
                self.wf(),
                n == self.entries_view().len(),
                i <= n,
                acc@ == flat_in_range(self.entries_view().take(i as int), start, end),
            decreases n - i,
        {
            let ghost prefix = self.entries_view().take(i as int);
            let ghost prefix2 = self.entries_view().take(i as int + 1);
            let e = &self.entries[i];
            if e.ts >= start && e.ts <= end {
                acc.extend_from_slice(e.positions.as_slice());
            }
            proof {
                assert(prefix2.drop_last() =~= prefix);
                assert(prefix2.last() == self.entries_view()[i as int]);
                assert(acc@ =~= flat_in_range(prefix2, start, end));
            }
            i = i + 1;
        }
        proof {
            assert(self.entries_view().take(n as int) =~= self.entries_view());
        }
        acc
    }

    /// The smallest indexed timestamp.
    pub fn min_timestamp(&self) -> (r: Option<i64>)
        requires
            self.wf(),
        ensures
            match r {
                Some(t) => self.spec_has_ts(t) && forall|t2: i64| self.spec_has_ts(t2) ==> t <= t2,
                None => self.entries_view().len() == 0,
            },
    {
        if self.entries.len() == 0 {
            None
        } else {
            proof {
                assert(self.entries_view()[0].0 == self.entries@[0].ts);
                assert forall|t2: i64| self.spec_has_ts(t2) implies self.entries@[0].ts <= t2 by {
                    let w = choose|w: int|
                        0 <= w < self.entries_view().len() && #[trigger] self.entries_view()[w].0
                            == t2;
                    if w > 0 {
                        assert(self.entries_view()[0].0 < self.entries_view()[w].0);
                    }
                }
            }
            Some(self.entries[0].ts)
        }
    }

    /// The largest indexed timestamp.
    pub fn max_timestamp(&self) -> (r: Option<i64>)
        requires
            self.wf(),
        ensures
            match r {
                Some(t) => self.spec_has_ts(t) && forall|t2: i64| self.spec_has_ts(t2) ==> t2 <= t,
                None => self.entries_view().len() == 0,
            },
    {
        let n = self.entries.len();
        if n == 0 {
            None
        } else {
            proof {
                assert(self.entries_view()[n - 1].0 == self.entries@[n - 1].ts);
                assert forall|t2: i64| self.spec_has_ts(t2) implies t2 <= self.entries@[n
                    - 1].ts by {
                    let w = choose|w: int|
                        0 <= w < self.entries_view().len() && #[trigger] self.entries_view()[w].0
                            == t2;
                    if w < n - 1 {
                        assert(self.entries_view()[w].0 < self.entries_view()[n - 1].0);
                    }
                }
            }
            Some(self.entries[n - 1].ts)
        }
    }

    /// Number of distinct indexed timestamps.
    pub fn unique_timestamps(&self) -> (n: usize)
        ensures
            n == self.entries_view().len(),
    {
        self.entries.len()
    }

    /// Number of stored positions.
    pub fn total_points(&self) -> (n: usize)
        ensures
            n == self.spec_total_points(),
    {
        self.total_points
    }

    /// Remove every entry whose timestamp is listed.
    pub fn remove_points(&mut self, timestamps: &[i64])
        requires
            old(self).wf(),
        ensures
            final(self).wf(),
            final(self).spec_total_points() == old(self).spec_total_points()
                - spec_removed_count(old(self), timestamps@),
            forall|t: i64|
                final(self).spec_positions_at(t) == (if timestamps@.contains(t) {
                    Seq::<usize>::empty()
                } else {
                    old(self).spec_positions_at(t)
                }),
    {
        let n = timestamps.len();
        let mut i: usize = 0;
        while i < n
            invariant
                self.wf(),
                n == timestamps@.len(),
                i <= n,
                self.spec_total_points() == old(self).spec_total_points() - spec_removed_count(
                    old(self),
                    timestamps@.take(i as int),
                ),
                forall|t: i64|
                    self.spec_positions_at(t) == (if timestamps@.take(i as int).contains(t) {
                        Seq::<usize>::empty()
                    } else {
                        old(self).spec_positions_at(t)
                    }),
            decreases n - i,
        {
            let ghost mid = *self;
            let ts = *vstd::slice::slice_index_get(timestamps, i);
            self.remove_ts(ts);
            proof {
                assert(timestamps@.take(i as int + 1) =~= timestamps@.take(i as int).push(ts));
                assert(timestamps@.take(i as int + 1).drop_last() =~= timestamps@.take(i as int));
                assert(timestamps@.take(i as int + 1).last() == ts);
                assert(timestamps@.take(i as int + 1).take(i as int) =~= timestamps@.take(
                    i as int,
                ));
                if timestamps@.take(i as int).contains(ts) {
                    assert(mid.spec_positions_at(ts) =~= Seq::<usize>::empty());
                    assert(spec_removed_count(old(self), timestamps@.take(i as int + 1))
                        == spec_removed_count(old(self), timestamps@.take(i as int)));
                } else {
                    assert(mid.spec_positions_at(ts) == old(self).spec_positions_at(ts));
                    assert(spec_removed_count(old(self), timestamps@.take(i as int + 1))
                        == spec_removed_count(old(self), timestamps@.take(i as int)) + old(
                        self,
                    ).spec_positions_at(ts).len());
                }
                assert forall|t: i64| self.spec_positions_at(t) == (if timestamps@.take(
                    i as int + 1,
                ).contains(t) {
                    Seq::<usize>::empty()
                } else {
                    old(self).spec_positions_at(t)
                }) by {
                    let taken2 = timestamps@.take(i as int + 1);
                    if t == ts {
                        assert(taken2.last() == ts);
                        assert(taken2.contains(t));
                        assert(self.spec_positions_at(t) =~= Seq::<usize>::empty());
                    } else {
                        assert(taken2.contains(t) <==> timestamps@.take(i as int).contains(t)) by {
                            if taken2.contains(t) {
                                let w = choose|w: int|
                                    0 <= w < taken2.len() && #[trigger] taken2[w] == t;
                                assert(w < i);
                                assert(timestamps@.take(i as int)[w] == t);
                            }
                            if timestamps@.take(i as int).contains(t) {
                                let w = choose|w: int|
                                    0 <= w < i && #[trigger] timestamps@.take(i as int)[w] == t;
                                assert(taken2[w] == t);
                            }
                        }
                    }
                }
            }
            i = i + 1;
        }
        proof {
            assert(timestamps@.take(n as int) =~= timestamps@);
        }
    }

    /// Remove the entry under one timestamp, if present.
    fn remove_ts(&mut self, timestamp: i64)
        requires
            old(self).wf(),
        ensures
            final(self).wf(),
            final(self).spec_positions_at(timestamp) == Seq::<usize>::empty(),
            final(self).spec_total_points() == old(self).spec_total_points() - old(
                self,
            ).spec_positions_at(timestamp).len(),
            forall|t: i64|
                t != timestamp ==> final(self).spec_positions_at(t) == old(
                    self,
                ).spec_positions_at(t),
    {
        let ghost pre = self.entries_view();
        let n = self.entries.len();
        let mut i: usize = 0;
        while i < n
            invariant
                old(self).wf(),
                pre == old(self).entries_view(),
                self == old(self),
                n == pre.len(),
                i <= n,
                forall|k: int| 0 <= k < i ==> pre[k].0 != timestamp,
            decreases n - i,
        {
            if self.entries[i].ts == timestamp {
                let removed = self.entries.remove(i);
                proof {
                    assert(self.entries_view() =~= pre.remove(i as int));
                    lemma_sum_counts_remove(pre, self.entries_view(), i as int);
                    lemma_sum_counts_nonneg(self.entries_view());
                    assert(removed.positions@ == pre[i as int].1);
                }
                self.total_points = self.total_points - removed.positions.len();
                proof {
                    lemma_positions_at_remove(pre, self.entries_view(), i as int, timestamp);
                }
                return;
            }
            i = i + 1;
        }
        proof {
            assert(!self.spec_has_ts(timestamp));
            assert(self.spec_positions_at(timestamp) =~= Seq::<usize>::empty());
        }
    }

    /// Drop every entry.
    pub fn clear(&mut self)
        ensures
            final(self).wf(),
            final(self).entries_view() == Seq::<(i64, Seq<usize>)>::empty(),
            final(self).spec_total_points() == 0,
            forall|t: i64| final(self).spec_positions_at(t) == Seq::<usize>::empty(),
    {
        self.entries.clear();
        self.total_points = 0;
        proof {
            assert(self.entries_view() =~= Seq::<(i64, Seq<usize>)>::empty());
            assert forall|t: i64| self.spec_positions_at(t) =~= Seq::<usize>::empty() by {
                assert(!self.spec_has_ts(t));
            }
        }
    }

    /// A snapshot of index statistics; the memory figure is an estimate.
    pub fn stats(&self) -> (s: IndexStats)
        requires
            self.wf(),
        ensures
            s.unique_timestamps == self.entries_view().len(),
            s.total_points == self.spec_total_points(),
            match s.min_timestamp {
                Some(t) => self.spec_has_ts(t) && forall|t2: i64| self.spec_has_ts(t2) ==> t <= t2,
                None => self.entries_view().len() == 0,
            },
            match s.max_timestamp {
                Some(t) => self.spec_has_ts(t) && forall|t2: i64| self.spec_has_ts(t2) ==> t2 <= t,
                None => self.entries_view().len() == 0,
            },
    {
        let entry_mem = self.entries.len().checked_mul(32).unwrap_or(usize::MAX);
        let pos_mem = self.total_points.checked_mul(8).unwrap_or(usize::MAX);
        let memory_usage = entry_mem.checked_add(pos_mem).unwrap_or(usize::MAX);
        IndexStats {
            unique_timestamps: self.entries.len(),
            total_points: self.total_points,
            memory_usage,
            min_timestamp: self.min_timestamp(),
            max_timestamp: self.max_timestamp(),
        }
    }
}

impl Default for TimeIndex {
    /// The empty index.
    fn default() -> (t: Self)
        ensures
            t.wf(),
            t.entries_view() == Seq::<(i64, Seq<usize>)>::empty(),
            t.spec_total_points() == 0,
    {
        TimeIndex::new()
    }
}

/// A vector holding one element.
fn vec_of_one(x: usize) -> (r: Vec<usize>)
    ensures
        r@ == seq![x],
{
    let mut r: Vec<usize> = Vec::new();
    r.push(x);
    proof {
        assert(r@ =~= seq![x]);
    }
    r
}

/// Summed position count an index loses when the listed timestamps are
/// removed: each distinct listed timestamp contributes its stored count
/// once.
pub open spec fn spec_removed_count(idx: &TimeIndex, ts_list: Seq<i64>) -> int
    decreases ts_list.len(),
{
    if ts_list.len() == 0 {
        0
    } else {
        spec_removed_count(idx, ts_list.drop_last()) + (if ts_list.take(
            ts_list.len() - 1,
        ).contains(ts_list.last()) {
            0int
        } else {
            idx.spec_positions_at(ts_list.last()).len() as int
        })
    }
}

/// Positions paired with `t` in a pair list, in order.
pub open spec fn pairs_positions_at(ps: Seq<(i64, usize)>, t: i64) -> Seq<usize>
    decreases ps.len(),
{
    if ps.len() == 0 {
        Seq::empty()
    } else {
        pairs_positions_at(ps.drop_last(), t) + (if ps.last().0 == t {
            seq![ps.last().1]
        } else {
            Seq::empty()
        })
    }
}

/// Positions of `es` stored under timestamps strictly before `t`.
pub open spec fn spec_flat_before(es: TimeEntriesView, t: i64) -> Seq<usize>
    decreases es.len(),
{
    if es.len() == 0 {
        Seq::empty()
    } else {
        spec_flat_before(es.drop_last(), t) + (if es.last().0 < t {
            es.last().1
        } else {
            Seq::empty()
        })
    }
}

/// Nothing lies strictly before the smallest timestamp.
proof fn lemma_flat_before_empty(es: TimeEntriesView, t: i64)
    requires
        t == i64::MIN,
    ensures
        spec_flat_before(es, t) == Seq::<usize>::empty(),
    decreases es.len(),
{
    if es.len() > 0 {
        lemma_flat_before_empty(es.drop_last(), t);
        assert(spec_flat_before(es, t) =~= Seq::<usize>::empty());
    }
}

/// Strictly-before coincides with the inclusive range ending at `t - 1`.
proof fn lemma_flat_before_eq(es: TimeEntriesView, t: i64)
    requires
        t > i64::MIN,
    ensures
        spec_flat_before(es, t) == flat_in_range(es, i64::MIN, (t - 1) as i64),
    decreases es.len(),
{
    if es.len() > 0 {
        lemma_flat_before_eq(es.drop_last(), t);
        assert(spec_flat_before(es, t) =~= flat_in_range(es, i64::MIN, (t - 1) as i64));
    } else {
        assert(spec_flat_before(es, t) =~= flat_in_range(es, i64::MIN, (t - 1) as i64));
    }
}

/// The summed position count is never negative.
proof fn lemma_sum_counts_nonneg(es: TimeEntriesView)
    ensures
        sum_counts(es) >= 0,
    decreases es.len(),
{
    if es.len() > 0 {
        lemma_sum_counts_nonneg(es.drop_last());
    }
}

/// Updating one entry in place shifts the sum by the length difference.
proof fn lemma_sum_counts_update(pre: TimeEntriesView, post: TimeEntriesView, i: int)
    requires
        0 <= i < pre.len(),
        post.len() == pre.len(),
        forall|k: int| 0 <= k < pre.len() && k != i ==> post[k] == pre[k],
    ensures
        sum_counts(post) == sum_counts(pre) + post[i].1.len() - pre[i].1.len(),
    decreases pre.len(),
{
    if i == pre.len() - 1 {
        assert(post.drop_last() =~= pre.drop_last());
    } else {
        lemma_sum_counts_update(pre.drop_last(), post.drop_last(), i);
        assert(post.last() == pre.last());
        assert(pre.drop_last()[i] == pre[i]);
        assert(post.drop_last()[i] == post[i]);
    }
}

/// Inserting an entry adds its length to the sum.
proof fn lemma_sum_counts_insert(pre: TimeEntriesView, post: TimeEntriesView, i: int)
    requires
        0 <= i <= pre.len(),
        post == pre.insert(i, post[i]),
    ensures
        sum_counts(post) == sum_counts(pre) + post[i].1.len(),
    decreases pre.len(),
{
    if i == pre.len() {
        assert(post.drop_last() =~= pre);
        assert(post.last() == post[i]);
    } else {
        assert(post.len() == pre.len() + 1);
        assert(post.last() == pre.last());
        assert(post.drop_last() =~= pre.drop_last().insert(i, post[i]));
        assert(post.drop_last()[i] == post[i]);
        lemma_sum_counts_insert(pre.drop_last(), post.drop_last(), i);
    }
}

/// Removing an entry subtracts its length from the sum.
proof fn lemma_sum_counts_remove(pre: TimeEntriesView, post: TimeEntriesView, i: int)
    requires
        0 <= i < pre.len(),
        post == pre.remove(i),
    ensures
        sum_counts(post) == sum_counts(pre) - pre[i].1.len(),
    decreases pre.len(),
{
    if i == pre.len() - 1 {
        assert(post =~= pre.drop_last());
    } else {
        assert(post.len() == pre.len() - 1);
        assert(post.last() == pre.last());
        assert(post.drop_last() =~= pre.drop_last().remove(i));
        lemma_sum_counts_remove(pre.drop_last(), post.drop_last(), i);
    }
}

/// After an in-place push at entry `i`, lookups change only at that key.
proof fn lemma_positions_at_update(
    pre: TimeEntriesView,
    post: TimeEntriesView,
    i: int,
    ts: i64,
    position: usize,
)
    requires
        0 <= i < pre.len(),
        forall|a: int, b: int| 0 <= a < b < pre.len() ==> pre[a].0 < pre[b].0,
        pre[i].0 == ts,
        post == pre.update(i, (ts, pre[i].1.push(position))),
    ensures
        spec_entries_positions_at(post, ts) == spec_entries_positions_at(pre, ts).push(position),
        forall|t: i64|
            t != ts ==> spec_entries_positions_at(post, t) == spec_entries_positions_at(pre, t),
{
    assert(post[i].0 == ts);
    lemma_entry_lookup(post, i);
    lemma_entry_lookup(pre, i);
    assert forall|t: i64| t != ts implies spec_entries_positions_at(post, t)
        == spec_entries_positions_at(pre, t) by {
        lemma_lookup_frame(pre, post, t);
    }
}

/// After inserting a fresh entry at `i`, lookups change only at that key.
proof fn lemma_positions_at_insert(
    pre: TimeEntriesView,
    post: TimeEntriesView,
    i: int,
    ts: i64,
    position: usize,
)
    requires
        0 <= i <= pre.len(),
        forall|a: int, b: int| 0 <= a < b < pre.len() ==> pre[a].0 < pre[b].0,
        forall|k: int| 0 <= k < pre.len() ==> #[trigger] pre[k].0 != ts,
        post == pre.insert(i, (ts, seq![position])),
        forall|a: int, b: int| 0 <= a < b < post.len() ==> post[a].0 < post[b].0,
    ensures
        spec_entries_positions_at(post, ts) == seq![position],
        spec_entries_positions_at(pre, ts) == Seq::<usize>::empty(),
        forall|t: i64|
            t != ts ==> spec_entries_positions_at(post, t) == spec_entries_positions_at(pre, t),
{
    assert(post[i].0 == ts);
    lemma_entry_lookup(post, i);
    assert(!spec_entries_has(pre, ts));
    assert(spec_entries_positions_at(pre, ts) =~= Seq::<usize>::empty());
    assert forall|t: i64| t != ts implies spec_entries_positions_at(post, t)
        == spec_entries_positions_at(pre, t) by {
        lemma_lookup_frame_insert(pre, post, i, t);
    }
}

/// After removing entry `i`, lookups change only at that key.
proof fn lemma_positions_at_remove(pre: TimeEntriesView, post: TimeEntriesView, i: int, ts: i64)
    requires
        0 <= i < pre.len(),
        forall|a: int, b: int| 0 <= a < b < pre.len() ==> pre[a].0 < pre[b].0,
        pre[i].0 == ts,
        post == pre.remove(i),
    ensures
        spec_entries_positions_at(post, ts) == Seq::<usize>::empty(),
        forall|t: i64|
            t != ts ==> spec_entries_positions_at(post, t) == spec_entries_positions_at(pre, t),
{
    assert forall|k: int| 0 <= k < post.len() implies #[trigger] post[k].0 != ts by {
        if k < i {
            assert(post[k] == pre[k]);
            assert(pre[k].0 < pre[i].0);
        } else {
            assert(post[k] == pre[k + 1]);
            assert(pre[i].0 < pre[k + 1].0);
        }
    }
    assert(!spec_entries_has(post, ts));
    assert(spec_entries_positions_at(post, ts) =~= Seq::<usize>::empty());
    assert forall|t: i64| t != ts implies spec_entries_positions_at(post, t)
        == spec_entries_positions_at(pre, t) by {
        lemma_lookup_frame_remove(pre, post, i, t);
    }
}

/// Whether some entry holds this timestamp (over a raw view).
pub open spec fn spec_entries_has(es: TimeEntriesView, ts: i64) -> bool {
    exists|i: int| 0 <= i < es.len() && #[trigger] es[i].0 == ts
}

/// The positions stored under a timestamp (over a raw view).
pub open spec fn spec_entries_positions_at(es: TimeEntriesView, ts: i64) -> Seq<usize> {
    if spec_entries_has(es, ts) {
        es[choose|i: int| 0 <= i < es.len() && #[trigger] es[i].0 == ts].1
    } else {
        Seq::empty()
    }
}

/// With strictly ordered keys, the lookup under entry `i`'s key yields
/// entry `i`'s positions.
proof fn lemma_entry_lookup(es: TimeEntriesView, i: int)
    requires
        0 <= i < es.len(),
        forall|a: int, b: int| 0 <= a < b < es.len() ==> es[a].0 < es[b].0,
    ensures
        spec_entries_positions_at(es, es[i].0) == es[i].1,
{
    assert(spec_entries_has(es, es[i].0));
    let w = choose|w: int| 0 <= w < es.len() && #[trigger] es[w].0 == es[i].0;
    if w < i {
        assert(es[w].0 < es[i].0);
    } else if w > i {
        assert(es[i].0 < es[w].0);
    }
}

/// An in-place update at `i` leaves lookups at other keys unchanged.
proof fn lemma_lookup_frame(pre: TimeEntriesView, post: TimeEntriesView, t: i64)
    requires
        pre.len() == post.len(),
        forall|a: int, b: int| 0 <= a < b < pre.len() ==> pre[a].0 != pre[b].0,
        forall|k: int| 0 <= k < pre.len() ==> #[trigger] post[k].0 == pre[k].0,
        forall|k: int| 0 <= k < pre.len() && #[trigger] pre[k].0 == t ==> post[k] == pre[k],
    ensures
        spec_entries_positions_at(post, t) == spec_entries_positions_at(pre, t),
{
    if spec_entries_has(pre, t) {
        let w = choose|w: int| 0 <= w < pre.len() && #[trigger] pre[w].0 == t;
        assert(post[w].0 == t);
        assert(spec_entries_has(post, t));
        let w2 = choose|w2: int| 0 <= w2 < post.len() && #[trigger] post[w2].0 == t;
        assert(pre[w2].0 == t);
        if w2 < w {
            assert(pre[w2].0 != pre[w].0);
        } else if w < w2 {
            assert(pre[w].0 != pre[w2].0);
        }
        let w3 = choose|w3: int| 0 <= w3 < pre.len() && #[trigger] pre[w3].0 == t;
        if w3 < w {
            assert(pre[w3].0 != pre[w].0);
        } else if w < w3 {
            assert(pre[w].0 != pre[w3].0);
        }
        assert(spec_entries_positions_at(post, t) == post[w].1);
        assert(spec_entries_positions_at(pre, t) == pre[w].1);
        assert(post[w] == pre[w]);
    } else {
        assert(!spec_entries_has(post, t)) by {
            if spec_entries_has(post, t) {
                let w = choose|w: int| 0 <= w < post.len() && #[trigger] post[w].0 == t;
                assert(pre[w].0 == t);
            }
        }
        assert(spec_entries_positions_at(post, t) =~= spec_entries_positions_at(pre, t));
    }
}

/// An insertion at `i` leaves lookups at other keys unchanged.
proof fn lemma_lookup_frame_insert(pre: TimeEntriesView, post: TimeEntriesView, i: int, t: i64)
    requires
        0 <= i <= pre.len(),
        post == pre.insert(i, post[i]),
        post[i].0 != t,
        forall|a: int, b: int| 0 <= a < b < pre.len() ==> pre[a].0 < pre[b].0,
    ensures
        spec_entries_positions_at(post, t) == spec_entries_positions_at(pre, t),
{
    assert(post.len() == pre.len() + 1);
    assert forall|k: int| 0 <= k < pre.len() implies #[trigger] pre[k] == (if k < i {
        post[k]
    } else {
        post[k + 1]
    }) by {}
    if spec_entries_has(pre, t) {
        let w = choose|w: int| 0 <= w < pre.len() && #[trigger] pre[w].0 == t;
        let shifted = if w < i {
            w
        } else {
            w + 1
        };
        assert(post[shifted].0 == t);
        assert(spec_entries_has(post, t));
        let w2 = choose|w2: int| 0 <= w2 < post.len() && #[trigger] post[w2].0 == t;
        assert(w2 != i);
        let back = if w2 < i {
            w2
        } else {
            w2 - 1
        };
        assert(pre[back] == post[w2]);
        assert(pre[back].0 == t);
        if back < w {
            assert(pre[back].0 < pre[w].0);
        } else if w < back {
            assert(pre[w].0 < pre[back].0);
        }
        assert(back == w);
        let w3 = choose|w3: int| 0 <= w3 < pre.len() && #[trigger] pre[w3].0 == t;
        if w3 < w {
            assert(pre[w3].0 < pre[w].0);
        } else if w < w3 {
            assert(pre[w].0 < pre[w3].0);
        }
        assert(w3 == w);
        assert(spec_entries_positions_at(pre, t) == pre[w].1);
        assert(spec_entries_positions_at(post, t) == post[w2].1);
        assert(post[w2].1 == pre[w].1);
    } else {
        assert(!spec_entries_has(post, t)) by {
            if spec_entries_has(post, t) {
                let w = choose|w: int| 0 <= w < post.len() && #[trigger] post[w].0 == t;
                assert(w != i);
                let back = if w < i {
                    w
                } else {
                    w - 1
                };
                assert(pre[back].0 == t);
            }
        }
        assert(spec_entries_positions_at(post, t) =~= spec_entries_positions_at(pre, t));
    }
}

/// A removal at `i` leaves lookups at other keys unchanged.
proof fn lemma_lookup_frame_remove(pre: TimeEntriesView, post: TimeEntriesView, i: int, t: i64)
    requires
        0 <= i < pre.len(),
        post == pre.remove(i),
        pre[i].0 != t,
        forall|a: int, b: int| 0 <= a < b < pre.len() ==> pre[a].0 < pre[b].0,
    ensures
        spec_entries_positions_at(post, t) == spec_entries_positions_at(pre, t),
{
    assert(post.len() == pre.len() - 1);
    assert forall|k: int| 0 <= k < post.len() implies #[trigger] post[k] == (if k < i {
        pre[k]
    } else {
        pre[k + 1]
    }) by {}
    if spec_entries_has(pre, t) {
        let w = choose|w: int| 0 <= w < pre.len() && #[trigger] pre[w].0 == t;
        assert(w != i);
        let shifted = if w < i {
            w
        } else {
            w - 1
        };
        assert(post[shifted].0 == t);
        assert(spec_entries_has(post, t));
        let w2 = choose|w2: int| 0 <= w2 < post.len() && #[trigger] post[w2].0 == t;
        let back = if w2 < i {
            w2
        } else {
            w2 + 1
        };
        assert(pre[back] == post[w2]);
        assert(pre[back].0 == t);
        let w3 = choose|w3: int| 0 <= w3 < pre.len() && #[trigger] pre[w3].0 == t;
        assert(spec_entries_positions_at(pre, t) == pre[w3].1);
        assert(spec_entries_positions_at(post, t) == post[w2].1);
        if back < w3 {
            assert(pre[back].0 < pre[w3].0);
        } else if back > w3 {
            assert(pre[w3].0 < pre[back].0);
        }
        assert(back == w3);
        assert(post[w2].1 == pre[w3].1);
    } else {
        assert(!spec_entries_has(post, t)) by {
            if spec_entries_has(post, t) {
                let w = choose|w: int| 0 <= w < post.len() && #[trigger] post[w].0 == t;
                let back = if w < i {
                    w
                } else {
                    w + 1
                };
                assert(pre[back].0 == t);
            }
        }
        assert(spec_entries_positions_at(post, t) =~= spec_entries_positions_at(pre, t));
    }
}

/// One inverted-index bucket: the positions bearing one `(key, value)` pair,
/// in insertion order.
#[derive(Debug)]
pub struct TagBucket {
    pub key: String,
    pub value: String,
    pub positions: Vec<usize>,
}

/// One reverse-map entry: a position and its full tag set.
#[derive(Debug)]
pub struct ReverseEntry {
    pub position: usize,
    pub tags: TagSet,
}

/// Model of the buckets: `(key, value, positions)` triples.
pub type BucketsView = Seq<(Seq<char>, Seq<char>, Seq<usize>)>;

/// Model of the reverse map: `(position, tags)` pairs in insertion order.
pub type ReverseView = Seq<(usize, TagsView)>;

/// Whether some bucket carries this pair.
pub open spec fn spec_buckets_has(bv: BucketsView, k: Seq<char>, v: Seq<char>) -> bool {
    exists|i: int| 0 <= i < bv.len() && #[trigger] bv[i].0 == k && bv[i].1 == v
}

/// The positions stored under a pair, empty when absent.
pub open spec fn spec_bucket_posting(bv: BucketsView, k: Seq<char>, v: Seq<char>) -> Seq<usize> {
    if spec_buckets_has(bv, k, v) {
        bv[choose|i: int| 0 <= i < bv.len() && #[trigger] bv[i].0 == k && bv[i].1 == v].2
    } else {
        Seq::empty()
    }
}

/// Positions of reverse entries bearing pair `(k, v)`, in entry order.
pub open spec fn postings_from_reverse(rv: ReverseView, k: Seq<char>, v: Seq<char>) -> Seq<usize>
    decreases rv.len(),
{
    if rv.len() == 0 {
        Seq::empty()
    } else {
        postings_from_reverse(rv.drop_last(), k, v) + (if crate::types::pairs_has(
            rv.last().1,
            k,
            v,
        ) {
            seq![rv.last().0]
        } else {
            Seq::empty()
        })
    }
}

/// Two-level inverted index from `(key, value)` pairs to positions, with a
/// reverse map from position to its full tag set.
#[derive(Debug)]
pub struct TagIndex {
    buckets: Vec<TagBucket>,
    reverse: Vec<ReverseEntry>,
}

impl TagIndex {
    /// The buckets, in creation order.
    pub closed spec fn buckets_view(&self) -> BucketsView {
        Seq::new(
            self.buckets@.len(),
            |i: int|
                (self.buckets@[i].key@, self.buckets@[i].value@, self.buckets@[i].positions@),
        )
    }

    /// The reverse map, in insertion order.
    pub closed spec fn reverse_view(&self) -> ReverseView {
        Seq::new(
            self.reverse@.len(),
            |i: int| (self.reverse@[i].position, self.reverse@[i].tags@),
        )
    }

    /// The positions stored under a pair, empty when absent.
    pub open spec fn spec_posting(&self, k: Seq<char>, v: Seq<char>) -> Seq<usize> {
        spec_bucket_posting(self.buckets_view(), k, v)
    }

    /// Whether the reverse map knows this position.
    pub open spec fn spec_has_position(&self, p: usize) -> bool {
        exists|i: int| 0 <= i < self.reverse_view().len() && #[trigger] self.reverse_view()[i].0
            == p
    }

    /// The tag set recorded for a position.
    pub open spec fn spec_tags_of(&self, p: usize) -> Option<TagsView> {
        if self.spec_has_position(p) {
            Some(
                self.reverse_view()[choose|i: int|
                    0 <= i < self.reverse_view().len() && #[trigger] self.reverse_view()[i].0
                        == p].1,
            )
        } else {
            None
        }
    }

    /// Well-formed: distinct bucket pairs, no empty bucket, distinct
    /// reverse positions, well-formed recorded tag sets.
    pub open spec fn wf(&self) -> bool {
        &&& forall|i: int, j: int|
            0 <= i < j < self.buckets_view().len() ==> !(#[trigger] self.buckets_view()[i].0
                == #[trigger] self.buckets_view()[j].0 && self.buckets_view()[i].1
                == self.buckets_view()[j].1)
        &&& forall|i: int|
            0 <= i < self.buckets_view().len() ==> #[trigger] self.buckets_view()[i].2.len() > 0
        &&& forall|i: int, j: int|
            0 <= i < j < self.reverse_view().len() ==> self.reverse_view()[i].0
                != self.reverse_view()[j].0
        &&& forall|i: int|
            0 <= i < self.reverse_view().len() ==> crate::types::distinct_keys(
                #[trigger] self.reverse_view()[i].1,
            )
    }

    /// An empty tag index.
    pub fn new() -> (t: Self)
        ensures
            t.wf(),
            t.buckets_view() == Seq::<(Seq<char>, Seq<char>, Seq<usize>)>::empty(),
            t.reverse_view() == Seq::<(usize, TagsView)>::empty(),
    {
        let t = TagIndex { buckets: Vec::new(), reverse: Vec::new() };
        proof {
            assert(t.buckets_view() =~= Seq::<(Seq<char>, Seq<char>, Seq<usize>)>::empty());
            assert(t.reverse_view() =~= Seq::<(usize, TagsView)>::empty());
        }
        t
    }

    /// Append `position` to the bucket of one pair, creating it if absent.
    fn add_to_bucket(&mut self, key: &String, value: &String, position: usize)
        requires
            old(self).wf(),
        ensures
            final(self).wf(),
            final(self).reverse_view() == old(self).reverse_view(),
            final(self).spec_posting(key@, value@) == old(self).spec_posting(key@, value@).push(
                position,
            ),
            forall|k: Seq<char>, v: Seq<char>|
                !(k == key@ && v == value@) ==> final(self).spec_posting(k, v) == old(
                    self,
                ).spec_posting(k, v),
    {
        let ghost pre = self.buckets_view();
        let n = self.buckets.len();
        let mut i: usize = 0;
        while i < n
            invariant
                old(self).wf(),
                pre == old(self).buckets_view(),
                self == old(self),
                n == pre.len(),
                i <= n,
                forall|k: int| 0 <= k < i ==> !(pre[k].0 == key@ && pre[k].1 == value@),
            decreases n - i,
        {
            if string_eq(&self.buckets[i].key, key) && string_eq(&self.buckets[i].value, value) {
                let mut b = self.buckets.remove(i);
                b.positions.push(position);
                self.buckets.insert(i, b);
                proof {
                    assert(self.buckets_view() =~= pre.update(
                        i as int,
                        (key@, value@, pre[i as int].2.push(position)),
                    ));
                    lemma_bucket_lookup(pre, i as int);
                    lemma_bucket_lookup(self.buckets_view(), i as int);
                    assert(self.spec_posting(key@, value@) == pre[i as int].2.push(
                        position,
                    ));
                    assert forall|k: Seq<char>, v: Seq<char>|
                        !(k == key@ && v == value@) implies self.spec_posting(k, v) == old(
                        self,
                    ).spec_posting(k, v) by {
                        lemma_bucket_frame(pre, self.buckets_view(), k, v);
                    }
                    assert(self.reverse_view() =~= old(self).reverse_view());
                }
                return;
            }
            i = i + 1;
        }
        self.buckets.push(
            TagBucket { key: key.clone(), value: value.clone(), positions: vec_of_one(position) },
        );
        proof {
            assert(self.buckets_view() =~= pre.push((key@, value@, seq![position])));
            assert(forall|k: int| 0 <= k < pre.len() ==> !(#[trigger] pre[k].0 == key@ && pre[k].1
                == value@));
            lemma_bucket_lookup(self.buckets_view(), pre.len() as int);
            assert(!spec_buckets_has(pre, key@, value@));
            assert(old(self).spec_posting(key@, value@) =~= Seq::<usize>::empty());
            assert(self.spec_posting(key@, value@) =~= seq![position]);
            assert(old(self).spec_posting(key@, value@).push(position) =~= seq![position]);
            assert forall|k: Seq<char>, v: Seq<char>|
                !(k == key@ && v == value@) implies self.spec_posting(k, v) == old(
                self,
            ).spec_posting(k, v) by {
                lemma_bucket_frame(pre, self.buckets_view(), k, v);
            }
            assert(self.reverse_view() =~= old(self).reverse_view());
        }
    }

    /// Register a position with its tags: each pair's bucket gains the
    /// position, and the reverse map remembers the full tag set.
    pub fn add_point(&mut self, position: usize, tags: &TagSet)
        requires
            old(self).wf(),
            tags.wf(),
            !old(self).spec_has_position(position),
        ensures
            final(self).wf(),
            final(self).reverse_view() == old(self).reverse_view().push((position, tags@)),
            forall|k: Seq<char>, v: Seq<char>|
                final(self).spec_posting(k, v) == old(self).spec_posting(k, v)
                    + (if crate::types::pairs_has(tags@, k, v) {
                    seq![position]
                } else {
                    Seq::<usize>::empty()
                }),
    {
        let n = tags.len();
        let mut i: usize = 0;
        proof {
            assert forall|k: Seq<char>, v: Seq<char>| self.spec_posting(k, v) =~= old(
                self,
            ).spec_posting(k, v) + (if crate::types::pairs_has(tags@.take(0), k, v) {
                seq![position]
            } else {
                Seq::<usize>::empty()
            }) by {
                assert(!crate::types::pairs_has(tags@.take(0), k, v));
            }
        }
        while i < n
            invariant
                self.wf(),
                tags.wf(),
                n == tags@.len(),
                i <= n,
                self.reverse_view() == old(self).reverse_view(),
                forall|k: Seq<char>, v: Seq<char>|
                    self.spec_posting(k, v) == old(self).spec_posting(k, v) + (
                    if crate::types::pairs_has(tags@.take(i as int), k, v) {
                        seq![position]
                    } else {
                        Seq::<usize>::empty()
                    }),
            decreases n - i,
        {
            let ghost mid = *self;
            let (key, value) = tags.pair_at(i);
            self.add_to_bucket(key, value, position);
            proof {
                let taken = tags@.take(i as int);
                let taken2 = tags@.take(i as int + 1);
                assert(taken2.drop_last() =~= taken);
                assert(taken2.last() == tags@[i as int]);
                assert(!crate::types::pairs_has(taken, key@, value@)) by {
                    if crate::types::pairs_has(taken, key@, value@) {
                        let w = choose|w: int|
                            0 <= w < taken.len() && #[trigger] taken[w] == (key@, value@);
                        assert(tags@[w].0 == tags@[i as int].0);
                    }
                }
                assert forall|k: Seq<char>, v: Seq<char>| self.spec_posting(k, v) =~= old(
                    self,
                ).spec_posting(k, v) + (if crate::types::pairs_has(taken2, k, v) {
                    seq![position]
                } else {
                    Seq::<usize>::empty()
                }) by {
                    if k == key@ && v == value@ {
                        assert(crate::types::pairs_has(taken2, k, v)) by {
                            assert(taken2.last() == (k, v));
                        }
                    } else {
                        assert(crate::types::pairs_has(taken2, k, v)
                            <==> crate::types::pairs_has(taken, k, v)) by {
                            if crate::types::pairs_has(taken2, k, v) {
                                let w = choose|w: int|
                                    0 <= w < taken2.len() && #[trigger] taken2[w] == (k, v);
                                assert(w < i);
                                assert(taken[w] == (k, v));
                            }
                            if crate::types::pairs_has(taken, k, v) {
                                let w = choose|w: int|
                                    0 <= w < taken.len() && #[trigger] taken[w] == (k, v);
                                assert(taken2[w] == (k, v));
                            }
                        }
                    }
                }
            }
            i = i + 1;
        }
        let ghost mid = *self;
        self.reverse.push(ReverseEntry { position, tags: tags.duplicate() });
        proof {
            assert(self.reverse_view() =~= mid.reverse_view().push((position, tags@)));
            assert(tags@.take(n as int) =~= tags@);
            assert(self.buckets_view() =~= mid.buckets_view());
            assert forall|k: Seq<char>, v: Seq<char>| self.spec_posting(k, v) == old(
                self,
            ).spec_posting(k, v) + (if crate::types::pairs_has(tags@, k, v) {
                seq![position]
            } else {
                Seq::<usize>::empty()
            }) by {
                assert(self.spec_posting(k, v) == mid.spec_posting(k, v));
            }
            assert forall|a: int, b: int|
                0 <= a < b < self.reverse_view().len() implies self.reverse_view()[a].0
                != self.reverse_view()[b].0 by {
                if b == self.reverse_view().len() - 1 {
                    assert(self.reverse_view()[a] == mid.reverse_view()[a]);
                    assert(!old(self).spec_has_position(position));
                    if mid.reverse_view()[a].0 == position {
                        assert(old(self).reverse_view()[a].0 == position);
                    }
                } else {
                    assert(self.reverse_view()[a] == mid.reverse_view()[a]);
                    assert(self.reverse_view()[b] == mid.reverse_view()[b]);
                }
            }
            assert forall|i: int|
                0 <= i < self.reverse_view().len() implies crate::types::distinct_keys(
                #[trigger] self.reverse_view()[i].1,
            ) by {
                if i < self.reverse_view().len() - 1 {
                    assert(self.reverse_view()[i] == mid.reverse_view()[i]);
                }
            }
        }
    }

    /// The positions bearing one pair.
    pub fn get_by_tag(&self, key: &str, value: &str) -> (r: Option<&Vec<usize>>)
        requires
            self.wf(),
        ensures
            match r {
                Some(ps) => spec_buckets_has(self.buckets_view(), key@, value@) && ps@
                    == self.spec_posting(key@, value@),
                None => !spec_buckets_has(self.buckets_view(), key@, value@),
            },
    {
        let n = self.buckets.len();
        let mut i: usize = 0;
        while i < n
            invariant
                self.wf(),
                n == self.buckets_view().len(),
                i <= n,
                forall|k: int|
                    0 <= k < i ==> !(#[trigger] self.buckets_view()[k].0 == key@
                        && self.buckets_view()[k].1 == value@),
            decreases n - i,
        {
            if str_eq(self.buckets[i].key.as_str(), key) && str_eq(
                self.buckets[i].value.as_str(),
                value,
            ) {
                proof {
                    lemma_bucket_lookup(self.buckets_view(), i as int);
                }
                return Some(&self.buckets[i].positions);
            }
            i = i + 1;
        }
        None
    }

    /// Positions bearing every listed pair (AND), strictly sorted.
    /// An empty tag set yields an empty result; a pair stored nowhere
    /// yields an empty result.
    pub fn get_by_tags_and(&self, tags: &TagSet) -> (r: Vec<usize>)
        requires
            self.wf(),
            tags.wf(),
        ensures
            strictly_sorted_pos(r@),
            tags@.len() == 0 ==> r@ == Seq::<usize>::empty(),
            tags@.len() > 0 ==> forall|p: usize|
                r@.contains(p) <==> (forall|j: int|
                    0 <= j < tags@.len() ==> (#[trigger] self.spec_posting(
                        tags@[j].0,
                        tags@[j].1,
                    )).contains(p)),
    {
        let n = tags.len();
        if n == 0 {
            let r: Vec<usize> = Vec::new();
            proof {
                assert(r@ =~= Seq::<usize>::empty());
            }
            return r;
        }
        let (k0, v0) = tags.pair_at(0);
        let mut cur: Vec<usize> = match self.get_by_tag(k0.as_str(), v0.as_str()) {
            Some(ps) => {
                let mut copy = copy_positions(ps);
                let sorted = sort_positions(&mut copy);
                dedup_sorted(&sorted)
            },
            None => {
                let r: Vec<usize> = Vec::new();
                proof {
                    assert(self.spec_posting(tags@[0].0, tags@[0].1) =~= Seq::<usize>::empty());
                    assert forall|p: usize| !r@.contains(p) implies !(forall|j: int|
                        0 <= j < tags@.len() ==> (#[trigger] self.spec_posting(
                            tags@[j].0,
                            tags@[j].1,
                        )).contains(p)) by {
                        assert(!self.spec_posting(tags@[0].0, tags@[0].1).contains(p));
                    }
                }
                return r;
            },
        };
        let mut j: usize = 1;
        while j < n
            invariant
                self.wf(),
                tags.wf(),
                n == tags@.len(),
                1 <= j <= n,
                strictly_sorted_pos(cur@),
                forall|p: usize|
                    cur@.contains(p) <==> (forall|jj: int|
                        0 <= jj < j ==> (#[trigger] self.spec_posting(
                            tags@[jj].0,
                            tags@[jj].1,
                        )).contains(p)),
            decreases n - j,
        {
            let (k, v) = tags.pair_at(j);
            match self.get_by_tag(k.as_str(), v.as_str()) {
                Some(ps) => {
                    let mut copy = copy_positions(ps);
                    let sorted = sort_positions(&mut copy);
                    let other = dedup_sorted(&sorted);
                    let next = intersect_sorted(&cur, &other);
                    proof {
                        assert forall|p: usize| next@.contains(p) <==> (forall|jj: int|
                            0 <= jj < j + 1 ==> (#[trigger] self.spec_posting(
                                tags@[jj].0,
                                tags@[jj].1,
                            )).contains(p)) by {
                            if next@.contains(p) {
                                assert(cur@.contains(p) && other@.contains(p));
                            }
                            if forall|jj: int|
                                0 <= jj < j + 1 ==> (#[trigger] self.spec_posting(
                                    tags@[jj].0,
                                    tags@[jj].1,
                                )).contains(p) {
                                assert(self.spec_posting(tags@[j as int].0, tags@[j as int].1).contains(p));
                            }
                        }
                    }
                    cur = next;
                },
                None => {
                    let r: Vec<usize> = Vec::new();
                    proof {
                        assert(self.spec_posting(tags@[j as int].0, tags@[j as int].1)
                            =~= Seq::<usize>::empty());
                        assert forall|p: usize| !r@.contains(p) implies !(forall|jj: int|
                            0 <= jj < tags@.len() ==> (#[trigger] self.spec_posting(
                                tags@[jj].0,
                                tags@[jj].1,
                            )).contains(p)) by {
                            assert(!self.spec_posting(tags@[j as int].0, tags@[j as int].1).contains(
                                p,
                            ));
                        }
                    }
                    return r;
                },
            }
            j = j + 1;
        }
        cur
    }

    /// A conjunction over a single pair selects exactly that pair's
    /// posting, as a set; a conjunction over no pairs selects nothing.
    /// Together with the contract of [`Self::get_by_tags_and`], this pins
    /// the AND query's meaning down to single lookups.
    pub proof fn lemma_and_of_singleton(&self, tags: TagsView, p: usize)
        requires
            tags.len() == 1,
        ensures
            (forall|j: int|
                0 <= j < tags.len() ==> (#[trigger] self.spec_posting(
                    tags[j].0,
                    tags[j].1,
                )).contains(p)) <==> self.spec_posting(tags[0].0, tags[0].1).contains(p),
    {
    }

    /// Positions bearing any listed pair (OR), strictly sorted.
    pub fn get_by_tags_or(&self, tags: &TagSet) -> (r: Vec<usize>)
        requires
            self.wf(),
            tags.wf(),
        ensures
            strictly_sorted_pos(r@),
            forall|p: usize|
                r@.contains(p) <==> (exists|j: int|
                    0 <= j < tags@.len() && (#[trigger] self.spec_posting(
                        tags@[j].0,
                        tags@[j].1,
                    )).contains(p)),
    {
        let n = tags.len();
        let mut acc: Vec<usize> = Vec::new();
        let mut j: usize = 0;
        while j < n
            invariant
                self.wf(),
                tags.wf(),
                n == tags@.len(),
                j <= n,
                strictly_sorted_pos(acc@),
                forall|p: usize|
                    acc@.contains(p) <==> (exists|jj: int|
                        0 <= jj < j && (#[trigger] self.spec_posting(
                            tags@[jj].0,
                            tags@[jj].1,
                        )).contains(p)),
            decreases n - j,
        {
            let (k, v) = tags.pair_at(j);
            match self.get_by_tag(k.as_str(), v.as_str()) {
                Some(ps) => {
                    let next = union_all(&acc, ps);
                    proof {
                        assert forall|p: usize| next@.contains(p) <==> (exists|jj: int|
                            0 <= jj < j + 1 && (#[trigger] self.spec_posting(
                                tags@[jj].0,
                                tags@[jj].1,
                            )).contains(p)) by {
                            if next@.contains(p) {
                                if acc@.contains(p) {
                                    let w = choose|w: int|
                                        0 <= w < j && (#[trigger] self.spec_posting(
                                            tags@[w].0,
                                            tags@[w].1,
                                        )).contains(p);
                                    assert(self.spec_posting(tags@[w].0, tags@[w].1).contains(p));
                                } else {
                                    assert(self.spec_posting(
                                        tags@[j as int].0,
                                        tags@[j as int].1,
                                    ).contains(p));
                                }
                            }
                            if exists|jj: int|
                                0 <= jj < j + 1 && (#[trigger] self.spec_posting(
                                    tags@[jj].0,
                                    tags@[jj].1,
                                )).contains(p) {
                                let w = choose|w: int|
                                    0 <= w < j + 1 && (#[trigger] self.spec_posting(
                                        tags@[w].0,
                                        tags@[w].1,
                                    )).contains(p);
                                if w < j {
                                    assert(acc@.contains(p));
                                } else {
                                    assert(ps@.contains(p));
                                }
                            }
                        }
                    }
                    acc = next;
                },
                None => {
                    proof {
                        assert(self.spec_posting(tags@[j as int].0, tags@[j as int].1)
                            =~= Seq::<usize>::empty());
                        assert forall|p: usize| acc@.contains(p) <==> (exists|jj: int|
                            0 <= jj < j + 1 && (#[trigger] self.spec_posting(
                                tags@[jj].0,
                                tags@[jj].1,
                            )).contains(p)) by {
                            if exists|jj: int|
                                0 <= jj < j + 1 && (#[trigger] self.spec_posting(
                                    tags@[jj].0,
                                    tags@[jj].1,
                                )).contains(p) {
                                let w = choose|w: int|
                                    0 <= w < j + 1 && (#[trigger] self.spec_posting(
                                        tags@[w].0,
                                        tags@[w].1,
                                    )).contains(p);
                                assert(w < j);
                            }
                        }
                    }
                },
            }
            j = j + 1;
        }
        acc
    }

    /// Number of indexed positions.
    pub fn total_points(&self) -> (n: usize)
        ensures
            n == self.reverse_view().len(),
    {
        self.reverse.len()
    }

    /// The distinct values stored under a key, in bucket order.
    pub fn get_tag_values(&self, key: &str) -> (r: Vec<String>)
        requires
            self.wf(),
        ensures
            forall|v: Seq<char>|
                #[trigger] strings_contains(r@, v) <==> spec_buckets_has(
                    self.buckets_view(),
                    key@,
                    v,
                ),
    {
        let n = self.buckets.len();
        let mut r: Vec<String> = Vec::new();
        let mut i: usize = 0;
        while i < n
            invariant
                self.wf(),
                n == self.buckets_view().len(),
                i <= n,
                forall|v: Seq<char>|
                    #[trigger] strings_contains(r@, v) <==> (exists|k: int|
                        0 <= k < i && #[trigger] self.buckets_view()[k].0 == key@
                            && self.buckets_view()[k].1 == v),
            decreases n - i,
        {
            let ghost rpre = r@;
            let matched = str_eq(self.buckets[i].key.as_str(), key);
            if matched {
                r.push(self.buckets[i].value.clone());
                proof {
                    assert(r@[rpre.len() as int]@ == self.buckets_view()[i as int].1);
                }
            }
            proof {
                assert forall|v: Seq<char>| #[trigger] strings_contains(r@, v) <==> (exists|
                    k: int,
                |
                    0 <= k < i + 1 && #[trigger] self.buckets_view()[k].0 == key@
                        && self.buckets_view()[k].1 == v) by {
                    if strings_contains(r@, v) {
                        let m = choose|m: int| 0 <= m < r@.len() && #[trigger] r@[m]@ == v;
                        if m < rpre.len() {
                            assert(rpre[m]@ == v);
                            assert(strings_contains(rpre, v));
                        } else {
                            assert(matched);
                            assert(self.buckets_view()[i as int].0 == key@);
                            assert(self.buckets_view()[i as int].1 == v);
                        }
                    }
                    if exists|k: int|
                        0 <= k < i + 1 && #[trigger] self.buckets_view()[k].0 == key@
                            && self.buckets_view()[k].1 == v {
                        let k = choose|k: int|
                            0 <= k < i + 1 && #[trigger] self.buckets_view()[k].0 == key@
                                && self.buckets_view()[k].1 == v;
                        if k < i {
                            assert(strings_contains(rpre, v));
                            let m = choose|m: int| 0 <= m < rpre.len() && #[trigger] rpre[m]@ == v;
                            assert(r@[m]@ == v);
                        } else {
                            assert(self.buckets_view()[i as int].0 == key@);
                            assert(r@[r@.len() - 1]@ == v);
                        }
                        assert(strings_contains(r@, v));
                    }
                }
            }
            i = i + 1;
        }
        r
    }

    /// The distinct keys stored in the index.
    pub fn get_tag_keys(&self) -> (r: Vec<String>)
        requires
            self.wf(),
        ensures
            forall|k: Seq<char>|
                #[trigger] strings_contains(r@, k) <==> (exists|b: int|
                    0 <= b < self.buckets_view().len() && (#[trigger] self.buckets_view()[b].0)
                        == k),
    {
        let n = self.buckets.len();
        let mut r: Vec<String> = Vec::new();
        let mut i: usize = 0;
        while i < n
            invariant
                self.wf(),
                n == self.buckets_view().len(),
                i <= n,
                forall|k: Seq<char>|
                    #[trigger] strings_contains(r@, k) <==> (exists|b: int|
                        0 <= b < i && (#[trigger] self.buckets_view()[b].0) == k),
            decreases n - i,
        {
            let ghost rpre = r@;
            let mut seen = false;
            let mut m: usize = 0;
            while m < r.len()
                invariant
                    r@ == rpre,
                    m <= r@.len(),
                    seen ==> strings_contains(r@, self.buckets@[i as int].key@),
                    !seen ==> forall|w: int|
                        0 <= w < m ==> #[trigger] r@[w]@ != self.buckets@[i as int].key@,
                    i < self.buckets@.len(),
                decreases r.len() - m,
            {
                if string_eq(&r[m], &self.buckets[i].key) {
                    seen = true;
                    proof {
                        assert(r@[m as int]@ == self.buckets@[i as int].key@);
                    }
                }
                m = m + 1;
            }
            if !seen {
                r.push(self.buckets[i].key.clone());
            }
            proof {
                let bk = self.buckets_view()[i as int].0;
                assert forall|k: Seq<char>| #[trigger] strings_contains(r@, k) <==> (exists|
                    b: int,
                |
                    0 <= b < i + 1 && (#[trigger] self.buckets_view()[b].0) == k) by {
                    if strings_contains(r@, k) {
                        let w = choose|w: int| 0 <= w < r@.len() && #[trigger] r@[w]@ == k;
                        if w < rpre.len() {
                            assert(rpre[w]@ == k);
                            assert(strings_contains(rpre, k));
                        } else {
                            assert(k == bk);
                            assert(self.buckets_view()[i as int].0 == k);
                        }
                    }
                    if exists|b: int|
                        0 <= b < i + 1 && (#[trigger] self.buckets_view()[b].0) == k {
                        let b = choose|b: int|
                            0 <= b < i + 1 && (#[trigger] self.buckets_view()[b].0) == k;
                        if b < i {
                            assert(strings_contains(rpre, k));
                            let w = choose|w: int| 0 <= w < rpre.len() && #[trigger] rpre[w]@ == k;
                            assert(r@[w]@ == k);
                        } else {
                            if seen {
                                assert(strings_contains(rpre, bk));
                                let w = choose|w: int|
                                    0 <= w < rpre.len() && #[trigger] rpre[w]@ == bk;
                                assert(r@[w]@ == k);
                            } else {
                                assert(r@[r@.len() - 1]@ == k);
                            }
                        }
                        assert(strings_contains(r@, k));
                    }
                }
            }
            i = i + 1;
        }
        r
    }

    /// Remove positions: their reverse entries leave, and every bucket is
    /// rebuilt from the remaining reverse entries, so that each pair's
    /// posting holds exactly the remaining positions bearing it.
    pub fn remove_points(&mut self, positions: &[usize])
        requires
            old(self).wf(),
        ensures
            final(self).wf(),
            final(self).reverse_view() == reverse_without(
                old(self).reverse_view(),
                positions@,
            ),
            forall|k: Seq<char>, v: Seq<char>|
                final(self).spec_posting(k, v) == postings_from_reverse(
                    final(self).reverse_view(),
                    k,
                    v,
                ),
    {
        let ghost rv0 = self.reverse_view();
        let mut remaining: Vec<ReverseEntry> = Vec::new();
        proof {
            assert(Seq::new(
                remaining@.len(),
                |i: int| (remaining@[i].position, remaining@[i].tags@),
            ) =~= reverse_without(rv0.take(0), positions@));
            assert(rv0.take(0) =~= Seq::<(usize, TagsView)>::empty());
        }
        let total = self.reverse.len();
        let mut consumed: usize = 0;
        while self.reverse.len() > 0
            invariant
                rv0 == old(self).reverse_view(),
                old(self).wf(),
                consumed + self.reverse@.len() == total,
                total == rv0.len(),
                self.reverse_view() == rv0.skip(consumed as int),
                self.buckets_view() == old(self).buckets_view(),
                Seq::new(
                    remaining@.len(),
                    |i: int| (remaining@[i].position, remaining@[i].tags@),
                ) == reverse_without(rv0.take(consumed as int), positions@),
            decreases self.reverse.len(),
        {
            let ghost rvcur = self.reverse_view();
            let ghost remview = Seq::new(
                remaining@.len(),
                |i: int| (remaining@[i].position, remaining@[i].tags@),
            );
            let ghost entriespre = self.reverse@;
            let e = self.reverse.remove(0);
            proof {
                assert(self.reverse_view() =~= rvcur.drop_first());
                assert(rvcur.drop_first() =~= rv0.skip(consumed as int + 1));
                assert(e == entriespre[0]);
                assert(rvcur[0] == (entriespre[0].position, entriespre[0].tags@));
                assert(rvcur[0] == rv0.skip(consumed as int)[0]);
                assert(rv0.skip(consumed as int)[0] == rv0[consumed as int]);
                assert((e.position, e.tags@) == rv0[consumed as int]);
            }
            let keep = !slice_contains_pos(positions, e.position);
            proof {
                assert(rv0.take(consumed as int + 1).drop_last() =~= rv0.take(consumed as int));
                assert(rv0.take(consumed as int + 1).last() == rv0[consumed as int]);
            }
            if keep {
                remaining.push(e);
                proof {
                    assert(Seq::new(
                        remaining@.len(),
                        |i: int| (remaining@[i].position, remaining@[i].tags@),
                    ) =~= remview.push(rv0[consumed as int]));
                    assert(reverse_without(rv0.take(consumed as int + 1), positions@)
                        =~= remview.push(rv0[consumed as int]));
                }
            } else {
                proof {
                    assert(reverse_without(rv0.take(consumed as int + 1), positions@)
                        =~= remview);
                }
            }
            consumed = consumed + 1;
        }
        proof {
            assert(rv0.take(total as int) =~= rv0);
            lemma_reverse_without_wf(rv0, positions@);
        }
        self.buckets.clear();
        self.reverse.clear();
        proof {
            assert(self.buckets_view() =~= Seq::<(Seq<char>, Seq<char>, Seq<usize>)>::empty());
            assert(self.reverse_view() =~= Seq::<(usize, TagsView)>::empty());
        }
        let ghost target = reverse_without(rv0, positions@);
        let mut i: usize = 0;
        let count = remaining.len();
        proof {
            assert forall|k: Seq<char>, v: Seq<char>| self.spec_posting(k, v)
                =~= postings_from_reverse(target.take(0), k, v) by {
                assert(target.take(0) =~= Seq::<(usize, TagsView)>::empty());
                assert(!spec_buckets_has(self.buckets_view(), k, v));
            }
            assert(self.reverse_view() =~= target.take(0));
        }
        while i < count
            invariant
                count == remaining@.len(),
                i <= count,
                target == reverse_without(rv0, positions@),
                Seq::new(
                    remaining@.len(),
                    |m: int| (remaining@[m].position, remaining@[m].tags@),
                ) == target,
                forall|a: int, b: int| 0 <= a < b < target.len() ==> target[a].0 != target[b].0,
                forall|a: int|
                    0 <= a < target.len() ==> crate::types::distinct_keys(
                        #[trigger] target[a].1,
                    ),
                self.wf(),
                self.reverse_view() == target.take(i as int),
                forall|k: Seq<char>, v: Seq<char>|
                    self.spec_posting(k, v) == postings_from_reverse(target.take(i as int), k, v),
            decreases count - i,
        {
            let ghost mid = *self;
            proof {
                assert(remaining@[i as int].tags@ == target[i as int].1);
                assert(remaining@[i as int].position == target[i as int].0);
                assert(!self.spec_has_position(remaining@[i as int].position)) by {
                    if self.spec_has_position(remaining@[i as int].position) {
                        let w = choose|w: int|
                            0 <= w < self.reverse_view().len()
                                && #[trigger] self.reverse_view()[w].0
                                == remaining@[i as int].position;
                        assert(target[w].0 == target[i as int].0);
                    }
                }
            }
            let entry_tags = remaining[i].tags.duplicate();
            let pos = remaining[i].position;
            self.add_point(pos, &entry_tags);
            proof {
                assert(target.take(i as int + 1).drop_last() =~= target.take(i as int));
                assert(target.take(i as int + 1).last() == target[i as int]);
                assert(self.reverse_view() =~= target.take(i as int + 1));
                assert forall|k: Seq<char>, v: Seq<char>| self.spec_posting(k, v)
                    =~= postings_from_reverse(target.take(i as int + 1), k, v) by {
                    assert(self.spec_posting(k, v) == mid.spec_posting(k, v) + (
                    if crate::types::pairs_has(target[i as int].1, k, v) {
                        seq![target[i as int].0]
                    } else {
                        Seq::<usize>::empty()
                    }));
                }
            }
            i = i + 1;
        }
        proof {
            assert(target.take(count as int) =~= target);
        }
    }

    /// Drop every bucket and reverse entry.
    pub fn clear(&mut self)
        ensures
            final(self).wf(),
            final(self).buckets_view() == Seq::<(Seq<char>, Seq<char>, Seq<usize>)>::empty(),
            final(self).reverse_view() == Seq::<(usize, TagsView)>::empty(),
    {
        self.buckets.clear();
        self.reverse.clear();
        proof {
            assert(self.buckets_view() =~= Seq::<(Seq<char>, Seq<char>, Seq<usize>)>::empty());
            assert(self.reverse_view() =~= Seq::<(usize, TagsView)>::empty());
        }
    }
}

/// Reverse entries whose position is not listed, in order.
pub open spec fn reverse_without(rv: ReverseView, removed: Seq<usize>) -> ReverseView
    decreases rv.len(),
{
    if rv.len() == 0 {
        Seq::empty()
    } else {
        reverse_without(rv.drop_last(), removed) + (if removed.contains(rv.last().0) {
            Seq::empty()
        } else {
            seq![rv.last()]
        })
    }
}

/// Filtering the reverse map keeps positions distinct and tag sets
/// well-formed.
proof fn lemma_reverse_without_wf(rv: ReverseView, removed: Seq<usize>)
    requires
        forall|a: int, b: int| 0 <= a < b < rv.len() ==> rv[a].0 != rv[b].0,
        forall|a: int|
            0 <= a < rv.len() ==> crate::types::distinct_keys(#[trigger] rv[a].1),
    ensures
        forall|a: int, b: int|
            0 <= a < b < reverse_without(rv, removed).len() ==> reverse_without(rv, removed)[a].0
                != reverse_without(rv, removed)[b].0,
        forall|a: int|
            0 <= a < reverse_without(rv, removed).len() ==> crate::types::distinct_keys(
                #[trigger] reverse_without(rv, removed)[a].1,
            ),
        forall|a: int|
            0 <= a < reverse_without(rv, removed).len() ==> rv.contains(
                #[trigger] reverse_without(rv, removed)[a],
            ),
    decreases rv.len(),
{
    if rv.len() > 0 {
        assert(forall|a: int, b: int|
            0 <= a < b < rv.drop_last().len() ==> rv.drop_last()[a].0 != rv.drop_last()[b].0);
        assert(forall|a: int|
            0 <= a < rv.drop_last().len() ==> crate::types::distinct_keys(
                #[trigger] rv.drop_last()[a].1,
            ));
        lemma_reverse_without_wf(rv.drop_last(), removed);
        let head = reverse_without(rv.drop_last(), removed);
        let full = reverse_without(rv, removed);
        assert forall|a: int| 0 <= a < full.len() implies rv.contains(#[trigger] full[a]) by {
            if a < head.len() {
                assert(rv.drop_last().contains(head[a]));
                let w = choose|w: int|
                    0 <= w < rv.drop_last().len() && rv.drop_last()[w] == head[a];
                assert(rv[w] == full[a]);
            } else {
                assert(full[a] == rv.last());
                assert(rv[rv.len() - 1] == full[a]);
            }
        }
        assert forall|a: int, b: int| 0 <= a < b < full.len() implies full[a].0 != full[b].0 by {
            if b < head.len() {
            } else if !removed.contains(rv.last().0) && b == full.len() - 1 && head.len()
                == full.len() - 1 {
                assert(rv.drop_last().contains(head[a]));
                let w = choose|w: int|
                    0 <= w < rv.drop_last().len() && rv.drop_last()[w] == head[a];
                assert(rv[w].0 != rv[rv.len() - 1].0);
            }
        }
        assert forall|a: int| 0 <= a < full.len() implies crate::types::distinct_keys(
            #[trigger] full[a].1,
        ) by {
            assert(rv.contains(full[a]));
            let w = choose|w: int| 0 <= w < rv.len() && rv[w] == full[a];
            assert(crate::types::distinct_keys(rv[w].1));
        }
    }
}

/// Whether a string list holds a string with this content.
pub open spec fn strings_contains(ss: Seq<String>, v: Seq<char>) -> bool {
    exists|i: int| 0 <= i < ss.len() && #[trigger] ss[i]@ == v
}

/// Whether a position occurs in a slice.
fn slice_contains_pos(s: &[usize], p: usize) -> (b: bool)
    ensures
        b == s@.contains(p),
{
    let n = s.len();
    let mut i: usize = 0;
    while i < n
        invariant
            n == s@.len(),
            i <= n,
            forall|k: int| 0 <= k < i ==> s@[k] != p,
        decreases n - i,
    {
        if *vstd::slice::slice_index_get(s, i) == p {
            proof {
                assert(s@[i as int] == p);
            }
            return true;
        }
        i = i + 1;
    }
    false
}

/// A fresh copy of a position list.
fn copy_positions(v: &Vec<usize>) -> (r: Vec<usize>)
    ensures
        r@ == v@,
{
    let mut r: Vec<usize> = Vec::new();
    let mut i: usize = 0;
    while i < v.len()
        invariant
            i <= v@.len(),
            r@ == v@.take(i as int),
        decreases v.len() - i,
    {
        r.push(v[i]);
        proof {
            assert(r@ =~= v@.take(i as int + 1));
        }
        i = i + 1;
    }
    proof {
        assert(v@.take(v@.len() as int) =~= v@);
    }
    r
}

/// With distinct pairs, the lookup under bucket `i`'s pair yields bucket
/// `i`'s positions.
proof fn lemma_bucket_lookup(bv: BucketsView, i: int)
    requires
        0 <= i < bv.len(),
        forall|a: int, b: int|
            0 <= a < b < bv.len() ==> !(#[trigger] bv[a].0 == #[trigger] bv[b].0 && bv[a].1
                == bv[b].1),
    ensures
        spec_bucket_posting(bv, bv[i].0, bv[i].1) == bv[i].2,
{
    assert(spec_buckets_has(bv, bv[i].0, bv[i].1));
    let w = choose|w: int| 0 <= w < bv.len() && #[trigger] bv[w].0 == bv[i].0 && bv[w].1
        == bv[i].1;
    if w < i {
        assert(!(bv[w].0 == bv[i].0 && bv[w].1 == bv[i].1));
    } else if i < w {
        assert(!(bv[i].0 == bv[w].0 && bv[i].1 == bv[w].1));
    }
}

/// A change that leaves every bucket of pair `(k, v)` alone leaves the
/// lookup under `(k, v)` alone.
proof fn lemma_bucket_frame(pre: BucketsView, post: BucketsView, k: Seq<char>, v: Seq<char>)
    requires
        forall|a: int, b: int|
            0 <= a < b < pre.len() ==> !(#[trigger] pre[a].0 == #[trigger] pre[b].0 && pre[a].1
                == pre[b].1),
        forall|a: int, b: int|
            0 <= a < b < post.len() ==> !(#[trigger] post[a].0 == #[trigger] post[b].0 && post[a].1
                == post[b].1),
        post.len() == pre.len() || post.len() == pre.len() + 1,
        forall|i: int| 0 <= i < pre.len() ==> #[trigger] post[i].0 == pre[i].0 && post[i].1
            == pre[i].1,
        forall|i: int|
            0 <= i < pre.len() && pre[i].0 == k && pre[i].1 == v ==> #[trigger] post[i] == pre[i],
        post.len() == pre.len() + 1 ==> !(post[pre.len() as int].0 == k && post[pre.len() as int].1
            == v),
    ensures
        spec_bucket_posting(post, k, v) == spec_bucket_posting(pre, k, v),
{
    if spec_buckets_has(pre, k, v) {
        let w = choose|w: int| 0 <= w < pre.len() && #[trigger] pre[w].0 == k && pre[w].1 == v;
        assert(post[w].0 == k && post[w].1 == v);
        assert(spec_buckets_has(post, k, v));
        let w2 = choose|w2: int| 0 <= w2 < post.len() && #[trigger] post[w2].0 == k && post[w2].1
            == v;
        assert(w2 < pre.len());
        if w2 < w {
            assert(!(pre[w2].0 == pre[w].0 && pre[w2].1 == pre[w].1));
        } else if w < w2 {
            assert(!(pre[w].0 == pre[w2].0 && pre[w].1 == pre[w2].1));
        }
        assert(w2 == w);
        assert(spec_bucket_posting(post, k, v) == post[w].2);
        assert(spec_bucket_posting(pre, k, v) == pre[w].2);
        assert(post[w] == pre[w]);
    } else {
        assert(!spec_buckets_has(post, k, v)) by {
            if spec_buckets_has(post, k, v) {
                let w = choose|w: int| 0 <= w < post.len() && #[trigger] post[w].0 == k
                    && post[w].1 == v;
                if w < pre.len() {
                    assert(pre[w].0 == k && pre[w].1 == v);
                }
            }
        }
        assert(spec_bucket_posting(post, k, v) =~= spec_bucket_posting(pre, k, v));
    }
}

/// The points of `points` at the listed positions, in list order.
pub open spec fn spec_select(points: Seq<DataPointView>, ps: Seq<usize>) -> Seq<DataPointView> {
    Seq::new(ps.len(), |i: int| points[ps[i] as int])
}

/// Whether a point's timestamp lies in `[lo, hi]`.
pub open spec fn spec_in_time(p: DataPointView, lo: i64, hi: i64) -> bool {
    lo <= p.timestamp <= hi
}

/// Whether a point's tags satisfy a tag predicate: with `use_and`, every
/// listed pair is borne (and the list is non-empty); otherwise some listed
/// pair is borne.
pub open spec fn spec_matches_tags(p: DataPointView, tags: TagsView, use_and: bool) -> bool {
    if use_and {
        tags.len() > 0 && match p.tags {
            Some(pt) => forall|j: int|
                0 <= j < tags.len() ==> crate::types::pairs_has(
                    pt,
                    #[trigger] tags[j].0,
                    tags[j].1,
                ),
            None => false,
        }
    } else {
        match p.tags {
            Some(pt) => exists|j: int|
                0 <= j < tags.len() && crate::types::pairs_has(
                    pt,
                    #[trigger] tags[j].0,
                    tags[j].1,
                ),
            None => false,
        }
    }
}

/// The ascending positions, below `n`, whose point satisfies the time
/// predicate.
pub open spec fn spec_time_positions(points: Seq<DataPointView>, n: int, lo: i64, hi: i64) -> Seq<
    usize,
>
    decreases n,
{
    if n <= 0 {
        Seq::empty()
    } else {
        spec_time_positions(points, n - 1, lo, hi) + (if spec_in_time(points[n - 1], lo, hi) {
            seq![(n - 1) as usize]
        } else {
            Seq::empty()
        })
    }
}

/// The ascending positions, below `n`, whose point satisfies the tag
/// predicate.
pub open spec fn spec_tag_positions(
    points: Seq<DataPointView>,
    n: int,
    tags: TagsView,
    use_and: bool,
) -> Seq<usize>
    decreases n,
{
    if n <= 0 {
        Seq::empty()
    } else {
        spec_tag_positions(points, n - 1, tags, use_and) + (if spec_matches_tags(
            points[n - 1],
            tags,
            use_and,
        ) {
            seq![(n - 1) as usize]
        } else {
            Seq::empty()
        })
    }
}

/// The ascending positions, below `n`, whose point satisfies both.
pub open spec fn spec_combined_positions(
    points: Seq<DataPointView>,
    n: int,
    lo: i64,
    hi: i64,
    tags: TagsView,
    use_and: bool,
) -> Seq<usize>
    decreases n,
{
    if n <= 0 {
        Seq::empty()
    } else {
        spec_combined_positions(points, n - 1, lo, hi, tags, use_and) + (if spec_in_time(
            points[n - 1],
            lo,
            hi,
        ) && spec_matches_tags(points[n - 1], tags, use_and) {
            seq![(n - 1) as usize]
        } else {
            Seq::empty()
        })
    }
}

/// The combined query selects exactly the intersection of the time
/// predicate's positions and the tag predicate's positions.
pub proof fn lemma_combined_is_intersection(
    points: Seq<DataPointView>,
    n: int,
    lo: i64,
    hi: i64,
    tags: TagsView,
    use_and: bool,
)
    requires
        n <= usize::MAX,
    ensures
        forall|p: usize|
            spec_combined_positions(points, n, lo, hi, tags, use_and).contains(p) <==> (
            spec_time_positions(points, n, lo, hi).contains(p) && spec_tag_positions(
                points,
                n,
                tags,
                use_and,
            ).contains(p)),
    decreases n,
{
    if n > 0 {
        lemma_combined_is_intersection(points, n - 1, lo, hi, tags, use_and);
        assert forall|p: usize|
            spec_combined_positions(points, n, lo, hi, tags, use_and).contains(p) <==> (
            spec_time_positions(points, n, lo, hi).contains(p) && spec_tag_positions(
                points,
                n,
                tags,
                use_and,
            ).contains(p)) by {
            lemma_pred_positions_step(points, n, lo, hi, tags, use_and, p);
        }
    }
}

/// One unfolding step of the three predicate-position lists.
proof fn lemma_pred_positions_step(
    points: Seq<DataPointView>,
    n: int,
    lo: i64,
    hi: i64,
    tags: TagsView,
    use_and: bool,
    p: usize,
)
    requires
        n <= usize::MAX,
        n > 0,
        spec_combined_positions(points, n - 1, lo, hi, tags, use_and).contains(p) <==> (
        spec_time_positions(points, n - 1, lo, hi).contains(p) && spec_tag_positions(
            points,
            n - 1,
            tags,
            use_and,
        ).contains(p)),
    ensures
        spec_combined_positions(points, n, lo, hi, tags, use_and).contains(p) <==> (
        spec_time_positions(points, n, lo, hi).contains(p) && spec_tag_positions(
            points,
            n,
            tags,
            use_and,
        ).contains(p)),
{
    lemma_pred_positions_bound_time(points, n - 1, lo, hi);
    lemma_pred_positions_bound_tags(points, n - 1, tags, use_and);
    lemma_pred_positions_bound_combined(points, n - 1, lo, hi, tags, use_and);
    lemma_append_contains(
        spec_time_positions(points, n - 1, lo, hi),
        spec_time_positions(points, n, lo, hi),
        (if spec_in_time(points[n - 1], lo, hi) {
            seq![(n - 1) as usize]
        } else {
            Seq::empty()
        }),
        p,
    );
    lemma_append_contains(
        spec_tag_positions(points, n - 1, tags, use_and),
        spec_tag_positions(points, n, tags, use_and),
        (if spec_matches_tags(points[n - 1], tags, use_and) {
            seq![(n - 1) as usize]
        } else {
            Seq::empty()
        }),
        p,
    );
    lemma_append_contains(
        spec_combined_positions(points, n - 1, lo, hi, tags, use_and),
        spec_combined_positions(points, n, lo, hi, tags, use_and),
        (if spec_in_time(points[n - 1], lo, hi) && spec_matches_tags(
            points[n - 1],
            tags,
            use_and,
        ) {
            seq![(n - 1) as usize]
        } else {
            Seq::empty()
        }),
        p,
    );
}

/// Membership in `head + tail` splits over the parts.
proof fn lemma_append_contains(head: Seq<usize>, full: Seq<usize>, tail: Seq<usize>, p: usize)
    requires
        full == head + tail,
    ensures
        full.contains(p) <==> head.contains(p) || tail.contains(p),
{
    if head.contains(p) {
        let w = choose|w: int| 0 <= w < head.len() && head[w] == p;
        assert(full[w] == p);
    }
    if tail.contains(p) {
        let w = choose|w: int| 0 <= w < tail.len() && tail[w] == p;
        assert(full[head.len() + w] == p);
    }
    if full.contains(p) {
        let w = choose|w: int| 0 <= w < full.len() && full[w] == p;
        if w < head.len() {
            assert(head[w] == p);
        } else {
            assert(tail[w - head.len()] == p);
        }
    }
}

/// Every listed time position is below `n`.
proof fn lemma_pred_positions_bound_time(points: Seq<DataPointView>, n: int, lo: i64, hi: i64)
    requires
        n <= usize::MAX,
    ensures
        forall|p: usize| spec_time_positions(points, n, lo, hi).contains(p) ==> (p as int) < n,
    decreases n,
{
    if n > 0 {
        lemma_pred_positions_bound_time(points, n - 1, lo, hi);
        assert forall|p: usize|
            spec_time_positions(points, n, lo, hi).contains(p) implies (p as int) < n by {
            lemma_append_contains(
                spec_time_positions(points, n - 1, lo, hi),
                spec_time_positions(points, n, lo, hi),
                (if spec_in_time(points[n - 1], lo, hi) {
                    seq![(n - 1) as usize]
                } else {
                    Seq::empty()
                }),
                p,
            );
        }
    }
}

/// Every listed tag position is below `n`.
proof fn lemma_pred_positions_bound_tags(
    points: Seq<DataPointView>,
    n: int,
    tags: TagsView,
    use_and: bool,
)
    requires
        n <= usize::MAX,
    ensures
        forall|p: usize|
            spec_tag_positions(points, n, tags, use_and).contains(p) ==> (p as int) < n,
    decreases n,
{
    if n > 0 {
        lemma_pred_positions_bound_tags(points, n - 1, tags, use_and);
        assert forall|p: usize|
            spec_tag_positions(points, n, tags, use_and).contains(p) implies (p as int) < n by {
            lemma_append_contains(
                spec_tag_positions(points, n - 1, tags, use_and),
                spec_tag_positions(points, n, tags, use_and),
                (if spec_matches_tags(points[n - 1], tags, use_and) {
                    seq![(n - 1) as usize]
                } else {
                    Seq::empty()
                }),
                p,
            );
        }
    }
}

/// Every listed combined position is below `n`.
proof fn lemma_pred_positions_bound_combined(
    points: Seq<DataPointView>,
    n: int,
    lo: i64,
    hi: i64,
    tags: TagsView,
    use_and: bool,
)
    requires
        n <= usize::MAX,
    ensures
        forall|p: usize|
            spec_combined_positions(points, n, lo, hi, tags, use_and).contains(p) ==> (p as int)
                < n,
    decreases n,
{
    if n > 0 {
        lemma_pred_positions_bound_combined(points, n - 1, lo, hi, tags, use_and);
        assert forall|p: usize|
            spec_combined_positions(points, n, lo, hi, tags, use_and).contains(p) implies (
        p as int) < n by {
            lemma_append_contains(
                spec_combined_positions(points, n - 1, lo, hi, tags, use_and),
                spec_combined_positions(points, n, lo, hi, tags, use_and),
                (if spec_in_time(points[n - 1], lo, hi) && spec_matches_tags(
                    points[n - 1],
                    tags,
                    use_and,
                ) {
                    seq![(n - 1) as usize]
                } else {
                    Seq::empty()
                }),
                p,
            );
        }
    }
}

/// Membership of the time-predicate positions.
proof fn lemma_time_positions_membership(points: Seq<DataPointView>, n: int, lo: i64, hi: i64)
    requires
        n <= usize::MAX,
        n <= points.len(),
    ensures
        forall|p: usize|
            spec_time_positions(points, n, lo, hi).contains(p) <==> ((p as int) < n
                && spec_in_time(points[p as int], lo, hi)),
    decreases n,
{
    if n > 0 {
        lemma_time_positions_membership(points, n - 1, lo, hi);
        assert forall|p: usize|
            spec_time_positions(points, n, lo, hi).contains(p) <==> ((p as int) < n
                && spec_in_time(points[p as int], lo, hi)) by {
            lemma_append_contains(
                spec_time_positions(points, n - 1, lo, hi),
                spec_time_positions(points, n, lo, hi),
                (if spec_in_time(points[n - 1], lo, hi) {
                    seq![(n - 1) as usize]
                } else {
                    Seq::empty()
                }),
                p,
            );
            if (p as int) < n && spec_in_time(points[p as int], lo, hi) && (p as int) == n - 1 {
                assert(seq![(n - 1) as usize][0] == p);
                assert(seq![(n - 1) as usize].contains(p));
            }
        }
    }
}

/// Membership of the tag-predicate positions.
proof fn lemma_tag_positions_membership(
    points: Seq<DataPointView>,
    n: int,
    tags: TagsView,
    use_and: bool,
)
    requires
        n <= usize::MAX,
        n <= points.len(),
    ensures
        forall|p: usize|
            spec_tag_positions(points, n, tags, use_and).contains(p) <==> ((p as int) < n
                && spec_matches_tags(points[p as int], tags, use_and)),
    decreases n,
{
    if n > 0 {
        lemma_tag_positions_membership(points, n - 1, tags, use_and);
        assert forall|p: usize|
            spec_tag_positions(points, n, tags, use_and).contains(p) <==> ((p as int) < n
                && spec_matches_tags(points[p as int], tags, use_and)) by {
            lemma_append_contains(
                spec_tag_positions(points, n - 1, tags, use_and),
                spec_tag_positions(points, n, tags, use_and),
                (if spec_matches_tags(points[n - 1], tags, use_and) {
                    seq![(n - 1) as usize]
                } else {
                    Seq::empty()
                }),
                p,
            );
            if (p as int) < n && spec_matches_tags(points[p as int], tags, use_and) && (p as int)
                == n - 1 {
                assert(seq![(n - 1) as usize][0] == p);
                assert(seq![(n - 1) as usize].contains(p));
            }
        }
    }
}

/// Membership of the combined-predicate positions.
proof fn lemma_combined_positions_membership(
    points: Seq<DataPointView>,
    n: int,
    lo: i64,
    hi: i64,
    tags: TagsView,
    use_and: bool,
)
    requires
        n <= usize::MAX,
        n <= points.len(),
    ensures
        forall|p: usize|
            spec_combined_positions(points, n, lo, hi, tags, use_and).contains(p) <==> ((p as int)
                < n && spec_in_time(points[p as int], lo, hi) && spec_matches_tags(
                points[p as int],
                tags,
                use_and,
            )),
    decreases n,
{
    if n > 0 {
        lemma_combined_positions_membership(points, n - 1, lo, hi, tags, use_and);
        assert forall|p: usize|
            spec_combined_positions(points, n, lo, hi, tags, use_and).contains(p) <==> ((
        p as int) < n && spec_in_time(points[p as int], lo, hi) && spec_matches_tags(
            points[p as int],
            tags,
            use_and,
        )) by {
            lemma_append_contains(
                spec_combined_positions(points, n - 1, lo, hi, tags, use_and),
                spec_combined_positions(points, n, lo, hi, tags, use_and),
                (if spec_in_time(points[n - 1], lo, hi) && spec_matches_tags(
                    points[n - 1],
                    tags,
                    use_and,
                ) {
                    seq![(n - 1) as usize]
                } else {
                    Seq::empty()
                }),
                p,
            );
            if (p as int) < n && spec_in_time(points[p as int], lo, hi) && spec_matches_tags(
                points[p as int],
                tags,
                use_and,
            ) && (p as int) == n - 1 {
                assert(seq![(n - 1) as usize][0] == p);
                assert(seq![(n - 1) as usize].contains(p));
            }
        }
    }
}

/// The predicate-position lists are strictly increasing.
proof fn lemma_time_positions_sorted(points: Seq<DataPointView>, n: int, lo: i64, hi: i64)
    requires
        n <= usize::MAX,
    ensures
        strictly_sorted_pos(spec_time_positions(points, n, lo, hi)),
    decreases n,
{
    if n > 0 {
        lemma_time_positions_sorted(points, n - 1, lo, hi);
        lemma_pred_positions_bound_time(points, n - 1, lo, hi);
        let head = spec_time_positions(points, n - 1, lo, hi);
        let full = spec_time_positions(points, n, lo, hi);
        assert forall|a: int, b: int| 0 <= a < b < full.len() implies full[a] < full[b] by {
            if b < head.len() {
            } else {
                assert(head.contains(head[a]));
            }
        }
    }
}

/// The tag-position list is strictly increasing.
proof fn lemma_tag_positions_sorted(
    points: Seq<DataPointView>,
    n: int,
    tags: TagsView,
    use_and: bool,
)
    requires
        n <= usize::MAX,
    ensures
        strictly_sorted_pos(spec_tag_positions(points, n, tags, use_and)),
    decreases n,
{
    if n > 0 {
        lemma_tag_positions_sorted(points, n - 1, tags, use_and);
        lemma_pred_positions_bound_tags(points, n - 1, tags, use_and);
        let head = spec_tag_positions(points, n - 1, tags, use_and);
        let full = spec_tag_positions(points, n, tags, use_and);
        assert forall|a: int, b: int| 0 <= a < b < full.len() implies full[a] < full[b] by {
            if b < head.len() {
            } else {
                assert(head.contains(head[a]));
            }
        }
    }
}

/// The combined-position list is strictly increasing.
proof fn lemma_combined_positions_sorted(
    points: Seq<DataPointView>,
    n: int,
    lo: i64,
    hi: i64,
    tags: TagsView,
    use_and: bool,
)
    requires
        n <= usize::MAX,
    ensures
        strictly_sorted_pos(spec_combined_positions(points, n, lo, hi, tags, use_and)),
    decreases n,
{
    if n > 0 {
        lemma_combined_positions_sorted(points, n - 1, lo, hi, tags, use_and);
        lemma_pred_positions_bound_combined(points, n - 1, lo, hi, tags, use_and);
        let head = spec_combined_positions(points, n - 1, lo, hi, tags, use_and);
        let full = spec_combined_positions(points, n, lo, hi, tags, use_and);
        assert forall|a: int, b: int| 0 <= a < b < full.len() implies full[a] < full[b] by {
            if b < head.len() {
            } else {
                assert(head.contains(head[a]));
            }
        }
    }
}

/// Two strictly increasing lists with the same members are equal.
proof fn lemma_strictly_sorted_same_set(a: Seq<usize>, b: Seq<usize>)
    requires
        strictly_sorted_pos(a),
        strictly_sorted_pos(b),
        forall|p: usize| a.contains(p) <==> b.contains(p),
    ensures
        a == b,
    decreases a.len(),
{
    if a.len() == 0 {
        if b.len() > 0 {
            assert(b.contains(b[0]));
            assert(a.contains(b[0]));
        }
        assert(a =~= b);
    } else {
        assert(a.contains(a[0]));
        assert(b.contains(a[0]));
        if b.len() == 0 {
            assert(!b.contains(a[0]));
        }
        assert(b.contains(b[0]));
        assert(a.contains(b[0]));
        let wa = choose|w: int| 0 <= w < a.len() && a[w] == b[0];
        let wb = choose|w: int| 0 <= w < b.len() && b[w] == a[0];
        assert(a[0] <= a[wa]);
        assert(b[0] <= b[wb]);
        assert(a[0] == b[0]);
        let atail = a.drop_first();
        let btail = b.drop_first();
        assert forall|p: usize| atail.contains(p) <==> btail.contains(p) by {
            lemma_strict_tail_membership(a, p);
            lemma_strict_tail_membership(b, p);
        }
        assert(strictly_sorted_pos(atail)) by {
            assert(forall|i: int, j: int|
                0 <= i < j < atail.len() ==> atail[i] == a[i + 1] && atail[j] == a[j + 1]);
        }
        assert(strictly_sorted_pos(btail)) by {
            assert(forall|i: int, j: int|
                0 <= i < j < btail.len() ==> btail[i] == b[i + 1] && btail[j] == b[j + 1]);
        }
        lemma_strictly_sorted_same_set(atail, btail);
        assert(a.len() == b.len());
        assert forall|i: int| 0 <= i < a.len() implies a[i] == b[i] by {
            if i > 0 {
                assert(atail[i - 1] == a[i]);
                assert(btail[i - 1] == b[i]);
            }
        }
        assert(a =~= b);
    }
}

/// In a strictly increasing list, the tail holds the members above the head.
proof fn lemma_strict_tail_membership(a: Seq<usize>, p: usize)
    requires
        strictly_sorted_pos(a),
        a.len() > 0,
    ensures
        a.drop_first().contains(p) <==> (a.contains(p) && p != a[0]),
{
    let tail = a.drop_first();
    if tail.contains(p) {
        let w = choose|w: int| 0 <= w < tail.len() && tail[w] == p;
        assert(a[w + 1] == p);
        assert(a[0] < a[w + 1]);
    }
    if a.contains(p) && p != a[0] {
        let w = choose|w: int| 0 <= w < a.len() && a[w] == p;
        assert(w > 0);
        assert(tail[w - 1] == p);
    }
}

/// Statistics of a combined index.
#[derive(Debug, Clone, Copy)]
pub struct CombinedIndexStats {
    pub time_stats: IndexStats,
    pub total_data_points: usize,
    pub unique_tag_keys: usize,
    pub memory_usage: usize,
}

/// The combined index: the authoritative sample arena plus the time index
/// and the tag index over stable positions into it.
#[derive(Debug)]
pub struct CombinedIndex {
    time_index: TimeIndex,
    tag_index: TagIndex,
    data_points: Vec<DataPoint>,
}

impl CombinedIndex {
    /// The models of the stored samples, in position order.
    pub closed spec fn points(&self) -> Seq<DataPointView> {
        points_view(self.data_points@)
    }

    /// The time index's entries.
    pub closed spec fn time_entries(&self) -> TimeEntriesView {
        self.time_index.entries_view()
    }

    /// Well-formed: both indexes mirror the arena exactly.  For every
    /// timestamp, the time index lists exactly the positions of samples
    /// carrying it; for every pair, the tag index lists exactly the
    /// positions of samples bearing it; position lists are ascending.
    pub closed spec fn wf(&self) -> bool {
        &&& points_wf(self.points())
        &&& self.time_index.wf()
        &&& self.tag_index.wf()
        &&& self.time_index.spec_total_points() == self.points().len()
        &&& forall|t: i64, p: usize|
            #[trigger] self.time_index.spec_positions_at(t).contains(p) <==> ((p as int)
                < self.points().len() && self.points()[p as int].timestamp == t)
        &&& forall|t: i64| strictly_sorted_pos(#[trigger] self.time_index.spec_positions_at(t))
        &&& forall|k: Seq<char>, v: Seq<char>, p: usize|
            #[trigger] self.tag_index.spec_posting(k, v).contains(p) <==> ((p as int)
                < self.points().len() && match self.points()[p as int].tags {
                Some(pt) => crate::types::pairs_has(pt, k, v),
                None => false,
            })
        &&& forall|k: Seq<char>, v: Seq<char>|
            strictly_sorted_pos(#[trigger] self.tag_index.spec_posting(k, v))
        &&& forall|p: usize|
            #[trigger] self.tag_index.spec_has_position(p) ==> (p as int) < self.points().len()
    }

    /// An empty combined index.
    pub fn new() -> (c: Self)
        ensures
            c.wf(),
            c.points() == Seq::<DataPointView>::empty(),
    {
        let c = CombinedIndex {
            time_index: TimeIndex::new(),
            tag_index: TagIndex::new(),
            data_points: Vec::new(),
        };
        proof {
            assert(c.points() =~= Seq::<DataPointView>::empty());
            assert forall|t: i64| strictly_sorted_pos(
                #[trigger] c.time_index.spec_positions_at(t),
            ) by {
                assert(!c.time_index.spec_has_ts(t));
            }
            assert forall|t: i64, p: usize| !(#[trigger] c.time_index.spec_positions_at(
                t,
            ).contains(p)) by {
                assert(!c.time_index.spec_has_ts(t));
            }
            assert forall|k: Seq<char>, v: Seq<char>, p: usize| !(
            #[trigger] c.tag_index.spec_posting(k, v).contains(p)) by {
                assert(!spec_buckets_has(c.tag_index.buckets_view(), k, v));
            }
            assert forall|k: Seq<char>, v: Seq<char>| strictly_sorted_pos(
                #[trigger] c.tag_index.spec_posting(k, v),
            ) by {
                assert(!spec_buckets_has(c.tag_index.buckets_view(), k, v));
            }
        }
        c
    }

    /// Append a sample to the arena and register it in both indexes.
    pub fn add_point(&mut self, data_point: DataPoint)
        requires
            old(self).wf(),
            data_point.wf(),
            old(self).points().len() < usize::MAX,
        ensures
            final(self).wf(),
            final(self).points() == old(self).points().push(data_point@),
    {
        let position = self.data_points.len();
        let ghost dpv = data_point@;
        let ghost oldpoints = self.points();
        self.time_index.add_point(data_point.timestamp, position);
        match &data_point.tags {
            Some(t) => {
                proof {
                    assert(!self.tag_index.spec_has_position(position)) by {
                        if self.tag_index.spec_has_position(position) {
                            assert((position as int) < oldpoints.len());
                        }
                    }
                }
                self.tag_index.add_point(position, t);
            },
            None => {},
        }
        self.data_points.push(data_point);
        proof {
            assert(self.points() =~= oldpoints.push(dpv));
            let newpoints = self.points();
            assert(points_wf(newpoints)) by {
                assert forall|i: int|
                    0 <= i < newpoints.len() implies #[trigger] spec_point_wf(newpoints[i]) by {
                    if i < oldpoints.len() {
                        assert(newpoints[i] == oldpoints[i]);
                        assert(spec_point_wf(oldpoints[i]));
                    }
                }
            }
            assert forall|t: i64, p: usize|
                #[trigger] self.time_index.spec_positions_at(t).contains(p) <==> ((p as int)
                    < newpoints.len() && newpoints[p as int].timestamp == t) by {
                if t == dpv.timestamp {
                    assert(self.time_index.spec_positions_at(t) == old(
                        self,
                    ).time_index.spec_positions_at(t).push(position));
                    lemma_push_contains(
                        old(self).time_index.spec_positions_at(t),
                        position,
                        p,
                    );
                } else {
                    assert(self.time_index.spec_positions_at(t) == old(
                        self,
                    ).time_index.spec_positions_at(t));
                }
                if (p as int) < oldpoints.len() {
                    assert(newpoints[p as int] == oldpoints[p as int]);
                }
            }
            assert forall|t: i64| strictly_sorted_pos(
                #[trigger] self.time_index.spec_positions_at(t),
            ) by {
                if t == dpv.timestamp {
                    let pre = old(self).time_index.spec_positions_at(t);
                    assert(self.time_index.spec_positions_at(t) == pre.push(position));
                    assert forall|a: int, b: int|
                        0 <= a < b < pre.push(position).len() implies pre.push(position)[a]
                        < pre.push(position)[b] by {
                        if b < pre.len() {
                            assert(strictly_sorted_pos(pre));
                        } else {
                            assert(pre.contains(pre[a]));
                            assert((pre[a] as int) < oldpoints.len());
                        }
                    }
                } else {
                    assert(self.time_index.spec_positions_at(t) == old(
                        self,
                    ).time_index.spec_positions_at(t));
                }
            }
            assert forall|k: Seq<char>, v: Seq<char>, p: usize|
                #[trigger] self.tag_index.spec_posting(k, v).contains(p) <==> ((p as int)
                    < newpoints.len() && match newpoints[p as int].tags {
                    Some(pt) => crate::types::pairs_has(pt, k, v),
                    None => false,
                }) by {
                let pre = old(self).tag_index.spec_posting(k, v);
                match dpv.tags {
                    Some(dt) => {
                        if crate::types::pairs_has(dt, k, v) {
                            assert(self.tag_index.spec_posting(k, v) == pre + seq![position]);
                            lemma_append_contains(
                                pre,
                                self.tag_index.spec_posting(k, v),
                                seq![position],
                                p,
                            );
                            if p == position {
                                assert(seq![position][0] == p);
                            }
                        } else {
                            assert(self.tag_index.spec_posting(k, v) == pre
                                + Seq::<usize>::empty());
                            assert(self.tag_index.spec_posting(k, v) =~= pre);
                        }
                    },
                    None => {
                        assert(self.tag_index.spec_posting(k, v) == pre);
                    },
                }
                if (p as int) < oldpoints.len() {
                    assert(newpoints[p as int] == oldpoints[p as int]);
                }
            }
            assert forall|k: Seq<char>, v: Seq<char>| strictly_sorted_pos(
                #[trigger] self.tag_index.spec_posting(k, v),
            ) by {
                let pre = old(self).tag_index.spec_posting(k, v);
                let cur = self.tag_index.spec_posting(k, v);
                match dpv.tags {
                    Some(dt) => {
                        if crate::types::pairs_has(dt, k, v) {
                            assert(cur == pre + seq![position]);
                            assert forall|a: int, b: int|
                                0 <= a < b < cur.len() implies cur[a] < cur[b] by {
                                if b < pre.len() {
                                    assert(strictly_sorted_pos(pre));
                                    assert(cur[a] == pre[a] && cur[b] == pre[b]);
                                } else {
                                    assert(cur[a] == pre[a]);
                                    assert(pre.contains(pre[a]));
                                    assert((pre[a] as int) < oldpoints.len());
                                    assert(cur[b] == position);
                                }
                            }
                        } else {
                            assert(cur =~= pre);
                        }
                    },
                    None => {
                        assert(cur == pre);
                    },
                }
            }
            assert forall|p: usize|
                #[trigger] self.tag_index.spec_has_position(p) implies (p as int)
                < newpoints.len() by {
                match dpv.tags {
                    Some(_) => {
                        let rv = self.tag_index.reverse_view();
                        let rvpre = old(self).tag_index.reverse_view();
                        assert(rv == rvpre.push((position, dpv.tags.unwrap())));
                        let w = choose|w: int|
                            0 <= w < rv.len() && #[trigger] rv[w].0 == p;
                        if w < rvpre.len() {
                            assert(rvpre[w].0 == p);
                            assert(old(self).tag_index.spec_has_position(p));
                        }
                    },
                    None => {
                        assert(self.tag_index.reverse_view() == old(
                            self,
                        ).tag_index.reverse_view());
                    },
                }
            }
        }
    }

    /// Append several samples, in order.
    pub fn add_points(&mut self, data_points: Vec<DataPoint>)
        requires
            old(self).wf(),
            points_wf(points_view(data_points@)),
            old(self).points().len() + data_points@.len() <= usize::MAX,
        ensures
            final(self).wf(),
            final(self).points() == old(self).points() + points_view(data_points@),
    {
        let ghost incoming = points_view(data_points@);
        let count = data_points.len();
        let mut rest = data_points;
        let mut i: usize = 0;
        proof {
            assert(self.points() =~= old(self).points() + incoming.take(0));
        }
        while i < count
            invariant
                self.wf(),
                count == incoming.len(),
                rest@.len() == count - i,
                i <= count,
                forall|j: int| 0 <= j < rest@.len() ==> (#[trigger] rest@[j])@ == incoming[i + j],
                points_wf(incoming),
                old(self).points().len() + count <= usize::MAX,
                self.points() == old(self).points() + incoming.take(i as int),
            decreases count - i,
        {
            let ghost pre = self.points();
            let dp = rest.remove(0);
            proof {
                assert(dp@ == incoming[i as int]);
                assert(spec_point_wf(incoming[i as int]));
            }
            self.add_point(dp);
            proof {
                assert(incoming.take(i as int + 1) =~= incoming.take(i as int).push(
                    incoming[i as int],
                ));
                assert(self.points() =~= old(self).points() + incoming.take(i as int + 1));
                assert forall|j: int|
                    0 <= j < rest@.len() implies (#[trigger] rest@[j])@ == incoming[i + 1 + j] by {}
            }
            i = i + 1;
        }
        proof {
            assert(incoming.take(count as int) =~= incoming);
        }
    }
}

impl CombinedIndex {
    /// The samples at the listed positions, in list order.
    fn select_points(&self, ps: &Vec<usize>) -> (r: Vec<DataPoint>)
        requires
            forall|i: int| 0 <= i < ps@.len() ==> (#[trigger] ps@[i] as int) < self.points().len(),
        ensures
            points_view(r@) == spec_select(self.points(), ps@),
    {
        let n = ps.len();
        let mut r: Vec<DataPoint> = Vec::new();
        let mut i: usize = 0;
        proof {
            assert(points_view(r@) =~= spec_select(self.points(), ps@.take(0)));
        }
        while i < n
            invariant
                n == ps@.len(),
                i <= n,
                forall|j: int|
                    0 <= j < ps@.len() ==> (#[trigger] ps@[j] as int) < self.points().len(),
                self.points().len() == self.data_points@.len(),
                points_view(r@) == spec_select(self.points(), ps@.take(i as int)),
            decreases n - i,
        {
            let ghost before = points_view(r@);
            let p = ps[i];
            r.push(self.data_points[p].duplicate());
            proof {
                assert(points_view(r@) =~= before.push(self.points()[p as int]));
                assert(points_view(r@) =~= spec_select(self.points(), ps@.take(i as int + 1)));
            }
            i = i + 1;
        }
        proof {
            assert(ps@.take(n as int) =~= ps@);
        }
        r
    }

    /// Samples whose timestamp lies in `[start, end]`, ascending by
    /// position: exactly those the time predicate selects.
    pub fn query_time_range(&self, start: i64, end: i64) -> (r: Vec<DataPoint>)
        requires
            self.wf(),
        ensures
            points_view(r@) == spec_select(
                self.points(),
                spec_time_positions(self.points(), self.points().len() as int, start, end),
            ),
    {
        let raw = self.time_index.get_range(start, end);
        let ps = dedup_sorted(&raw);
        let ghost n = self.points().len() as int;
        proof {
            let canonical = spec_time_positions(self.points(), n, start, end);
            lemma_time_positions_membership(self.points(), n, start, end);
            lemma_time_positions_sorted(self.points(), n, start, end);
            assert forall|p: usize| ps@.contains(p) <==> canonical.contains(p) by {
                if ps@.contains(p) {
                    let t = choose|t: i64|
                        start <= t <= end && #[trigger] self.time_index.spec_positions_at(
                            t,
                        ).contains(p);
                    assert((p as int) < n && self.points()[p as int].timestamp == t);
                }
                if canonical.contains(p) {
                    let t = self.points()[p as int].timestamp;
                    assert(self.time_index.spec_positions_at(t).contains(p));
                }
            }
            lemma_strictly_sorted_same_set(ps@, canonical);
            assert forall|i: int| 0 <= i < ps@.len() implies (#[trigger] ps@[i] as int)
                < self.points().len() by {
                assert(ps@.contains(ps@[i]));
                assert(canonical.contains(ps@[i]));
            }
        }
        self.select_points(&ps)
    }

    /// Samples matching the tag predicate, ascending by position: exactly
    /// those the tag predicate selects.
    pub fn query_tags(&self, tags: &TagSet, use_and: bool) -> (r: Vec<DataPoint>)
        requires
            self.wf(),
            tags.wf(),
        ensures
            points_view(r@) == spec_select(
                self.points(),
                spec_tag_positions(
                    self.points(),
                    self.points().len() as int,
                    tags@,
                    use_and,
                ),
            ),
    {
        let ps = if use_and {
            self.tag_index.get_by_tags_and(tags)
        } else {
            self.tag_index.get_by_tags_or(tags)
        };
        let ghost n = self.points().len() as int;
        proof {
            let canonical = spec_tag_positions(self.points(), n, tags@, use_and);
            lemma_tag_positions_membership(self.points(), n, tags@, use_and);
            lemma_tag_positions_sorted(self.points(), n, tags@, use_and);
            assert forall|p: usize| ps@.contains(p) <==> canonical.contains(p) by {
                if use_and {
                    if tags@.len() == 0 {
                        assert(!ps@.contains(p));
                        assert(!spec_matches_tags(self.points()[p as int], tags@, use_and));
                    } else {
                        if ps@.contains(p) {
                            assert(self.tag_index.spec_posting(tags@[0].0, tags@[0].1).contains(
                                p,
                            ));
                            assert((p as int) < n);
                            assert forall|j: int|
                                0 <= j < tags@.len() implies crate::types::pairs_has(
                                self.points()[p as int].tags.unwrap(),
                                #[trigger] tags@[j].0,
                                tags@[j].1,
                            ) by {
                                assert(self.tag_index.spec_posting(
                                    tags@[j].0,
                                    tags@[j].1,
                                ).contains(p));
                            }
                        }
                        if canonical.contains(p) {
                            assert forall|j: int|
                                0 <= j < tags@.len() implies (#[trigger] self.tag_index.spec_posting(
                                tags@[j].0,
                                tags@[j].1,
                            )).contains(p) by {
                                assert(crate::types::pairs_has(
                                    self.points()[p as int].tags.unwrap(),
                                    tags@[j].0,
                                    tags@[j].1,
                                ));
                            }
                        }
                    }
                } else {
                    if ps@.contains(p) {
                        let j = choose|j: int|
                            0 <= j < tags@.len() && (#[trigger] self.tag_index.spec_posting(
                                tags@[j].0,
                                tags@[j].1,
                            )).contains(p);
                        assert((p as int) < n);
                        assert(crate::types::pairs_has(
                            self.points()[p as int].tags.unwrap(),
                            tags@[j].0,
                            tags@[j].1,
                        ));
                    }
                    if canonical.contains(p) {
                        let j = choose|j: int|
                            0 <= j < tags@.len() && crate::types::pairs_has(
                                self.points()[p as int].tags.unwrap(),
                                #[trigger] tags@[j].0,
                                tags@[j].1,
                            );
                        assert(self.tag_index.spec_posting(tags@[j].0, tags@[j].1).contains(p));
                    }
                }
            }
            lemma_strictly_sorted_same_set(ps@, canonical);
            assert forall|i: int| 0 <= i < ps@.len() implies (#[trigger] ps@[i] as int)
                < self.points().len() by {
                assert(ps@.contains(ps@[i]));
                assert(canonical.contains(ps@[i]));
            }
        }
        self.select_points(&ps)
    }

    /// Samples satisfying both the time range and the tag predicate,
    /// ascending by position.  The intersection is unconditional; `use_and`
    /// only governs how the tag pairs combine.
    pub fn query_combined(&self, start: i64, end: i64, tags: &TagSet, use_and: bool) -> (r: Vec<
        DataPoint,
    >)
        requires
            self.wf(),
            tags.wf(),
        ensures
            points_view(r@) == spec_select(
                self.points(),
                spec_combined_positions(
                    self.points(),
                    self.points().len() as int,
                    start,
                    end,
                    tags@,
                    use_and,
                ),
            ),
    {
        let raw = self.time_index.get_range(start, end);
        let time_ps = dedup_sorted(&raw);
        let tag_ps = if use_and {
            self.tag_index.get_by_tags_and(tags)
        } else {
            self.tag_index.get_by_tags_or(tags)
        };
        let ps = intersect_sorted(&time_ps, &tag_ps);
        let ghost n = self.points().len() as int;
        proof {
            let canonical = spec_combined_positions(
                self.points(),
                n,
                start,
                end,
                tags@,
                use_and,
            );
            lemma_time_positions_membership(self.points(), n, start, end);
            lemma_tag_positions_membership(self.points(), n, tags@, use_and);
            lemma_combined_positions_membership(self.points(), n, start, end, tags@, use_and);
            lemma_combined_positions_sorted(self.points(), n, start, end, tags@, use_and);
            assert forall|p: usize| time_ps@.contains(p) <==> spec_time_positions(
                self.points(),
                n,
                start,
                end,
            ).contains(p) by {
                if time_ps@.contains(p) {
                    let t = choose|t: i64|
                        start <= t <= end && #[trigger] self.time_index.spec_positions_at(
                            t,
                        ).contains(p);
                    assert((p as int) < n && self.points()[p as int].timestamp == t);
                }
                if spec_time_positions(self.points(), n, start, end).contains(p) {
                    let t = self.points()[p as int].timestamp;
                    assert(self.time_index.spec_positions_at(t).contains(p));
                }
            }
            assert forall|p: usize| tag_ps@.contains(p) <==> spec_tag_positions(
                self.points(),
                n,
                tags@,
                use_and,
            ).contains(p) by {
                if use_and {
                    if tags@.len() == 0 {
                        assert(!tag_ps@.contains(p));
                        assert(!spec_matches_tags(self.points()[p as int], tags@, use_and));
                    } else {
                        if tag_ps@.contains(p) {
                            assert(self.tag_index.spec_posting(tags@[0].0, tags@[0].1).contains(
                                p,
                            ));
                            assert((p as int) < n);
                            assert forall|j: int|
                                0 <= j < tags@.len() implies crate::types::pairs_has(
                                self.points()[p as int].tags.unwrap(),
                                #[trigger] tags@[j].0,
                                tags@[j].1,
                            ) by {
                                assert(self.tag_index.spec_posting(
                                    tags@[j].0,
                                    tags@[j].1,
                                ).contains(p));
                            }
                        }
                        if spec_tag_positions(self.points(), n, tags@, use_and).contains(p) {
                            assert forall|j: int|
                                0 <= j < tags@.len() implies (#[trigger] self.tag_index.spec_posting(
                                tags@[j].0,
                                tags@[j].1,
                            )).contains(p) by {
                                assert(crate::types::pairs_has(
                                    self.points()[p as int].tags.unwrap(),
                                    tags@[j].0,
                                    tags@[j].1,
                                ));
                            }
                        }
                    }
                } else {
                    if tag_ps@.contains(p) {
                        let j = choose|j: int|
                            0 <= j < tags@.len() && (#[trigger] self.tag_index.spec_posting(
                                tags@[j].0,
                                tags@[j].1,
                            )).contains(p);
                        assert((p as int) < n);
                        assert(crate::types::pairs_has(
                            self.points()[p as int].tags.unwrap(),
                            tags@[j].0,
                            tags@[j].1,
                        ));
                    }
                    if spec_tag_positions(self.points(), n, tags@, use_and).contains(p) {
                        let j = choose|j: int|
                            0 <= j < tags@.len() && crate::types::pairs_has(
                                self.points()[p as int].tags.unwrap(),
                                #[trigger] tags@[j].0,
                                tags@[j].1,
                            );
                        assert(self.tag_index.spec_posting(tags@[j].0, tags@[j].1).contains(p));
                    }
                }
            }
            assert forall|p: usize| ps@.contains(p) <==> canonical.contains(p) by {}
            lemma_strictly_sorted_same_set(ps@, canonical);
            assert forall|i: int| 0 <= i < ps@.len() implies (#[trigger] ps@[i] as int)
                < self.points().len() by {
                assert(ps@.contains(ps@[i]));
                assert(canonical.contains(ps@[i]));
            }
        }
        self.select_points(&ps)
    }

    /// The latest `count` samples in timestamp order (ties in insertion
    /// order): the tail of the time-ordered position list.
    pub fn get_latest(&self, count: usize) -> (r: Vec<DataPoint>)
        requires
            self.wf(),
        ensures
            ({
                let all = flat_in_range(self.time_entries(), i64::MIN, i64::MAX);
                let k = if count as int <= all.len() {
                    count as int
                } else {
                    all.len() as int
                };
                points_view(r@) == spec_select(self.points(), all.skip(all.len() - k))
            }),
    {
        let all = self.time_index.collect_range(i64::MIN, i64::MAX);
        proof {
            lemma_flat_in_range_membership(&self.time_index, i64::MIN, i64::MAX);
            assert forall|i: int| 0 <= i < all@.len() implies (#[trigger] all@[i] as int)
                < self.points().len() by {
                assert(all@.contains(all@[i]));
                let t = choose|t: i64|
                    i64::MIN <= t <= i64::MAX && #[trigger] self.time_index.spec_positions_at(
                        t,
                    ).contains(all@[i]);
            }
        }
        let take_n = if count <= all.len() {
            count
        } else {
            all.len()
        };
        let start = all.len() - take_n;
        let mut tail: Vec<usize> = Vec::new();
        let mut i: usize = start;
        while i < all.len()
            invariant
                start <= i <= all@.len(),
                tail@ == all@.subrange(start as int, i as int),
            decreases all.len() - i,
        {
            tail.push(all[i]);
            proof {
                assert(tail@ =~= all@.subrange(start as int, i as int + 1));
            }
            i = i + 1;
        }
        proof {
            assert(all@.subrange(start as int, all@.len() as int) =~= all@.skip(start as int));
            assert forall|j: int| 0 <= j < tail@.len() implies (#[trigger] tail@[j] as int)
                < self.points().len() by {
                assert(tail@[j] == all@[start + j]);
            }
        }
        self.select_points(&tail)
    }

    /// Number of stored samples.
    pub fn len(&self) -> (n: usize)
        ensures
            n == self.points().len(),
    {
        self.data_points.len()
    }

    /// Whether the index holds no samples.
    pub fn is_empty(&self) -> (b: bool)
        ensures
            b == (self.points().len() == 0),
    {
        self.data_points.len() == 0
    }

    /// Drop all indexes and samples.
    pub fn clear(&mut self)
        ensures
            final(self).wf(),
            final(self).points() == Seq::<DataPointView>::empty(),
    {
        self.time_index.clear();
        self.tag_index.clear();
        self.data_points.clear();
        proof {
            assert(self.points() =~= Seq::<DataPointView>::empty());
            assert forall|t: i64, p: usize| !(#[trigger] self.time_index.spec_positions_at(
                t,
            ).contains(p)) by {
                assert(!self.time_index.spec_has_ts(t));
            }
            assert forall|t: i64| strictly_sorted_pos(
                #[trigger] self.time_index.spec_positions_at(t),
            ) by {
                assert(!self.time_index.spec_has_ts(t));
            }
            assert forall|k: Seq<char>, v: Seq<char>, p: usize| !(
            #[trigger] self.tag_index.spec_posting(k, v).contains(p)) by {
                assert(!spec_buckets_has(self.tag_index.buckets_view(), k, v));
            }
            assert forall|k: Seq<char>, v: Seq<char>| strictly_sorted_pos(
                #[trigger] self.tag_index.spec_posting(k, v),
            ) by {
                assert(!spec_buckets_has(self.tag_index.buckets_view(), k, v));
            }
        }
    }

    /// A snapshot of combined statistics; memory figures are estimates.
    pub fn stats(&self) -> (s: CombinedIndexStats)
        requires
            self.wf(),
        ensures
            s.total_data_points == self.points().len(),
    {
        let time_stats = self.time_index.stats();
        let keys = self.tag_index.get_tag_keys();
        let data_mem = self.data_points.len().checked_mul(64).unwrap_or(usize::MAX);
        let tag_mem = self.tag_index.total_points().checked_mul(64).unwrap_or(usize::MAX);
        let memory_usage = time_stats.memory_usage.checked_add(data_mem).unwrap_or(
            usize::MAX,
        ).checked_add(tag_mem).unwrap_or(usize::MAX);
        CombinedIndexStats {
            time_stats,
            total_data_points: self.data_points.len(),
            unique_tag_keys: keys.len(),
            memory_usage,
        }
    }
}

impl Default for CombinedIndex {
    /// The empty combined index.
    fn default() -> (c: Self)
        ensures
            c.wf(),
            c.points() == Seq::<DataPointView>::empty(),
    {
        CombinedIndex::new()
    }
}

/// Membership after a push: the pushed value, or an old member.
proof fn lemma_push_contains(s: Seq<usize>, x: usize, p: usize)
    ensures
        s.push(x).contains(p) <==> (s.contains(p) || p == x),
{
    if s.contains(p) {
        let w = choose|w: int| 0 <= w < s.len() && s[w] == p;
        assert(s.push(x)[w] == p);
    }
    if p == x {
        assert(s.push(x)[s.len() as int] == p);
    }
    if s.push(x).contains(p) {
        let w = choose|w: int| 0 <= w < s.push(x).len() && s.push(x)[w] == p;
        if w < s.len() {
            assert(s[w] == p);
        }
    }
}

/// Membership in the flattened range equals membership under some
/// timestamp in the range.
proof fn lemma_flat_in_range_membership(idx: &TimeIndex, start: i64, end: i64)
    requires
        idx.wf(),
    ensures
        forall|p: usize|
            flat_in_range(idx.entries_view(), start, end).contains(p) <==> exists|t: i64|
                start <= t <= end && #[trigger] idx.spec_positions_at(t).contains(p),
{
    let es = idx.entries_view();
    assert forall|p: usize| flat_in_range(es, start, end).contains(p) implies exists|t: i64|
        start <= t <= end && #[trigger] idx.spec_positions_at(t).contains(p) by {
        let k = lemma_flat_in_range_source(es, start, end, p);
        lemma_entry_lookup(es, k);
        assert(idx.spec_positions_at(es[k].0).contains(p));
    }
    assert forall|p: usize, t: i64|
        start <= t <= end && #[trigger] idx.spec_positions_at(t).contains(p) implies flat_in_range(
        es,
        start,
        end,
    ).contains(p) by {
        assert(spec_entries_has(es, t));
        let w = choose|w: int| 0 <= w < es.len() && #[trigger] es[w].0 == t;
        lemma_entry_lookup(es, w);
        lemma_flat_in_range_member(es, start, end, w, p);
    }
}

/// A member of the flattened range comes from some entry in the range.
proof fn lemma_flat_in_range_source(es: TimeEntriesView, start: i64, end: i64, p: usize) -> (k: int)
    requires
        flat_in_range(es, start, end).contains(p),
    ensures
        0 <= k < es.len(),
        start <= es[k].0 <= end,
        es[k].1.contains(p),
    decreases es.len(),
{
    if es.len() == 0 {
        0
    } else {
        let head = flat_in_range(es.drop_last(), start, end);
        let full = flat_in_range(es, start, end);
        let w = choose|w: int| 0 <= w < full.len() && full[w] == p;
        if w < head.len() {
            assert(head[w] == p);
            lemma_flat_in_range_source(es.drop_last(), start, end, p)
        } else {
            assert(start <= es.last().0 <= end);
            assert(es.last().1[w - head.len()] == p);
            es.len() - 1
        }
    }
}

/// An entry in the range contributes each of its positions.
proof fn lemma_flat_in_range_member(es: TimeEntriesView, start: i64, end: i64, k: int, p: usize)
    requires
        0 <= k < es.len(),
        start <= es[k].0 <= end,
        es[k].1.contains(p),
    ensures
        flat_in_range(es, start, end).contains(p),
    decreases es.len(),
{
    if k == es.len() - 1 {
        let head = flat_in_range(es.drop_last(), start, end);
        let w = choose|w: int| 0 <= w < es[k].1.len() && es[k].1[w] == p;
        assert(flat_in_range(es, start, end)[head.len() + w] == p);
    } else {
        lemma_flat_in_range_member(es.drop_last(), start, end, k, p);
        let head = flat_in_range(es.drop_last(), start, end);
        let w = choose|w: int| 0 <= w < head.len() && head[w] == p;
        assert(flat_in_range(es, start, end)[w] == p);
    }
}

} // verus!
