//! Bounded FIFO ring buffer over recent data points, with TTL and
//! capacity eviction.

use crate::clock::now_nanos;
use crate::error::TimeSeriesError;
use crate::types::{
    lemma_point_size_nonneg, points_wf, spec_point_size, spec_point_wf, DataPoint, DataPointView,
};
use std::collections::VecDeque;
use vstd::prelude::*;

verus! {

/// Sum of the sizes of a model sequence of points.
pub open spec fn sum_sizes(s: Seq<DataPointView>) -> int
    decreases s.len(),
{
    if s.len() == 0 {
        0
    } else {
        spec_point_size(s[0]) + sum_sizes(s.drop_first())
    }
}

/// Appending a point adds its size to the sum.
pub proof fn lemma_sum_sizes_push(s: Seq<DataPointView>, p: DataPointView)
    ensures
        sum_sizes(s.push(p)) == sum_sizes(s) + spec_point_size(p),
    decreases s.len(),
{
    if s.len() == 0 {
        assert(s.push(p).drop_first() =~= Seq::<DataPointView>::empty());
        assert(sum_sizes(Seq::<DataPointView>::empty()) == 0);
    } else {
        assert(s.push(p).drop_first() =~= s.drop_first().push(p));
        lemma_sum_sizes_push(s.drop_first(), p);
    }
}

/// The size sum is never negative.
pub proof fn lemma_sum_sizes_nonneg(s: Seq<DataPointView>)
    ensures
        sum_sizes(s) >= 0,
    decreases s.len(),
{
    if s.len() > 0 {
        lemma_point_size_nonneg(s[0]);
        lemma_sum_sizes_nonneg(s.drop_first());
    }
}

/// Whether a point is expired at wall-clock `now` under a TTL in seconds.
pub open spec fn spec_expired(now: i64, ttl_seconds: u64, p: DataPointView) -> bool {
    ttl_seconds > 0 && now - p.timestamp > ttl_seconds * 1000000000
}

/// Contents after dropping the expired prefix, front first.
pub open spec fn spec_drop_expired(s: Seq<DataPointView>, now: i64, ttl_seconds: u64) -> Seq<
    DataPointView,
>
    decreases s.len(),
{
    if s.len() > 0 && spec_expired(now, ttl_seconds, s[0]) {
        spec_drop_expired(s.drop_first(), now, ttl_seconds)
    } else {
        s
    }
}

/// TTL eviction only shortens the buffer.
pub proof fn lemma_drop_expired_len(s: Seq<DataPointView>, now: i64, ttl_seconds: u64)
    ensures
        spec_drop_expired(s, now, ttl_seconds).len() <= s.len(),
    decreases s.len(),
{
    if s.len() > 0 && spec_expired(now, ttl_seconds, s[0]) {
        lemma_drop_expired_len(s.drop_first(), now, ttl_seconds);
    }
}

/// TTL eviction only releases memory.
pub proof fn lemma_drop_expired_sum(s: Seq<DataPointView>, now: i64, ttl_seconds: u64)
    ensures
        sum_sizes(spec_drop_expired(s, now, ttl_seconds)) <= sum_sizes(s),
    decreases s.len(),
{
    if s.len() > 0 && spec_expired(now, ttl_seconds, s[0]) {
        lemma_point_size_nonneg(s[0]);
        lemma_drop_expired_sum(s.drop_first(), now, ttl_seconds);
    }
}

/// Concatenation distributes over the size sum.
pub proof fn lemma_sum_sizes_concat(a: Seq<DataPointView>, b: Seq<DataPointView>)
    ensures
        sum_sizes(a + b) == sum_sizes(a) + sum_sizes(b),
    decreases a.len(),
{
    if a.len() == 0 {
        assert(a + b =~= b);
    } else {
        assert((a + b)[0] == a[0]);
        assert((a + b).drop_first() =~= a.drop_first() + b);
        lemma_sum_sizes_concat(a.drop_first(), b);
    }
}

/// One capacity-evicting push, with no TTL in play: the oldest point
/// leaves when the buffer is full, and the new point joins at the back.
pub open spec fn spec_push_step(
    contents: Seq<DataPointView>,
    capacity: usize,
    p: DataPointView,
) -> Seq<DataPointView> {
    if contents.len() >= capacity && contents.len() > 0 {
        contents.drop_first().push(p)
    } else {
        contents.push(p)
    }
}

/// A sequence of capacity-evicting pushes, in order, with no TTL in play.
pub open spec fn spec_push_all(
    contents: Seq<DataPointView>,
    capacity: usize,
    views: Seq<DataPointView>,
) -> Seq<DataPointView>
    decreases views.len(),
{
    if views.len() == 0 {
        contents
    } else {
        spec_push_all(spec_push_step(contents, capacity, views[0]), capacity, views.drop_first())
    }
}

/// Pushing a concatenation is pushing the parts in turn.
pub proof fn lemma_push_all_concat(
    contents: Seq<DataPointView>,
    capacity: usize,
    a: Seq<DataPointView>,
    b: Seq<DataPointView>,
)
    ensures
        spec_push_all(contents, capacity, a + b) == spec_push_all(
            spec_push_all(contents, capacity, a),
            capacity,
            b,
        ),
    decreases a.len(),
{
    if a.len() == 0 {
        assert(a + b =~= b);
    } else {
        assert((a + b)[0] == a[0]);
        assert((a + b).drop_first() =~= a.drop_first() + b);
        lemma_push_all_concat(spec_push_step(contents, capacity, a[0]), capacity, a.drop_first(), b);
    }
}

/// Extending the pushed batch by one point takes one more step.
pub proof fn lemma_push_all_snoc(
    contents: Seq<DataPointView>,
    capacity: usize,
    views: Seq<DataPointView>,
    i: int,
)
    requires
        0 <= i < views.len(),
    ensures
        spec_push_all(contents, capacity, views.take(i + 1)) == spec_push_step(
            spec_push_all(contents, capacity, views.take(i)),
            capacity,
            views[i],
        ),
    decreases 0int,
{
    let single = seq![views[i]];
    assert(views.take(i + 1) =~= views.take(i) + single);
    lemma_push_all_concat(contents, capacity, views.take(i), single);
    let mid = spec_push_all(contents, capacity, views.take(i));
    assert(single[0] == views[i]);
    assert(single.drop_first() =~= Seq::<DataPointView>::empty());
    assert(spec_push_all(spec_push_step(mid, capacity, views[i]), capacity, single.drop_first())
        == spec_push_step(mid, capacity, views[i]));
}

/// Bounded FIFO buffer of recent data points.
///
/// `push` first drops expired points from the front (when a TTL is set),
/// then evicts the oldest point if the buffer is at capacity, and appends
/// the new point at the back.  The memory counter always equals the summed
/// size of the contents; no point leaves without `total_evicted` growing.
#[derive(Debug)]
pub struct CircularBuffer {
    buffer: VecDeque<DataPoint>,
    capacity: usize,
    ttl_seconds: u64,
    total_written: u64,
    total_evicted: u64,
    memory_usage: usize,
}

/// A snapshot of buffer statistics.
#[derive(Debug, Clone, Copy)]
pub struct BufferStats {
    pub capacity: usize,
    pub current_size: usize,
    pub memory_usage: usize,
    pub total_written: u64,
    pub total_evicted: u64,
    pub is_full: bool,
    pub oldest_timestamp: Option<i64>,
    pub newest_timestamp: Option<i64>,
}

impl CircularBuffer {
    /// The models of the buffered points, front first.
    pub closed spec fn contents(&self) -> Seq<DataPointView> {
        Seq::new(self.buffer@.len(), |i: int| self.buffer@[i]@)
    }

    /// The configured capacity.
    pub closed spec fn spec_capacity(&self) -> usize {
        self.capacity
    }

    /// The configured TTL in seconds (0 = no expiration).
    pub closed spec fn spec_ttl(&self) -> u64 {
        self.ttl_seconds
    }

    /// Points written over the buffer's lifetime, evicted ones included.
    pub closed spec fn spec_total_written(&self) -> u64 {
        self.total_written
    }

    /// Points evicted over the buffer's lifetime.
    pub closed spec fn spec_total_evicted(&self) -> u64 {
        self.total_evicted
    }

    /// The memory counter.
    pub closed spec fn spec_memory(&self) -> usize {
        self.memory_usage
    }

    /// The largest length `push` leaves behind: the capacity, or one for a
    /// zero-capacity buffer, which holds the point just pushed.
    pub open spec fn cap_limit(&self) -> int {
        if self.spec_capacity() == 0 {
            1
        } else {
            self.spec_capacity() as int
        }
    }

    /// Well-formed: bounded, memory counter exact, tags well-formed.
    pub open spec fn wf(&self) -> bool {
        &&& self.contents().len() <= self.cap_limit()
        &&& self.spec_memory() == sum_sizes(self.contents())
        &&& points_wf(self.contents())
    }

    /// An empty buffer with the given capacity and no TTL.
    pub fn new(capacity: usize) -> (b: Self)
        ensures
            b.wf(),
            b.contents() == Seq::<DataPointView>::empty(),
            b.spec_capacity() == capacity,
            b.spec_ttl() == 0,
            b.spec_total_written() == 0,
            b.spec_total_evicted() == 0,
            b.spec_memory() == 0,
    {
        let b = CircularBuffer {
            buffer: VecDeque::new(),
            capacity,
            ttl_seconds: 0,
            total_written: 0,
            total_evicted: 0,
            memory_usage: 0,
        };
        proof {
            assert(b.contents() =~= Seq::<DataPointView>::empty());
        }
        b
    }

    /// An empty buffer with the given capacity and TTL.
    pub fn with_ttl(capacity: usize, ttl_seconds: u64) -> (b: Self)
        ensures
            b.wf(),
            b.contents() == Seq::<DataPointView>::empty(),
            b.spec_capacity() == capacity,
            b.spec_ttl() == ttl_seconds,
            b.spec_total_written() == 0,
            b.spec_total_evicted() == 0,
            b.spec_memory() == 0,
    {
        let b = CircularBuffer {
            buffer: VecDeque::new(),
            capacity,
            ttl_seconds,
            total_written: 0,
            total_evicted: 0,
            memory_usage: 0,
        };
        proof {
            assert(b.contents() =~= Seq::<DataPointView>::empty());
        }
        b
    }

    /// Drop expired points from the front, against the given clock reading.
    fn remove_expired_at(&mut self, now: i64)
        requires
            old(self).wf(),
            old(self).spec_total_evicted() + old(self).contents().len() <= u64::MAX,
        ensures
            final(self).wf(),
            final(self).contents() == spec_drop_expired(
                old(self).contents(),
                now,
                old(self).spec_ttl(),
            ),
            final(self).spec_capacity() == old(self).spec_capacity(),
            final(self).spec_ttl() == old(self).spec_ttl(),
            final(self).spec_total_written() == old(self).spec_total_written(),
            final(self).spec_total_evicted() == old(self).spec_total_evicted() + (old(self).contents().len() - final(self).contents().len()),
    {
        if self.ttl_seconds == 0 {
            return;
        }
        let ghost orig = old(self).contents();
        loop
            invariant
                self.wf(),
                self.spec_ttl() == old(self).spec_ttl(),
                self.spec_ttl() > 0,
                self.spec_capacity() == old(self).spec_capacity(),
                self.spec_total_written() == old(self).spec_total_written(),
                orig == old(self).contents(),
                self.contents().len() <= orig.len(),
                spec_drop_expired(self.contents(), now, self.spec_ttl()) == spec_drop_expired(
                    orig,
                    now,
                    self.spec_ttl(),
                ),
                self.spec_total_evicted() == old(self).spec_total_evicted() + (orig.len()
                    - self.contents().len()),
                old(self).spec_total_evicted() + orig.len() <= u64::MAX,
            ensures
                self.wf(),
                self.spec_ttl() == old(self).spec_ttl(),
                self.spec_capacity() == old(self).spec_capacity(),
                self.spec_total_written() == old(self).spec_total_written(),
                self.contents() == spec_drop_expired(orig, now, self.spec_ttl()),
                self.spec_total_evicted() == old(self).spec_total_evicted() + (orig.len()
                    - self.contents().len()),
            decreases self.contents().len(),
        {
            if self.buffer.len() == 0 {
                break;
            }
            let front_ts = self.buffer[0].timestamp;
            let expired = (now as i128) - (front_ts as i128) > (self.ttl_seconds as i128)
                * 1000000000i128;
            proof {
                assert(expired == spec_expired(now, self.spec_ttl(), self.contents()[0]));
            }
            if !expired {
                break;
            }
            let ghost pre = self.contents();
            let removed = self.buffer.pop_front();
            match removed {
                Some(removed) => {
                    proof {
                        assert(self.contents() =~= pre.drop_first());
                        assert(removed@ == pre[0]);
                        lemma_sum_sizes_nonneg(self.contents());
                        lemma_point_size_nonneg(removed@);
                        assert(sum_sizes(pre) == spec_point_size(pre[0]) + sum_sizes(
                            pre.drop_first(),
                        ));
                    }
                    let sz = removed.size_bytes();
                    self.memory_usage = self.memory_usage - sz;
                    self.total_evicted = self.total_evicted + 1;
                },
                None => {
                    proof {
                        assert(false);
                    }
                },
            }
        }
    }

    /// Push a point, using the given clock reading for TTL eviction.
    ///
    /// The exact effect: expired points leave the front; then, if the
    /// remainder fills the capacity, the oldest point leaves; the new point
    /// joins at the back.  Every departure counts into `total_evicted`.
    pub fn push_at(&mut self, data_point: DataPoint, now: i64)
        requires
            old(self).wf(),
            data_point.wf(),
            old(self).spec_total_written() < u64::MAX,
            old(self).spec_total_evicted() + old(self).contents().len() + 1 <= u64::MAX,
            old(self).spec_memory() + spec_point_size(data_point@) <= usize::MAX,
        ensures
            final(self).wf(),
            final(self).spec_capacity() == old(self).spec_capacity(),
            final(self).spec_ttl() == old(self).spec_ttl(),
            final(self).spec_total_written() == old(self).spec_total_written() + 1,
            ({
                let mid = spec_drop_expired(old(self).contents(), now, old(self).spec_ttl());
                let evict = mid.len() >= old(self).spec_capacity() && mid.len() > 0;
                &&& final(self).contents() == (if evict {
                    mid.drop_first().push(data_point@)
                } else {
                    mid.push(data_point@)
                })
                &&& final(self).spec_total_evicted() == old(self).spec_total_evicted() + (old(self).contents().len() - mid.len()) + (if evict {
                    1int
                } else {
                    0int
                })
            }),
            final(self).spec_memory() <= old(self).spec_memory() + spec_point_size(data_point@),
            final(self).spec_total_evicted() + final(self).contents().len() == old(
                self,
            ).spec_total_evicted() + old(self).contents().len() + 1,
            (old(self).contents().len() < old(self).spec_capacity() && (old(self).spec_ttl() == 0
                || old(self).contents().len() == 0 || !spec_expired(
                now,
                old(self).spec_ttl(),
                old(self).contents()[0],
            ))) ==> final(self).contents().len() == old(self).contents().len() + 1 && final(self).spec_memory() == old(self).spec_memory() + spec_point_size(data_point@) && final(self).spec_total_evicted() == old(self).spec_total_evicted(),
            (old(self).contents().len() == old(self).spec_capacity() && old(self).spec_capacity()
                > 0 && (old(self).spec_ttl() == 0 || !spec_expired(
                now,
                old(self).spec_ttl(),
                old(self).contents()[0],
            ))) ==> final(self).contents().len() == old(self).contents().len() && final(self).spec_total_evicted() == old(self).spec_total_evicted() + 1 && final(self).spec_memory() == old(self).spec_memory() + spec_point_size(data_point@)
                - spec_point_size(old(self).contents()[0]),
    {
        proof {
            if old(self).spec_ttl() == 0 || old(self).contents().len() == 0 || !spec_expired(
                now,
                old(self).spec_ttl(),
                old(self).contents()[0],
            ) {
                assert(spec_drop_expired(old(self).contents(), now, old(self).spec_ttl()) == old(self).contents());
            }
        }
        self.remove_expired_at(now);
        let ghost mid = self.contents();
        if self.buffer.len() >= self.capacity {
            let removed = self.buffer.pop_front();
            match removed {
                Some(removed) => {
                    proof {
                        assert(self.contents() =~= mid.drop_first());
                        assert(removed@ == mid[0]);
                        lemma_sum_sizes_nonneg(self.contents());
                        lemma_point_size_nonneg(removed@);
                        assert(sum_sizes(mid) == spec_point_size(mid[0]) + sum_sizes(
                            mid.drop_first(),
                        ));
                    }
                    let sz = removed.size_bytes();
                    self.memory_usage = self.memory_usage - sz;
                    self.total_evicted = self.total_evicted + 1;
                },
                None => {},
            }
        }
        let ghost before_push = self.contents();
        proof {
            lemma_sum_sizes_nonneg(before_push);
            lemma_point_size_nonneg(data_point@);
            lemma_drop_expired_len(old(self).contents(), now, old(self).spec_ttl());
            lemma_drop_expired_sum(old(self).contents(), now, old(self).spec_ttl());
            if mid.len() >= old(self).spec_capacity() && mid.len() > 0 {
                assert(sum_sizes(mid) == spec_point_size(mid[0]) + sum_sizes(mid.drop_first()));
                lemma_point_size_nonneg(mid[0]);
            }
        }
        let sz = data_point.size_bytes();
        self.memory_usage = self.memory_usage + sz;
        self.buffer.push_back(data_point);
        self.total_written = self.total_written + 1;
        proof {
            assert(self.contents() =~= before_push.push(data_point@));
            lemma_sum_sizes_push(before_push, data_point@);
            assert(points_wf(self.contents()));
        }
    }

    /// Push a point, reading the wall clock for TTL eviction.  Infallible.
    pub fn push(&mut self, data_point: DataPoint) -> (r: Result<(), TimeSeriesError>)
        requires
            old(self).wf(),
            data_point.wf(),
            old(self).spec_total_written() < u64::MAX,
            old(self).spec_total_evicted() + old(self).contents().len() + 1 <= u64::MAX,
            old(self).spec_memory() + spec_point_size(data_point@) <= usize::MAX,
        ensures
            r is Ok,
            final(self).wf(),
            final(self).spec_capacity() == old(self).spec_capacity(),
            final(self).spec_ttl() == old(self).spec_ttl(),
            final(self).spec_total_written() == old(self).spec_total_written() + 1,
            final(self).spec_memory() <= old(self).spec_memory() + spec_point_size(data_point@),
            final(self).spec_total_evicted() + final(self).contents().len() == old(
                self,
            ).spec_total_evicted() + old(self).contents().len() + 1,
            old(self).spec_ttl() == 0 ==> final(self).contents() == spec_push_step(
                old(self).contents(),
                old(self).spec_capacity(),
                data_point@,
            ),
            old(self).spec_ttl() == 0 ==> ({
                let evict = old(self).contents().len() >= old(self).spec_capacity() && old(self).contents().len() > 0;
                &&& final(self).spec_total_evicted() == old(self).spec_total_evicted() + (if evict {
                    1int
                } else {
                    0int
                })
            }),
            (old(self).spec_ttl() == 0 && old(self).contents().len() < old(
                self,
            ).spec_capacity()) ==> final(self).contents().len() == old(self).contents().len() + 1
                && final(self).spec_memory() == old(self).spec_memory() + spec_point_size(
                data_point@,
            ) && final(self).spec_total_evicted() == old(self).spec_total_evicted(),
            (old(self).spec_ttl() == 0 && old(self).contents().len() == old(
                self,
            ).spec_capacity() && old(self).spec_capacity() > 0) ==> final(self).contents().len()
                == old(self).contents().len() && final(self).spec_total_evicted() == old(
                self,
            ).spec_total_evicted() + 1 && final(self).spec_memory() == old(self).spec_memory()
                + spec_point_size(data_point@) - spec_point_size(old(self).contents()[0]),
    {
        let now = now_nanos();
        proof {
            if old(self).spec_ttl() == 0 {
                assert(spec_drop_expired(old(self).contents(), now, 0) == old(self).contents());
            }
        }
        self.push_at(data_point, now);
        Ok(())
    }

    /// Data points whose timestamp lies in `[start, end]`, in buffer order.
    pub fn get_range(&self, start: i64, end: i64) -> (r: Vec<DataPoint>)
        ensures
            crate::types::points_view(r@) == spec_in_range(self.contents(), start, end),
    {
        let mut r: Vec<DataPoint> = Vec::new();
        let n = self.buffer.len();
        let mut i: usize = 0;
        while i < n
            invariant
                n == self.contents().len(),
                i <= n,
                crate::types::points_view(r@) == spec_in_range(
                    self.contents().take(i as int),
                    start,
                    end,
                ),
            decreases n - i,
        {
            let ghost before = crate::types::points_view(r@);
            let ghost prefix = self.contents().take(i as int);
            let p = &self.buffer[i];
            if p.timestamp >= start && p.timestamp <= end {
                r.push(p.duplicate());
                proof {
                    assert(crate::types::points_view(r@) =~= before.push(p@));
                }
            }
            proof {
                let prefix2 = self.contents().take(i as int + 1);
                assert(prefix2.drop_last() =~= prefix);
                assert(prefix2.last() == self.contents()[i as int]);
                if start <= p@.timestamp <= end {
                    assert(crate::types::points_view(r@) =~= spec_in_range(prefix, start, end)
                        + seq![self.contents()[i as int]]);
                } else {
                    assert(spec_in_range(prefix2, start, end) =~= spec_in_range(
                        prefix,
                        start,
                        end,
                    ));
                }
            }
            i = i + 1;
        }
        proof {
            assert(self.contents().take(n as int) =~= self.contents());
        }
        r
    }

    /// The most recent `count` data points, in buffer order.
    pub fn get_latest(&self, count: usize) -> (r: Vec<DataPoint>)
        ensures
            crate::types::points_view(r@) == self.contents().skip(
                self.contents().len() - (if count as int <= self.contents().len() {
                    count as int
                } else {
                    self.contents().len() as int
                }),
            ),
    {
        let n = self.buffer.len();
        let take_n = if count <= n {
            count
        } else {
            n
        };
        let start = n - take_n;
        let mut r: Vec<DataPoint> = Vec::new();
        let mut i: usize = start;
        while i < n
            invariant
                n == self.contents().len(),
                start <= i <= n,
                crate::types::points_view(r@) == self.contents().subrange(start as int, i as int),
            decreases n - i,
        {
            let ghost before = crate::types::points_view(r@);
            r.push(self.buffer[i].duplicate());
            proof {
                assert(crate::types::points_view(r@) =~= before.push(self.contents()[i as int]));
                assert(crate::types::points_view(r@) =~= self.contents().subrange(
                    start as int,
                    i as int + 1,
                ));
            }
            i = i + 1;
        }
        proof {
            assert(self.contents().subrange(start as int, n as int) =~= self.contents().skip(
                start as int,
            ));
        }
        r
    }

    /// All buffered data points, in buffer order.
    pub fn get_all(&self) -> (r: Vec<DataPoint>)
        ensures
            crate::types::points_view(r@) == self.contents(),
    {
        let n = self.buffer.len();
        let mut r: Vec<DataPoint> = Vec::new();
        let mut i: usize = 0;
        while i < n
            invariant
                n == self.contents().len(),
                i <= n,
                crate::types::points_view(r@) == self.contents().take(i as int),
            decreases n - i,
        {
            let ghost before = crate::types::points_view(r@);
            r.push(self.buffer[i].duplicate());
            proof {
                assert(crate::types::points_view(r@) =~= before.push(self.contents()[i as int]));
                assert(crate::types::points_view(r@) =~= self.contents().take(i as int + 1));
            }
            i = i + 1;
        }
        proof {
            assert(self.contents().take(n as int) =~= self.contents());
        }
        r
    }

    /// Number of buffered data points.
    pub fn len(&self) -> (n: usize)
        ensures
            n == self.contents().len(),
    {
        self.buffer.len()
    }

    /// Whether the buffer holds no points.
    pub fn is_empty(&self) -> (b: bool)
        ensures
            b == (self.contents().len() == 0),
    {
        self.buffer.len() == 0
    }

    /// Whether the buffer is at or beyond capacity.
    pub fn is_full(&self) -> (b: bool)
        ensures
            b == (self.contents().len() >= self.spec_capacity()),
    {
        self.buffer.len() >= self.capacity
    }

    /// The configured capacity.
    pub fn capacity(&self) -> (n: usize)
        ensures
            n == self.spec_capacity(),
    {
        self.capacity
    }

    /// Current memory usage in bytes: the summed size of the contents.
    pub fn memory_usage(&self) -> (n: usize)
        ensures
            n == self.spec_memory(),
    {
        self.memory_usage
    }

    /// Total points written over the buffer's lifetime.
    pub fn total_written(&self) -> (n: u64)
        ensures
            n == self.spec_total_written(),
    {
        self.total_written
    }

    /// Total points evicted over the buffer's lifetime.
    pub fn total_evicted(&self) -> (n: u64)
        ensures
            n == self.spec_total_evicted(),
    {
        self.total_evicted
    }

    /// Drop all points; lifetime counters are kept.
    pub fn clear(&mut self)
        ensures
            final(self).wf(),
            final(self).contents() == Seq::<DataPointView>::empty(),
            final(self).spec_memory() == 0,
            final(self).spec_capacity() == old(self).spec_capacity(),
            final(self).spec_ttl() == old(self).spec_ttl(),
            final(self).spec_total_written() == old(self).spec_total_written(),
            final(self).spec_total_evicted() == old(self).spec_total_evicted(),
    {
        self.buffer.clear();
        self.memory_usage = 0;
        proof {
            assert(self.contents() =~= Seq::<DataPointView>::empty());
        }
    }

    /// Drop expired points, against the given clock reading.
    pub fn compact_at(&mut self, now: i64)
        requires
            old(self).wf(),
            old(self).spec_total_evicted() + old(self).contents().len() <= u64::MAX,
        ensures
            final(self).wf(),
            final(self).contents() == spec_drop_expired(
                old(self).contents(),
                now,
                old(self).spec_ttl(),
            ),
            final(self).spec_capacity() == old(self).spec_capacity(),
            final(self).spec_ttl() == old(self).spec_ttl(),
            final(self).spec_total_written() == old(self).spec_total_written(),
            final(self).spec_total_evicted() == old(self).spec_total_evicted() + (old(
                self,
            ).contents().len() - final(self).contents().len()),
    {
        self.remove_expired_at(now);
    }

    /// Drop expired points, reading the wall clock.
    pub fn compact(&mut self)
        requires
            old(self).wf(),
            old(self).spec_total_evicted() + old(self).contents().len() <= u64::MAX,
        ensures
            final(self).wf(),
            final(self).spec_capacity() == old(self).spec_capacity(),
            final(self).spec_ttl() == old(self).spec_ttl(),
            final(self).spec_total_written() == old(self).spec_total_written(),
    {
        let now = now_nanos();
        self.remove_expired_at(now);
    }

    /// A snapshot of the buffer's statistics.
    pub fn stats(&self) -> (s: BufferStats)
        ensures
            s.capacity == self.spec_capacity(),
            s.current_size == self.contents().len(),
            s.memory_usage == self.spec_memory(),
            s.total_written == self.spec_total_written(),
            s.total_evicted == self.spec_total_evicted(),
            s.is_full == (self.contents().len() >= self.spec_capacity()),
            s.oldest_timestamp == (if self.contents().len() > 0 {
                Some(self.contents()[0].timestamp)
            } else {
                None::<i64>
            }),
            s.newest_timestamp == (if self.contents().len() > 0 {
                Some(self.contents()[self.contents().len() - 1].timestamp)
            } else {
                None::<i64>
            }),
    {
        let n = self.buffer.len();
        BufferStats {
            capacity: self.capacity,
            current_size: n,
            memory_usage: self.memory_usage,
            total_written: self.total_written,
            total_evicted: self.total_evicted,
            is_full: n >= self.capacity,
            oldest_timestamp: if n > 0 {
                Some(self.buffer[0].timestamp)
            } else {
                None
            },
            newest_timestamp: if n > 0 {
                Some(self.buffer[n - 1].timestamp)
            } else {
                None
            },
        }
    }
}

/// Points of `s` whose timestamp lies in `[start, end]`, in order.
pub open spec fn spec_in_range(s: Seq<DataPointView>, start: i64, end: i64) -> Seq<DataPointView>
    decreases s.len(),
{
    if s.len() == 0 {
        Seq::empty()
    } else {
        spec_in_range(s.drop_last(), start, end) + (if start <= s.last().timestamp <= end {
            seq![s.last()]
        } else {
            Seq::empty()
        })
    }
}

} // verus!
