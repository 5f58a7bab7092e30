//! The engine façade: ring buffer, query engine and optional persistent
//! log wired together.
//!
//! The engine core is single-writer; the host wraps it in its own locks
//! and runs the background flusher.  When persistence is enabled, every
//! accepted write is sealed into the log immediately, so a flush boundary
//! is the last successful append; the log image is persisted by the host.

use crate::buffer::CircularBuffer;
use crate::clock::now_nanos;
use crate::error::TimeSeriesError;
use crate::persistence::MmapStorage;
use crate::query::{QueryBuilder, QueryEngine, QueryResult};
use crate::types::{
    points_view, points_wf, spec_point_size, DataPoint, DataPointView, TimeSeriesConfig,
};
use vstd::prelude::*;

verus! {

/// Engine statistics: counters, sizes and latency figures.
#[derive(Debug, Clone, Copy)]
pub struct EngineStats {
    pub total_writes: u64,
    pub total_queries: u64,
    pub total_flushes: u64,
    pub total_evicted: u64,
    pub buffer_size: usize,
    pub buffer_memory_usage: usize,
    pub index_memory_usage: usize,
    pub unique_timestamps: usize,
    pub storage_file_size: Option<usize>,
    pub storage_data_size: Option<usize>,
    pub write_latency_micros: u64,
    pub batch_write_latency_micros: u64,
    pub query_latency_micros: u64,
    pub last_write_nanos: Option<i64>,
    pub last_query_nanos: Option<i64>,
    pub last_flush_nanos: Option<i64>,
}

impl EngineStats {
    /// All-zero counters.
    fn new() -> (s: Self)
        ensures
            s.total_writes == 0,
            s.total_queries == 0,
            s.total_flushes == 0,
    {
        EngineStats {
            total_writes: 0,
            total_queries: 0,
            total_flushes: 0,
            total_evicted: 0,
            buffer_size: 0,
            buffer_memory_usage: 0,
            index_memory_usage: 0,
            unique_timestamps: 0,
            storage_file_size: None,
            storage_data_size: None,
            write_latency_micros: 0,
            batch_write_latency_micros: 0,
            query_latency_micros: 0,
            last_write_nanos: None,
            last_query_nanos: None,
            last_flush_nanos: None,
        }
    }

    /// Total memory usage: buffer plus index estimate.
    pub fn total_memory_usage(&self) -> (n: usize)
        ensures
            n == (if self.buffer_memory_usage + self.index_memory_usage <= usize::MAX {
                self.buffer_memory_usage + self.index_memory_usage
            } else {
                usize::MAX as int
            }),
    {
        self.buffer_memory_usage.checked_add(self.index_memory_usage).unwrap_or(usize::MAX)
    }
}

/// The storage engine: a bounded ring buffer of recent samples, the
/// indexed query engine, and an optional persistent log.
pub struct TimeSeriesEngine {
    config: TimeSeriesConfig,
    buffer: CircularBuffer,
    query_engine: QueryEngine,
    storage: Option<MmapStorage>,
    counters: EngineStats,
}

impl TimeSeriesEngine {
    /// The models of every indexed sample, in acceptance order.
    pub closed spec fn points(&self) -> Seq<DataPointView> {
        self.query_engine.points()
    }

    /// The time index's entries.
    pub closed spec fn time_entries(&self) -> crate::index::TimeEntriesView {
        self.query_engine.time_entries()
    }

    /// Whether the engine persists to a log.
    pub closed spec fn has_storage(&self) -> bool {
        self.storage is Some
    }

    /// The ring buffer's contents.
    pub closed spec fn spec_buffer_contents(&self) -> Seq<DataPointView> {
        self.buffer.contents()
    }

    /// The ring buffer's capacity.
    pub closed spec fn spec_buffer_capacity(&self) -> usize {
        self.buffer.spec_capacity()
    }

    /// The ring buffer's TTL in seconds.
    pub closed spec fn spec_buffer_ttl(&self) -> u64 {
        self.buffer.spec_ttl()
    }

    /// The ring buffer's lifetime written counter.
    pub closed spec fn spec_buffer_written(&self) -> u64 {
        self.buffer.spec_total_written()
    }

    /// The ring buffer's memory counter.
    pub closed spec fn spec_buffer_memory(&self) -> usize {
        self.buffer.spec_memory()
    }

    /// Whether the log — when present — is owed a successful append of
    /// this batch; trivially true without persistence.
    pub closed spec fn spec_log_append_fits(&self, batch: Seq<DataPointView>) -> bool {
        match self.storage {
            Some(s) => s.spec_append_fits(batch),
            None => true,
        }
    }

    /// Without persistence there is no log to refuse an append.
    pub proof fn lemma_no_log_always_fits(&self, batch: Seq<DataPointView>)
        requires
            !self.has_storage(),
        ensures
            self.spec_log_append_fits(batch),
    {
    }

    /// The bounds under which a write of this batch is owed success: the
    /// ring counters and memory have headroom, the arena has room, and
    /// the log — when present — fits the batch.
    pub open spec fn spec_write_fits(&self, batch: Seq<DataPointView>) -> bool {
        &&& self.spec_buffer_written() + batch.len() <= u64::MAX
        &&& self.spec_total_evicted() + self.spec_buffer_contents().len() + batch.len()
            <= u64::MAX
        &&& self.spec_buffer_memory() + crate::buffer::sum_sizes(batch) <= usize::MAX
        &&& self.points().len() + batch.len() <= usize::MAX
        &&& self.spec_log_append_fits(batch)
    }

    /// The persisted history, empty without a log.
    pub closed spec fn log_history(&self) -> Seq<DataPointView> {
        match self.storage {
            Some(s) => s.history(),
            None => Seq::empty(),
        }
    }

    /// Well-formed: each component is, and the log — when present —
    /// records exactly the indexed samples.
    pub closed spec fn wf(&self) -> bool {
        &&& self.buffer.wf()
        &&& self.query_engine.wf()
        &&& match self.storage {
            Some(s) => s.wf() && s.history() == self.query_engine.points(),
            None => true,
        }
    }

    /// An engine with the default configuration.
    pub fn new() -> (e: Self)
        ensures
            e.wf(),
            e.points() == Seq::<DataPointView>::empty(),
            !e.has_storage(),
            e.spec_buffer_contents() == Seq::<DataPointView>::empty(),
            e.spec_buffer_written() == 0,
            e.spec_total_evicted() == 0,
            e.spec_buffer_memory() == 0,
            forall|batch: Seq<DataPointView>| #[trigger] e.spec_log_append_fits(batch),
    {
        TimeSeriesEngine::with_config(TimeSeriesConfig::default())
    }

    /// An engine with a custom configuration.  Persistence starts with a
    /// fresh log image when enabled and a storage path is set; the host
    /// owns the backing file.
    pub fn with_config(config: TimeSeriesConfig) -> (e: Self)
        ensures
            e.wf(),
            e.points() == Seq::<DataPointView>::empty(),
            e.has_storage() == (config.enable_persistence && config.storage_path is Some),
            e.spec_buffer_contents() == Seq::<DataPointView>::empty(),
            e.spec_buffer_capacity() == config.max_capacity,
            e.spec_buffer_ttl() == config.ttl_seconds,
            e.spec_buffer_written() == 0,
            e.spec_total_evicted() == 0,
            e.spec_buffer_memory() == 0,
            !e.has_storage() ==> forall|batch: Seq<DataPointView>|
                #[trigger] e.spec_log_append_fits(batch),
    {
        let buffer = CircularBuffer::with_ttl(config.max_capacity, config.ttl_seconds);
        let query_engine = QueryEngine::new();
        let storage = if config.enable_persistence && matches!(&config.storage_path, Some(_)) {
            Some(MmapStorage::initialize_new(&config))
        } else {
            None
        };
        TimeSeriesEngine { config, buffer, query_engine, storage, counters: EngineStats::new() }
    }

    /// An engine recovered from the bytes of an existing log image: the
    /// header is validated, blocks are scanned, and the index is rebuilt
    /// from the recovered samples.  The ring buffer starts empty.
    pub fn open_from_image(config: TimeSeriesConfig, image: Vec<u8>) -> (r: Result<
        Self,
        TimeSeriesError,
    >)
        ensures
            r matches Ok(e) ==> e.wf() && e.has_storage() && e.points() == e.log_history()
                && e.spec_buffer_contents() == Seq::<DataPointView>::empty()
                && e.spec_buffer_written() == 0 && e.spec_total_evicted() == 0
                && e.spec_buffer_memory() == 0 && e.spec_buffer_capacity()
                == config.max_capacity && e.spec_buffer_ttl() == config.ttl_seconds,
            forall|h: crate::persistence::FileHeader, bs, bts|
                #[trigger] crate::persistence::spec_image_layout(
                    image@,
                    h,
                    bs,
                    bts,
                    73 + crate::persistence::spec_blocks_bytes(bs).len() as int,
                ) ==> (r matches Ok(e) && e.points() == crate::persistence::concat_batches(bts)),
    {
        let storage = MmapStorage::open_from_image(image)?;
        proof {
            crate::persistence::lemma_history_wf(&storage);
        }
        let recovered = match storage.read_all_data_points() {
            Ok(v) => v,
            Err(e) => {
                return Err(e);
            },
        };
        let rcount = recovered.len();
        proof {
            assert(points_view(recovered@).len() == rcount);
        }
        let buffer = CircularBuffer::with_ttl(config.max_capacity, config.ttl_seconds);
        let mut query_engine = QueryEngine::new();
        query_engine.add_data_points(recovered);
        let e = TimeSeriesEngine {
            config,
            buffer,
            query_engine,
            storage: Some(storage),
            counters: EngineStats::new(),
        };
        proof {
            assert(e.points() =~= e.log_history());
        }
        Ok(e)
    }

    /// Accept one sample: it is sealed into the log first (when
    /// persistence is on), then cached in the ring and indexed.  No
    /// partial success: on failure nothing is recorded.
    pub fn write(&mut self, data_point: DataPoint) -> (r: Result<(), TimeSeriesError>)
        requires
            old(self).wf(),
            data_point.wf(),
            spec_point_size(data_point@) <= usize::MAX,
        ensures
            final(self).wf(),
            old(self).spec_write_fits(seq![data_point@]) ==> r is Ok,
            r is Ok ==> final(self).points() == old(self).points().push(data_point@),
            r is Ok ==> final(self).spec_buffer_written() == old(self).spec_buffer_written() + 1
                && final(self).spec_buffer_capacity() == old(self).spec_buffer_capacity()
                && final(self).spec_buffer_ttl() == old(self).spec_buffer_ttl(),
            r is Ok && old(self).spec_buffer_ttl() == 0 ==> final(self).spec_buffer_contents()
                == crate::buffer::spec_push_step(
                old(self).spec_buffer_contents(),
                old(self).spec_buffer_capacity(),
                data_point@,
            ),
            r is Err ==> final(self).points() == old(self).points(),
    {
        proof {
            assert(crate::buffer::sum_sizes(seq![data_point@]) == spec_point_size(data_point@))
                by {
                assert(seq![data_point@].drop_first() =~= Seq::<DataPointView>::empty());
                assert(crate::buffer::sum_sizes(Seq::<DataPointView>::empty()) == 0);
                assert(seq![data_point@][0] == data_point@);
            }
        }
        let t0 = now_nanos();
        if self.buffer.total_written() == u64::MAX {
            return Err(
                TimeSeriesError::BufferOverflow {
                    capacity: self.buffer.capacity(),
                    size: self.buffer.len(),
                },
            );
        }
        if self.buffer.total_evicted() as u128 + self.buffer.len() as u128 + 1
            > u64::MAX as u128 {
            return Err(
                TimeSeriesError::BufferOverflow {
                    capacity: self.buffer.capacity(),
                    size: self.buffer.len(),
                },
            );
        }
        let size = data_point.size_bytes();
        if self.buffer.memory_usage() as u128 + size as u128 > usize::MAX as u128 {
            return Err(
                TimeSeriesError::BufferOverflow {
                    capacity: self.buffer.capacity(),
                    size: self.buffer.len(),
                },
            );
        }
        if self.query_engine.index().len() == usize::MAX {
            return Err(
                TimeSeriesError::BufferOverflow {
                    capacity: self.buffer.capacity(),
                    size: self.buffer.len(),
                },
            );
        }
        match &mut self.storage {
            Some(storage) => {
                let mut batch: Vec<DataPoint> = Vec::new();
                batch.push(data_point.duplicate());
                proof {
                    assert(points_view(batch@) =~= seq![data_point@]);
                    assert(points_wf(points_view(batch@)));
                }
                match storage.append_data_points(&batch) {
                    Ok(()) => {},
                    Err(e) => {
                        proof {
                            if old(self).spec_write_fits(seq![data_point@]) {
                                assert(false);
                            }
                        }
                        return Err(e);
                    },
                }
                proof {
                    assert(points_view(batch@).len() == 1);
                }
            },
            None => {},
        }
        let r = self.buffer.push(data_point.duplicate());
        match r {
            Ok(()) => {},
            Err(e) => {
                return Err(e);
            },
        }
        self.query_engine.add_data_point(data_point);
        self.counters.total_writes = self.counters.total_writes.wrapping_add(1);
        self.counters.last_write_nanos = Some(t0);
        let t1 = now_nanos();
        self.counters.write_latency_micros = nanos_between(t0, t1) / 1000;
        proof {
            assert(self.points() =~= old(self).points().push(data_point@));
            if self.storage is Some {
                assert(self.storage.unwrap().history() =~= self.query_engine.points());
            }
        }
        Ok(())
    }

    /// Accept a batch of samples, in order: the whole batch is sealed
    /// into one log block (when persistence is on), then each sample is
    /// cached in the ring and indexed.  Within the stated headroom the
    /// whole batch is owed success and reaches the ring; on failure
    /// nothing is recorded.
    pub fn write_batch(&mut self, data_points: Vec<DataPoint>) -> (r: Result<
        (),
        TimeSeriesError,
    >)
        requires
            old(self).wf(),
            points_wf(points_view(data_points@)),
            forall|i: int|
                0 <= i < data_points@.len() ==> spec_point_size(#[trigger] data_points@[i]@)
                    <= usize::MAX,
        ensures
            final(self).wf(),
            old(self).spec_write_fits(points_view(data_points@)) ==> r is Ok,
            r is Ok ==> final(self).points() == old(self).points() + points_view(data_points@),
            r is Ok ==> final(self).spec_buffer_written() == old(self).spec_buffer_written()
                + data_points@.len() && final(self).spec_buffer_capacity() == old(
                self,
            ).spec_buffer_capacity() && final(self).spec_buffer_ttl() == old(
                self,
            ).spec_buffer_ttl(),
            r is Ok && old(self).spec_buffer_ttl() == 0 ==> final(self).spec_buffer_contents()
                == crate::buffer::spec_push_all(
                old(self).spec_buffer_contents(),
                old(self).spec_buffer_capacity(),
                points_view(data_points@),
            ),
            r is Err ==> final(self).points() == old(self).points(),
    {
        let t0 = now_nanos();
        let ghost incoming = points_view(data_points@);
        let ghost fits = old(self).spec_write_fits(incoming);
        let count = data_points.len();
        if self.buffer.total_written() as u128 + count as u128 > u64::MAX as u128 {
            return Err(
                TimeSeriesError::BufferOverflow {
                    capacity: self.buffer.capacity(),
                    size: self.buffer.len(),
                },
            );
        }
        if self.buffer.total_evicted() as u128 + self.buffer.len() as u128 + count as u128
            > u64::MAX as u128 {
            return Err(
                TimeSeriesError::BufferOverflow {
                    capacity: self.buffer.capacity(),
                    size: self.buffer.len(),
                },
            );
        }
        let total_size = match batch_size_sum(&data_points) {
            Some(n) => n,
            None => {
                proof {
                    if fits {
                        crate::buffer::lemma_sum_sizes_nonneg(incoming);
                        assert(false);
                    }
                }
                return Err(
                    TimeSeriesError::BufferOverflow {
                        capacity: self.buffer.capacity(),
                        size: self.buffer.len(),
                    },
                );
            },
        };
        if self.buffer.memory_usage() as u128 + total_size > usize::MAX as u128 {
            return Err(
                TimeSeriesError::BufferOverflow {
                    capacity: self.buffer.capacity(),
                    size: self.buffer.len(),
                },
            );
        }
        if self.query_engine.index().len() as u128 + count as u128 > usize::MAX as u128 {
            return Err(
                TimeSeriesError::BufferOverflow {
                    capacity: self.buffer.capacity(),
                    size: self.buffer.len(),
                },
            );
        }
        match &mut self.storage {
            Some(storage) => {
                match storage.append_data_points(&data_points) {
                    Ok(()) => {},
                    Err(e) => {
                        proof {
                            if fits {
                                assert(false);
                            }
                        }
                        return Err(e);
                    },
                }
            },
            None => {},
        }
        let ghost mid = *self;
        proof {
            assert(incoming.skip(0) =~= incoming);
            assert(incoming.take(0) =~= Seq::<DataPointView>::empty());
        }
        let mut i: usize = 0;
        while i < count
            invariant
                self.buffer.wf(),
                count == data_points@.len(),
                i <= count,
                incoming == points_view(data_points@),
                points_wf(incoming),
                forall|j: int|
                    0 <= j < count ==> spec_point_size(#[trigger] data_points@[j]@) <= usize::MAX,
                self.buffer.spec_capacity() == mid.buffer.spec_capacity(),
                self.buffer.spec_ttl() == mid.buffer.spec_ttl(),
                self.buffer.spec_total_written() == mid.buffer.spec_total_written() + i,
                mid.buffer.spec_total_written() + count <= u64::MAX,
                self.buffer.spec_total_evicted() as int + self.buffer.contents().len() == mid.buffer.spec_total_evicted() + mid.buffer.contents().len() + i,
                mid.buffer.spec_total_evicted() + mid.buffer.contents().len() + count
                    <= u64::MAX,
                self.buffer.spec_memory() + crate::buffer::sum_sizes(incoming.skip(i as int))
                    <= usize::MAX,
                mid.buffer.spec_ttl() == 0 ==> self.buffer.contents()
                    == crate::buffer::spec_push_all(
                    mid.buffer.contents(),
                    mid.buffer.spec_capacity(),
                    incoming.take(i as int),
                ),
                self.query_engine == mid.query_engine,
                self.storage == mid.storage,
                self.config == mid.config,
                self.counters == mid.counters,
            decreases count - i,
        {
            let dp = data_points[i].duplicate();
            proof {
                assert(dp@ == incoming[i as int]);
                assert(crate::types::spec_point_wf(incoming[i as int]));
                assert(incoming.skip(i as int)[0] == incoming[i as int]);
                assert(incoming.skip(i as int).drop_first() =~= incoming.skip(i as int + 1));
                assert(crate::buffer::sum_sizes(incoming.skip(i as int)) == spec_point_size(
                    incoming[i as int],
                ) + crate::buffer::sum_sizes(incoming.skip(i as int + 1)));
                crate::buffer::lemma_sum_sizes_nonneg(incoming.skip(i as int + 1));
            }
            let pr = self.buffer.push(dp);
            match pr {
                Ok(()) => {},
                Err(_) => {},
            }
            proof {
                if mid.buffer.spec_ttl() == 0 {
                    crate::buffer::lemma_push_all_snoc(
                        mid.buffer.contents(),
                        mid.buffer.spec_capacity(),
                        incoming,
                        i as int,
                    );
                }
            }
            i = i + 1;
        }
        proof {
            assert(incoming.skip(count as int) =~= Seq::<DataPointView>::empty());
            if mid.buffer.spec_ttl() == 0 {
                assert(incoming.take(count as int) =~= incoming);
            }
        }
        self.query_engine.add_data_points(data_points);
        self.counters.total_writes = self.counters.total_writes.wrapping_add(count as u64);
        self.counters.last_write_nanos = Some(t0);
        let t1 = now_nanos();
        self.counters.batch_write_latency_micros = nanos_between(t0, t1) / 1000;
        proof {
            if self.storage is Some {
                assert(self.storage.unwrap().history() =~= self.query_engine.points());
            }
        }
        Ok(())
    }

    /// The samples whose timestamp lies in `[start, end]`, ascending by
    /// position.
    pub fn query_range(&mut self, start: i64, end: i64) -> (r: Result<
        Vec<DataPoint>,
        TimeSeriesError,
    >)
        requires
            old(self).wf(),
        ensures
            final(self).wf(),
            final(self).points() == old(self).points(),
            r matches Ok(v) && points_view(v@) == crate::index::spec_select(
                old(self).points(),
                crate::index::spec_time_positions(
                    old(self).points(),
                    old(self).points().len() as int,
                    start,
                    end,
                ),
            ),
    {
        let t0 = now_nanos();
        let result = self.query_engine.get_time_range(start, end);
        self.counters.total_queries = self.counters.total_queries.wrapping_add(1);
        self.counters.last_query_nanos = Some(t0);
        let t1 = now_nanos();
        self.counters.query_latency_micros = nanos_between(t0, t1) / 1000;
        Ok(result)
    }

    /// Run a query specification against the index.
    pub fn query(&mut self, query_builder: QueryBuilder) -> (r: Result<
        QueryResult,
        TimeSeriesError,
    >)
        requires
            old(self).wf(),
            query_builder.wf(),
        ensures
            final(self).wf(),
            final(self).points() == old(self).points(),
            ({
                let cands = crate::query::spec_candidates(
                    query_builder@,
                    old(self).points(),
                    old(self).time_entries(),
                );
                match query_builder@.aggregation {
                    None => r matches Ok(qr) && (qr matches QueryResult::DataPoints(ps)
                        && points_view(ps@) == (match query_builder@.limit {
                        Some(l) => cands.take(
                            if l as int <= cands.len() {
                                l as int
                            } else {
                                cands.len() as int
                            },
                        ),
                        None => cands,
                    })),
                    Some(agg) => match query_builder@.group_by_interval {
                        None => r matches Ok(qr) && crate::query::spec_simple_agg_ok(
                            qr,
                            agg,
                            cands,
                            query_builder@.start_time,
                            query_builder@.end_time,
                        ),
                        Some(interval) => if interval <= 0 {
                            r matches Err(e) && e is Query
                        } else {
                            r matches Ok(qr) && crate::query::spec_grouped_ok(
                                qr,
                                agg,
                                cands,
                                interval,
                            )
                        },
                    },
                }
            }),
    {
        let t0 = now_nanos();
        let result = self.query_engine.execute_query(&query_builder);
        self.counters.total_queries = self.counters.total_queries.wrapping_add(1);
        self.counters.last_query_nanos = Some(t0);
        let t1 = now_nanos();
        self.counters.query_latency_micros = nanos_between(t0, t1) / 1000;
        result
    }

    /// The latest `count` samples in timestamp order.
    pub fn get_latest(&mut self, count: usize) -> (r: Result<Vec<DataPoint>, TimeSeriesError>)
        requires
            old(self).wf(),
        ensures
            final(self).wf(),
            final(self).points() == old(self).points(),
            ({
                let all = crate::index::flat_in_range(
                    old(self).time_entries(),
                    i64::MIN,
                    i64::MAX,
                );
                let k = if count as int <= all.len() {
                    count as int
                } else {
                    all.len() as int
                };
                r matches Ok(v) && points_view(v@) == crate::index::spec_select(
                    old(self).points(),
                    all.skip(all.len() - k),
                )
            }),
    {
        let t0 = now_nanos();
        let result = self.query_engine.get_latest(count);
        self.counters.total_queries = self.counters.total_queries.wrapping_add(1);
        self.counters.last_query_nanos = Some(t0);
        let t1 = now_nanos();
        self.counters.query_latency_micros = nanos_between(t0, t1) / 1000;
        Ok(result)
    }

    /// A fresh unconstrained query specification.
    pub fn new_query(&self) -> (q: QueryBuilder)
        ensures
            q.wf(),
    {
        QueryBuilder::new()
    }

    /// Mark a flush boundary.  Everything accepted so far is already
    /// sealed into the log image; the host persists the image.
    pub fn flush(&mut self) -> (r: Result<(), TimeSeriesError>)
        requires
            old(self).wf(),
        ensures
            final(self).wf(),
            final(self).points() == old(self).points(),
            r is Ok,
    {
        match &self.storage {
            Some(storage) => {
                let fr = storage.flush();
                match fr {
                    Ok(()) => {},
                    Err(_) => {},
                }
                let t = now_nanos();
                self.counters.last_flush_nanos = Some(t);
                self.counters.total_flushes = self.counters.total_flushes.wrapping_add(1);
            },
            None => {},
        }
        Ok(())
    }

    /// The engine's configuration.
    pub closed spec fn spec_config(&self) -> TimeSeriesConfig {
        self.config
    }

    /// The engine's configuration.
    pub fn config(&self) -> (c: &TimeSeriesConfig)
        ensures
            *c == self.spec_config(),
    {
        &self.config
    }

    /// The log image bytes, for the host to persist; `None` without
    /// persistence.
    pub fn storage_image(&self) -> (r: Option<&Vec<u8>>)
        ensures
            r is Some <==> self.has_storage(),
    {
        match &self.storage {
            Some(storage) => Some(storage.image()),
            None => None,
        }
    }

    /// Read every persisted sample back from the log; empty without
    /// persistence.
    pub fn read_persisted(&self) -> (r: Result<Vec<DataPoint>, TimeSeriesError>)
        requires
            self.wf(),
        ensures
            r matches Ok(v) && points_view(v@) == self.log_history(),
    {
        match &self.storage {
            Some(storage) => storage.read_all_data_points(),
            None => {
                let empty: Vec<DataPoint> = Vec::new();
                proof {
                    assert(points_view(empty@) =~= Seq::<DataPointView>::empty());
                }
                Ok(empty)
            },
        }
    }

    /// A merged snapshot of engine statistics.
    pub fn stats(&self) -> (s: Result<EngineStats, TimeSeriesError>)
        requires
            self.wf(),
        ensures
            s matches Ok(st) && st.total_writes == self.spec_total_writes() && st.buffer_size
                == self.spec_buffer_len() && st.total_evicted == self.spec_total_evicted(),
    {
        let buffer_stats = self.buffer.stats();
        let query_stats = self.query_engine.stats();
        let mut merged = self.counters;
        merged.buffer_size = buffer_stats.current_size;
        merged.buffer_memory_usage = buffer_stats.memory_usage;
        merged.total_evicted = buffer_stats.total_evicted;
        merged.index_memory_usage = query_stats.memory_usage;
        merged.unique_timestamps = query_stats.unique_timestamps;
        match &self.storage {
            Some(storage) => {
                let st = storage.stats();
                merged.storage_file_size = Some(st.file_size);
                merged.storage_data_size = Some(st.data_size as usize);
            },
            None => {},
        }
        Ok(merged)
    }

    /// The write counter.
    pub closed spec fn spec_total_writes(&self) -> u64 {
        self.counters.total_writes
    }

    /// Number of samples currently cached in the ring buffer.
    pub closed spec fn spec_buffer_len(&self) -> int {
        self.buffer.contents().len() as int
    }

    /// Samples evicted from the ring buffer over its lifetime.
    pub closed spec fn spec_total_evicted(&self) -> u64 {
        self.buffer.spec_total_evicted()
    }

    /// Close the engine: mark a final flush boundary.  The host joins its
    /// flusher thread and persists the image.
    pub fn close(&mut self) -> (r: Result<(), TimeSeriesError>)
        requires
            old(self).wf(),
        ensures
            final(self).wf(),
            final(self).points() == old(self).points(),
            r is Ok,
    {
        self.flush()
    }
}

impl Default for TimeSeriesEngine {
    /// An engine with the default configuration.
    fn default() -> (e: Self)
        ensures
            e.wf(),
    {
        TimeSeriesEngine::new()
    }
}

/// The summed size of a batch, or `None` past the machine limit.
fn batch_size_sum(data_points: &Vec<DataPoint>) -> (r: Option<u128>)
    requires
        forall|i: int|
            0 <= i < data_points@.len() ==> spec_point_size(#[trigger] data_points@[i]@)
                <= usize::MAX,
    ensures
        r matches Some(n) ==> n == crate::buffer::sum_sizes(points_view(data_points@)) && n
            <= usize::MAX,
        crate::buffer::sum_sizes(points_view(data_points@)) <= usize::MAX ==> r is Some,
    {
    let ghost views = points_view(data_points@);
    let n = data_points.len();
    let mut acc: u128 = 0;
    let mut i: usize = 0;
    proof {
        assert(views.skip(0) =~= views);
        crate::buffer::lemma_sum_sizes_nonneg(views);
    }
    while i < n
        invariant
            views == points_view(data_points@),
            n == views.len(),
            i <= n,
            forall|j: int|
                0 <= j < views.len() ==> spec_point_size(#[trigger] data_points@[j]@)
                    <= usize::MAX,
            acc + crate::buffer::sum_sizes(views.skip(i as int)) == crate::buffer::sum_sizes(
                views,
            ),
            acc <= usize::MAX,
        decreases n - i,
    {
        proof {
            assert(views.skip(i as int)[0] == views[i as int]);
            assert(views.skip(i as int).drop_first() =~= views.skip(i as int + 1));
            assert(crate::buffer::sum_sizes(views.skip(i as int)) == spec_point_size(
                views[i as int],
            ) + crate::buffer::sum_sizes(views.skip(i as int + 1)));
            crate::buffer::lemma_sum_sizes_nonneg(views.skip(i as int + 1));
            crate::types::lemma_point_size_nonneg(views[i as int]);
        }
        let sz = data_points[i].size_bytes();
        let next = acc + sz as u128;
        if next > usize::MAX as u128 {
            proof {
                assert(crate::buffer::sum_sizes(views) > usize::MAX);
            }
            return None;
        }
        acc = next;
        i = i + 1;
    }
    proof {
        assert(views.skip(n as int) =~= Seq::<DataPointView>::empty());
    }
    Some(acc)
}

/// Non-negative nanosecond distance between two clock readings.
fn nanos_between(t0: i64, t1: i64) -> (d: u64)
    ensures
        t1 >= t0 ==> d == t1 - t0,
{
    if t1 >= t0 {
        (t1 as i128 - t0 as i128) as u64
    } else {
        0
    }
}

} // verus!
