use bifrost_timeseries::buffer::CircularBuffer;
use bifrost_timeseries::index::CombinedIndex;
use bifrost_timeseries::query::{QueryBuilder, QueryResult};
use bifrost_timeseries::storage::TimeSeriesEngine;
use bifrost_timeseries::types::{AggregationType, DataPoint, TagSet, TimeSeriesConfig, Value};
use bifrost_timeseries::error::TimeSeriesError;
use bifrost_timeseries::persistence::MmapStorage;

fn tag_set(pairs: &[(&str, &str)]) -> TagSet {
    let mut t = TagSet::new();
    for (k, v) in pairs {
        t.insert(k.to_string(), v.to_string());
    }
    t
}

fn numeric(value: &Value) -> Option<f64> {
    match value {
        Value::Integer(i) => Some(*i as f64),
        Value::Float(bits) => Some(f64::from_bits(*bits)),
        Value::Boolean(b) => Some(if *b { 1.0 } else { 0.0 }),
        _ => None,
    }
}

#[test]
fn capacity_eviction_scenario() {
    let mut buffer = CircularBuffer::new(3);
    for (ts, v) in [(1000, 1), (2000, 2), (3000, 3), (4000, 4)] {
        buffer.push(DataPoint::with_timestamp(ts, Value::Integer(v))).unwrap();
    }
    assert_eq!(buffer.len(), 3);
    assert_eq!(buffer.total_evicted(), 1);
    let all = buffer.get_all();
    assert_eq!(all[0].timestamp, 2000);
    assert_eq!(all[1].timestamp, 3000);
    assert_eq!(all[2].timestamp, 4000);
    match (&all[0].value, &all[1].value, &all[2].value) {
        (Value::Integer(2), Value::Integer(3), Value::Integer(4)) => {}
        _ => panic!("unexpected ring contents"),
    }
}

#[test]
fn tag_and_scenario() {
    let mut index = CombinedIndex::new();
    index.add_point(DataPoint::with_tags(
        1000,
        Value::Integer(1),
        tag_set(&[("device", "s1"), ("location", "r1")]),
    ));
    index.add_point(DataPoint::with_tags(
        2000,
        Value::Integer(2),
        tag_set(&[("device", "s2"), ("location", "r1")]),
    ));
    index.add_point(DataPoint::with_tags(
        3000,
        Value::Integer(3),
        tag_set(&[("device", "s1"), ("location", "r2")]),
    ));
    let result = index.query_tags(&tag_set(&[("device", "s1"), ("location", "r1")]), true);
    assert_eq!(result.len(), 1);
    assert_eq!(result[0].timestamp, 1000);
}

#[test]
fn time_tag_intersection_scenario() {
    let mut index = CombinedIndex::new();
    index.add_point(DataPoint::with_tags(
        1000,
        Value::Integer(1),
        tag_set(&[("device", "s1"), ("location", "r1")]),
    ));
    index.add_point(DataPoint::with_tags(
        2000,
        Value::Integer(2),
        tag_set(&[("device", "s2"), ("location", "r1")]),
    ));
    index.add_point(DataPoint::with_tags(
        3000,
        Value::Integer(3),
        tag_set(&[("device", "s1"), ("location", "r2")]),
    ));
    let result = index.query_combined(1500, 3500, &tag_set(&[("device", "s1")]), true);
    assert_eq!(result.len(), 1);
    assert_eq!(result[0].timestamp, 3000);
}

fn grouped_data() -> CombinedIndex {
    let mut index = CombinedIndex::new();
    for i in 0..10i64 {
        index.add_point(DataPoint::with_timestamp(
            i * 1000,
            Value::Float(((i * 10) as f64).to_bits()),
        ));
    }
    index
}

#[test]
fn grouped_count_scenario() {
    let index = grouped_data();
    let query = QueryBuilder::new()
        .time_range(0, 8000)
        .aggregate(AggregationType::Count)
        .group_by_interval(2000);
    let result = query.execute(&index).unwrap();
    let aggs = match result {
        QueryResult::Aggregations(aggs) => aggs,
        _ => panic!("expected aggregations"),
    };
    assert_eq!(aggs.len(), 5);
    let expected = [(0, 1999, 2), (2000, 3999, 2), (4000, 5999, 2), (6000, 7999, 2), (8000, 9999, 1)];
    for (agg, (start, end, count)) in aggs.iter().zip(expected.iter()) {
        assert_eq!(agg.start_timestamp, *start);
        assert_eq!(agg.end_timestamp, *end);
        assert_eq!(agg.count, *count);
        match &agg.value {
            Some(Value::Integer(n)) => assert_eq!(*n, *count as i64),
            _ => panic!("expected integer count"),
        }
    }
}

#[test]
fn average_scenario() {
    let index = grouped_data();
    let query = QueryBuilder::new().time_range(0, 4000).aggregate(AggregationType::Average);
    let result = query.execute(&index).unwrap();
    let groups = match result {
        QueryResult::NumericGroups(groups) => groups,
        _ => panic!("expected numeric operand windows"),
    };
    assert_eq!(groups.len(), 1);
    assert_eq!(groups[0].count, 5);
    let values: Vec<f64> = groups[0].values.iter().filter_map(numeric).collect();
    let avg = values.iter().sum::<f64>() / values.len() as f64;
    assert_eq!(avg, 20.0);
}

#[test]
fn persistence_round_trip_scenario() {
    let config = TimeSeriesConfig {
        enable_persistence: true,
        storage_path: Some("telemetry.bts".to_string()),
        ..TimeSeriesConfig::default()
    };
    let mut engine_a = TimeSeriesEngine::with_config(config);
    let points = vec![
        DataPoint::with_timestamp(1000, Value::String("alpha".to_string())),
        DataPoint::with_timestamp(2000, Value::String("beta".to_string())),
        DataPoint::with_timestamp(3000, Value::String("gamma".to_string())),
    ];
    engine_a.write_batch(points.clone()).unwrap();
    engine_a.flush().unwrap();
    let image = engine_a.storage_image().unwrap().clone();
    engine_a.close().unwrap();

    let config_b = TimeSeriesConfig {
        enable_persistence: true,
        storage_path: Some("telemetry.bts".to_string()),
        ..TimeSeriesConfig::default()
    };
    let mut engine_b = TimeSeriesEngine::open_from_image(config_b, image).unwrap();
    let recovered = engine_b.read_persisted().unwrap();
    assert_eq!(recovered, points);
    let indexed = engine_b.query_range(i64::MIN, i64::MAX).unwrap();
    assert_eq!(indexed, points);
}

#[test]
fn storage_stats_after_reopen() {
    let config = TimeSeriesConfig::default();
    let mut storage = MmapStorage::initialize_new(&config);
    let points = vec![
        DataPoint::with_timestamp(1000, Value::String("one".to_string())),
        DataPoint::with_timestamp(2000, Value::String("two".to_string())),
        DataPoint::with_timestamp(3000, Value::String("three".to_string())),
    ];
    storage.append_data_points(&points).unwrap();
    storage.flush().unwrap();
    let image = storage.image().clone();
    let reopened = MmapStorage::open_from_image(image).unwrap();
    let read = reopened.read_all_data_points().unwrap();
    assert_eq!(read, points);
    let stats = reopened.stats();
    assert_eq!(stats.total_points, 3);
    assert_eq!(stats.first_timestamp, Some(1000));
    assert_eq!(stats.last_timestamp, Some(3000));
}

#[test]
fn header_mutation_is_detected() {
    let config = TimeSeriesConfig::default();
    let mut storage = MmapStorage::initialize_new(&config);
    storage
        .append_data_points(&vec![DataPoint::with_timestamp(7, Value::Integer(7))])
        .unwrap();
    // Every covered field: magic, version, total points, creation time.
    for offset in [0usize, 4, 10, 41] {
        let mut image = storage.image().clone();
        image[offset] ^= 0xff;
        match MmapStorage::open_from_image(image) {
            Err(TimeSeriesError::Persistence { .. }) => {}
            _ => panic!("mutated header must be rejected at offset {}", offset),
        }
    }
    // The untouched image still opens.
    assert!(MmapStorage::open_from_image(storage.image().clone()).is_ok());
}
