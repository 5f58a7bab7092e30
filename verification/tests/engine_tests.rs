use bifrost_timeseries::query::QueryResult;
use bifrost_timeseries::storage::TimeSeriesEngine;
use bifrost_timeseries::types::{AggregationType, DataPoint, TagSet, TimeSeriesConfig, Value};
use std::time::Instant;

fn numeric(value: &Value) -> Option<f64> {
    match value {
        Value::Integer(i) => Some(*i as f64),
        Value::Float(bits) => Some(f64::from_bits(*bits)),
        Value::Boolean(b) => Some(if *b { 1.0 } else { 0.0 }),
        _ => None,
    }
}

#[test]
fn test_engine_basic_operations() {
    let mut engine = TimeSeriesEngine::new();

    // Write some data
    let data_points = vec![
        DataPoint::with_timestamp(1000, Value::Integer(1)),
        DataPoint::with_timestamp(2000, Value::Integer(2)),
        DataPoint::with_timestamp(3000, Value::Integer(3)),
    ];

    engine.write_batch(data_points.clone()).unwrap();

    // Query data
    let result = engine.query_range(1500, 2500).unwrap();
    assert_eq!(result.len(), 1);
    assert_eq!(result[0].timestamp, 2000);

    // Get latest
    let latest = engine.get_latest(2).unwrap();
    assert_eq!(latest.len(), 2);
    assert_eq!(latest[1].timestamp, 3000);

    // Check stats
    let stats = engine.stats().unwrap();
    assert_eq!(stats.total_writes, 3);
    assert!(stats.total_queries > 0);
}

#[test]
fn test_engine_complex_query() {
    let mut engine = TimeSeriesEngine::new();

    // Write data with tags
    let mut tags = TagSet::new();
    tags.insert("device".to_string(), "sensor1".to_string());

    let mut tags2 = TagSet::new();
    tags2.insert("device".to_string(), "sensor1".to_string());
    let mut tags3 = TagSet::new();
    tags3.insert("device".to_string(), "sensor1".to_string());

    let data_points = vec![
        DataPoint::with_tags(1000, Value::Float(10.0f64.to_bits()), tags),
        DataPoint::with_tags(2000, Value::Float(20.0f64.to_bits()), tags2),
        DataPoint::with_tags(3000, Value::Float(30.0f64.to_bits()), tags3),
    ];

    engine.write_batch(data_points).unwrap();

    // Execute aggregation query
    let query =
        engine.new_query().time_range(1000, 3000).aggregate(AggregationType::Average);
    let query_result = engine.query(query).unwrap();

    if let QueryResult::NumericGroups(groups) = query_result {
        assert_eq!(groups.len(), 1);
        let values: Vec<f64> = groups[0].values.iter().filter_map(numeric).collect();
        let avg = values.iter().sum::<f64>() / values.len() as f64;
        assert_eq!(avg, 20.0);
    } else {
        panic!("Expected numeric operand windows");
    }
}

#[test]
fn test_engine_performance_targets() {
    let config = TimeSeriesConfig {
        max_capacity: 1_000_000,
        ttl_seconds: 3600,
        enable_compression: true,
        compression_level: 3,
        enable_persistence: false,
        storage_path: None,
        flush_interval_seconds: 60,
    };

    let mut engine = TimeSeriesEngine::with_config(config);

    // Write a large batch to test performance
    let batch_size = 10_000;
    let mut data_points = Vec::with_capacity(batch_size);

    for i in 0..batch_size {
        data_points.push(DataPoint::with_timestamp(
            i as i64 * 1000,
            Value::Float((i as f64).to_bits()),
        ));
    }

    let start_time = Instant::now();
    engine.write_batch(data_points).unwrap();
    let write_duration = start_time.elapsed();

    // Calculate throughput
    let throughput = batch_size as f64 / write_duration.as_secs_f64();
    println!("Write throughput: {:.0} events/second", throughput);

    // Check memory usage
    let stats = engine.stats().unwrap();
    println!("Memory usage: {} MB", stats.total_memory_usage() / 1024 / 1024);

    // Performance should be reasonable for the test environment
    assert!(throughput > 1000.0); // At least 1k events/second
    assert!(stats.total_memory_usage() < 50 * 1024 * 1024); // Less than 50MB for 10k points
}

#[test]
fn engine_persists_every_accepted_write() {
    let config = TimeSeriesConfig {
        enable_persistence: true,
        storage_path: Some("engine.bts".to_string()),
        ..TimeSeriesConfig::default()
    };
    let mut engine = TimeSeriesEngine::with_config(config);
    engine.write(DataPoint::with_timestamp(10, Value::Integer(1))).unwrap();
    engine.write(DataPoint::with_timestamp(20, Value::Integer(2))).unwrap();
    let persisted = engine.read_persisted().unwrap();
    assert_eq!(persisted.len(), 2);
    assert_eq!(persisted[0].timestamp, 10);
    assert_eq!(persisted[1].timestamp, 20);
}
