use bifrost_timeseries::query::{QueryEngine, QueryResult};
use bifrost_timeseries::types::{AggregationType, DataPoint, TagSet, Value};
use bifrost_timeseries::error::TimeSeriesError;

fn create_test_data() -> Vec<DataPoint> {
    let mut data = Vec::new();

    // Create test data with different timestamps and values
    for i in 0..10 {
        let mut tags = TagSet::new();
        tags.insert("device".to_string(), format!("sensor{}", i % 3));
        tags.insert(
            "location".to_string(),
            if i < 5 { "room1".to_string() } else { "room2".to_string() },
        );

        data.push(DataPoint::with_tags(
            i * 1000,
            Value::Float((i as f64 * 10.0).to_bits()),
            tags,
        ));
    }

    data
}

fn numeric(value: &Value) -> Option<f64> {
    match value {
        Value::Integer(i) => Some(*i as f64),
        Value::Float(bits) => Some(f64::from_bits(*bits)),
        Value::Boolean(b) => Some(if *b { 1.0 } else { 0.0 }),
        _ => None,
    }
}

#[test]
fn test_query_builder_basic() {
    let mut engine = QueryEngine::new();
    let test_data = create_test_data();
    engine.add_data_points(test_data);

    // Test time range query
    let result = engine.query().time_range(2000, 6000).execute(engine.index()).unwrap();

    if let QueryResult::DataPoints(points) = result {
        assert_eq!(points.len(), 5); // timestamps 2000, 3000, 4000, 5000, 6000
    } else {
        panic!("Expected DataPoints result");
    }
}

#[test]
fn test_query_with_tags() {
    let mut engine = QueryEngine::new();
    let test_data = create_test_data();
    engine.add_data_points(test_data);

    // Test tag query
    let mut tags = TagSet::new();
    tags.insert("device".to_string(), "sensor1".to_string());

    let result = engine.query().tags(&tags).execute(engine.index()).unwrap();

    if let QueryResult::DataPoints(points) = result {
        // Should get points at indices 1, 4, 7 (sensor1)
        assert_eq!(points.len(), 3);
        assert!(points
            .iter()
            .all(|p| { p.tags.as_ref().unwrap().get("device").unwrap() == "sensor1" }));
    } else {
        panic!("Expected DataPoints result");
    }
}

#[test]
fn test_aggregation_queries() {
    let mut engine = QueryEngine::new();
    let test_data = create_test_data();
    engine.add_data_points(test_data);

    // Test count aggregation
    let result = engine
        .query()
        .time_range(0, 5000)
        .aggregate(AggregationType::Count)
        .execute(engine.index())
        .unwrap();

    if let QueryResult::Aggregations(aggs) = result {
        assert_eq!(aggs.len(), 1);
        assert_eq!(aggs[0].count, 6);
        if let Some(Value::Integer(count)) = &aggs[0].value {
            assert_eq!(*count, 6);
        } else {
            panic!("Expected integer count value");
        }
    } else {
        panic!("Expected Aggregations result");
    }

    // Test average aggregation
    let result = engine
        .query()
        .time_range(0, 4000)
        .aggregate(AggregationType::Average)
        .execute(engine.index())
        .unwrap();

    if let QueryResult::NumericGroups(groups) = result {
        assert_eq!(groups.len(), 1);
        let values: Vec<f64> = groups[0].values.iter().filter_map(numeric).collect();
        let avg = values.iter().sum::<f64>() / values.len() as f64;
        assert_eq!(avg, 20.0); // (0 + 10 + 20 + 30 + 40) / 5
    } else {
        panic!("Expected numeric operand windows");
    }
}

#[test]
fn test_grouped_aggregation() {
    let mut engine = QueryEngine::new();
    let test_data = create_test_data();
    engine.add_data_points(test_data);

    // Test grouped aggregation with 2-second intervals
    let result = engine
        .query()
        .time_range(0, 8000)
        .aggregate(AggregationType::Count)
        .group_by_interval(2000)
        .execute(engine.index())
        .unwrap();

    if let QueryResult::Aggregations(aggs) = result {
        // Should have multiple groups
        assert!(aggs.len() > 1);
        // Each group should have a count
        assert!(aggs.iter().all(|agg| agg.count > 0));
    } else {
        panic!("Expected Aggregations result");
    }
}

#[test]
fn test_combined_query() {
    let mut engine = QueryEngine::new();
    let test_data = create_test_data();
    engine.add_data_points(test_data);

    // Test combined time and tag query
    let mut tags = TagSet::new();
    tags.insert("location".to_string(), "room1".to_string());

    let result = engine
        .query()
        .time_range(0, 4000)
        .tags(&tags)
        .aggregate(AggregationType::Max)
        .execute(engine.index())
        .unwrap();

    if let QueryResult::NumericGroups(groups) = result {
        assert_eq!(groups.len(), 1);
        let max_val = groups[0]
            .values
            .iter()
            .filter_map(numeric)
            .fold(f64::NEG_INFINITY, f64::max);
        assert_eq!(max_val, 40.0); // Max value in room1 within time range
    } else {
        panic!("Expected numeric operand windows");
    }
}

#[test]
fn query_errors_and_edges() {
    let mut engine = QueryEngine::new();
    engine.add_data_points(create_test_data());

    // Non-positive group-by interval is a query error.
    let bad = engine
        .query()
        .aggregate(AggregationType::Count)
        .group_by_interval(0)
        .execute(engine.index());
    match bad {
        Err(TimeSeriesError::Query { .. }) => {}
        _ => panic!("non-positive interval must be rejected"),
    }

    // Aggregation over no candidates yields one empty window.
    let empty = engine
        .query()
        .time_range(100_000, 200_000)
        .aggregate(AggregationType::Count)
        .execute(engine.index())
        .unwrap();
    if let QueryResult::Aggregations(aggs) = empty {
        assert_eq!(aggs.len(), 1);
        assert_eq!(aggs[0].count, 0);
        assert!(aggs[0].value.is_none());
        assert_eq!(aggs[0].start_timestamp, 100_000);
        assert_eq!(aggs[0].end_timestamp, 200_000);
    } else {
        panic!("Expected Aggregations result");
    }

    // A limit truncates raw results, preserving order.
    let limited = engine.query().time_range(0, 9000).limit(3).execute(engine.index()).unwrap();
    if let QueryResult::DataPoints(points) = limited {
        assert_eq!(points.len(), 3);
        assert_eq!(points[0].timestamp, 0);
        assert_eq!(points[2].timestamp, 2000);
    } else {
        panic!("Expected DataPoints result");
    }

    // No predicates with a limit returns the latest samples.
    let latest = engine.query().limit(2).execute(engine.index()).unwrap();
    if let QueryResult::DataPoints(points) = latest {
        assert_eq!(points.len(), 2);
        assert_eq!(points[0].timestamp, 8000);
        assert_eq!(points[1].timestamp, 9000);
    } else {
        panic!("Expected DataPoints result");
    }

    // First and Last preserve the original variant.
    let first = engine
        .query()
        .time_range(1000, 3000)
        .aggregate(AggregationType::First)
        .execute(engine.index())
        .unwrap();
    if let QueryResult::Aggregations(aggs) = first {
        assert_eq!(aggs[0].value, Some(Value::Float(10.0f64.to_bits())));
    } else {
        panic!("Expected Aggregations result");
    }
}
