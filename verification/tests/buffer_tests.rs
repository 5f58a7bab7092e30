use bifrost_timeseries::buffer::CircularBuffer;
use bifrost_timeseries::types::{DataPoint, Value};

#[test]
fn test_circular_buffer_basic() {
    let mut buffer = CircularBuffer::new(3);

    // Test empty buffer
    assert_eq!(buffer.len(), 0);
    assert!(buffer.is_empty());
    assert!(!buffer.is_full());

    // Add data points
    let dp1 = DataPoint::with_timestamp(1000, Value::Integer(1));
    let dp2 = DataPoint::with_timestamp(2000, Value::Integer(2));
    let dp3 = DataPoint::with_timestamp(3000, Value::Integer(3));

    buffer.push(dp1.clone()).unwrap();
    buffer.push(dp2.clone()).unwrap();
    buffer.push(dp3.clone()).unwrap();

    assert_eq!(buffer.len(), 3);
    assert!(buffer.is_full());

    // Test overflow
    let dp4 = DataPoint::with_timestamp(4000, Value::Integer(4));
    buffer.push(dp4.clone()).unwrap();

    assert_eq!(buffer.len(), 3);
    assert_eq!(buffer.total_evicted(), 1);

    // Should contain dp2, dp3, dp4
    let all_data = buffer.get_all();
    assert_eq!(all_data.len(), 3);
    assert_eq!(all_data[0].timestamp, 2000);
    assert_eq!(all_data[2].timestamp, 4000);
}

#[test]
fn test_time_range_query() {
    let mut buffer = CircularBuffer::new(10);

    // Add data points with different timestamps
    for i in 1..=5 {
        let dp = DataPoint::with_timestamp(i * 1000, Value::Integer(i));
        buffer.push(dp).unwrap();
    }

    // Query range
    let range_data = buffer.get_range(2000, 4000);
    assert_eq!(range_data.len(), 3);
    assert_eq!(range_data[0].timestamp, 2000);
    assert_eq!(range_data[2].timestamp, 4000);
}

#[test]
fn test_latest_data() {
    let mut buffer = CircularBuffer::new(10);

    // Add data points
    for i in 1..=5 {
        let dp = DataPoint::with_timestamp(i * 1000, Value::Integer(i));
        buffer.push(dp).unwrap();
    }

    // Get latest 3
    let latest = buffer.get_latest(3);
    assert_eq!(latest.len(), 3);
    assert_eq!(latest[0].timestamp, 3000);
    assert_eq!(latest[2].timestamp, 5000);
}

#[test]
fn ttl_eviction_with_injected_clock() {
    // TTL of 1 second; clock readings injected so the test is deterministic.
    let mut buffer = CircularBuffer::with_ttl(10, 1);
    buffer.push_at(DataPoint::with_timestamp(0, Value::Integer(1)), 0);
    buffer.push_at(DataPoint::with_timestamp(500_000_000, Value::Integer(2)), 500_000_000);
    assert_eq!(buffer.len(), 2);
    // At t = 1.6s both earlier points have aged past one second.
    buffer.push_at(DataPoint::with_timestamp(1_600_000_000, Value::Integer(3)), 1_600_000_000);
    assert_eq!(buffer.len(), 1);
    assert_eq!(buffer.total_evicted(), 2);
    let all = buffer.get_all();
    assert_eq!(all[0].timestamp, 1_600_000_000);
    // compact_at drops the last one once it ages out.
    buffer.compact_at(3_000_000_000);
    assert_eq!(buffer.len(), 0);
    assert_eq!(buffer.total_evicted(), 3);
    assert_eq!(buffer.total_written(), 3);
}

#[test]
fn memory_accounting_follows_contents() {
    let mut buffer = CircularBuffer::new(2);
    buffer.push(DataPoint::with_timestamp(1, Value::String("abcd".to_string()))).unwrap();
    // 8 (timestamp) + 4 (string bytes)
    assert_eq!(buffer.memory_usage(), 12);
    buffer.push(DataPoint::with_timestamp(2, Value::Boolean(true))).unwrap();
    assert_eq!(buffer.memory_usage(), 12 + 9);
    // Capacity eviction removes the front point's bytes.
    buffer.push(DataPoint::with_timestamp(3, Value::Integer(7))).unwrap();
    assert_eq!(buffer.memory_usage(), 9 + 16);
    let stats = buffer.stats();
    assert_eq!(stats.current_size, 2);
    assert_eq!(stats.total_written, 3);
    assert_eq!(stats.total_evicted, 1);
    assert_eq!(stats.oldest_timestamp, Some(2));
    assert_eq!(stats.newest_timestamp, Some(3));
    buffer.clear();
    assert_eq!(buffer.memory_usage(), 0);
    assert_eq!(buffer.total_written(), 3);
}
