use bifrost_timeseries::persistence::MmapStorage;
use bifrost_timeseries::types::{DataPoint, TimeSeriesConfig, Value};

#[test]
fn test_mmap_storage_basic() {
    let config = TimeSeriesConfig::default();
    let mut storage = MmapStorage::initialize_new(&config);

    // Write some data
    let data_points = vec![
        DataPoint::with_timestamp(1000, Value::Integer(1)),
        DataPoint::with_timestamp(2000, Value::Integer(2)),
        DataPoint::with_timestamp(3000, Value::Integer(3)),
    ];

    storage.append_data_points(&data_points).unwrap();
    storage.flush().unwrap();

    // Read back the data
    let read_points = storage.read_all_data_points().unwrap();
    assert_eq!(data_points, read_points);

    // Check stats
    let stats = storage.stats();
    assert_eq!(stats.total_points, 3);
    assert_eq!(stats.first_timestamp, Some(1000));
    assert_eq!(stats.last_timestamp, Some(3000));
}

#[test]
fn test_mmap_storage_persistence() {
    let config = TimeSeriesConfig::default();

    let data_points = vec![
        DataPoint::with_timestamp(1000, Value::String("test1".to_string())),
        DataPoint::with_timestamp(2000, Value::String("test2".to_string())),
    ];

    // Write data in first instance
    let image = {
        let mut storage = MmapStorage::initialize_new(&config);
        storage.append_data_points(&data_points).unwrap();
        storage.flush().unwrap();
        storage.image().clone()
    };

    // Read data in second instance, from the same image bytes
    {
        let storage = MmapStorage::open_from_image(image).unwrap();
        let read_points = storage.read_all_data_points().unwrap();
        assert_eq!(data_points, read_points);
    }
}

#[test]
fn multiple_appends_keep_order() {
    let config = TimeSeriesConfig::default();
    let mut storage = MmapStorage::initialize_new(&config);
    let batch1 = vec![
        DataPoint::with_timestamp(5, Value::Integer(50)),
        DataPoint::with_timestamp(1, Value::Integer(10)),
    ];
    let batch2 = vec![DataPoint::with_timestamp(3, Value::Bytes(vec![1, 2, 3]))];
    storage.append_data_points(&batch1).unwrap();
    storage.append_data_points(&batch2).unwrap();
    // An empty batch records nothing.
    storage.append_data_points(&Vec::<DataPoint>::new()).unwrap();
    let read = storage.read_all_data_points().unwrap();
    let mut expected = batch1.clone();
    expected.extend(batch2.clone());
    assert_eq!(read, expected);
    assert_eq!(storage.stats().total_points, 3);
    // The header tracks the running timestamp extremes over all batches.
    assert_eq!(storage.stats().first_timestamp, Some(1));
    assert_eq!(storage.stats().last_timestamp, Some(5));
}

#[test]
fn truncated_tail_is_tolerated() {
    let config = TimeSeriesConfig::default();
    let mut storage = MmapStorage::initialize_new(&config);
    let batch1 = vec![DataPoint::with_timestamp(1, Value::Integer(1))];
    let batch2 = vec![DataPoint::with_timestamp(2, Value::Integer(2))];
    storage.append_data_points(&batch1).unwrap();
    let offset_after_first = storage.write_offset() as usize;
    storage.append_data_points(&batch2).unwrap();
    let mut image = storage.image().clone();
    // Corrupt the second block's payload checksum region: the scan stops
    // there and recovers only the first block.
    image[offset_after_first + 21] ^= 0xff;
    let reopened = MmapStorage::open_from_image(image).unwrap();
    let read = reopened.read_all_data_points().unwrap();
    assert_eq!(read, batch1);
    assert_eq!(reopened.stats().total_points, 1);
}
