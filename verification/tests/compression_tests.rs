use bifrost_timeseries::compression::{AdaptiveCompressor, ZstdCompressor};
use bifrost_timeseries::types::{DataPoint, Value};
use bifrost_timeseries::error::TimeSeriesError;

#[test]
fn test_zstd_compression_basic() {
    let compressor = ZstdCompressor::new();
    // Use larger, more repetitive data for compression
    let data = b"Hello, World! This is a test string for compression. ".repeat(10);

    let compressed = compressor.compress_bytes(&data).unwrap();
    let decompressed = compressor.decompress_bytes(&compressed).unwrap();

    assert_eq!(data, decompressed.as_slice());
    assert!(compressed.len() < data.len()); // Should be smaller with repetitive data
}

#[test]
fn test_data_point_compression() {
    let compressor = ZstdCompressor::new();
    let dp = DataPoint::with_timestamp(1000, Value::String("Test data".to_string()));

    let compressed = compressor.compress_data_point(&dp).unwrap();
    let decompressed = compressor.decompress_data_point(&compressed).unwrap();

    assert_eq!(dp, decompressed);
}

#[test]
fn test_batch_compression() {
    let compressor = ZstdCompressor::new();
    let data_points = vec![
        DataPoint::with_timestamp(1000, Value::Integer(1)),
        DataPoint::with_timestamp(2000, Value::Integer(2)),
        DataPoint::with_timestamp(3000, Value::Integer(3)),
    ];

    let compressed = compressor.compress_batch(&data_points).unwrap();
    let decompressed = compressor.decompress_batch(&compressed).unwrap();

    assert_eq!(data_points, decompressed);
}

#[test]
fn test_compression_stats() {
    let compressor = ZstdCompressor::new();
    let data_points = vec![
        DataPoint::with_timestamp(1000, Value::String("A".repeat(100))),
        DataPoint::with_timestamp(2000, Value::String("B".repeat(100))),
        DataPoint::with_timestamp(3000, Value::String("C".repeat(100))),
    ];

    let stats = compressor.estimate_batch_savings(&data_points).unwrap();

    assert!((stats.compressed_size as f64) / (stats.original_size as f64) < 1.0);
    assert!(stats.space_saved > 0);
    assert!(stats.is_beneficial());
}

#[test]
fn test_adaptive_compression() {
    let compressor = AdaptiveCompressor::new();

    // Small data - should not compress
    let small_data = vec![DataPoint::with_timestamp(1000, Value::Integer(1))];
    let result = compressor.compress_if_beneficial(&small_data).unwrap();
    assert!(!result.is_compressed);

    // Large repetitive data - should compress
    let large_data: Vec<DataPoint> = (0..100)
        .map(|i| DataPoint::with_timestamp(i * 1000, Value::String("A".repeat(50))))
        .collect();
    let result = compressor.compress_if_beneficial(&large_data).unwrap();
    assert!(result.is_compressed);

    // Verify decompression works
    let decompressed = compressor.decompress(&result).unwrap();
    assert_eq!(large_data, decompressed);
}

#[test]
fn adaptive_codec_never_stores_expansion() {
    let compressor = AdaptiveCompressor::new();
    // Incompressible-looking data above the size floor: stored raw.
    let mut noise = Vec::new();
    let mut x: u64 = 0x9e3779b97f4a7c15;
    for i in 0..40i64 {
        x = x.wrapping_mul(6364136223846793005).wrapping_add(1442695040888963407);
        noise.push(DataPoint::with_timestamp(i, Value::Bytes(x.to_le_bytes().to_vec())));
    }
    let result = compressor.compress_if_beneficial(&noise).unwrap();
    assert!(result.compressed_size <= result.original_size);
    assert_eq!(result.data.len(), result.compressed_size);
    // Compressible data above the floor: stored compressed, still no expansion.
    let smooth: Vec<DataPoint> =
        (0..100).map(|i| DataPoint::with_timestamp(i, Value::String("x".repeat(40)))).collect();
    let result = compressor.compress_if_beneficial(&smooth).unwrap();
    assert!(result.is_compressed);
    assert!(result.compressed_size <= result.original_size);
    assert!(result.space_saved() > 0);
}

#[test]
fn compressor_level_validation() {
    assert!(ZstdCompressor::with_level(1).is_ok());
    assert!(ZstdCompressor::with_level(22).is_ok());
    match ZstdCompressor::with_level(0) {
        Err(TimeSeriesError::Configuration { .. }) => {}
        _ => panic!("level 0 must be rejected"),
    }
    match ZstdCompressor::with_level(23) {
        Err(TimeSeriesError::Configuration { .. }) => {}
        _ => panic!("level 23 must be rejected"),
    }
}

#[test]
fn decompress_rejects_garbage() {
    let compressor = ZstdCompressor::new();
    let garbage = vec![0x12u8, 0x34, 0x56, 0x78, 0x9a];
    match compressor.decompress_bytes(&garbage) {
        Err(TimeSeriesError::CompressionError { .. }) => {}
        _ => panic!("garbage must not decompress"),
    }
}

#[test]
fn value_byte_round_trip() {
    let values = vec![
        Value::Integer(-42),
        Value::Float(2.5f64.to_bits()),
        Value::Boolean(true),
        Value::String("héllo".to_string()),
        Value::Bytes(vec![0, 1, 2, 255]),
    ];
    for v in values {
        let bytes = v.to_bytes();
        let back = Value::from_bytes(&bytes).unwrap();
        assert_eq!(v, back);
    }
    // A malformed byte sequence is rejected, as is a batch decode of it.
    assert!(Value::from_bytes(&vec![9u8, 9, 9]).is_none());
    match bifrost_timeseries::encoding::decode_batch(&vec![1u8, 2, 3]) {
        Err(TimeSeriesError::Serialization { .. }) => {}
        _ => panic!("malformed batch must be rejected"),
    }
}
