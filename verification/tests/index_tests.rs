use bifrost_timeseries::index::{CombinedIndex, TagIndex, TimeIndex};
use bifrost_timeseries::types::{DataPoint, TagSet, Value};

#[test]
fn test_time_index_basic() {
    let mut index = TimeIndex::new();

    // Add some points
    index.add_point(1000, 0);
    index.add_point(2000, 1);
    index.add_point(3000, 2);
    index.add_point(2000, 3); // Duplicate timestamp

    assert_eq!(index.total_points(), 4);
    assert_eq!(index.unique_timestamps(), 3);

    // Test exact lookup
    assert_eq!(index.get_exact(2000), Some(&vec![1, 3]));

    // Test range query
    let range_result = index.get_range(1500, 2500);
    assert_eq!(range_result, vec![1, 3]);

    // Test min/max
    assert_eq!(index.min_timestamp(), Some(1000));
    assert_eq!(index.max_timestamp(), Some(3000));
}

#[test]
fn test_tag_index_basic() {
    let mut index = TagIndex::new();

    let mut tags1 = TagSet::new();
    tags1.insert("device".to_string(), "sensor1".to_string());
    tags1.insert("location".to_string(), "room1".to_string());

    let mut tags2 = TagSet::new();
    tags2.insert("device".to_string(), "sensor2".to_string());
    tags2.insert("location".to_string(), "room1".to_string());

    let mut tags3 = TagSet::new();
    tags3.insert("device".to_string(), "sensor1".to_string());
    tags3.insert("location".to_string(), "room2".to_string());

    index.add_point(0, &tags1);
    index.add_point(1, &tags2);
    index.add_point(2, &tags3);

    // Test single tag query
    assert_eq!(index.get_by_tag("device", "sensor1"), Some(&vec![0, 2]));
    assert_eq!(index.get_by_tag("location", "room1"), Some(&vec![0, 1]));

    // Test AND query
    let mut query_tags = TagSet::new();
    query_tags.insert("device".to_string(), "sensor1".to_string());
    query_tags.insert("location".to_string(), "room1".to_string());
    let and_result = index.get_by_tags_and(&query_tags);
    assert_eq!(and_result, vec![0]);

    // Test OR query
    let mut query_tags = TagSet::new();
    query_tags.insert("device".to_string(), "sensor1".to_string());
    query_tags.insert("location".to_string(), "room2".to_string());
    let or_result = index.get_by_tags_or(&query_tags);
    assert!(or_result.contains(&0) && or_result.contains(&2));
}

#[test]
fn test_combined_index() {
    let mut index = CombinedIndex::new();

    // Create test data points
    let mut tags1 = TagSet::new();
    tags1.insert("device".to_string(), "sensor1".to_string());

    let mut tags2 = TagSet::new();
    tags2.insert("device".to_string(), "sensor2".to_string());

    let dp1 = DataPoint::with_tags(1000, Value::Integer(1), tags1);
    let dp2 = DataPoint::with_tags(2000, Value::Integer(2), tags2);
    let dp3 = DataPoint::with_timestamp(3000, Value::Integer(3));

    index.add_point(dp1);
    index.add_point(dp2);
    index.add_point(dp3);

    // Test time range query
    let time_result = index.query_time_range(1500, 2500);
    assert_eq!(time_result.len(), 1);
    assert_eq!(time_result[0].timestamp, 2000);

    // Test tag query
    let mut query_tags = TagSet::new();
    query_tags.insert("device".to_string(), "sensor1".to_string());
    let tag_result = index.query_tags(&query_tags, true);
    assert_eq!(tag_result.len(), 1);
    assert_eq!(tag_result[0].timestamp, 1000);

    // Test combined query
    query_tags.insert("device".to_string(), "sensor2".to_string());
    let combined_result = index.query_combined(1500, 2500, &query_tags, false);
    assert_eq!(combined_result.len(), 1);
    assert_eq!(combined_result[0].timestamp, 2000);
}

#[test]
fn tag_and_of_empty_set_is_empty() {
    let mut index = TagIndex::new();
    let mut tags = TagSet::new();
    tags.insert("device".to_string(), "sensor1".to_string());
    index.add_point(0, &tags);
    // AND over no pairs selects nothing.
    let empty = TagSet::new();
    assert_eq!(index.get_by_tags_and(&empty), Vec::<usize>::new());
    // AND over a single pair equals that pair's posting, as a set.
    let and_result = index.get_by_tags_and(&tags);
    let single = index.get_by_tag("device", "sensor1").unwrap().clone();
    assert_eq!(and_result, single);
}

#[test]
fn time_index_first_after_last_before() {
    let mut index = TimeIndex::new();
    index.add_point(1000, 0);
    index.add_point(2000, 1);
    index.add_point(2000, 2);
    index.add_point(3000, 3);
    assert_eq!(index.get_first_after(1500, 2), vec![1, 2]);
    assert_eq!(index.get_first_after(1000, 10), vec![0, 1, 2, 3]);
    assert_eq!(index.get_last_before(3000, 2), vec![1, 2]);
    assert_eq!(index.get_last_before(1000, 5), Vec::<usize>::new());
    index.remove_points(&[2000]);
    assert_eq!(index.get_exact(2000), None);
    assert_eq!(index.total_points(), 2);
    index.clear();
    assert_eq!(index.total_points(), 0);
    assert_eq!(index.min_timestamp(), None);
}

#[test]
fn tag_index_remove_points() {
    let mut index = TagIndex::new();
    let mut tags_a = TagSet::new();
    tags_a.insert("device".to_string(), "a".to_string());
    let mut tags_b = TagSet::new();
    tags_b.insert("device".to_string(), "a".to_string());
    tags_b.insert("rack".to_string(), "7".to_string());
    index.add_point(0, &tags_a);
    index.add_point(1, &tags_b);
    assert_eq!(index.total_points(), 2);
    index.remove_points(&[0]);
    assert_eq!(index.total_points(), 1);
    assert_eq!(index.get_by_tag("device", "a"), Some(&vec![1]));
    index.remove_points(&[1]);
    assert_eq!(index.total_points(), 0);
    assert!(index.get_by_tag("device", "a").is_none());
}

#[test]
fn tag_keys_and_values_enumeration() {
    let mut index = TagIndex::new();
    let mut t1 = TagSet::new();
    t1.insert("device".to_string(), "a".to_string());
    t1.insert("site".to_string(), "north".to_string());
    let mut t2 = TagSet::new();
    t2.insert("device".to_string(), "b".to_string());
    index.add_point(0, &t1);
    index.add_point(1, &t2);
    let mut keys = index.get_tag_keys();
    keys.sort();
    assert_eq!(keys, vec!["device".to_string(), "site".to_string()]);
    let mut values = index.get_tag_values("device");
    values.sort();
    assert_eq!(values, vec!["a".to_string(), "b".to_string()]);
    assert_eq!(index.get_tag_values("absent"), Vec::<String>::new());
}
