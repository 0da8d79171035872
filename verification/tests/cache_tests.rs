use arroyo_state::cache::KeyTimeMultiMapCache;
use arroyo_state::multimap::{KeyTimeMultiMap, LogRecord};
use arroyo_state::restore::{DataOperation, DataTuple};
use arroyo_state::types::{OperatorCheckpointMetadata, StateError, TableDescriptor};

fn bucket_keys(cache: &KeyTimeMultiMapCache, t: u64) -> Vec<u64> {
    for (bt, keys) in &cache.expirations {
        if *bt == t {
            return keys.clone();
        }
    }
    vec![]
}

#[test]
fn insert_earlier_updates_expiry() {
    let mut cache = KeyTimeMultiMapCache::new();
    let k = 42u64;
    cache.insert(100, k, b"v1".to_vec());
    assert!(bucket_keys(&cache, 100).contains(&k));
    cache.insert(50, k, b"v2".to_vec());
    assert!(bucket_keys(&cache, 50).contains(&k));
    assert!(!bucket_keys(&cache, 100).contains(&k));
}

#[test]
fn expire_splits_key() {
    let mut cache = KeyTimeMultiMapCache::new();
    let k = 7u64;
    cache.insert(10, k, b"a".to_vec());
    cache.insert(20, k, b"b".to_vec());
    cache.insert(30, k, b"c".to_vec());
    assert!(bucket_keys(&cache, 10).contains(&k));
    let expired = cache.expire_entries_before(20);
    assert_eq!(expired, vec![k]);
    let all = cache.get_all_values_with_timestamps(k).expect("key retained");
    assert_eq!(all, vec![(20, b"b".to_vec()), (30, b"c".to_vec())]);
    assert!(bucket_keys(&cache, 20).contains(&k));
    assert!(!bucket_keys(&cache, 10).contains(&k));
    assert!(cache.get_time_range(k, 0, 20).is_empty());
    assert_eq!(cache.get_time_range(k, 20, u64::MAX), vec![b"b".to_vec(), b"c".to_vec()]);
}

#[test]
fn expire_drops_fully_stale_key() {
    let mut cache = KeyTimeMultiMapCache::new();
    cache.insert(10, 1, b"a".to_vec());
    cache.insert(15, 1, b"b".to_vec());
    cache.insert(30, 2, b"c".to_vec());
    let expired = cache.expire_entries_before(20);
    assert_eq!(expired, vec![1]);
    assert!(cache.get_all_values_with_timestamps(1).is_none());
    assert_eq!(cache.get_time_range(2, 0, u64::MAX), vec![b"c".to_vec()]);
}

#[test]
fn get_time_range_orders_and_bounds() {
    let mut cache = KeyTimeMultiMapCache::new();
    let k = 3u64;
    cache.insert(30, k, b"late".to_vec());
    cache.insert(10, k, b"early".to_vec());
    cache.insert(20, k, b"mid1".to_vec());
    cache.insert(20, k, b"mid2".to_vec());
    assert_eq!(
        cache.get_time_range(k, 10, 30),
        vec![b"early".to_vec(), b"mid1".to_vec(), b"mid2".to_vec()]
    );
    assert_eq!(cache.get_time_range(k, 0, u64::MAX).len(), 4);
    assert!(cache.get_time_range(99, 0, u64::MAX).is_empty());
}

#[test]
fn remove_value_drops_first_match_only() {
    let mut cache = KeyTimeMultiMapCache::new();
    let k = 5u64;
    cache.insert(10, k, b"a".to_vec());
    cache.insert(10, k, b"a".to_vec());
    cache.insert(10, k, b"b".to_vec());
    cache.remove_value(10, k, &b"a".to_vec());
    assert_eq!(cache.get_time_range(k, 0, u64::MAX), vec![b"a".to_vec(), b"b".to_vec()]);
}

#[test]
fn remove_key_forgets_key_and_registrations() {
    let mut cache = KeyTimeMultiMapCache::new();
    cache.insert(10, 1, b"a".to_vec());
    cache.insert(20, 2, b"b".to_vec());
    cache.remove_key(1);
    assert!(cache.get_all_values_with_timestamps(1).is_none());
    assert!(!bucket_keys(&cache, 10).contains(&1));
    assert_eq!(cache.get_time_range(2, 0, u64::MAX), vec![b"b".to_vec()]);
}

#[test]
fn clear_time_range_reregisters_expiry() {
    let mut cache = KeyTimeMultiMapCache::new();
    let k = 9u64;
    cache.insert(10, k, b"a".to_vec());
    cache.insert(20, k, b"b".to_vec());
    cache.clear_time_range(k, 10, 15);
    assert_eq!(cache.get_time_range(k, 0, u64::MAX), vec![b"b".to_vec()]);
    assert!(bucket_keys(&cache, 20).contains(&k));
    assert!(!bucket_keys(&cache, 10).contains(&k));
    cache.clear_time_range(k, 0, u64::MAX);
    assert!(cache.get_all_values_with_timestamps(k).is_none());
}

#[test]
fn facade_write_through_records() {
    let mut map = KeyTimeMultiMap::new('t', KeyTimeMultiMapCache::new());
    let r = map.insert(100, 1, b"x".to_vec());
    assert!(matches!(
        r,
        LogRecord::WriteData { table: 't', timestamp: 100, key: 1, ref value } if value == b"x"
    ));
    assert_eq!(map.table_size(), 1);
    let r = map.delete_value(100, 1, b"x".to_vec());
    assert!(matches!(r, LogRecord::DeleteValue { table: 't', timestamp: 100, key: 1, .. }));
    let r = map.delete_key(1);
    assert!(matches!(r, LogRecord::DeleteKey { table: 't', key: 1 }));
    assert_eq!(map.table_size(), 0);
    map.insert(5, 2, b"y".to_vec());
    let r = map.clear_time_range(2, 0, 10);
    assert!(matches!(r, LogRecord::DeleteTimeRange { table: 't', key: 2, start: 0, end: 10 }));
    map.insert(3, 4, b"z".to_vec());
    let recs = map.expire_entries_before(50);
    assert_eq!(recs.len(), 1);
    assert!(matches!(
        recs[0],
        LogRecord::DeleteTimeRange { table: 't', key: 4, start: 0, end: 50 }
    ));
}

fn operator_metadata(min_watermark: Option<u64>) -> OperatorCheckpointMetadata {
    OperatorCheckpointMetadata {
        job_id: "job".to_string(),
        operator_id: "op".to_string(),
        epoch: 1,
        start_time: 0,
        finish_time: 0,
        min_watermark,
        max_watermark: min_watermark,
        has_state: true,
        bytes: 0,
        table_checkpoint_metadata: vec![],
        table_configs: vec![],
    }
}

fn insert_tuple(key: u64, timestamp: u64, value: &[u8]) -> DataTuple {
    DataTuple { key, timestamp, value: Some(value.to_vec()), operation: DataOperation::Insert }
}

#[test]
fn restore_with_retention() {
    let om = operator_metadata(Some(1000));
    let td = TableDescriptor { retention_micros: 300 };
    let k = 11u64;
    let tuples = vec![
        insert_tuple(k, 600, b"a"),
        insert_tuple(k, 800, b"b"),
        insert_tuple(k, 1200, b"c"),
    ];
    let cache = KeyTimeMultiMapCache::from_checkpoint(&om, &td, &tuples).unwrap();
    let all = cache.get_all_values_with_timestamps(k).expect("key restored");
    assert_eq!(all, vec![(800, b"b".to_vec()), (1200, b"c".to_vec())]);
    assert!(bucket_keys(&cache, 800).contains(&k));
}

#[test]
fn delete_value_semantics_during_replay() {
    let om = operator_metadata(None);
    let td = TableDescriptor { retention_micros: 0 };
    let k = 13u64;
    let key_bytes = bincode::encode_to_vec(k, bincode::config::standard()).unwrap();
    let value_bytes =
        bincode::encode_to_vec(b"a".to_vec(), bincode::config::standard()).unwrap();
    let tuples = vec![
        insert_tuple(k, 10, b"a"),
        insert_tuple(k, 10, b"a"),
        DataTuple {
            key: k,
            timestamp: 10,
            value: None,
            operation: DataOperation::DeleteValue {
                key: key_bytes,
                value: value_bytes,
                timestamp: 10,
            },
        },
    ];
    let cache = KeyTimeMultiMapCache::from_checkpoint(&om, &td, &tuples).unwrap();
    assert_eq!(cache.get_time_range(k, 0, u64::MAX), vec![b"a".to_vec()]);
}

#[test]
fn replay_delete_key_and_time_range() {
    let om = operator_metadata(None);
    let td = TableDescriptor { retention_micros: 0 };
    let k1 = 1u64;
    let k2 = 2u64;
    let key_bytes = bincode::encode_to_vec(k1, bincode::config::standard()).unwrap();
    let tuples = vec![
        insert_tuple(k1, 10, b"a"),
        insert_tuple(k2, 20, b"b"),
        insert_tuple(k2, 40, b"c"),
        DataTuple {
            key: k1,
            timestamp: 50,
            value: None,
            operation: DataOperation::DeleteKey { key: key_bytes },
        },
        DataTuple {
            key: k2,
            timestamp: 50,
            value: None,
            operation: DataOperation::DeleteTimeRange { start: 0, end: 30 },
        },
    ];
    let cache = KeyTimeMultiMapCache::from_checkpoint(&om, &td, &tuples).unwrap();
    assert!(cache.get_all_values_with_timestamps(k1).is_none());
    assert_eq!(cache.get_time_range(k2, 0, u64::MAX), vec![b"c".to_vec()]);
}

#[test]
fn replay_rejects_delete_time_key() {
    let om = operator_metadata(None);
    let td = TableDescriptor { retention_micros: 0 };
    let tuples = vec![DataTuple {
        key: 1,
        timestamp: 10,
        value: None,
        operation: DataOperation::DeleteTimeKey,
    }];
    let r = KeyTimeMultiMapCache::from_checkpoint(&om, &td, &tuples);
    assert!(matches!(r, Err(StateError::UnsupportedRestoreOperation)));
}

#[test]
fn replay_rejects_undecodable_key() {
    let om = operator_metadata(None);
    let td = TableDescriptor { retention_micros: 0 };
    let tuples = vec![DataTuple {
        key: 1,
        timestamp: 10,
        value: None,
        operation: DataOperation::DeleteKey { key: vec![] },
    }];
    let r = KeyTimeMultiMapCache::from_checkpoint(&om, &td, &tuples);
    assert!(matches!(r, Err(StateError::UndecodableKey)));
}

#[test]
fn replay_rejects_insert_without_value() {
    let om = operator_metadata(None);
    let td = TableDescriptor { retention_micros: 0 };
    let tuples = vec![DataTuple {
        key: 1,
        timestamp: 10,
        value: None,
        operation: DataOperation::Insert,
    }];
    let r = KeyTimeMultiMapCache::from_checkpoint(&om, &td, &tuples);
    assert!(matches!(r, Err(StateError::MissingRestoreValue)));
}

#[test]
fn key_registered_in_exactly_one_bucket() {
    let mut cache = KeyTimeMultiMapCache::new();
    cache.insert(100, 1, b"a".to_vec());
    cache.insert(50, 1, b"b".to_vec());
    cache.insert(70, 2, b"c".to_vec());
    cache.insert(60, 2, b"d".to_vec());
    cache.remove_value(70, 2, &b"c".to_vec());
    cache.clear_time_range(1, 0, 60);
    for key in [1u64, 2u64] {
        let min = cache
            .get_all_values_with_timestamps(key)
            .expect("key present")
            .first()
            .expect("entries present")
            .0;
        let holders: Vec<u64> = cache
            .expirations
            .iter()
            .filter(|(_, keys)| keys.contains(&key))
            .map(|(t, _)| *t)
            .collect();
        assert_eq!(holders, vec![min]);
    }
}
