use std::collections::{HashMap, HashSet};

use idx_fixed_store::fixed_page::FixedPage;
use idx_fixed_store::heap_page::HeapDataPage;
use idx_fixed_store::ids::{SlotId, TransactionId, ValueId};
use idx_fixed_store::prelude::{extract_search_key, DATA_VALUE_COUNT, KEY_SIZE, SEARCH_KEY_SIZE, VALUE_SIZE};
use idx_fixed_store::storage_manager::StorageManager;
use idx_fixed_store::test_util::{gen_records_ascending_keys, gen_small_rng_with_seed, SearchKeyTypes};
use rand::rngs::SmallRng;
use rand::SeedableRng;

#[test]
fn test_ascending_records() {
    let mut rng = SmallRng::from_entropy();
    let records = gen_records_ascending_keys(100, SearchKeyTypes::Random, &mut rng);
    let mut prev_key = vec![0; KEY_SIZE];
    assert_eq!(records.len(), 100);
    for (i, (key, value)) in records.iter().enumerate() {
        if i > 0 {
            assert!(key > &prev_key);
        }
        assert_eq!(key.len(), KEY_SIZE);
        assert_eq!(value.len(), VALUE_SIZE);
        prev_key = key.clone();
    }
}

#[test]
fn test_ascending_records_card_search_key() {
    let mut rng = SmallRng::from_entropy();
    let card = 18;
    let n = 500;
    let records = gen_records_ascending_keys(n, SearchKeyTypes::Card(card), &mut rng);
    let mut prev_key = vec![0; KEY_SIZE];
    assert_eq!(records.len(), n);
    let mut search_keys: HashSet<Vec<u8>> = HashSet::new();
    for (i, (key, value)) in records.iter().enumerate() {
        if i > 0 {
            assert!(key > &prev_key);
        }
        assert_eq!(key.len(), KEY_SIZE);
        assert_eq!(value.len(), VALUE_SIZE);
        prev_key = key.clone();
        let search_key = value[VALUE_SIZE - SEARCH_KEY_SIZE..].to_vec();
        assert_eq!(search_key.len(), SEARCH_KEY_SIZE);
        search_keys.insert(search_key);
    }
    assert_eq!(search_keys.len(), card);
}

#[test]
fn test_ascending_records_distinct_search_key() {
    let mut rng = SmallRng::from_entropy();
    let n = 500;
    let records = gen_records_ascending_keys(n, SearchKeyTypes::Distinct, &mut rng);
    let mut prev_key = vec![0; KEY_SIZE];
    assert_eq!(records.len(), n);
    let mut search_keys: HashSet<Vec<u8>> = HashSet::new();
    for (i, (key, value)) in records.iter().enumerate() {
        if i > 0 {
            assert!(key > &prev_key);
        }
        assert_eq!(key.len(), KEY_SIZE);
        assert_eq!(value.len(), VALUE_SIZE);
        prev_key = key.clone();
        let search_key = value[VALUE_SIZE - SEARCH_KEY_SIZE..].to_vec();
        assert_eq!(search_key.len(), SEARCH_KEY_SIZE);
        search_keys.insert(search_key);
    }
    assert_eq!(search_keys.len(), n);
}

#[test]
fn sample_util_page_test() {
    let mut page = <FixedPage as HeapDataPage>::new(1);
    let record_count = DATA_VALUE_COUNT;
    let search_keys = SearchKeyTypes::Card(5);
    let mut rng = gen_small_rng_with_seed(23530);
    let records = gen_records_ascending_keys(record_count, search_keys, &mut rng);
    for (i, (key, value)) in records.iter().enumerate() {
        let slot = page.add(key, value);
        assert!(slot.is_some());
        assert_eq!(slot.unwrap(), i as SlotId);
    }
}

#[test]
fn odd_counts_and_key_layout() {
    let mut rng = gen_small_rng_with_seed(7);
    let records = gen_records_ascending_keys(5, SearchKeyTypes::Distinct, &mut rng);
    // two halves of n / 2 records each
    assert_eq!(records.len(), 4);
    let mut want = vec![0u8; 16];
    want[15] = 1;
    assert_eq!(records[1].0, want);
    want[7] = 1;
    want[15] = 0;
    assert_eq!(records[2].0, want);
    // the same seed gives the same records
    let mut again = gen_small_rng_with_seed(7);
    assert_eq!(gen_records_ascending_keys(5, SearchKeyTypes::Distinct, &mut again), records);
}

#[test]
fn test_storage_manager_single_thread() {
    let mut sm = StorageManager::new(1000);
    let txn = TransactionId::new();
    let (t_id, _i_id) = sm.create_table_with_idx(Some("test_table".to_string())).unwrap();

    let n = 1000;
    let mut rng = SmallRng::seed_from_u64(23530);

    let recs = gen_records_ascending_keys(n, SearchKeyTypes::Card(100), &mut rng);
    let mut search_keys_to_vids: HashMap<[u8; SEARCH_KEY_SIZE], Vec<ValueId>> = HashMap::with_capacity(100);
    let mut search_key_to_keys: HashMap<[u8; SEARCH_KEY_SIZE], Vec<Vec<u8>>> = HashMap::with_capacity(100);
    let mut v_ids_to_kv = HashMap::new();
    for (key, value) in &recs {
        let v_id = sm.insert_kv(&t_id, &key, &value, &txn).unwrap();
        assert!(v_ids_to_kv.insert(v_id, (key.to_vec(), value.to_vec())).is_none());
        let search_key = extract_search_key(value);
        search_keys_to_vids.entry(search_key).or_insert_with(Vec::new).push(v_id);
        search_key_to_keys.entry(search_key).or_insert_with(Vec::new).push(key.to_vec());
    }
    for (search_key, keys) in search_key_to_keys {
        let kvs = sm.get_kvs_by_search_key_equality(&t_id, &search_key, &txn).unwrap();
        assert_eq!(kvs.len(), keys.len());
        for (k, _v) in kvs {
            assert!(keys.contains(&k));
        }
    }
}
