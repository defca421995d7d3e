use idx_fixed_store::error::CrustyError;
use idx_fixed_store::ids::{StateType, TransactionId};
use idx_fixed_store::prelude::{extract_search_key, KEY_SIZE, SEARCH_KEY_SIZE, VALUE_SIZE};
use idx_fixed_store::storage_manager::StorageManager;

fn record(i: usize, card: usize) -> (Vec<u8>, Vec<u8>) {
    let mut key = vec![0u8; KEY_SIZE];
    key[KEY_SIZE - 2] = (i / 256) as u8;
    key[KEY_SIZE - 1] = (i % 256) as u8;
    let mut value = vec![(i % 251) as u8; VALUE_SIZE];
    let sk = (i % card) as u64 * 7919;
    value[VALUE_SIZE - SEARCH_KEY_SIZE..].copy_from_slice(&sk.to_be_bytes());
    (key, value)
}

#[test]
fn table_with_index_end_to_end() {
    let mut sm = StorageManager::new(1000);
    let txn = TransactionId::new();
    let (t_id, i_id) = sm.create_table_with_idx(Some("test_table".to_string())).unwrap();
    assert_eq!((t_id, i_id), (0, 1));
    assert_eq!(sm.bp.containers[i_id as usize].as_ref().unwrap().container_type, StateType::HashTable);
    assert_eq!(sm.bp.containers[t_id as usize].as_ref().unwrap().container_type, StateType::BaseTable);
    assert_eq!(sm.bp.containers[i_id as usize].as_ref().unwrap().name, Some("test_table_idx".to_string()));

    let n = 300;
    let card = 12;
    let recs: Vec<(Vec<u8>, Vec<u8>)> = (0..n).map(|i| record(i, card)).collect();
    let mut by_key: Vec<Vec<(Vec<u8>, Vec<u8>)>> = vec![Vec::new(); card];
    let mut vids = Vec::new();
    for (i, (k, v)) in recs.iter().enumerate() {
        let vid = sm.insert_kv(&t_id, k, v, &txn).unwrap();
        assert_eq!(vid.container_id, t_id);
        assert_eq!(sm.get_kv_by_val_id(&t_id, &vid, &txn).unwrap(), (k.clone(), v.clone()));
        by_key[i % card].push((k.clone(), v.clone()));
        vids.push(vid);
    }
    for (m, expected) in by_key.iter().enumerate() {
        let sk = extract_search_key(&expected[0].1);
        assert_eq!(sk, ((m as u64) * 7919).to_be_bytes());
        let mut got = sm.get_kvs_by_search_key_equality(&t_id, &sk, &txn).unwrap();
        got.sort();
        let mut want = expected.clone();
        want.sort();
        assert_eq!(got, want);
    }
    let none = sm.get_kvs_by_search_key_equality(&t_id, &[0xff; SEARCH_KEY_SIZE], &txn).unwrap();
    assert!(none.is_empty());
}

#[test]
fn storage_manager_errors_and_bulk() {
    let mut sm = StorageManager::new(10);
    let txn = TransactionId::new();
    let (t_id, i_id) = sm.create_table_with_idx(None).unwrap();
    assert_eq!(sm.insert_kv(&i_id, &[0; KEY_SIZE], &[0; VALUE_SIZE], &txn), Err(CrustyError::ContainerDoesNotExist));
    assert_eq!(sm.get_kvs_by_search_key_range(&t_id, &[0; 8], &[1; 8], &txn), Err(CrustyError::InvalidOperation));
    assert_eq!(sm.get_kvs_by_search_key_range(&77, &[0; 8], &[1; 8], &txn), Err(CrustyError::ContainerDoesNotExist));
    let recs: Vec<(Vec<u8>, Vec<u8>)> = (0..30).map(|i| record(i, 3)).collect();
    let vids = sm.insert_kvs(&t_id, &recs, &txn).unwrap();
    assert_eq!(vids.len(), 30);
    assert_eq!(sm.get_kv_by_val_id(&t_id, &vids[29], &txn).unwrap(), recs[29]);
    assert_eq!(sm.get_kvs_by_search_key_equality(&t_id, &extract_search_key(&recs[1].1), &txn).unwrap().len(), 10);
    // each table takes nine frames; the pool has 500
    let mut made = 1;
    loop {
        match sm.create_table_with_idx(None) {
            Ok(_) => made += 1,
            Err(e) => {
                assert_eq!(e, CrustyError::OutOfFrames);
                break;
            }
        }
    }
    assert_eq!(made, 55);
}
