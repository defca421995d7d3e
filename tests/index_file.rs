use idx_fixed_store::buffer_pool::BufferPoolTrait;
use idx_fixed_store::error::CrustyError;
use idx_fixed_store::ids::{StateType, ValueId};
use idx_fixed_store::index_file::{FixedIndexFile, IndexFileTrait, STARTING_PAGE_CAPACITY};
use idx_fixed_store::prelude::SEARCH_KEY_SIZE;
use idx_fixed_store::test_support::{gen_unique_search_keys_and_value_ids, set_up_test_util};
use rand::{rngs::SmallRng, seq::SliceRandom, SeedableRng};

#[test]
fn test_single_key_no_dupes() {
    let (mut bp, _lm, txn, is_range, idx_c_id) = set_up_test_util();
    let idx = FixedIndexFile::new(idx_c_id, &mut bp, is_range, STARTING_PAGE_CAPACITY);
    let key = [1u8; SEARCH_KEY_SIZE];
    let v_id = ValueId::new_slot(1, 0, 0);
    let value_pointer = v_id.to_fixed_bytes();
    assert!(idx.add(&mut bp, &key, &value_pointer, &txn).is_ok());
    let pointers = idx.get_pointers_for_key(&bp, &key, &txn).expect("Should have pointers");
    assert_eq!(1, pointers.len());
    assert!(pointers.contains(&v_id));

    let key_no_match = [7u8; SEARCH_KEY_SIZE];
    let pointers = idx.get_pointers_for_key(&bp, &key_no_match, &txn).expect("Should have pointers");
    assert_eq!(0, pointers.len());
}

#[test]
fn test_two_keys_no_dupes() {
    let (mut bp, _lm, txn, is_range, idx_c_id) = set_up_test_util();
    let idx = FixedIndexFile::new(idx_c_id, &mut bp, is_range, STARTING_PAGE_CAPACITY);
    let key1 = [1u8; SEARCH_KEY_SIZE];
    let key2 = [2u8; SEARCH_KEY_SIZE];
    let v_id1 = ValueId::new_slot(1, 0, 0);
    let v_id2 = ValueId::new_slot(1, 0, 2);
    assert!(idx.add(&mut bp, &key1, &v_id1.to_fixed_bytes(), &txn).is_ok());
    assert!(idx.add(&mut bp, &key2, &v_id2.to_fixed_bytes(), &txn).is_ok());
    let pointers = idx.get_pointers_for_key(&bp, &key1, &txn).expect("Should have pointers");
    assert_eq!(1, pointers.len());
    assert!(pointers.contains(&v_id1));

    let pointers = idx.get_pointers_for_key(&bp, &key2, &txn).expect("Should have pointers");
    assert_eq!(1, pointers.len());
    assert!(pointers.contains(&v_id2));
}

#[test]
fn test_one_key_dupes() {
    let (mut bp, _lm, txn, is_range, idx_c_id) = set_up_test_util();
    let idx = FixedIndexFile::new(idx_c_id, &mut bp, is_range, STARTING_PAGE_CAPACITY);
    let key = [1u8; SEARCH_KEY_SIZE];
    let v_id1 = ValueId::new_slot(1, 0, 0);
    let v_id2 = ValueId::new_slot(1, 0, 2);
    assert!(idx.add(&mut bp, &key, &v_id1.to_fixed_bytes(), &txn).is_ok());
    assert!(idx.add(&mut bp, &key, &v_id2.to_fixed_bytes(), &txn).is_ok());
    let pointers = idx.get_pointers_for_key(&bp, &key, &txn).expect("Should have pointers");
    assert_eq!(2, pointers.len());
    assert!(pointers.contains(&v_id1));
    assert!(pointers.contains(&v_id2));
}

#[test]
fn test_gen() {
    let (mut bp, _lm, txn, is_range, idx_c_id) = set_up_test_util();
    // Create Index
    let idx = FixedIndexFile::new(idx_c_id, &mut bp, is_range, STARTING_PAGE_CAPACITY);
    // Create keys and value ids and bytes of value ids
    let mut recs = gen_unique_search_keys_and_value_ids(200, 32, 99);

    // Let's shuffle the records
    let mut rng = SmallRng::seed_from_u64(23530);
    recs.shuffle(&mut rng);

    // Add records to index
    for (key, _v_id, pointer) in recs.iter() {
        assert!(idx.add(&mut bp, key, pointer, &txn).is_ok());
    }

    // Let's shuffle the list and check
    recs.shuffle(&mut rng);

    for (key, v_id, _pointer) in recs.iter() {
        let pointers = idx.get_pointers_for_key(&bp, key, &txn).expect("Should have pointers");
        assert_eq!(pointers.len(), 1);
        assert!(pointers.contains(v_id));
    }
}

#[test]
fn overflow_chains_keep_every_entry() {
    let (mut bp, _lm, txn, _is_range, idx_c_id) = set_up_test_util();
    let idx = FixedIndexFile::new(idx_c_id, &mut bp, false, 2);
    assert_eq!(idx.get_pages_used(&bp), 2);
    let key = [3u8; SEARCH_KEY_SIZE];
    let mut ids = Vec::new();
    // more entries than one page of 227 slots holds
    for i in 0..500u32 {
        let v = ValueId::new_slot(5, i, 1);
        idx.add(&mut bp, &key, &v.to_fixed_bytes(), &txn).unwrap();
        ids.push(v);
    }
    assert_eq!(idx.get_pages_used(&bp), 4);
    let got = idx.get_pointers_for_key(&bp, &key, &txn).unwrap();
    assert_eq!(got, ids);
    assert!(idx.get_pointers_for_key(&bp, &[4u8; SEARCH_KEY_SIZE], &txn).unwrap().is_empty());
}

#[test]
fn range_lookups() {
    let (mut bp, _lm, txn, _is_range, idx_c_id) = set_up_test_util();
    let hash = FixedIndexFile::new(idx_c_id, &mut bp, false, 4);
    let lo = [0u8; SEARCH_KEY_SIZE];
    let hi = [9u8; SEARCH_KEY_SIZE];
    assert_eq!(hash.get_pointers_for_key_range(&bp, &lo, &hi, &txn), Err(CrustyError::InvalidOperation));
    let c2 = bp.register_container(None, StateType::Tree).unwrap();
    let ranged = FixedIndexFile::new(c2, &mut bp, true, 4);
    for i in 0..10u8 {
        ranged.add(&mut bp, &[i; SEARCH_KEY_SIZE], &ValueId::new_slot(1, i as u32, 0).to_fixed_bytes(), &txn).unwrap();
    }
    let got = ranged.get_pointers_for_key_range(&bp, &[3u8; SEARCH_KEY_SIZE], &[6u8; SEARCH_KEY_SIZE], &txn).unwrap();
    let mut pages: Vec<u32> = got.iter().map(|v| v.page_id.unwrap()).collect();
    pages.sort();
    assert_eq!(pages, vec![3, 4, 5]);
}

#[test]
fn generated_ids_without_page_limit() {
    let recs = gen_unique_search_keys_and_value_ids(5, 0, 3);
    assert_eq!(recs[4].1, ValueId::new_slot(3, 0, 4));
    let recs = gen_unique_search_keys_and_value_ids(7, 3, 3);
    assert_eq!(recs[6].1, ValueId::new_slot(3, 2, 0));
    assert_eq!(recs[5].0, [5u8; SEARCH_KEY_SIZE]);
    assert_eq!(recs[5].2, recs[5].1.to_fixed_bytes());
}

#[test]
fn value_id_encoding_round_trips() {
    let v = ValueId::new_slot(513, 70000, 258);
    let b = v.to_fixed_bytes();
    assert_eq!(b, [1, 2, 1, 112, 17, 1, 0, 1, 2, 1]);
    assert_eq!(ValueId::from_fixed_bytes(&b), v);
    let p = ValueId::new_page(2, 0);
    assert_eq!(ValueId::from_bytes(&p.to_fixed_bytes()), p);
    let c = ValueId { container_id: 9, page_id: None, slot_id: None };
    assert_eq!(c.to_fixed_bytes(), [9, 0, 0, 0, 0, 0, 0, 0, 0, 0]);
    assert_eq!(ValueId::from_fixed_bytes(&c.to_fixed_bytes()), c);
}

#[test]
fn delete_update_and_bulk_add() {
    let (mut bp, _lm, txn, _is_range, idx_c_id) = set_up_test_util();
    let idx = FixedIndexFile::new(idx_c_id, &mut bp, false, STARTING_PAGE_CAPACITY);
    let keys: Vec<[u8; SEARCH_KEY_SIZE]> = (0..20u8).map(|i| [i % 4; SEARCH_KEY_SIZE]).collect();
    let ptrs: Vec<[u8; 10]> = (0..20u32).map(|i| ValueId::new_slot(2, i, 0).to_fixed_bytes()).collect();
    let places = idx.bulk_add(&mut bp, &keys, &ptrs, &txn).unwrap();
    assert_eq!(places.len(), 20);
    assert_eq!(idx.get_pointers_for_key(&bp, &[1u8; SEARCH_KEY_SIZE], &txn).unwrap().len(), 5);
    assert_eq!(idx.bulk_add(&mut bp, &keys, &ptrs[..3].to_vec(), &txn), Err(CrustyError::InvalidOperation));

    let gone = idx.delete_entry(&mut bp, &[1u8; SEARCH_KEY_SIZE], &ptrs[5], &txn).unwrap();
    assert_eq!(gone, places[5]);
    let left = idx.get_pointers_for_key(&bp, &[1u8; SEARCH_KEY_SIZE], &txn).unwrap();
    assert_eq!(left.len(), 4);
    assert!(!left.contains(&ValueId::new_slot(2, 5, 0)));
    assert_eq!(idx.delete_entry(&mut bp, &[1u8; SEARCH_KEY_SIZE], &ptrs[5], &txn), Err(CrustyError::KeyNotFound));

    idx.update_key(&mut bp, &[2u8; SEARCH_KEY_SIZE], &[9u8; SEARCH_KEY_SIZE], &ptrs[6], &txn).unwrap();
    assert_eq!(idx.get_pointers_for_key(&bp, &[9u8; SEARCH_KEY_SIZE], &txn).unwrap(), vec![ValueId::new_slot(2, 6, 0)]);
    assert_eq!(idx.get_pointers_for_key(&bp, &[2u8; SEARCH_KEY_SIZE], &txn).unwrap().len(), 4);
    assert_eq!(
        idx.update_key(&mut bp, &[2u8; SEARCH_KEY_SIZE], &[9u8; SEARCH_KEY_SIZE], &ptrs[6], &txn),
        Err(CrustyError::KeyNotFound)
    );
}
