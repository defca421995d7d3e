use idx_fixed_store::buffer_pool::{BufferPool, BufferPoolTrait};
use idx_fixed_store::error::CrustyError;
use idx_fixed_store::heap_file::FixedHeapFile;
use idx_fixed_store::ids::{StateType, TransactionId, ValueId};
use idx_fixed_store::prelude::{DATA_VALUE_COUNT, KEY_SIZE, VALUE_SIZE};

#[test]
fn test_data_file() {
    let mut bp = BufferPool::new();
    let txn = TransactionId::new();
    let c_id = bp.register_container(None, StateType::BaseTable).expect("Got CID");
    let mut file = FixedHeapFile::new(c_id, &mut bp);

    let mut key_values = Vec::new();
    for i in 0..DATA_VALUE_COUNT * 4 {
        let key = vec![i as u8; KEY_SIZE];
        let value = vec![i as u8; VALUE_SIZE];
        key_values.push((key, value));
    }

    let mut v_ids = Vec::new();
    for (key, value) in key_values.iter() {
        let v_id = file.insert_kv(&mut bp, &key, &value, &txn).unwrap();
        v_ids.push(v_id);
    }

    for (i, v_id) in v_ids.iter().enumerate() {
        let data = file.get_kv(&mut bp, &v_id, &txn);
        assert_eq!(data.unwrap(), key_values[i]);
    }

    //delete some values
    let d1_i = 3;
    let d2_i = 7 + DATA_VALUE_COUNT;

    let d1 = v_ids[d1_i];
    assert_eq!(0, d1.page_id.unwrap());

    let d2 = v_ids[d2_i];
    assert_eq!(1, d2.page_id.unwrap());

    assert!(file.delete_kv(&mut bp, &d1, &txn).is_ok());
    assert!(file.delete_kv(&mut bp, &d2, &txn).is_ok());

    v_ids.remove(d1_i);
    v_ids.remove(d2_i - 1);
    key_values.remove(d1_i);
    key_values.remove(d2_i - 1);

    for (i, v_id) in v_ids.iter().enumerate() {
        let data = file.get_kv(&mut bp, &v_id, &txn);
        if data.is_err() {
            panic!("Failed at index {} vid {:?}", i, v_id);
        }
        assert_eq!(data.unwrap(), key_values[i], "Failed at index {}", i);
    }

    let new_key = [u8::MAX; KEY_SIZE];
    let new_val = [u8::MAX; VALUE_SIZE];
    let new_v1 = file.insert_kv(&mut bp, new_key.as_ref(), new_val.as_ref(), &txn);
    assert_eq!(
        new_v1.unwrap(),
        d1,
        "Inserted value should take the place of deleted value"
    );
    let new_v2 = file.insert_kv(&mut bp, new_key.as_ref(), new_val.as_ref(), &txn);
    assert_eq!(
        new_v2.unwrap(),
        d2,
        "Inserted value should take the place of deleted value"
    );
}

#[test]
fn heap_update_bulk_and_errors() {
    let mut bp = BufferPool::new();
    let txn = TransactionId::new();
    let c_id = bp.register_container(None, StateType::BaseTable).unwrap();
    let other = bp.register_container(None, StateType::BaseTable).unwrap();
    let mut file = FixedHeapFile::new(c_id, &mut bp);
    let recs: Vec<(Vec<u8>, Vec<u8>)> = (0..40u8).map(|i| (vec![i; KEY_SIZE], vec![i + 1; VALUE_SIZE])).collect();
    let ids = file.bulk_insert_kv(&mut bp, &recs, &txn).unwrap();
    assert_eq!(ids.len(), 40);
    assert_eq!(ids[0], ValueId::new_slot(c_id, 0, 0));
    assert_eq!(ids[28], ValueId::new_slot(c_id, 1, 0));
    assert_eq!(file.max_page, 1);
    file.update_kv(&mut bp, &ids[5], &[9; KEY_SIZE], &[8; VALUE_SIZE], &txn).unwrap();
    assert_eq!(file.get_kv(&mut bp, &ids[5], &txn).unwrap(), (vec![9; KEY_SIZE], vec![8; VALUE_SIZE]));
    assert_eq!(file.get_kv(&mut bp, &ids[6], &txn).unwrap(), recs[6]);
    assert_eq!(file.get_kv(&mut bp, &ValueId::new_slot(c_id, 1, 20), &txn), Err(CrustyError::SlotEmpty));
    assert_eq!(file.get_kv(&mut bp, &ValueId::new_slot(c_id, 5, 0), &txn), Err(CrustyError::PageNotFound));
    assert_eq!(file.get_kv(&mut bp, &ValueId::new_page(c_id, 0), &txn), Err(CrustyError::SlotEmpty));
    assert_eq!(file.delete_kv(&mut bp, &ValueId::new_slot(other, 0, 0), &txn), Err(CrustyError::InvalidOperation));
    assert_eq!(file.delete_kv(&mut bp, &ValueId::new_slot(c_id, 0, 28), &txn), Err(CrustyError::SlotOutOfBounds));
    assert_eq!(file.update_kv(&mut bp, &ValueId::new_slot(c_id, 9, 0), &[0; KEY_SIZE], &[0; VALUE_SIZE], &txn), Err(CrustyError::PageNotFound));
}
