use idx_fixed_store::error::CrustyError;
use idx_fixed_store::fixed_page::FixedPage;
use idx_fixed_store::heap_page::HeapDataPage;
use idx_fixed_store::ids::SlotId;
use idx_fixed_store::prelude::{DATA_VALUE_COUNT, KEY_SIZE, VALUE_SIZE};

#[test]
fn test_shift() {
    const BIG_SIZE: usize = 256;
    // should hold 8 KV pairs
    let mut p = FixedPage::new(1, BIG_SIZE, BIG_SIZE);
    assert_eq!(p.slot_capacity, 8);
    assert_eq!(p.get_filled_slot_count(), 0);
    assert_eq!(p.get_free_slot_count(), 8);
    let k1 = [1; BIG_SIZE];
    let k2 = [3; BIG_SIZE];
    let k3 = [4; BIG_SIZE];
    p.write(0, false, &k1, &k1).unwrap();
    p.write(1, false, &k2, &k2).unwrap();
    p.write(2, false, &k3, &k3).unwrap();
    assert_eq!(p.get_filled_slot_count(), 3);
    assert_eq!(p.get_free_slot_count(), 5);

    let (k, v) = p.get_kv(0).unwrap();
    assert_eq!(k, k1);
    assert_eq!(v, k1);

    let (k, v) = p.get_kv(1).unwrap();
    assert_eq!(k, k2);
    assert_eq!(v, k2);

    let (k, v) = p.get_kv(2).unwrap();
    assert_eq!(k, k3);
    assert_eq!(v, k3);

    // Shift all right from 1
    assert!(p.get_kv(3).is_none());
    assert_eq!(p.shift_all_right(1).unwrap(), true);

    // Slot counts should be the same
    assert_eq!(p.get_filled_slot_count(), 3);
    assert_eq!(p.get_free_slot_count(), 5);

    // Slot 0 should be in the same place
    let (k, v) = p.get_kv(0).unwrap();
    assert_eq!(k, k1);
    assert_eq!(v, k1);

    // 1 should be empty
    assert!(p.get_kv(1).is_none());

    // Slot 1 should be in slot 2
    let (k, v) = p.get_kv(2).unwrap();
    assert_eq!(k, k2);
    assert_eq!(v, k2);

    let (k, v) = p.get_kv(3).unwrap();
    assert_eq!(k, k3);
    assert_eq!(v, k3);

    assert!(p.get_kv(4).is_none());

    // move 3 to 4, making 3 empty
    assert!(p.move_if_empty(3, 4).is_ok());
    assert!(p.get_kv(3).is_none());

    let (k, v) = p.get_kv(4).unwrap();
    assert_eq!(k, k3);
    assert_eq!(v, k3);

    // Shift right from 0. should only move 0 to 1 since it is empty
    assert_eq!(p.shift_all_right(0).unwrap(), true);
    assert!(p.get_kv(0).is_none());
    assert!(p.get_kv(3).is_none());

    let (k, v) = p.get_kv(4).unwrap();
    assert_eq!(k, k3);
    assert_eq!(v, k3);

    let (k, v) = p.get_kv(2).unwrap();
    assert_eq!(k, k2);
    assert_eq!(v, k2);

    let (k, v) = p.get_kv(1).unwrap();
    assert_eq!(k, k1);
    assert_eq!(v, k1);

    // fill in the empty slots
    let k4 = [5; BIG_SIZE];
    let k6 = [6; BIG_SIZE];
    assert!(p.write(0, false, &k4, &k4).is_ok());
    assert!(p.write(3, false, &k4, &k4).is_ok());
    assert!(p.write(4, false, &k4, &k4).is_err()); // already filled
    assert!(p.write(5, false, &k4, &k4).is_ok());
    assert!(p.write(6, false, &k4, &k4).is_ok());
    assert!(p.write(7, false, &k6, &k6).is_ok());
    assert!(p.write(8, false, &k4, &k4).is_err()); // out of bounds

    assert_eq!(p.get_filled_slot_count(), 8);
    assert_eq!(p.get_free_slot_count(), 0);

    assert!(p.shift_all_right(0).unwrap() == false);
    assert!(p.shift_all_right(3).unwrap() == false);
    assert!(p.shift_all_right(7).unwrap() == false);

    let (k, v) = p.get_kv(7).unwrap();
    assert_eq!(k, k6);
    assert_eq!(v, k6);
    p.delete(7);

    assert!(p.shift_all_right(3).unwrap());
    let (k, v) = p.get_kv(7).unwrap();
    assert_eq!(k, k4);
    assert_eq!(v, k4);
    assert_eq!(p.get_free_slot_count(), 1);

    assert!(p.get_kv(3).is_none());
}

#[test]
fn test_page() {
    let k1 = [1; KEY_SIZE];
    let k2 = [3; KEY_SIZE];
    let k3 = [5; KEY_SIZE];
    let v1 = [2; VALUE_SIZE];
    let v2 = [4; VALUE_SIZE];
    let v3 = [6; VALUE_SIZE];
    let mut p = FixedPage::new(1, KEY_SIZE, VALUE_SIZE);
    assert_eq!(p.get_kv(0), None);
    assert!(p.write(0, false, &k1, &v1).is_ok());
    assert!(p.write(0, false, &k3, &v3).is_err());
    let (mut k, mut v) = p.get_kv(0).unwrap();
    assert_eq!(k, k1);
    assert_eq!(v, v1);
    assert!(p.write(1, false, &k2, &v2).is_ok());
    (k, v) = p.get_kv(1).unwrap();
    assert_eq!(k, k2);
    assert_eq!(v, v2);
    assert!(p.write(3, false, &k3, &v3).is_ok());
    let mut all = p.get_kv_pairs();
    assert_eq!(all[0].0, 0);
    assert_eq!(all[1].0, 1);
    assert_eq!(all[2].0, 3);
    assert_eq!(all[2].1, k3);
    assert_eq!(all[2].2, v3);
    assert!(p.move_if_empty(0, 1).is_err());
    assert!(p.move_if_empty(0, 2).is_ok());
    all = p.get_kv_pairs();
    assert_eq!(all[0].0, 1);
    assert_eq!(all[1].0, 2);
    assert_eq!(all[2].0, 3);
    assert_eq!(all[2].0, 3);
    assert_eq!(all[2].1, k3);
    assert_eq!(all[2].2, v3);
    p.delete(2);
    p.delete(3);
    all = p.get_kv_pairs();
    assert_eq!(all[0].0, 1);
    assert_eq!(all[0].1, k2);
    assert_eq!(all[0].2, v2);
}

#[test]
fn test_data_page() {
    let mut page = <FixedPage as HeapDataPage>::new(1);
    let key = vec![0; KEY_SIZE];
    let value = vec![1; VALUE_SIZE];
    let slot = page.add(&key, &value);
    assert!(slot.is_some());
    let data = page.get_kv(slot.unwrap()).unwrap();
    assert_eq!(data.0, key);
    assert_eq!(data.1, value);

    let key2 = vec![2; KEY_SIZE];
    let value2 = vec![3; VALUE_SIZE];
    let slot2 = page.add(&key2, &value2);
    assert!(slot2.is_some());
    let data2 = page.get_kv(slot2.unwrap()).unwrap();
    assert_eq!(data2.0, key2);
    assert_eq!(data2.1, value2);

    page.delete(slot.unwrap());
    let data = page.get_kv(slot.unwrap());
    assert!(data.is_none());

    assert_eq!(page.get_kv(slot2.unwrap()).unwrap().1, value2);
}

#[test]
fn filled_page() {
    let mut page = <FixedPage as HeapDataPage>::new(1);
    let mut values = Vec::new();
    for i in 0..DATA_VALUE_COUNT {
        let key = vec![i as u8; KEY_SIZE];
        let value = vec![i as u8; VALUE_SIZE];
        let slot = page.add(&key, &value);
        values.push((key, value));
        assert_eq!(slot.unwrap(), i as SlotId);
    }
    let slot = page.add(&values[0].0, &values[0].1);
    assert!(slot.is_none());

    for (i, value) in values.iter().enumerate() {
        assert_eq!(page.get_kv(i as SlotId).unwrap().1, *value.1);
    }
}

#[test]
fn page_capacity_is_page_size_over_pair_size() {
    assert_eq!(FixedPage::new(0, 16, 128).slot_capacity, 28);
    assert_eq!(FixedPage::new(0, 8, 10).slot_capacity, 227);
    assert_eq!(FixedPage::new(0, 300, 285).slot_capacity, 7);
    // a pair of one byte would fit 4096 times; the slot limit caps it
    assert_eq!(FixedPage::new(0, 0, 1).slot_capacity, 1024);
    assert_eq!(DATA_VALUE_COUNT, 28);
}

#[test]
fn write_then_read_and_delete() {
    let mut p = FixedPage::new(3, 4, 6);
    assert!(p.get_kv(5).is_none());
    p.write(5, false, &[1, 2, 3, 4], &[9, 8, 7, 6, 5, 4]).unwrap();
    assert_eq!(p.get_kv(5), Some((vec![1, 2, 3, 4], vec![9, 8, 7, 6, 5, 4])));
    // overwrite replaces an occupied slot
    p.write(5, true, &[0, 0, 0, 0], &[1, 1, 1, 1, 1, 1]).unwrap();
    assert_eq!(p.get_kv(5), Some((vec![0; 4], vec![1; 6])));
    p.delete(5);
    assert_eq!(p.get_kv(5), None);
    // deleting twice, or past the capacity, is harmless
    p.delete(5);
    p.delete(60000);
    assert_eq!(p.get_filled_slot_count(), 0);
}

#[test]
fn write_errors() {
    let mut p = FixedPage::new(1, 256, 256);
    let k = [7u8; 256];
    assert_eq!(p.write(8, false, &k, &k), Err(CrustyError::SlotOutOfBounds));
    assert_eq!(p.write(8, true, &k, &k), Err(CrustyError::SlotOutOfBounds));
    p.write(2, false, &k, &k).unwrap();
    assert_eq!(p.write(2, false, &k, &k), Err(CrustyError::StorageError));
    assert_eq!(p.get_kv(8), None);
}

#[test]
fn move_if_empty_cases() {
    let mut p = FixedPage::new(1, 256, 256);
    let a = [1u8; 256];
    let b = [2u8; 256];
    p.write(0, false, &a, &a).unwrap();
    p.write(1, false, &b, &b).unwrap();
    // from free
    assert_eq!(p.move_if_empty(4, 5), Err(CrustyError::StorageError));
    // to occupied
    assert_eq!(p.move_if_empty(0, 1), Err(CrustyError::StorageError));
    // out of bounds
    assert_eq!(p.move_if_empty(0, 8), Err(CrustyError::SlotOutOfBounds));
    assert_eq!(p.move_if_empty(9, 2), Err(CrustyError::SlotOutOfBounds));
    assert!(p.move_if_empty(0, 6).is_ok());
    assert_eq!(p.get_kv(0), None);
    assert_eq!(p.get_kv(6), Some((a.to_vec(), a.to_vec())));
    assert_eq!(p.get_kv(1), Some((b.to_vec(), b.to_vec())));
}

#[test]
fn shift_keeps_records_and_reports_full() {
    let mut p = FixedPage::new(1, 256, 256);
    for s in 0..8u16 {
        let k = [s as u8; 256];
        p.write(s, false, &k, &k).unwrap();
    }
    p.delete(2);
    let before: Vec<(Vec<u8>, Vec<u8>)> = p.get_kv_pairs().into_iter().map(|t| (t.1, t.2)).collect();
    // no free slot right of 3: nothing moves
    assert_eq!(p.shift_all_right(3), Ok(false));
    let same: Vec<(Vec<u8>, Vec<u8>)> = p.get_kv_pairs().into_iter().map(|t| (t.1, t.2)).collect();
    assert_eq!(before, same);
    // slot 0 shifts into the free slot 2
    assert_eq!(p.shift_all_right(0), Ok(true));
    let after: Vec<(Vec<u8>, Vec<u8>)> = p.get_kv_pairs().into_iter().map(|t| (t.1, t.2)).collect();
    assert_eq!(before, after);
    let slots: Vec<u16> = p.get_kv_pairs().into_iter().map(|t| t.0).collect();
    assert_eq!(slots, vec![1, 2, 3, 4, 5, 6, 7]);
    // errors
    assert_eq!(p.shift_all_right(0), Err(CrustyError::SlotEmpty));
    assert_eq!(p.shift_all_right(8), Err(CrustyError::SlotOutOfBounds));
}

#[test]
fn empty_page_has_unconfigured_slots() {
    let p = FixedPage::empty();
    assert_eq!(p.slot_capacity, 1024);
    assert_eq!(p.get_kv(0), Some((vec![], vec![])));
    assert_eq!(p.get_free_slot_count(), 0);
}
