use idx_fixed_store::buffer_frame::BufferFrame;
use idx_fixed_store::buffer_pool::{BufferPool, BufferPoolTrait, FRAMES, MAX_CONTAINERS};
use idx_fixed_store::error::CrustyError;
use idx_fixed_store::ids::{Permissions, StateType, ValueId};
use idx_fixed_store::prelude::{KEY_SIZE, VALUE_SIZE};

#[test]
fn test_bp_simple() {
    let mut bp = BufferPool::new();
    let c1 = bp.register_container(None, StateType::BaseTable).expect("Got CID");
    assert_eq!(c1, 0);
    let c2 = bp.register_container(None, StateType::HashTable).expect("Got CID");
    assert_eq!(c2, 1);
    let (p, g) = bp.new_page(c1).expect("Got page");
    assert_eq!(p, 0);
    assert_eq!(g.frame_id, 0);
    bp.release_page(g);
    let (p, g) = bp.new_page(c2).expect("Got page");
    assert_eq!(p, 0);
    assert_eq!(g.frame_id, 1);
    let (p, g) = bp.new_page(c1).expect("Got page");
    assert_eq!(p, 1);
    assert!(bp.frame_page(&g).get_kv(0).is_none());
    let key = [1; KEY_SIZE];
    let val = [2; VALUE_SIZE];
    let slot = bp.frame_page_mut(&g).write(0, false, &key, &val);
    assert!(slot.is_ok());
    bp.release_page(g);
    let v_id = ValueId::new_page(c1, p);
    let g = bp.get_page(&v_id, Permissions::ReadOnly).unwrap();
    let (k, v) = bp.frame_page(&g).get_kv(0).unwrap();
    assert_eq!(k, key);
    assert_eq!(v, val);
    assert_eq!(bp.frames[g.frame_id].pin_count, 1);
}

#[test]
fn registrations_get_distinct_ids_and_sizes() {
    let mut bp = BufferPool::new();
    let a = bp.register_container(Some("a".to_string()), StateType::BaseTable).unwrap();
    let b = bp.register_container(None, StateType::Tree).unwrap();
    assert_ne!(a, b);
    let meta = bp.containers[b as usize].as_ref().unwrap();
    assert_eq!((meta.key_size, meta.value_size), (8, 10));
    let meta = bp.containers[a as usize].as_ref().unwrap();
    assert_eq!((meta.key_size, meta.value_size), (KEY_SIZE, VALUE_SIZE));
    assert_eq!(meta.name, Some("a".to_string()));
}

#[test]
fn page_ids_increase_from_zero() {
    let mut bp = BufferPool::new();
    let c = bp.register_container(None, StateType::BaseTable).unwrap();
    let d = bp.register_container(None, StateType::HashTable).unwrap();
    for expected in 0..5u32 {
        let (p, g) = bp.new_page(c).unwrap();
        assert_eq!(p, expected);
        bp.release_page(g);
        let (q, g) = bp.new_page(d).unwrap();
        assert_eq!(q, expected);
        bp.release_page(g);
    }
    let g = bp.get_page(&ValueId::new_slot(c, 3, 9), Permissions::ReadWrite).unwrap();
    assert_eq!(bp.frame_page(&g).p_id, 3);
    assert_eq!(bp.frames[g.frame_id].pin_count, 1);
    let g2 = bp.get_page(&ValueId::new_page(c, 3), Permissions::ReadOnly).unwrap();
    assert_eq!(g2.frame_id, g.frame_id);
    assert_eq!(bp.frames[g.frame_id].pin_count, 2);
    bp.release_page(g2);
    bp.release_page(g);
    assert_eq!(bp.frames[6].pin_count, 0);
}

#[test]
fn missing_pages_and_containers() {
    let mut bp = BufferPool::new();
    assert_eq!(bp.new_page(0).err(), Some(CrustyError::ContainerDoesNotExist));
    let c = bp.register_container(None, StateType::BaseTable).unwrap();
    assert_eq!(bp.get_page(&ValueId::new_page(c, 0), Permissions::ReadOnly).err(), Some(CrustyError::PageNotFound));
    assert_eq!(bp.get_page(&ValueId::new_page(7, 0), Permissions::ReadOnly).err(), Some(CrustyError::PageNotFound));
    let (_, g) = bp.new_page(c).unwrap();
    bp.release_page(g);
    assert!(bp.get_page(&ValueId::new_page(c, 0), Permissions::ReadOnly).is_ok());
    assert_eq!(bp.get_page(&ValueId::new_page(c, 1), Permissions::ReadOnly).err(), Some(CrustyError::PageNotFound));
}

#[test]
fn frames_and_containers_run_out() {
    let mut bp = BufferPool::new();
    let c = bp.register_container(None, StateType::BaseTable).unwrap();
    for _ in 0..FRAMES {
        let (_, g) = bp.new_page(c).unwrap();
        bp.release_page(g);
    }
    assert_eq!(bp.new_page(c).err(), Some(CrustyError::OutOfFrames));
    for _ in 1..MAX_CONTAINERS {
        bp.register_container(None, StateType::MatView).unwrap();
    }
    assert_eq!(bp.register_container(None, StateType::MatView), Err(CrustyError::OutOfContainers));
}

#[test]
fn latch_is_exclusive() {
    let mut bp = BufferPool::new();
    assert!(bp.acquire_latch().is_ok());
    assert_eq!(bp.acquire_latch(), Err(CrustyError::LatchTimeout));
    bp.release_latch();
    assert!(bp.acquire_latch().is_ok());
}

#[test]
fn frame_pins() {
    let mut f = BufferFrame::new(4);
    assert_eq!(f.pin_count, 0);
    let g = f.read();
    assert_eq!(g.frame_id, 4);
    assert_eq!(f.pin_count, 1);
    f.unpin();
    assert_eq!(f.pin_count, 0);
}
