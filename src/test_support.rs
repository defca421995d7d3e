use vstd::prelude::*;
use crate::buffer_pool::{BufferPool, BufferPoolTrait};
use crate::ids::{fixed_bytes_of, ContainerId, SlotId, StateType, TransactionId, ValueId};
use crate::index_file::INDEX_TYPE;
use crate::lock_manager::LockManager;
use crate::prelude::{INDEX_POINTER_SIZE, SEARCH_KEY_SIZE};

verus! {

/// A buffer pool with one registered hash-index container, a lock manager,
/// a transaction, whether the index kind supports ranges, and the container.
pub fn set_up_test_util() -> (r: (BufferPool, LockManager, TransactionId, bool, ContainerId))
    ensures
        r.0.wf(),
        !r.0.latch,
        r.0.is_registered(r.4 as int),
        r.0.containers@[r.4 as int]->Some_0.container_type == StateType::HashTable,
        r.0.page_count(r.4 as int) == 0,
        r.0.free_frame == 0,
        r.1.wf(),
        r.1.timeout_ms == 100,
        r.3 == false,
{
    let lm = LockManager::new(100);
    let mut bp = BufferPool::new();
    proof {
        assert(!bp.all_registered_below(256)) by {
            assert(!bp.is_registered(0));
        }
    }
    let c_id = match bp.register_container(None, StateType::HashTable) {
        Ok(c) => c,
        Err(_) => 0,
    };
    proof {
        assert(bp.container_ok(c_id as int));
    }
    let txn = TransactionId::new();
    let is_range = match INDEX_TYPE {
        StateType::Tree => true,
        _ => false,
    };
    (bp, lm, txn, is_range, c_id)
}

/// The (page, slot) that entry `i` gets with `n` slots per page; with no
/// limit on slots (`n == 0`) every entry stays on page 0.
pub open spec fn position(i: int, n: int) -> (u32, u16) {
    if n == 0 {
        (0u32, i as u16)
    } else {
        ((i / n) as u32, (i % n) as u16)
    }
}

/// `num` distinct search keys (key `i` is `i` repeated), each with the value
/// id of slot `i % slots_per_page` of page `i / slots_per_page` of container
/// `c_id_for_v_id` (slot `i` of page 0 when `slots_per_page` is 0), and that
/// id's fixed encoding.
pub fn gen_unique_search_keys_and_value_ids(num: usize, slots_per_page: SlotId, c_id_for_v_id: ContainerId) -> (r: Vec<([u8; SEARCH_KEY_SIZE], ValueId, [u8; INDEX_POINTER_SIZE])>)
    requires
        num <= u32::MAX,
        slots_per_page == 0 ==> num <= u16::MAX,
    ensures
        r@.len() == num,
        forall|i: int| 0 <= i < num ==> {
            &&& (#[trigger] r@[i]).0@ == Seq::new(SEARCH_KEY_SIZE as nat, |j: int| i as u8)
            &&& r@[i].1 == ValueId::new_slot_spec(c_id_for_v_id, position(i, slots_per_page as int).0, position(i, slots_per_page as int).1)
            &&& r@[i].2@ == fixed_bytes_of(r@[i].1)
        },
{
    let mut res: Vec<([u8; SEARCH_KEY_SIZE], ValueId, [u8; INDEX_POINTER_SIZE])> = Vec::new();
    let mut p_id: u32 = 0;
    let mut slot: u16 = 0;
    let mut i: usize = 0;
    while i < num
        invariant
            num <= u32::MAX,
            slots_per_page == 0 ==> num <= u16::MAX,
            i <= num,
            res@.len() == i,
            slots_per_page > 0 ==> slot < slots_per_page,
            (p_id, slot) == position(i as int, slots_per_page as int),
            p_id <= i,
            forall|k: int| 0 <= k < i ==> {
                &&& (#[trigger] res@[k]).0@ == Seq::new(SEARCH_KEY_SIZE as nat, |j: int| k as u8)
                &&& res@[k].1 == ValueId::new_slot_spec(c_id_for_v_id, position(k, slots_per_page as int).0, position(k, slots_per_page as int).1)
                &&& res@[k].2@ == fixed_bytes_of(res@[k].1)
            },
        decreases num - i,
    {
        let b = i as u8;
        let key = [b, b, b, b, b, b, b, b];
        let v_id = ValueId::new_slot(c_id_for_v_id, p_id, slot);
        let bytes = v_id.to_fixed_bytes();
        proof {
            assert(key@ =~= Seq::new(SEARCH_KEY_SIZE as nat, |j: int| i as u8));
        }
        res.push((key, v_id, bytes));
        proof {
            let n = slots_per_page as int;
            let x = i as int;
            if n > 0 {
                if slot + 1 == n {
                    assert((x + 1) / n == x / n + 1 && (x + 1) % n == 0) by (nonlinear_arith)
                        requires x % n == n - 1, n >= 1, x >= 0;
                } else {
                    assert((x + 1) / n == x / n && (x + 1) % n == x % n + 1) by (nonlinear_arith)
                        requires x % n < n - 1, n >= 1, x >= 0;
                }
                assert(x / n <= x) by (nonlinear_arith)
                    requires n >= 1, x >= 0;
            }
        }
        slot += 1;
        if slot == slots_per_page {
            slot = 0;
            p_id += 1;
        }
        i += 1;
    }
    res
}

} // verus!
