use vstd::prelude::*;
use crate::buffer_pool::{
    lemma_keeps_others_trans, lemma_new_page_keeps_others, lemma_page_write, lemma_same_pages_keep, BufferPool,
    BufferPoolTrait, FRAMES,
};
use crate::error::CrustyError;
use crate::fixed_page::FixedPage;
use crate::heap_page::HeapDataPage;
use crate::ids::{ContainerId, PageId, Permissions, SlotId, TransactionId, ValueId};
use crate::prelude::{KEY_SIZE, VALUE_SIZE};

verus! {

/// A heap file of base-table records in one container of a buffer pool.
#[derive(Clone, Copy)]
pub struct FixedHeapFile {
    /// The container of the file.
    pub c_id: ContainerId,
    /// The largest page id of the file.
    pub max_page: PageId,
    /// The first page that may have a free slot; every page before it is full.
    pub free_page_cache: PageId,
}

/// The value id of slot `s` of page `p` of container `c`.
pub open spec fn slot_id_of(c: ContainerId, p: PageId, s: SlotId) -> ValueId {
    ValueId { container_id: c, page_id: Some(p), slot_id: Some(s) }
}

/// Every slot of the page holds a record.
pub open spec fn page_full(page: FixedPage) -> bool {
    forall|j: int| 0 <= j < page@.len() ==> (#[trigger] page@[j]) is Some
}

impl FixedHeapFile {
    /// The file's bookkeeping agrees with its container in the pool.
    pub open spec fn file_wf(&self, bp: &BufferPool) -> bool {
        &&& bp.wf()
        &&& !bp.latch
        &&& bp.is_registered(self.c_id as int)
        &&& bp.containers@[self.c_id as int]->Some_0.key_size == KEY_SIZE
        &&& bp.containers@[self.c_id as int]->Some_0.value_size == VALUE_SIZE
        &&& bp.page_count(self.c_id as int) == self.max_page + 1
        &&& self.free_page_cache <= self.max_page
        &&& forall|p: int| 0 <= p < self.free_page_cache ==> page_full(#[trigger] bp.page(self.c_id as int, p))
    }

    /// The records of the file's container are those of `o`.
    pub open spec fn same_records(&self, bp: &BufferPool, o: &BufferPool) -> bool {
        forall|v: ValueId| v.container_id == self.c_id ==> #[trigger] bp.record(v) == o.record(v)
    }

    /// A heap file over a registered, still empty base-table container; its
    /// first page is created.
    pub fn new(c_id: ContainerId, bp: &mut BufferPool) -> (r: FixedHeapFile)
        requires
            old(bp).wf(),
            !old(bp).latch,
            old(bp).is_registered(c_id as int),
            old(bp).containers@[c_id as int]->Some_0.key_size == KEY_SIZE,
            old(bp).containers@[c_id as int]->Some_0.value_size == VALUE_SIZE,
            old(bp).page_count(c_id as int) == 0,
            old(bp).free_frame < FRAMES,
        ensures
            r.file_wf(final(bp)),
            r.c_id == c_id,
            r.max_page == 0,
            final(bp).free_frame == old(bp).free_frame + 1,
            final(bp).keeps_others(old(bp), c_id as int),
            final(bp).containers@[c_id as int]->Some_0.container_type == old(bp).containers@[c_id as int]->Some_0.container_type,
            forall|s: int| 0 <= s < final(bp).page(c_id as int, 0).slot_capacity ==> (#[trigger] final(bp).page(c_id as int, 0)@[s]) is None,
    {
        let res = bp.new_page(c_id);
        match res {
            Ok((p, g)) => {
                let ghost mid = *bp;
                proof {
                    lemma_new_page_keeps_others(*old(bp), mid, c_id as int);
                }
                bp.release_page(g);
                proof {
                    lemma_same_pages_keep(mid, *bp, c_id as int);
                    lemma_keeps_others_trans(*old(bp), mid, *bp, c_id as int);
                }
                FixedHeapFile { c_id, max_page: 0, free_page_cache: 0 }
            },
            Err(_) => FixedHeapFile { c_id, max_page: 0, free_page_cache: 0 },
        }
    }

    /// Adds a record to the first free slot of page `p`, if it has one.
    fn try_add(&self, bp: &mut BufferPool, p: PageId, key: &[u8], val: &[u8]) -> (r: Option<SlotId>)
        requires
            self.file_wf(old(bp)),
            p <= self.max_page,
            key@.len() == KEY_SIZE,
            val@.len() == VALUE_SIZE,
        ensures
            final(bp).wf(),
            !final(bp).latch,
            final(bp).keeps_others(old(bp), self.c_id as int),
            final(bp).containers == old(bp).containers,
            final(bp).page_frames@ == old(bp).page_frames@,
            final(bp).free_frame == old(bp).free_frame,
            forall|q: int| 0 <= q < old(bp).page_count(self.c_id as int) && q != p ==> #[trigger] final(bp).page(self.c_id as int, q) == old(bp).page(self.c_id as int, q),
            final(bp).page(self.c_id as int, p as int).same_settings(&old(bp).page(self.c_id as int, p as int)),
            r is None ==> page_full(old(bp).page(self.c_id as int, p as int)) && final(bp).page(self.c_id as int, p as int)@ == old(bp).page(self.c_id as int, p as int)@,
            r matches Some(s) ==> s < old(bp).page(self.c_id as int, p as int).slot_capacity
                && old(bp).page(self.c_id as int, p as int)@[s as int] is None
                && (forall|j: int| 0 <= j < s ==> (#[trigger] old(bp).page(self.c_id as int, p as int)@[j]) is Some)
                && final(bp).page(self.c_id as int, p as int)@ == old(bp).page(self.c_id as int, p as int)@.update(s as int, Some((key@, val@))),
    {
        let ghost c = self.c_id as int;
        let v = ValueId::new_page(self.c_id, p);
        let g = match bp.get_page(&v, Permissions::ReadWrite) {
            Ok(g) => g,
            Err(_) => {
                return None;
            },
        };
        let ghost b1 = *bp;
        proof {
            lemma_same_pages_keep(*old(bp), b1, c);
            assert(b1.container_ok(c));
            assert(b1.page_ok(c, p as int, b1.frame_of(c, p as int)));
        }
        let slot = {
            let page = bp.frame_page_mut(&g);
            page.add(key, val)
        };
        let ghost b2 = *bp;
        proof {
            lemma_page_write(b1, b2, c, p as int);
        }
        bp.release_page(g);
        proof {
            lemma_same_pages_keep(b2, *bp, c);
            lemma_keeps_others_trans(*old(bp), b1, b2, c);
            lemma_keeps_others_trans(*old(bp), b2, *bp, c);
        }
        slot
    }

    /// Appends a page to a file whose pages are all full.
    fn grow(&mut self, bp: &mut BufferPool) -> (r: Result<(), CrustyError>)
        requires
            old(self).file_wf(old(bp)),
            forall|q: int| 0 <= q <= old(self).max_page ==> page_full(#[trigger] old(bp).page(old(self).c_id as int, q)),
        ensures
            final(self).c_id == old(self).c_id,
            final(bp).keeps_others(old(bp), old(self).c_id as int),
            final(self).same_records(final(bp), old(bp)),
            r is Ok ==> final(self).file_wf(final(bp)) && final(bp).free_frame == old(bp).free_frame + 1,
            r is Err ==> r == Err::<(), CrustyError>(CrustyError::OutOfFrames) && old(bp).free_frame >= FRAMES
                && *final(self) == *old(self) && final(bp).same_state(old(bp)) && final(self).file_wf(final(bp)),
    {
        let ghost c = self.c_id as int;
        let ghost b0 = *bp;
        proof {
            assert(b0.container_ok(c));
        }
        match bp.new_page(self.c_id) {
            Ok((p, g)) => {
                let ghost b1 = *bp;
                proof {
                    lemma_new_page_keeps_others(b0, b1, c);
                }
                bp.release_page(g);
                proof {
                    lemma_same_pages_keep(b1, *bp, c);
                    lemma_keeps_others_trans(b0, b1, *bp, c);
                    assert forall|q: int| 0 <= q <= self.max_page implies #[trigger] bp.page(c, q) == b0.page(c, q) by {
                        assert(b1.page_frames@[c]@[q] == b0.page_frames@[c]@[q]);
                    }
                    assert forall|v: ValueId| v.container_id == self.c_id implies #[trigger] bp.record(v) == b0.record(v) by {
                        if v.page_id is Some && v.slot_id is Some && bp.has_page(c, v.page_id->Some_0 as int) {
                            let q = v.page_id->Some_0 as int;
                            if q <= self.max_page {
                                assert(bp.page(c, q) == b0.page(c, q));
                            } else {
                                assert(q == p);
                                assert(bp.page(c, q) == b1.page(c, q));
                            }
                        }
                    }
                }
                self.max_page = p;
                self.free_page_cache = p;
                proof {
                    assert forall|q: int| 0 <= q < self.free_page_cache implies page_full(#[trigger] bp.page(c, q)) by {
                        assert(bp.page(c, q) == b0.page(c, q));
                    }
                }
                Ok(())
            },
            Err(e) => {
                proof {
                    assert forall|q: int| 0 <= q < self.free_page_cache implies page_full(#[trigger] bp.page(c, q)) by {
                        assert(bp.page(c, q) == b0.page(c, q));
                    }
                }
                Err(e)
            },
        }
    }

    /// Stores a record in the first page, from the free-page hint on, that
    /// has a free slot, appending a page when every page is full. Fails only
    /// when a page is needed and the pool has no frame left.
    pub fn insert_kv(&mut self, bp: &mut BufferPool, key: &[u8], val: &[u8], _txn: &TransactionId) -> (r: Result<ValueId, CrustyError>)
        requires
            old(self).file_wf(old(bp)),
            key@.len() == KEY_SIZE,
            val@.len() == VALUE_SIZE,
        ensures
            final(self).file_wf(final(bp)),
            final(self).c_id == old(self).c_id,
            final(bp).keeps_others(old(bp), old(self).c_id as int),
            r matches Ok(v) ==> forall|q: int| 0 <= q < v.page_id->Some_0 ==> page_full(#[trigger] final(bp).page(old(self).c_id as int, q)),
            r matches Ok(v) ==> forall|j: int| 0 <= j < v.slot_id->Some_0 ==> (#[trigger] final(bp).page(old(self).c_id as int, v.page_id->Some_0 as int)@[j]) is Some,
            r matches Ok(v) ==> v == slot_id_of(old(self).c_id, v.page_id->Some_0, v.slot_id->Some_0) && old(bp).record(v) is None
                && final(bp).record(v) == Some((key@, val@)) && forall|u: ValueId|
                u.container_id == old(self).c_id && u != v ==> #[trigger] final(bp).record(u) == old(bp).record(u),
            r is Err ==> r == Err::<ValueId, CrustyError>(CrustyError::OutOfFrames) && final(bp).free_frame >= FRAMES
                && old(self).same_records(final(bp), old(bp)) && forall|q: int|
                0 <= q < final(bp).page_count(old(self).c_id as int) ==> page_full(#[trigger] final(bp).page(old(self).c_id as int, q)),
    {
        let ghost c = self.c_id as int;
        loop
            invariant
                self.file_wf(bp),
                self.c_id == old(self).c_id,
                bp.keeps_others(old(bp), c),
                self.same_records(bp, old(bp)),
                bp.free_frame >= old(bp).free_frame,
                c == self.c_id,
                key@.len() == KEY_SIZE,
                val@.len() == VALUE_SIZE,
            decreases FRAMES - bp.free_frame, self.max_page - self.free_page_cache,
        {
            let p = self.free_page_cache;
            let ghost b0 = *bp;
            match self.try_add(bp, p, key, val) {
                Some(s) => {
                    let v = ValueId::new_slot(self.c_id, p, s);
                    proof {
                        lemma_keeps_others_trans(*old(bp), b0, *bp, c);
                        assert(bp.page(c, p as int).slot_capacity == b0.page(c, p as int).slot_capacity);
                        assert(bp.record(v) == Some((key@, val@)));
                        assert forall|u: ValueId| u.container_id == self.c_id && u != v implies #[trigger] bp.record(u) == old(bp).record(u) by {
                            assert(b0.record(u) == old(bp).record(u));
                            if u.page_id is Some && u.slot_id is Some && bp.has_page(c, u.page_id->Some_0 as int) {
                                let q = u.page_id->Some_0 as int;
                                if q != p {
                                    assert(bp.page(c, q) == b0.page(c, q));
                                }
                            }
                        }
                        assert forall|q: int| 0 <= q < self.free_page_cache implies page_full(#[trigger] bp.page(c, q)) by {
                            assert(bp.page(c, q) == b0.page(c, q));
                        }
                        assert(b0.record(v) == old(bp).record(v));
                    }
                    return Ok(v);
                },
                None => {},
            }
            proof {
                lemma_keeps_others_trans(*old(bp), b0, *bp, c);
                assert forall|q: int| 0 <= q <= self.max_page implies #[trigger] bp.page(c, q)@ == b0.page(c, q)@ by {
                    if q != p {
                        assert(bp.page(c, q) == b0.page(c, q));
                    }
                }
                assert forall|u: ValueId| u.container_id == self.c_id implies #[trigger] bp.record(u) == old(bp).record(u) by {
                    assert(b0.record(u) == old(bp).record(u));
                    if u.page_id is Some && u.slot_id is Some && bp.has_page(c, u.page_id->Some_0 as int) {
                        let q = u.page_id->Some_0 as int;
                        assert(bp.page(c, q)@ == b0.page(c, q)@);
                    }
                }
                assert forall|q: int| 0 <= q <= p implies page_full(#[trigger] bp.page(c, q)) by {
                    if q < p {
                        assert(bp.page(c, q) == b0.page(c, q));
                    } else {
                        assert(bp.page(c, q)@ == b0.page(c, q)@);
                    }
                }
            }
            if p == self.max_page {
                let ghost b1 = *bp;
                match self.grow(bp) {
                    Ok(()) => {
                        proof {
                            lemma_keeps_others_trans(*old(bp), b1, *bp, c);
                        }
                    },
                    Err(e) => {
                        proof {
                            lemma_keeps_others_trans(*old(bp), b1, *bp, c);
                        }
                        return Err(e);
                    },
                }
            } else {
                self.free_page_cache = p + 1;
            }
        }
    }

    /// Stores each record in turn, as `insert_kv` does; stops at the first failure.
    pub fn bulk_insert_kv(&mut self, bp: &mut BufferPool, key_values: &Vec<(Vec<u8>, Vec<u8>)>, txn: &TransactionId) -> (r: Result<Vec<ValueId>, CrustyError>)
        requires
            old(self).file_wf(old(bp)),
            forall|i: int| 0 <= i < key_values@.len() ==> (#[trigger] key_values@[i]).0@.len() == KEY_SIZE && key_values@[i].1@.len() == VALUE_SIZE,
        ensures
            final(self).file_wf(final(bp)),
            final(self).c_id == old(self).c_id,
            final(bp).keeps_others(old(bp), old(self).c_id as int),
            r matches Ok(vs) ==> vs@.len() == key_values@.len() && forall|i: int| 0 <= i < vs@.len() ==> {
                &&& (#[trigger] vs@[i]).container_id == old(self).c_id
                &&& old(bp).record(vs@[i]) is None
                &&& final(bp).record(vs@[i]) == Some((key_values@[i].0@, key_values@[i].1@))
            },
            r is Err ==> r == Err::<Vec<ValueId>, CrustyError>(CrustyError::OutOfFrames) && final(bp).free_frame >= FRAMES,
    {
        let ghost c = self.c_id as int;
        let mut v_ids: Vec<ValueId> = Vec::new();
        let mut i: usize = 0;
        while i < key_values.len()
            invariant
                self.file_wf(bp),
                self.c_id == old(self).c_id,
                c == self.c_id,
                bp.keeps_others(old(bp), c),
                i <= key_values@.len(),
                v_ids@.len() == i,
                forall|i: int| 0 <= i < key_values@.len() ==> (#[trigger] key_values@[i]).0@.len() == KEY_SIZE && key_values@[i].1@.len() == VALUE_SIZE,
                forall|j: int| 0 <= j < i ==> {
                    &&& (#[trigger] v_ids@[j]).container_id == self.c_id
                    &&& v_ids@[j].page_id is Some
                    &&& v_ids@[j].slot_id is Some
                    &&& old(bp).record(v_ids@[j]) is None
                    &&& bp.record(v_ids@[j]) == Some((key_values@[j].0@, key_values@[j].1@))
                },
                forall|u: ValueId| u.container_id == self.c_id && !v_ids@.contains(u) ==> #[trigger] bp.record(u) == old(bp).record(u),
            decreases key_values@.len() - i,
        {
            let ghost b0 = *bp;
            let (k, v) = (&key_values[i].0, &key_values[i].1);
            match self.insert_kv(bp, k.as_slice(), v.as_slice(), txn) {
                Ok(vid) => {
                    proof {
                        lemma_keeps_others_trans(*old(bp), b0, *bp, c);
                        if v_ids@.contains(vid) {
                            let j = choose|j: int| 0 <= j < v_ids@.len() && v_ids@[j] == vid;
                            assert(b0.record(v_ids@[j]) is Some);
                        }
                        assert(old(bp).record(vid) == b0.record(vid));
                    }
                    let ghost prev = v_ids@;
                    v_ids.push(vid);
                    proof {
                        assert forall|j: int| 0 <= j < i + 1 implies {
                            &&& (#[trigger] v_ids@[j]).container_id == self.c_id
                            &&& v_ids@[j].page_id is Some
                            &&& v_ids@[j].slot_id is Some
                            &&& old(bp).record(v_ids@[j]) is None
                            &&& bp.record(v_ids@[j]) == Some((key_values@[j].0@, key_values@[j].1@))
                        } by {
                            if j < i {
                                assert(v_ids@[j] != vid);
                                assert(bp.record(v_ids@[j]) == b0.record(v_ids@[j]));
                            }
                        }
                        assert forall|u: ValueId| u.container_id == self.c_id && !v_ids@.contains(u) implies #[trigger] bp.record(u) == old(bp).record(u) by {
                            assert(u != vid) by {
                                assert(v_ids@[i as int] == vid);
                            }
                            assert(bp.record(u) == b0.record(u));
                            if b0.record(u) != old(bp).record(u) {
                                assert(prev.contains(u));
                                let j = choose|j: int| 0 <= j < prev.len() && prev[j] == u;
                                assert(v_ids@[j] == u);
                            }
                        }
                    }
                },
                Err(e) => {
                    proof {
                        lemma_keeps_others_trans(*old(bp), b0, *bp, c);
                    }
                    return Err(e);
                },
            }
            i += 1;
        }
        Ok(v_ids)
    }

    /// The record at `v_id`. Fails when the page does not exist or the slot
    /// is missing or free.
    pub fn get_kv(&self, bp: &mut BufferPool, v_id: &ValueId, _txn: &TransactionId) -> (r: Result<(Vec<u8>, Vec<u8>), CrustyError>)
        requires
            old(bp).wf(),
            !old(bp).latch,
        ensures
            final(bp).wf(),
            !final(bp).latch,
            final(bp).same_pages(old(bp)),
            final(bp).containers == old(bp).containers,
            final(bp).free_frame == old(bp).free_frame,
            !(v_id.page_id matches Some(p) && old(bp).has_page(v_id.container_id as int, p as int)) ==> r == Err::<(Vec<u8>, Vec<u8>), CrustyError>(CrustyError::PageNotFound),
            (v_id.page_id matches Some(p) && old(bp).has_page(v_id.container_id as int, p as int)) ==> match old(bp).record(*v_id) {
                Some(kv) => r matches Ok(got) && got.0@ == kv.0 && got.1@ == kv.1,
                None => r == Err::<(Vec<u8>, Vec<u8>), CrustyError>(CrustyError::SlotEmpty),
            },
    {
        let ghost b0 = *bp;
        let g = match bp.get_page(v_id, Permissions::ReadOnly) {
            Ok(g) => g,
            Err(e) => {
                return Err(e);
            },
        };
        proof {
            let c = v_id.container_id as int;
            let p = v_id.page_id->Some_0 as int;
            assert(b0.container_ok(c));
            assert(b0.page_ok(c, p, b0.frame_of(c, p)));
            lemma_same_pages_keep(b0, *bp, c);
        }
        let kv = match v_id.slot_id {
            Some(s) => bp.frame_page(&g).get_kv(s),
            None => None,
        };
        bp.release_page(g);
        match kv {
            Some(kv) => Ok(kv),
            None => Err(CrustyError::SlotEmpty),
        }
    }

    /// Overwrites the record at `v_id`, a slot of this file, occupied or not.
    pub fn update_kv(&mut self, bp: &mut BufferPool, v_id: &ValueId, key: &[u8], val: &[u8], _txn: &TransactionId) -> (r: Result<(), CrustyError>)
        requires
            old(self).file_wf(old(bp)),
            key@.len() == KEY_SIZE,
            val@.len() == VALUE_SIZE,
        ensures
            final(self).file_wf(final(bp)),
            final(self).c_id == old(self).c_id,
            final(self).max_page == old(self).max_page,
            final(bp).keeps_others(old(bp), old(self).c_id as int),
            v_id.container_id != old(self).c_id ==> r == Err::<(), CrustyError>(CrustyError::InvalidOperation),
            v_id.container_id == old(self).c_id && !(v_id.page_id matches Some(p) && old(bp).has_page(v_id.container_id as int, p as int)) ==> r == Err::<(), CrustyError>(CrustyError::PageNotFound),
            v_id.container_id == old(self).c_id && (v_id.page_id matches Some(p) && old(bp).has_page(v_id.container_id as int, p as int)) ==> {
                if v_id.slot_id matches Some(s) && s < old(bp).page(v_id.container_id as int, v_id.page_id->Some_0 as int).slot_capacity {
                    r is Ok && final(bp).record(*v_id) == Some((key@, val@))
                } else {
                    r == Err::<(), CrustyError>(CrustyError::SlotOutOfBounds)
                }
            },
            forall|u: ValueId| u.container_id == old(self).c_id && u != *v_id ==> #[trigger] final(bp).record(u) == old(bp).record(u),
    {
        if v_id.container_id != self.c_id {
            return Err(CrustyError::InvalidOperation);
        }
        self.change_slot(bp, v_id, Some((key, val)))
    }

    /// Writes (`Some`) or frees (`None`) the slot at `v_id`, a slot of this file.
    fn change_slot(&mut self, bp: &mut BufferPool, v_id: &ValueId, what: Option<(&[u8], &[u8])>) -> (r: Result<(), CrustyError>)
        requires
            old(self).file_wf(old(bp)),
            v_id.container_id == old(self).c_id,
            what matches Some(kv) ==> kv.0@.len() == KEY_SIZE && kv.1@.len() == VALUE_SIZE,
        ensures
            final(self).file_wf(final(bp)),
            final(self).c_id == old(self).c_id,
            final(self).max_page == old(self).max_page,
            final(bp).keeps_others(old(bp), old(self).c_id as int),
            !(v_id.page_id matches Some(p) && old(bp).has_page(v_id.container_id as int, p as int)) ==> r == Err::<(), CrustyError>(CrustyError::PageNotFound),
            (v_id.page_id matches Some(p) && old(bp).has_page(v_id.container_id as int, p as int)) ==> {
                if v_id.slot_id matches Some(s) && s < old(bp).page(v_id.container_id as int, v_id.page_id->Some_0 as int).slot_capacity {
                    r is Ok && final(bp).record(*v_id) == match what {
                        Some(kv) => Some((kv.0@, kv.1@)),
                        None => None,
                    }
                } else {
                    r == Err::<(), CrustyError>(CrustyError::SlotOutOfBounds)
                }
            },
            forall|u: ValueId| u.container_id == old(self).c_id && u != *v_id ==> #[trigger] final(bp).record(u) == old(bp).record(u),
    {
        let ghost c = self.c_id as int;
        let ghost b0 = *bp;
        let p = match v_id.page_id {
            Some(p) => p,
            None => {
                return Err(CrustyError::PageNotFound);
            },
        };
        let g = match bp.get_page(v_id, Permissions::ReadWrite) {
            Ok(g) => g,
            Err(e) => {
                proof {
                    lemma_same_pages_keep(b0, *bp, c);
                }
                return Err(e);
            },
        };
        let ghost b1 = *bp;
        proof {
            assert(b0.container_ok(c));
            assert(b0.page_ok(c, p as int, b0.frame_of(c, p as int)));
            lemma_same_pages_keep(b0, b1, c);
        }
        let s = match v_id.slot_id {
            Some(s) => s,
            None => {
                bp.release_page(g);
                proof {
                    lemma_same_pages_keep(b1, *bp, c);
                    lemma_keeps_others_trans(b0, b1, *bp, c);
                }
                return Err(CrustyError::SlotOutOfBounds);
            },
        };
        if s >= bp.frame_page(&g).slot_capacity {
            bp.release_page(g);
            proof {
                lemma_same_pages_keep(b1, *bp, c);
                lemma_keeps_others_trans(b0, b1, *bp, c);
            }
            return Err(CrustyError::SlotOutOfBounds);
        }
        {
            let page = bp.frame_page_mut(&g);
            match what {
                Some(kv) => {
                    let _ = page.write(s, true, kv.0, kv.1);
                },
                None => {
                    page.delete(s);
                },
            }
        }
        let ghost b2 = *bp;
        proof {
            lemma_page_write(b1, b2, c, p as int);
        }
        bp.release_page(g);
        proof {
            lemma_same_pages_keep(b2, *bp, c);
            lemma_keeps_others_trans(b0, b1, b2, c);
            lemma_keeps_others_trans(b0, b2, *bp, c);
            assert forall|u: ValueId| u.container_id == self.c_id && u != *v_id implies #[trigger] bp.record(u) == b0.record(u) by {
                if u.page_id is Some && u.slot_id is Some && bp.has_page(c, u.page_id->Some_0 as int) {
                    let q = u.page_id->Some_0 as int;
                    if q != p {
                        assert(bp.page(c, q) == b1.page(c, q));
                    }
                }
            }
        }
        if what.is_none() && p < self.free_page_cache {
            self.free_page_cache = p;
        }
        proof {
            assert forall|q: int| 0 <= q < self.free_page_cache implies page_full(#[trigger] bp.page(c, q)) by {
                if q != p {
                    assert(bp.page(c, q) == b1.page(c, q));
                } else {
                    assert(page_full(b0.page(c, q)));
                    assert forall|j: int| 0 <= j < bp.page(c, q)@.len() implies (#[trigger] bp.page(c, q)@[j]) is Some by {
                        assert(b0.page(c, q)@[j] is Some);
                    }
                }
            }
        }
        Ok(())
    }

    /// Frees the slot at `v_id`, a slot of this file, and moves the free-page
    /// hint back to its page if that page comes first.
    pub fn delete_kv(&mut self, bp: &mut BufferPool, v_id: &ValueId, _txn: &TransactionId) -> (r: Result<(), CrustyError>)
        requires
            old(self).file_wf(old(bp)),
        ensures
            final(self).file_wf(final(bp)),
            final(bp).keeps_others(old(bp), old(self).c_id as int),
            v_id.container_id != old(self).c_id ==> r == Err::<(), CrustyError>(CrustyError::InvalidOperation),
            v_id.container_id == old(self).c_id && !(v_id.page_id matches Some(p) && old(bp).has_page(v_id.container_id as int, p as int)) ==> r == Err::<(), CrustyError>(CrustyError::PageNotFound),
            v_id.container_id == old(self).c_id && (v_id.page_id matches Some(p) && old(bp).has_page(v_id.container_id as int, p as int)) ==> {
                if v_id.slot_id matches Some(s) && s < old(bp).page(v_id.container_id as int, v_id.page_id->Some_0 as int).slot_capacity {
                    r is Ok && final(bp).record(*v_id) is None
                } else {
                    r == Err::<(), CrustyError>(CrustyError::SlotOutOfBounds)
                }
            },
            forall|u: ValueId| u.container_id == old(self).c_id && u != *v_id ==> #[trigger] final(bp).record(u) == old(bp).record(u),
    {
        if v_id.container_id != self.c_id {
            return Err(CrustyError::InvalidOperation);
        }
        self.change_slot(bp, v_id, None)
    }
}

} // verus!
