use vstd::prelude::*;
use crate::fixed_page::{FixedPage, KvPair};
use crate::ids::{PageId, SlotId};
use crate::prelude::{KEY_SIZE, VALUE_SIZE};

verus! {

/// A page that stores base-table records.
pub trait HeapDataPage: Sized {
    /// The page is well formed.
    spec fn page_wf(&self) -> bool;

    /// The page takes a record with this key and value.
    spec fn fits(&self, key: Seq<u8>, value: Seq<u8>) -> bool;

    /// The page is an empty base-table page with this id.
    spec fn is_fresh(&self, p_id: PageId) -> bool;

    /// An empty page for base-table records.
    fn new(p_id: PageId) -> (r: Self)
        ensures
            r.page_wf(),
            r.is_fresh(p_id),
    ;

    /// Stores a record in the first free slot and returns that slot, or
    /// `None` when the page is full.
    fn add(&mut self, key: &[u8], value: &[u8]) -> (r: Option<SlotId>)
        requires
            old(self).page_wf(),
            old(self).fits(key@, value@),
        ensures
            final(self).page_wf(),
    ;
}

impl HeapDataPage for FixedPage {
    open spec fn page_wf(&self) -> bool {
        self.wf()
    }

    open spec fn fits(&self, key: Seq<u8>, value: Seq<u8>) -> bool {
        key.len() == self.key_size && value.len() == self.value_size
    }

    open spec fn is_fresh(&self, p_id: PageId) -> bool {
        &&& self.p_id == p_id
        &&& self.key_size == KEY_SIZE
        &&& self.value_size == VALUE_SIZE
        &&& self@ == Seq::new(self.slot_capacity as nat, |i: int| None::<KvPair>)
    }

    fn new(p_id: PageId) -> (r: FixedPage) {
        FixedPage::new(p_id, KEY_SIZE, VALUE_SIZE)
    }

    fn add(&mut self, key: &[u8], value: &[u8]) -> (r: Option<SlotId>)
        ensures
            final(self).same_settings(old(self)),
            r is None <==> forall|j: int| 0 <= j < old(self)@.len() ==> (#[trigger] old(self)@[j]) is Some,
            r is None ==> *final(self) == *old(self),
            r matches Some(s) ==> {
                &&& s < old(self).slot_capacity
                &&& old(self)@[s as int] is None
                &&& forall|j: int| 0 <= j < s ==> (#[trigger] old(self)@[j]) is Some
                &&& final(self)@ == old(self)@.update(s as int, Some((key@, value@)))
            },
    {
        let mut i: u16 = 0;
        while i < self.slot_capacity && !self.free[i as usize]
            invariant
                self.wf(),
                i <= self.slot_capacity,
                forall|j: int| 0 <= j < i ==> (#[trigger] self@[j]) is Some,
            decreases self.slot_capacity - i,
        {
            i += 1;
        }
        if i < self.slot_capacity {
            let _ = self.write(i, false, key, value);
            Some(i)
        } else {
            None
        }
    }
}

} // verus!
