use vstd::prelude::*;
use crate::error::CrustyError;
use crate::ids::{PageId, SlotId};
use crate::prelude::{MIN_SLOT_COUNT, PAGE_SIZE, PAGE_SLOT_LIMIT};

verus! {

/// A stored record: its key bytes and its value bytes.
pub type KvPair = (Seq<u8>, Seq<u8>);

/// A page of fixed-width key/value slots. Slot `i` keeps its key at byte
/// `i * pair_size` of `data` and its value right after it; `free[i]` tells
/// whether the slot is unused.
pub struct FixedPage {
    /// The id of this page within its container.
    pub p_id: PageId,
    /// The bytes of the page's records.
    pub data: Vec<u8>,
    /// How many slots the page holds for its key and value sizes.
    pub slot_capacity: SlotId,
    /// The size of every key in bytes.
    pub key_size: usize,
    /// The size of every value in bytes.
    pub value_size: usize,
    /// `key_size + value_size`.
    pub pair_size: usize,
    /// Which slots are unused; longer than `slot_capacity`.
    pub free: Vec<bool>,
    /// The next page of a structure, where one needs it.
    pub page_pointer: Option<PageId>,
    /// An overflow page, where one is needed.
    pub overflow_pointer: Option<PageId>,
    /// For index pages: whether this is a leaf.
    pub is_leaf: bool,
    /// A word for a structure's own bookkeeping.
    pub extra: usize,
}

/// Key and value sizes with which a page holds at least the minimum count of slots.
pub open spec fn valid_settings(key_size: int, value_size: int) -> bool {
    &&& key_size >= 0
    &&& value_size >= 0
    &&& key_size + value_size > 0
    &&& PAGE_SIZE as int / (key_size + value_size) >= MIN_SLOT_COUNT
}

/// The slot count of a page for the given sizes: as many pairs as fit in the
/// page, but no more than the slot limit.
pub open spec fn capacity_for(key_size: int, value_size: int) -> int {
    let fit = PAGE_SIZE as int / (key_size + value_size);
    if fit < PAGE_SLOT_LIMIT { fit } else { PAGE_SLOT_LIMIT as int }
}

/// The records of a sequence of slots, in slot order, free slots left out.
pub open spec fn occupied(v: Seq<Option<KvPair>>) -> Seq<KvPair>
    decreases v.len(),
{
    if v.len() == 0 {
        Seq::empty()
    } else {
        let rest = occupied(v.drop_last());
        match v.last() {
            Some(kv) => rest.push(kv),
            None => rest,
        }
    }
}

/// `(slot, key, value)` for each occupied slot below `n`, in slot order.
pub open spec fn slot_entries(v: Seq<Option<KvPair>>, n: int) -> Seq<(int, Seq<u8>, Seq<u8>)>
    decreases n,
{
    if n <= 0 {
        Seq::empty()
    } else {
        let rest = slot_entries(v, n - 1);
        match v[n - 1] {
            Some(kv) => rest.push((n - 1, kv.0, kv.1)),
            None => rest,
        }
    }
}

/// The slots after a right shift of the block `[from, to)` by one place into
/// the free slot `to`: slot `from` becomes free.
pub open spec fn shifted(v: Seq<Option<KvPair>>, from: int, to: int) -> Seq<Option<KvPair>> {
    Seq::new(
        v.len(),
        |j: int|
            if j < from || j > to {
                v[j]
            } else if j == from {
                None
            } else {
                v[j - 1]
            },
    )
}

/// Whether `to` is the first free slot after `from`.
pub open spec fn first_free_after(v: Seq<Option<KvPair>>, from: int, to: int) -> bool {
    &&& from < to < v.len()
    &&& v[to] is None
    &&& forall|j: int| from < j < to ==> (#[trigger] v[j]) is Some
}

/// What `write` does: a slot at or past the capacity is refused, an occupied
/// slot is refused without `overwrite`, and otherwise the slot gets the record.
pub open spec fn write_post(
    before: FixedPage,
    after: FixedPage,
    slot: SlotId,
    overwrite: bool,
    key: Seq<u8>,
    value: Seq<u8>,
    r: Result<(), CrustyError>,
) -> bool {
    &&& slot >= before.slot_capacity ==> r == Err::<(), CrustyError>(CrustyError::SlotOutOfBounds) && after == before
    &&& slot < before.slot_capacity && !overwrite && before@[slot as int] is Some ==> r == Err::<(), CrustyError>(
        CrustyError::StorageError,
    ) && after == before
    &&& slot < before.slot_capacity && (overwrite || before@[slot as int] is None) ==> r is Ok && after@ == before@.update(
        slot as int,
        Some((key, value)),
    )
}

/// What `delete` does: the slot becomes free; a slot at or past the
/// capacity changes nothing.
pub open spec fn delete_post(before: FixedPage, after: FixedPage, slot: SlotId) -> bool {
    &&& slot >= before.slot_capacity ==> after == before
    &&& slot < before.slot_capacity ==> after@ == before@.update(slot as int, None)
}

/// What `move_if_empty` does: the record moves only from an occupied slot to
/// a free one, both below the capacity.
pub open spec fn move_post(before: FixedPage, after: FixedPage, from: SlotId, to: SlotId, r: Result<(), CrustyError>) -> bool {
    &&& from >= before.slot_capacity || to >= before.slot_capacity ==> r == Err::<(), CrustyError>(
        CrustyError::SlotOutOfBounds,
    ) && after == before
    &&& from < before.slot_capacity && to < before.slot_capacity ==> {
        if before@[from as int] is Some && before@[to as int] is None {
            &&& r is Ok
            &&& after@ == before@.update(to as int, before@[from as int]).update(from as int, None)
        } else {
            r == Err::<(), CrustyError>(CrustyError::StorageError) && after == before
        }
    }
}

/// The view of an optional record returned by value.
pub open spec fn kv_view(r: Option<(Vec<u8>, Vec<u8>)>) -> Option<KvPair> {
    match r {
        Some(p) => Some((p.0@, p.1@)),
        None => None,
    }
}

/// Records of a concatenation are the records of each part.
pub proof fn lemma_occupied_add(a: Seq<Option<KvPair>>, b: Seq<Option<KvPair>>)
    ensures
        occupied(a + b) == occupied(a) + occupied(b),
    decreases b.len(),
{
    if b.len() == 0 {
        assert(a + b =~= a);
        assert(occupied(b) =~= Seq::<KvPair>::empty());
        assert(occupied(a) + occupied(b) =~= occupied(a));
    } else {
        lemma_occupied_add(a, b.drop_last());
        assert((a + b).drop_last() =~= a + b.drop_last());
        assert((a + b).last() == b.last());
        match b.last() {
            Some(kv) => {
                assert(occupied(a) + occupied(b.drop_last()).push(kv)
                    =~= (occupied(a) + occupied(b.drop_last())).push(kv));
            },
            None => {},
        }
    }
}

/// A sequence of slots holds no more records than slots.
pub proof fn lemma_occupied_len(v: Seq<Option<KvPair>>)
    ensures
        occupied(v).len() <= v.len(),
    decreases v.len(),
{
    if v.len() > 0 {
        lemma_occupied_len(v.drop_last());
    }
}

/// A right shift into the first free slot keeps every record and their order;
/// only the slots that hold them change.
pub proof fn lemma_shift_keeps_records(v: Seq<Option<KvPair>>, from: int, to: int)
    requires
        0 <= from,
        first_free_after(v, from, to),
    ensures
        occupied(shifted(v, from, to)) == occupied(v),
        occupied(shifted(v, from, to)).to_multiset() == occupied(v).to_multiset(),
        shifted(v, from, to).len() == v.len(),
{
    let s = shifted(v, from, to);
    let a = v.subrange(0, from);
    let m = v.subrange(from, to);
    let c = v.subrange(to + 1, v.len() as int);
    let none = seq![None::<KvPair>];
    assert(v =~= a + m + none + c);
    assert(s =~= a + none + m + c);
    lemma_occupied_add(a + m + none, c);
    lemma_occupied_add(a + m, none);
    lemma_occupied_add(a, m);
    lemma_occupied_add(a + none + m, c);
    lemma_occupied_add(a + none, m);
    lemma_occupied_add(a, none);
    assert(occupied(none) =~= Seq::<KvPair>::empty()) by {
        assert(none.drop_last() =~= Seq::<Option<KvPair>>::empty());
        assert(occupied(none.drop_last()) =~= Seq::<KvPair>::empty());
        assert(none.last() is None);
    }
    assert(occupied(a) + occupied(none) =~= occupied(a));
    assert(occupied(a) + occupied(m) + occupied(none) =~= occupied(a) + occupied(m));
}

/// The slot ranges of two different slots do not overlap, and both lie in the page.
proof fn lemma_slot_ranges(ps: int, cap: int, i: int, j: int)
    requires
        ps >= 0,
        0 <= i < cap,
        0 <= j < cap,
        cap * ps <= PAGE_SIZE,
    ensures
        i * ps + ps <= PAGE_SIZE,
        i * ps >= 0,
        i < j ==> i * ps + ps <= j * ps,
{
    assert(i * ps + ps <= cap * ps) by (nonlinear_arith)
        requires 0 <= i < cap, ps >= 0;
    assert(i * ps >= 0) by (nonlinear_arith)
        requires 0 <= i, ps >= 0;
    if i < j {
        assert(i * ps + ps <= j * ps) by (nonlinear_arith)
            requires i < j, ps >= 0;
    }
}

impl View for FixedPage {
    type V = Seq<Option<KvPair>>;

    /// The record of each slot below the capacity, or `None` for a free slot.
    open spec fn view(&self) -> Seq<Option<KvPair>> {
        Seq::new(self.slot_capacity as nat, |i: int| self.slot_view(i))
    }
}

impl FixedPage {
    /// The page's layout is consistent: the buffers have their sizes and the
    /// slots fit in the page.
    pub open spec fn wf(&self) -> bool {
        &&& self.data@.len() == PAGE_SIZE
        &&& self.free@.len() == PAGE_SLOT_LIMIT
        &&& self.pair_size == self.key_size + self.value_size
        &&& self.slot_capacity <= PAGE_SLOT_LIMIT
        &&& self.slot_capacity * self.pair_size <= PAGE_SIZE
    }

    /// The key bytes of slot `i`.
    pub open spec fn key_at(&self, i: int) -> Seq<u8> {
        self.data@.subrange(i * self.pair_size, i * self.pair_size + self.key_size)
    }

    /// The value bytes of slot `i`.
    pub open spec fn value_at(&self, i: int) -> Seq<u8> {
        self.data@.subrange(i * self.pair_size + self.key_size, i * self.pair_size + self.pair_size)
    }

    /// The record of slot `i`, or `None` if it is free.
    pub open spec fn slot_view(&self, i: int) -> Option<KvPair> {
        if !self.free@[i] {
            Some((self.key_at(i), self.value_at(i)))
        } else {
            None
        }
    }

    /// What `get_kv` reads at `slot`: its record, or `None` for a free slot or
    /// one at or past the capacity.
    pub open spec fn read_slot(&self, slot: SlotId) -> Option<KvPair> {
        if slot < self.slot_capacity {
            self@[slot as int]
        } else {
            None
        }
    }

    /// Everything but the slots' contents is the same in both pages.
    pub open spec fn same_settings(&self, o: &FixedPage) -> bool {
        &&& self.p_id == o.p_id
        &&& self.slot_capacity == o.slot_capacity
        &&& self.key_size == o.key_size
        &&& self.value_size == o.value_size
        &&& self.pair_size == o.pair_size
        &&& self.page_pointer == o.page_pointer
        &&& self.overflow_pointer == o.overflow_pointer
        &&& self.is_leaf == o.is_leaf
        &&& self.extra == o.extra
    }
}

/// Two slots whose bytes agree hold the same key and value.
proof fn lemma_same_bytes(a: FixedPage, i: int, b: FixedPage, j: int)
    requires
        a.wf(),
        b.wf(),
        a.key_size == b.key_size,
        a.value_size == b.value_size,
        0 <= i < a.slot_capacity,
        0 <= j < b.slot_capacity,
        forall|u: int| 0 <= u < a.pair_size ==> #[trigger] a.data@[i * a.pair_size + u] == b.data@[j * b.pair_size + u],
    ensures
        a.key_at(i) == b.key_at(j),
        a.value_at(i) == b.value_at(j),
{
    lemma_slot_ranges(a.pair_size as int, a.slot_capacity as int, i, i);
    lemma_slot_ranges(b.pair_size as int, b.slot_capacity as int, j, j);
    assert forall|u: int| 0 <= u < a.key_size implies a.key_at(i)[u] == b.key_at(j)[u] by {
        assert(a.data@[i * a.pair_size + u] == b.data@[j * b.pair_size + u]);
    }
    assert(a.key_at(i) =~= b.key_at(j));
    assert forall|u: int| 0 <= u < a.value_size implies a.value_at(i)[u] == b.value_at(j)[u] by {
        assert(a.data@[i * a.pair_size + (a.key_size + u)] == b.data@[j * b.pair_size + (a.key_size + u)]);
    }
    assert(a.value_at(i) =~= b.value_at(j));
}

/// Slots whose bytes and free flag are untouched keep their record.
proof fn lemma_slots_kept(a: FixedPage, b: FixedPage, lo: int, hi: int)
    requires
        a.wf(),
        b.wf(),
        a.same_settings(&b),
        forall|k: int|
            0 <= k < PAGE_SIZE && !(lo * a.pair_size <= k < hi * a.pair_size) ==> #[trigger] b.data@[k]
                == a.data@[k],
    ensures
        forall|j: int|
            0 <= j < a.slot_capacity && (j < lo || j >= hi) && a.free@[j] == b.free@[j] ==> #[trigger] b@[j]
                == a@[j],
{
    let ps = a.pair_size as int;
    let cap = a.slot_capacity as int;
    assert forall|j: int|
        0 <= j < cap && (j < lo || j >= hi) && a.free@[j] == b.free@[j] implies #[trigger] b@[j] == a@[j] by {
        lemma_slot_ranges(ps, cap, j, j);
        if j < lo {
            assert(j * ps + ps <= lo * ps) by (nonlinear_arith)
                requires j < lo, ps >= 0;
        } else {
            assert(hi * ps <= j * ps) by (nonlinear_arith)
                requires hi <= j, ps >= 0;
        }
        assert(b.key_at(j) =~= a.key_at(j));
        assert(b.value_at(j) =~= a.value_at(j));
    }
}

/// Copies `src` into `data` at offset `at`.
fn copy_in(data: &mut Vec<u8>, at: usize, src: &[u8])
    requires
        at + src@.len() <= old(data)@.len(),
    ensures
        final(data)@.len() == old(data)@.len(),
        forall|k: int|
            0 <= k < old(data)@.len() && !(at <= k < at + src@.len()) ==> #[trigger] final(data)@[k]
                == old(data)@[k],
        final(data)@.subrange(at as int, at + src@.len()) == src@,
{
    let n = data.len();
    let mut t: usize = 0;
    while t < src.len()
        invariant
            at + src@.len() <= data@.len(),
            data@.len() == old(data)@.len(),
            data@.len() == n,
            t <= src@.len(),
            forall|k: int|
                0 <= k < data@.len() && !(at <= k < at + t) ==> #[trigger] data@[k] == old(data)@[k],
            forall|u: int| 0 <= u < t ==> #[trigger] data@[at + u] == src@[u],
        decreases src@.len() - t,
    {
        data[at + t] = src[t];
        t += 1;
    }
    assert forall|u: int| 0 <= u < src@.len() implies data@.subrange(at as int, at + src@.len())[u]
        == src@[u] by {
        assert(data@[at + u] == src@[u]);
    }
    assert(data@.subrange(at as int, at + src@.len()) =~= src@);
}

/// Copies `len` bytes of `data` from offset `src` to offset `dst`, last byte
/// first, so that a block moved to the right may overlap its old place.
fn copy_within(data: &mut Vec<u8>, src: usize, dst: usize, len: usize)
    requires
        src + len <= old(data)@.len(),
        dst + len <= old(data)@.len(),
        src <= dst || dst + len <= src,
    ensures
        final(data)@.len() == old(data)@.len(),
        forall|k: int|
            0 <= k < old(data)@.len() && !(dst <= k < dst + len) ==> #[trigger] final(data)@[k]
                == old(data)@[k],
        forall|t: int| 0 <= t < len ==> #[trigger] final(data)@[dst + t] == old(data)@[src + t],
{
    let n = data.len();
    let mut k: usize = len;
    while k > 0
        invariant
            data@.len() == n,
            src + len <= data@.len(),
            dst + len <= data@.len(),
            src <= dst || dst + len <= src,
            data@.len() == old(data)@.len(),
            k <= len,
            forall|i: int|
                0 <= i < data@.len() && !(dst + k <= i < dst + len) ==> #[trigger] data@[i] == old(data)@[i],
            forall|t: int| k <= t < len ==> #[trigger] data@[dst + t] == old(data)@[src + t],
        decreases k,
    {
        k -= 1;
        let b = data[src + k];
        data[dst + k] = b;
    }
}

/// The `len` bytes of `data` that start at `at`.
fn bytes_at(data: &Vec<u8>, at: usize, len: usize) -> (r: Vec<u8>)
    requires
        at + len <= data@.len(),
    ensures
        r@ == data@.subrange(at as int, at + len),
{
    let n = data.len();
    let mut r: Vec<u8> = Vec::with_capacity(len);
    let mut t: usize = 0;
    while t < len
        invariant
            data@.len() == n,
            at + len <= data@.len(),
            t <= len,
            r@ == data@.subrange(at as int, at + t),
        decreases len - t,
    {
        r.push(data[at + t]);
        t += 1;
        assert(r@ =~= data@.subrange(at as int, at + t));
    }
    r
}

impl FixedPage {
    /// A page with no settings: every slot of the slot limit counts as
    /// occupied by an empty record until `update_settings` configures it.
    pub fn empty() -> (r: FixedPage)
        ensures
            r.wf(),
            r.p_id == 0,
            r.slot_capacity == PAGE_SLOT_LIMIT,
            r.key_size == 0,
            r.value_size == 0,
            r.page_pointer is None,
            r.overflow_pointer is None,
            !r.is_leaf,
            r.extra == 0,
            r.data@ == Seq::new(PAGE_SIZE as nat, |i: int| 0u8),
            r@ == Seq::new(PAGE_SLOT_LIMIT as nat, |i: int| Some((Seq::<u8>::empty(), Seq::<u8>::empty()))),
    {
        let r = FixedPage {
            p_id: 0,
            data: vec![0u8; PAGE_SIZE],
            slot_capacity: PAGE_SLOT_LIMIT as SlotId,
            key_size: 0,
            value_size: 0,
            pair_size: 0,
            free: vec![false; PAGE_SLOT_LIMIT],
            page_pointer: None,
            overflow_pointer: None,
            is_leaf: false,
            extra: 0,
        };
        assert forall|i: int| 0 <= i < PAGE_SIZE implies r.data@[i] == 0u8 by {
            assert(cloned(0u8, r.data@[i]));
        }
        assert(r.data@ =~= Seq::new(PAGE_SIZE as nat, |i: int| 0u8));
        assert forall|i: int| 0 <= i < PAGE_SLOT_LIMIT implies !r.free@[i] by {
            assert(cloned(false, r.free@[i]));
        }
        assert forall|i: int| 0 <= i < PAGE_SLOT_LIMIT implies r@[i] == Some(
            (Seq::<u8>::empty(), Seq::<u8>::empty()),
        ) by {
            assert(i * 0 == 0);
            assert(r.key_at(i) =~= Seq::<u8>::empty());
            assert(r.value_at(i) =~= Seq::<u8>::empty());
        }
        assert(r@ =~= Seq::new(PAGE_SLOT_LIMIT as nat, |i: int| Some((Seq::<u8>::empty(), Seq::<u8>::empty()))));
        r
    }

    /// A page with the given id and sizes, all of its slots free.
    pub fn new(p_id: PageId, key_size: usize, value_size: usize) -> (r: FixedPage)
        requires
            valid_settings(key_size as int, value_size as int),
        ensures
            r.wf(),
            r.p_id == p_id,
            r.key_size == key_size,
            r.value_size == value_size,
            r.slot_capacity == capacity_for(key_size as int, value_size as int),
            r@ == Seq::new(r.slot_capacity as nat, |i: int| None::<KvPair>),
    {
        let mut page = FixedPage::empty();
        page.update_settings(p_id, key_size, value_size);
        page
    }

    /// Gives the page a new id and new sizes, and frees every slot.
    pub fn update_settings(&mut self, p_id: PageId, key_size: usize, value_size: usize)
        requires
            old(self).wf(),
            valid_settings(key_size as int, value_size as int),
        ensures
            final(self).wf(),
            final(self).p_id == p_id,
            final(self).key_size == key_size,
            final(self).value_size == value_size,
            final(self).slot_capacity == capacity_for(key_size as int, value_size as int),
            final(self).page_pointer == old(self).page_pointer,
            final(self).overflow_pointer == old(self).overflow_pointer,
            final(self).is_leaf == old(self).is_leaf,
            final(self).extra == old(self).extra,
            final(self)@ == Seq::new(final(self).slot_capacity as nat, |i: int| None::<KvPair>),
    {
        proof {
            let pair = key_size + value_size;
            if pair > PAGE_SIZE {
                vstd::arithmetic::div_mod::lemma_basic_div(PAGE_SIZE as int, pair);
            }
        }
        let pair = key_size + value_size;
        let fit = PAGE_SIZE / pair;
        let cap = if fit < PAGE_SLOT_LIMIT { fit } else { PAGE_SLOT_LIMIT };
        proof {
            assert(fit * pair <= PAGE_SIZE) by (nonlinear_arith)
                requires fit == PAGE_SIZE / pair, pair > 0;
            assert(cap * pair <= fit * pair) by (nonlinear_arith)
                requires cap <= fit, pair > 0;
        }
        self.p_id = p_id;
        self.key_size = key_size;
        self.value_size = value_size;
        self.pair_size = pair;
        self.slot_capacity = cap as SlotId;
        let mut i: usize = 0;
        while i < cap
            invariant
                self.wf(),
                self.slot_capacity == cap,
                self.p_id == p_id,
                self.key_size == key_size,
                self.value_size == value_size,
                self.page_pointer == old(self).page_pointer,
                self.overflow_pointer == old(self).overflow_pointer,
                self.is_leaf == old(self).is_leaf,
                self.extra == old(self).extra,
                cap <= PAGE_SLOT_LIMIT,
                i <= cap,
                forall|j: int| 0 <= j < i ==> #[trigger] self.free@[j],
            decreases cap - i,
        {
            self.free[i] = true;
            i += 1;
        }
        assert(self@ =~= Seq::new(self.slot_capacity as nat, |i: int| None::<KvPair>));
    }

    /// Writes a record into a slot. Without `overwrite` only a free slot is
    /// written; a slot at or past the capacity is refused.
    pub fn write(&mut self, slot: SlotId, overwrite: bool, key: &[u8], value: &[u8]) -> (r: Result<(), CrustyError>)
        requires
            old(self).wf(),
            key@.len() == old(self).key_size,
            value@.len() == old(self).value_size,
        ensures
            final(self).wf(),
            final(self).same_settings(old(self)),
            write_post(*old(self), *final(self), slot, overwrite, key@, value@, r),
    {
        if slot >= self.slot_capacity {
            return Err(CrustyError::SlotOutOfBounds);
        }
        let s = slot as usize;
        if overwrite || self.free[s] {
            let ghost pre = *self;
            proof {
                lemma_slot_ranges(self.pair_size as int, self.slot_capacity as int, s as int, s as int);
                assert((s + 1) * self.pair_size == s * self.pair_size + self.pair_size) by (nonlinear_arith);
            }
            let os = s * self.pair_size;
            copy_in(&mut self.data, os, key);
            copy_in(&mut self.data, os + self.key_size, value);
            self.free[s] = false;
            proof {
                lemma_slots_kept(pre, *self, s as int, s + 1);
                assert(self.key_at(s as int) =~= key@);
                assert(self.value_at(s as int) =~= value@);
                assert(self@ =~= pre@.update(s as int, Some((key@, value@))));
            }
            return Ok(());
        }
        Err(CrustyError::StorageError)
    }

    /// Moves the record of `from_slot` into `to_slot`, only if `from_slot`
    /// is occupied and `to_slot` is free.
    pub fn move_if_empty(&mut self, from_slot: SlotId, to_slot: SlotId) -> (r: Result<(), CrustyError>)
        requires
            old(self).wf(),
        ensures
            final(self).wf(),
            final(self).same_settings(old(self)),
            move_post(*old(self), *final(self), from_slot, to_slot, r),
    {
        if from_slot >= self.slot_capacity || to_slot >= self.slot_capacity {
            return Err(CrustyError::SlotOutOfBounds);
        }
        let from = from_slot as usize;
        let to = to_slot as usize;
        if !self.free[from] && self.free[to] {
            let ghost pre = *self;
            let ps = self.pair_size;
            proof {
                lemma_slot_ranges(ps as int, self.slot_capacity as int, from as int, to as int);
                lemma_slot_ranges(ps as int, self.slot_capacity as int, to as int, from as int);
                assert((to + 1) * ps == to * ps + ps) by (nonlinear_arith);
            }
            let old_os = from * ps;
            let new_os = to * ps;
            copy_within(&mut self.data, old_os, new_os, ps);
            self.free[from] = true;
            self.free[to] = false;
            proof {
                lemma_slots_kept(pre, *self, to as int, to + 1);
                assert forall|u: int| 0 <= u < ps implies #[trigger] self.data@[new_os + u] == pre.data@[old_os + u] by {
                    assert(self.data@[new_os + u] == pre.data@[old_os + u]);
                }
                assert forall|u: int| 0 <= u < ps implies #[trigger] self.data@[to * ps + u] == pre.data@[from * ps
                    + u] by {
                    assert(self.data@[new_os + u] == pre.data@[old_os + u]);
                }
                lemma_same_bytes(*self, to as int, pre, from as int);
                assert(self@ =~= pre@.update(to as int, pre@[from as int]).update(from as int, None));
            }
            return Ok(());
        }
        Err(CrustyError::StorageError)
    }

    /// Frees a slot; a slot at or past the capacity is ignored.
    pub fn delete(&mut self, slot: SlotId)
        requires
            old(self).wf(),
        ensures
            final(self).wf(),
            final(self).same_settings(old(self)),
            delete_post(*old(self), *final(self), slot),
    {
        if slot >= self.slot_capacity {
            return;
        }
        let ghost pre = *self;
        self.free[slot as usize] = true;
        proof {
            lemma_slots_kept(pre, *self, 0, 0);
            assert(self@ =~= pre@.update(slot as int, None));
        }
    }

    /// Frees every slot.
    pub fn delete_all(&mut self)
        requires
            old(self).wf(),
        ensures
            final(self).wf(),
            final(self).same_settings(old(self)),
            final(self)@ == Seq::new(old(self).slot_capacity as nat, |i: int| None::<KvPair>),
    {
        let mut i: u16 = 0;
        while i < self.slot_capacity
            invariant
                self.wf(),
                self.same_settings(old(self)),
                i <= self.slot_capacity,
                forall|j: int| 0 <= j < i ==> #[trigger] self.free@[j],
            decreases self.slot_capacity - i,
        {
            self.free[i as usize] = true;
            i += 1;
        }
        assert(self@ =~= Seq::new(old(self).slot_capacity as nat, |i: int| None::<KvPair>));
    }

    /// A copy of the record of a slot; `None` for a free slot or one at or
    /// past the capacity.
    pub fn get_kv(&self, slot: SlotId) -> (r: Option<(Vec<u8>, Vec<u8>)>)
        requires
            self.wf(),
        ensures
            kv_view(r) == self.read_slot(slot),
    {
        if slot >= self.slot_capacity {
            return None;
        }
        let s = slot as usize;
        if self.free[s] {
            return None;
        }
        proof {
            lemma_slot_ranges(self.pair_size as int, self.slot_capacity as int, s as int, s as int);
        }
        let os = s * self.pair_size;
        let k = bytes_at(&self.data, os, self.key_size);
        let v = bytes_at(&self.data, os + self.key_size, self.value_size);
        Some((k, v))
    }

    /// `(slot, key, value)` for every occupied slot, in ascending slot order.
    pub fn get_kv_pairs(&self) -> (r: Vec<(SlotId, Vec<u8>, Vec<u8>)>)
        requires
            self.wf(),
        ensures
            r@.map_values(|t: (SlotId, Vec<u8>, Vec<u8>)| (t.0 as int, t.1@, t.2@)) == slot_entries(
                self@,
                self.slot_capacity as int,
            ),
    {
        let mut res: Vec<(SlotId, Vec<u8>, Vec<u8>)> = Vec::new();
        let mut slot: u16 = 0;
        while slot < self.slot_capacity
            invariant
                self.wf(),
                slot <= self.slot_capacity,
                res@.map_values(|t: (SlotId, Vec<u8>, Vec<u8>)| (t.0 as int, t.1@, t.2@)) == slot_entries(
                    self@,
                    slot as int,
                ),
            decreases self.slot_capacity - slot,
        {
            let kv = self.get_kv(slot);
            match kv {
                Some(p) => {
                    let (k, v) = p;
                    res.push((slot, k, v));
                },
                None => {},
            }
            slot += 1;
            assert(res@.map_values(|t: (SlotId, Vec<u8>, Vec<u8>)| (t.0 as int, t.1@, t.2@)) =~= slot_entries(
                self@,
                slot as int,
            ));
        }
        res
    }

    /// Moves the records of slots `[s, i)` one place to the right into the
    /// free slot `i`, leaving `s` free.
    fn shift_block(&mut self, s: usize, i: usize)
        requires
            old(self).wf(),
            s < i < old(self).slot_capacity,
            !old(self).free@[s as int],
            first_free_after(old(self)@, s as int, i as int),
        ensures
            final(self).wf(),
            final(self).same_settings(old(self)),
            final(self)@ == shifted(old(self)@, s as int, i as int),
    {
        let ghost pre = *self;
        let ps = self.pair_size;
        proof {
            lemma_slot_ranges(ps as int, self.slot_capacity as int, s as int, i as int);
            lemma_slot_ranges(ps as int, self.slot_capacity as int, i as int, i as int);
            assert((i + 1) * ps == i * ps + ps) by (nonlinear_arith);
        }
        let start = s * ps;
        let end = i * ps;
        copy_within(&mut self.data, start, start + ps, end - start);
        self.free[s] = true;
        self.free[i] = false;
        proof {
            lemma_slots_kept(pre, *self, s as int, i + 1);
            assert forall|j: int| s < j <= i implies #[trigger] self@[j] == pre@[j - 1] by {
                if j < i {
                    assert(pre@[j] is Some);
                }
                if j - 1 > s {
                    assert(pre@[j - 1] is Some);
                }
                let d = (j - 1 - s) * ps;
                assert((j - 1) * ps == start + d) by (nonlinear_arith)
                    requires d == (j - 1 - s) * ps, start == s * ps;
                assert(j * ps == start + ps + d) by (nonlinear_arith)
                    requires d == (j - 1 - s) * ps, start == s * ps;
                assert(d >= 0 && d + ps <= end - start) by (nonlinear_arith)
                    requires d == (j - 1 - s) * ps, start == s * ps, end == i * ps, s < j <= i, ps >= 0;
                assert forall|u: int| 0 <= u < ps implies #[trigger] self.data@[j * ps + u] == pre.data@[(j - 1) * ps
                    + u] by {
                    assert(self.data@[(start + ps) + (d + u)] == pre.data@[start + (d + u)]);
                    assert(j * ps + u == (start + ps) + (d + u));
                    assert((j - 1) * ps + u == start + (d + u));
                }
                lemma_same_bytes(*self, j, pre, j - 1);
            }
            assert(first_free_after(pre@, s as int, i as int));
            assert(self@ =~= shifted(pre@, s as int, i as int));
        }
    }

    /// Shifts the records from `slot` up to the first free slot after it one
    /// place to the right, leaving `slot` free. Returns `false`, changing
    /// nothing, when no slot after `slot` is free.
    pub fn shift_all_right(&mut self, slot: SlotId) -> (r: Result<bool, CrustyError>)
        requires
            old(self).wf(),
        ensures
            final(self).wf(),
            final(self).same_settings(old(self)),
            slot >= old(self).slot_capacity ==> r == Err::<bool, CrustyError>(CrustyError::SlotOutOfBounds)
                && *final(self) == *old(self),
            slot < old(self).slot_capacity && old(self)@[slot as int] is None ==> r == Err::<
                bool,
                CrustyError,
            >(CrustyError::SlotEmpty) && *final(self) == *old(self),
            slot < old(self).slot_capacity && old(self)@[slot as int] is Some ==> {
                if exists|f: int| first_free_after(old(self)@, slot as int, f) {
                    &&& r == Ok::<bool, CrustyError>(true)
                    &&& exists|f: int|
                        first_free_after(old(self)@, slot as int, f) && final(self)@ == shifted(
                            old(self)@,
                            slot as int,
                            f,
                        )
                } else {
                    r == Ok::<bool, CrustyError>(false) && *final(self) == *old(self)
                }
            },
    {
        if slot >= self.slot_capacity {
            return Err(CrustyError::SlotOutOfBounds);
        }
        let s = slot as usize;
        if self.free[s] {
            return Err(CrustyError::SlotEmpty);
        }
        let cap = self.slot_capacity as usize;
        let mut i: usize = s + 1;
        while i < cap && !self.free[i]
            invariant
                self.wf(),
                cap == self.slot_capacity,
                s < i <= cap,
                !self.free@[s as int],
                forall|j: int| s < j < i ==> !(#[trigger] self.free@[j]),
            decreases cap - i,
        {
            i += 1;
        }
        if i < cap {
            self.shift_block(s, i);
            return Ok(true);
        }
        proof {
            assert forall|f: int| !first_free_after(self@, s as int, f) by {
                if first_free_after(self@, s as int, f) {
                    assert(self@[f] is None);
                }
            }
        }
        Ok(false)
    }

    /// How many slots are occupied.
    pub fn get_filled_slot_count(&self) -> (r: usize)
        requires
            self.wf(),
        ensures
            r == occupied(self@).len(),
    {
        let mut count: usize = 0;
        let mut i: u16 = 0;
        while i < self.slot_capacity
            invariant
                self.wf(),
                i <= self.slot_capacity,
                count == occupied(self@.take(i as int)).len(),
                count <= i,
            decreases self.slot_capacity - i,
        {
            proof {
                assert(self@.take(i + 1).drop_last() =~= self@.take(i as int));
            }
            if !self.free[i as usize] {
                count += 1;
            }
            i += 1;
        }
        assert(self@.take(i as int) =~= self@);
        count
    }

    /// How many slots are free.
    pub fn get_free_slot_count(&self) -> (r: usize)
        requires
            self.wf(),
        ensures
            r == self.slot_capacity - occupied(self@).len(),
    {
        proof {
            lemma_occupied_len(self@);
        }
        self.slot_capacity as usize - self.get_filled_slot_count()
    }
}

/// Every valid pair of sizes gives `floor(PAGE_SIZE / (key_size + value_size))`
/// slots when a pair takes at least four bytes (below that the slot limit
/// caps the count), and the sizes that `new` refuses are exactly those that
/// leave fewer than the minimum count of slots.
pub proof fn lemma_slot_capacity(key_size: int, value_size: int)
    requires
        key_size >= 0,
        value_size >= 0,
    ensures
        valid_settings(key_size, value_size) <==> (key_size + value_size > 0 && capacity_for(key_size, value_size)
            >= MIN_SLOT_COUNT),
        valid_settings(key_size, value_size) && key_size + value_size >= 4 ==> capacity_for(key_size, value_size)
            == PAGE_SIZE as int / (key_size + value_size),
{
    let pair = key_size + value_size;
    if pair >= 4 {
        vstd::arithmetic::div_mod::lemma_div_is_ordered_by_denominator(PAGE_SIZE as int, 4, pair);
    }
}

/// A stored record has the page's key and value sizes.
pub proof fn lemma_record_sizes(page: FixedPage, s: int)
    requires
        page.wf(),
        0 <= s < page.slot_capacity,
        page@[s] is Some,
    ensures
        page@[s]->Some_0.0.len() == page.key_size,
        page@[s]->Some_0.1.len() == page.value_size,
{
    lemma_slot_ranges(page.pair_size as int, page.slot_capacity as int, s, s);
}

/// After `write` without `overwrite` succeeds, `get_kv` of the slot gives the
/// record back.
pub proof fn lemma_write_then_read(
    before: FixedPage,
    after: FixedPage,
    slot: SlotId,
    key: Seq<u8>,
    value: Seq<u8>,
    r: Result<(), CrustyError>,
)
    requires
        write_post(before, after, slot, false, key, value, r),
        r is Ok,
    ensures
        after.read_slot(slot) == Some((key, value)),
{
    assert(after@.len() == after.slot_capacity);
    assert(before@.len() == before.slot_capacity);
}

/// After `delete`, `get_kv` of the slot gives nothing, whatever the slot.
pub proof fn lemma_delete_then_read(before: FixedPage, after: FixedPage, slot: SlotId)
    requires
        delete_post(before, after, slot),
    ensures
        after.read_slot(slot) is None,
{
}

/// After `move_if_empty(a, b)` succeeds, slot `a` reads as free and slot `b`
/// reads as `a` did, every other slot reads as before; and the move fails
/// when `a` was free or `b` occupied.
pub proof fn lemma_move_then_read(before: FixedPage, after: FixedPage, a: SlotId, b: SlotId, r: Result<(), CrustyError>)
    requires
        move_post(before, after, a, b, r),
    ensures
        r is Ok ==> after.read_slot(a) is None && after.read_slot(b) == before.read_slot(a) && before.read_slot(a) is Some,
        r is Ok ==> forall|s: SlotId| s != a && s != b ==> #[trigger] after.read_slot(s) == before.read_slot(s),
        before.read_slot(a) is None || before.read_slot(b) is Some ==> r is Err,
{
    assert(after@.len() == after.slot_capacity);
    assert(before@.len() == before.slot_capacity);
    if r is Ok {
        assert forall|s: SlotId| s != a && s != b implies #[trigger] after.read_slot(s) == before.read_slot(s) by {
            if s < before.slot_capacity {
                assert(after@[s as int] == before@[s as int]);
            }
        }
    }
}

} // verus!
