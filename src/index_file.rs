use vstd::prelude::*;
use crate::buffer_pool::{
    lemma_keeps_others_trans, lemma_new_page_keeps_others, lemma_page_write, lemma_same_pages_keep, BufferPool,
    BufferPoolTrait, FRAMES,
};
use crate::error::CrustyError;
use crate::fixed_page::{lemma_record_sizes, FixedPage, KvPair};
use crate::heap_page::HeapDataPage;
use crate::ids::{value_id_of, ContainerId, PageId, Permissions, SlotId, StateType, TransactionId, ValueId};
use crate::prelude::{INDEX_POINTER_SIZE, SEARCH_KEY_SIZE};

verus! {

/// The kind of index a storage manager builds.
pub const INDEX_TYPE: StateType = StateType::HashTable;

/// The number of bucket pages a new index starts with.
pub const STARTING_PAGE_CAPACITY: PageId = 8;

/// The sum of the bytes of a key.
pub open spec fn byte_sum(s: Seq<u8>) -> int
    decreases s.len(),
{
    if s.len() == 0 {
        0
    } else {
        byte_sum(s.drop_last()) + s.last()
    }
}

/// The bucket a search key belongs to among `n` buckets.
pub open spec fn bucket_of(key: Seq<u8>, n: int) -> int {
    byte_sum(key) % n
}

/// The pointers stored under key `k` in a page's slots, in slot order.
pub open spec fn page_pointers(v: Seq<Option<KvPair>>, k: Seq<u8>) -> Seq<ValueId>
    decreases v.len(),
{
    if v.len() == 0 {
        Seq::empty()
    } else {
        let rest = page_pointers(v.drop_last(), k);
        match v.last() {
            Some(kv) => if kv.0 == k {
                rest.push(value_id_of(kv.1))
            } else {
                rest
            },
            None => rest,
        }
    }
}

/// A hash index in one container of a buffer pool: each of the first
/// `bucket_count` pages heads the chain of overflow pages of one bucket, and
/// an entry's search key decides its bucket.
#[derive(Clone, Copy)]
pub struct FixedIndexFile {
    /// The container of the index.
    pub c_id: ContainerId,
    /// Whether range lookups are offered.
    pub supports_range: bool,
    /// The number of buckets.
    pub bucket_count: PageId,
}

impl FixedIndexFile {
    /// The pointers stored under key `k` in the first `n` pages, page by page.
    pub open spec fn pointers_upto(&self, bp: &BufferPool, k: Seq<u8>, n: int) -> Seq<ValueId>
        decreases n,
    {
        if n <= 0 {
            Seq::empty()
        } else {
            self.pointers_upto(bp, k, n - 1) + page_pointers(bp.page(self.c_id as int, n - 1)@, k)
        }
    }

    /// The pointers stored under key `k` anywhere in the index.
    pub open spec fn pointers_for(&self, bp: &BufferPool, k: Seq<u8>) -> Seq<ValueId> {
        self.pointers_upto(bp, k, bp.page_count(self.c_id as int))
    }

    /// The index's pages agree with its buckets and chains.
    pub open spec fn index_wf(&self, bp: &BufferPool) -> bool {
        let c = self.c_id as int;
        let n = self.bucket_count as int;
        &&& bp.wf()
        &&& !bp.latch
        &&& bp.is_registered(c)
        &&& bp.containers@[c]->Some_0.key_size == SEARCH_KEY_SIZE
        &&& bp.containers@[c]->Some_0.value_size == INDEX_POINTER_SIZE
        &&& 1 <= n <= bp.page_count(c)
        &&& forall|p: int| 0 <= p < bp.page_count(c) ==> self.page_ok(bp, p, #[trigger] bp.page(c, p))
    }

    /// Page `p` sits in a bucket, links forward within it, and holds only
    /// entries of that bucket.
    pub open spec fn page_ok(&self, bp: &BufferPool, p: int, page: FixedPage) -> bool {
        let c = self.c_id as int;
        let n = self.bucket_count as int;
        &&& page.extra < n
        &&& p < n ==> page.extra == p
        &&& page.overflow_pointer matches Some(q) ==> p < q < bp.page_count(c) && bp.page(c, q as int).extra == page.extra
        &&& forall|s: int| 0 <= s < page@.len() && (#[trigger] page@[s]) is Some ==> bucket_of(page@[s]->Some_0.0, n) == page.extra
    }

    /// The records of the index's container are those of `o`.
    pub open spec fn same_records(&self, bp: &BufferPool, o: &BufferPool) -> bool {
        forall|v: ValueId| v.container_id == self.c_id ==> #[trigger] bp.record(v) == o.record(v)
    }
}

/// The bucket of a search key among `n` buckets.
fn bucket(key: &[u8; SEARCH_KEY_SIZE], n: PageId) -> (b: PageId)
    requires
        n >= 1,
    ensures
        b == bucket_of(key@, n as int),
        b < n,
{
    let mut sum: u32 = 0;
    let mut i: usize = 0;
    while i < SEARCH_KEY_SIZE
        invariant
            i <= SEARCH_KEY_SIZE,
            key@.len() == SEARCH_KEY_SIZE,
            sum == byte_sum(key@.take(i as int)),
            sum <= 255 * i,
        decreases SEARCH_KEY_SIZE - i,
    {
        proof {
            assert(key@.take(i + 1).drop_last() =~= key@.take(i as int));
        }
        sum = sum + key[i] as u32;
        i += 1;
    }
    assert(key@.take(i as int) =~= key@);
    sum % n
}

/// Whether two byte strings are equal.
fn bytes_eq(a: &[u8], b: &[u8]) -> (r: bool)
    ensures
        r == (a@ == b@),
{
    if a.len() != b.len() {
        return false;
    }
    let mut i: usize = 0;
    while i < a.len()
        invariant
            a@.len() == b@.len(),
            i <= a@.len(),
            forall|j: int| 0 <= j < i ==> a@[j] == b@[j],
        decreases a@.len() - i,
    {
        if a[i] != b[i] {
            return false;
        }
        i += 1;
    }
    assert(a@ =~= b@);
    true
}

/// A page of another bucket holds no pointer under `k`.
proof fn lemma_other_bucket_empty(v: Seq<Option<KvPair>>, k: Seq<u8>, n: int, b: int)
    requires
        n >= 1,
        bucket_of(k, n) != b,
        forall|s: int| 0 <= s < v.len() && (#[trigger] v[s]) is Some ==> bucket_of(v[s]->Some_0.0, n) == b,
    ensures
        page_pointers(v, k) == Seq::<ValueId>::empty(),
    decreases v.len(),
{
    if v.len() > 0 {
        lemma_other_bucket_empty(v.drop_last(), k, n, b);
        if v.last() is Some {
            assert(v[v.len() - 1] is Some);
        }
    }
}

/// Appends the pointers stored under `key` in `page` to `out`.
fn collect_page_pointers(page: &FixedPage, key: &[u8], out: &mut Vec<ValueId>)
    requires
        page.wf(),
        page.value_size == INDEX_POINTER_SIZE,
    ensures
        final(out)@ == old(out)@ + page_pointers(page@, key@),
{
    let mut s: u16 = 0;
    while s < page.slot_capacity
        invariant
            page.wf(),
            page.value_size == INDEX_POINTER_SIZE,
            s <= page.slot_capacity,
            out@ == old(out)@ + page_pointers(page@.take(s as int), key@),
        decreases page.slot_capacity - s,
    {
        proof {
            assert(page@.take(s + 1).drop_last() =~= page@.take(s as int));
            assert(page@.take(s + 1).last() == page@[s as int]);
        }
        match page.get_kv(s) {
            Some(kv) => {
                proof {
                    lemma_record_sizes(*page, s as int);
                }
                if bytes_eq(kv.0.as_slice(), key) {
                    out.push(ValueId::from_bytes(kv.1.as_slice()));
                }
            },
            None => {},
        }
        s += 1;
        proof {
            assert(out@ =~= old(out)@ + page_pointers(page@.take(s as int), key@));
        }
    }
    assert(page@.take(s as int) =~= page@);
}

/// Sets the bucket and the overflow link of page `p` of container `c`.
fn set_links(bp: &mut BufferPool, c: ContainerId, p: PageId, extra: usize, overflow: Option<PageId>)
    requires
        old(bp).wf(),
        !old(bp).latch,
        old(bp).has_page(c as int, p as int),
    ensures
        final(bp).wf(),
        !final(bp).latch,
        final(bp).keeps_others(old(bp), c as int),
        final(bp).containers == old(bp).containers,
        final(bp).page_frames@ == old(bp).page_frames@,
        final(bp).free_frame == old(bp).free_frame,
        final(bp).page(c as int, p as int) == (FixedPage {
            extra,
            overflow_pointer: overflow,
            ..old(bp).page(c as int, p as int)
        }),
        forall|q: int| 0 <= q < old(bp).page_count(c as int) && q != p ==> #[trigger] final(bp).page(c as int, q) == old(bp).page(c as int, q),
        forall|v: ValueId| #[trigger] final(bp).record(v) == old(bp).record(v),
{
    let ghost b0 = *bp;
    let v = ValueId::new_page(c, p);
    let g = match bp.get_page(&v, Permissions::ReadWrite) {
        Ok(g) => g,
        Err(_) => {
            return;
        },
    };
    let ghost b1 = *bp;
    proof {
        lemma_same_pages_keep(b0, b1, c as int);
        assert(b0.container_ok(c as int));
        assert(b0.page_ok(c as int, p as int, b0.frame_of(c as int, p as int)));
    }
    {
        let page = bp.frame_page_mut(&g);
        page.extra = extra;
        page.overflow_pointer = overflow;
    }
    let ghost b2 = *bp;
    proof {
        lemma_page_write(b1, b2, c as int, p as int);
    }
    bp.release_page(g);
    proof {
        lemma_same_pages_keep(b2, *bp, c as int);
        lemma_keeps_others_trans(b0, b1, b2, c as int);
        lemma_keeps_others_trans(b0, b2, *bp, c as int);
        assert forall|u: ValueId| #[trigger] bp.record(u) == b0.record(u) by {
            if u.page_id is Some && u.slot_id is Some && bp.has_page(u.container_id as int, u.page_id->Some_0 as int) {
                let d = u.container_id as int;
                let q = u.page_id->Some_0 as int;
                if d != c || q != p {
                    assert(b2.page(d, q) == b1.page(d, q));
                } else {
                    assert(bp.page(d, q)@ =~= b0.page(d, q)@);
                }
            }
        }
    }
}

/// An index whose first `n` pages are empty stores no pointer in them.
proof fn lemma_empty_pages_no_pointers(idx: FixedIndexFile, bp: BufferPool, k: Seq<u8>, n: int)
    requires
        forall|q: int, s: int| 0 <= q < n && 0 <= s < bp.page(idx.c_id as int, q)@.len() ==> (#[trigger] bp.page(idx.c_id as int, q)@[s]) is None,
    ensures
        idx.pointers_upto(&bp, k, n) == Seq::<ValueId>::empty(),
    decreases n,
{
    if n > 0 {
        lemma_empty_pages_no_pointers(idx, bp, k, n - 1);
        let v = bp.page(idx.c_id as int, n - 1)@;
        assert forall|s: int| 0 <= s < v.len() implies (#[trigger] v[s]) is None by {
            assert(bp.page(idx.c_id as int, n - 1)@[s] is None);
        }
        lemma_no_records_no_pointers(v, k);
    }
}

/// Free slots store no pointer.
proof fn lemma_no_records_no_pointers(v: Seq<Option<KvPair>>, k: Seq<u8>)
    requires
        forall|s: int| 0 <= s < v.len() ==> (#[trigger] v[s]) is None,
    ensures
        page_pointers(v, k) == Seq::<ValueId>::empty(),
    decreases v.len(),
{
    if v.len() > 0 {
        lemma_no_records_no_pointers(v.drop_last(), k);
        assert(v[v.len() - 1] is None);
    }
}

impl FixedIndexFile {
    /// Adds an entry to the first free slot of page `p`, if it has one.
    fn try_add(&self, bp: &mut BufferPool, p: PageId, key: &[u8; SEARCH_KEY_SIZE], ptr: &[u8; INDEX_POINTER_SIZE]) -> (r: Option<SlotId>)
        requires
            self.index_wf(old(bp)),
            p < old(bp).page_count(self.c_id as int),
            old(bp).page(self.c_id as int, p as int).extra == bucket_of(key@, self.bucket_count as int),
        ensures
            self.index_wf(final(bp)),
            final(bp).keeps_others(old(bp), self.c_id as int),
            final(bp).page_count(self.c_id as int) == old(bp).page_count(self.c_id as int),
            final(bp).free_frame == old(bp).free_frame,
            forall|q: int| 0 <= q < old(bp).page_count(self.c_id as int) && q != p ==> #[trigger] final(bp).page(self.c_id as int, q) == old(bp).page(self.c_id as int, q),
            final(bp).page(self.c_id as int, p as int).same_settings(&old(bp).page(self.c_id as int, p as int)),
            r is None ==> final(bp).page(self.c_id as int, p as int)@ == old(bp).page(self.c_id as int, p as int)@,
            r matches Some(s) ==> s < old(bp).page(self.c_id as int, p as int).slot_capacity
                && old(bp).page(self.c_id as int, p as int)@[s as int] is None
                && final(bp).page(self.c_id as int, p as int)@ == old(bp).page(self.c_id as int, p as int)@.update(s as int, Some((key@, ptr@))),
    {
        let ghost c = self.c_id as int;
        let ghost b0 = *bp;
        let v = ValueId::new_page(self.c_id, p);
        let g = match bp.get_page(&v, Permissions::ReadWrite) {
            Ok(g) => g,
            Err(_) => {
                return None;
            },
        };
        let ghost b1 = *bp;
        proof {
            lemma_same_pages_keep(b0, b1, c);
            assert(b1.container_ok(c));
            assert(b1.page_ok(c, p as int, b1.frame_of(c, p as int)));
        }
        let slot = {
            let page = bp.frame_page_mut(&g);
            page.add(key.as_slice(), ptr.as_slice())
        };
        let ghost b2 = *bp;
        proof {
            lemma_page_write(b1, b2, c, p as int);
        }
        bp.release_page(g);
        proof {
            lemma_same_pages_keep(b2, *bp, c);
            lemma_keeps_others_trans(b0, b1, b2, c);
            lemma_keeps_others_trans(b0, b2, *bp, c);
            assert forall|q: int| 0 <= q < bp.page_count(c) implies self.page_ok(bp, q, #[trigger] bp.page(c, q)) by {
                assert(self.page_ok(&b0, q, b0.page(c, q)));
                if q == p {
                    let pg = bp.page(c, q);
                    assert forall|s: int| 0 <= s < pg@.len() && (#[trigger] pg@[s]) is Some implies bucket_of(pg@[s]->Some_0.0, self.bucket_count as int) == pg.extra by {
                        if slot != Some(s as u16) {
                            assert(pg@[s] == b0.page(c, q)@[s]);
                        }
                    }
                }
                match bp.page(c, q).overflow_pointer {
                    Some(t) => {
                        if t as int != p {
                            assert(bp.page(c, t as int) == b0.page(c, t as int));
                        }
                    },
                    None => {},
                }
            }
        }
        slot
    }

    /// Appends an empty overflow page of bucket `b` after page `cur`, the
    /// last page of that bucket's chain.
    fn extend(&self, bp: &mut BufferPool, cur: PageId, b: usize) -> (r: Result<PageId, CrustyError>)
        requires
            self.index_wf(old(bp)),
            cur < old(bp).page_count(self.c_id as int),
            old(bp).page(self.c_id as int, cur as int).extra == b,
            old(bp).page(self.c_id as int, cur as int).overflow_pointer is None,
        ensures
            self.index_wf(final(bp)),
            final(bp).keeps_others(old(bp), self.c_id as int),
            self.same_records(final(bp), old(bp)),
            r matches Ok(q) ==> q == old(bp).page_count(self.c_id as int) && final(bp).page_count(self.c_id as int) == q + 1
                && final(bp).page(self.c_id as int, q as int).extra == b && final(bp).free_frame == old(bp).free_frame + 1,
            r is Err ==> r == Err::<PageId, CrustyError>(CrustyError::OutOfFrames) && old(bp).free_frame >= FRAMES
                && final(bp).free_frame == old(bp).free_frame
                && final(bp).page_count(self.c_id as int) == old(bp).page_count(self.c_id as int)
                && forall|q: int| 0 <= q < old(bp).page_count(self.c_id as int) ==> #[trigger] final(bp).page(self.c_id as int, q) == old(bp).page(self.c_id as int, q),
    {
        let ghost c = self.c_id as int;
        let ghost b0 = *bp;
        proof {
            assert(b0.container_ok(c));
        }
        match bp.new_page(self.c_id) {
            Ok((q, g)) => {
                let ghost b1 = *bp;
                proof {
                    lemma_new_page_keeps_others(b0, b1, c);
                }
                bp.release_page(g);
                let ghost b2 = *bp;
                proof {
                    lemma_same_pages_keep(b1, b2, c);
                    lemma_keeps_others_trans(b0, b1, b2, c);
                }
                set_links(bp, self.c_id, q, b, None);
                let ghost b3 = *bp;
                set_links(bp, self.c_id, cur, b, Some(q));
                proof {
                    lemma_keeps_others_trans(b0, b2, b3, c);
                    lemma_keeps_others_trans(b0, b3, *bp, c);
                    assert forall|x: int| 0 <= x < b0.page_count(c) && x != cur implies #[trigger] bp.page(c, x) == b0.page(c, x) by {
                        assert(b1.page_frames@[c]@[x] == b0.page_frames@[c]@[x]);
                    }
                    assert forall|x: int| 0 <= x < bp.page_count(c) implies self.page_ok(bp, x, #[trigger] bp.page(c, x)) by {
                        if x < b0.page_count(c) {
                            assert(self.page_ok(&b0, x, b0.page(c, x)));
                            if x == cur {
                                assert(bp.page(c, x)@ =~= b0.page(c, x)@);
                            }
                            match bp.page(c, x).overflow_pointer {
                                Some(t) => {
                                    if t != q && t != cur {
                                        assert(bp.page(c, t as int) == b0.page(c, t as int));
                                    }
                                },
                                None => {},
                            }
                        } else {
                            assert(x == q);
                            assert(bp.page(c, x)@ =~= b1.page(c, x)@);
                            assert(b < self.bucket_count) by {
                                assert(self.page_ok(&b0, cur as int, b0.page(c, cur as int)));
                            }
                        }
                    }
                    assert forall|v: ValueId| v.container_id == self.c_id implies #[trigger] bp.record(v) == b0.record(v) by {
                        assert(bp.record(v) == b2.record(v));
                        if v.page_id is Some && v.slot_id is Some && b2.has_page(c, v.page_id->Some_0 as int) {
                            let x = v.page_id->Some_0 as int;
                            if x < b0.page_count(c) {
                                assert(b1.page_frames@[c]@[x] == b0.page_frames@[c]@[x]);
                                assert(b2.page(c, x) == b0.page(c, x));
                            } else {
                                assert(b2.page(c, x) == b1.page(c, x));
                            }
                        }
                    }
                }
                Ok(q)
            },
            Err(e) => {
                proof {
                    assert forall|x: int| 0 <= x < bp.page_count(c) implies self.page_ok(bp, x, #[trigger] bp.page(c, x)) by {
                        assert(self.page_ok(&b0, x, b0.page(c, x)));
                    }
                }
                Err(e)
            },
        }
    }

}

/// The number whose big-endian bytes are `s`; for keys of one length its
/// order is the lexicographic order of the bytes.
pub open spec fn be_value(s: Seq<u8>) -> nat
    decreases s.len(),
{
    if s.len() == 0 {
        0
    } else {
        be_value(s.drop_last()) * 256 + s.last() as nat
    }
}

/// The pointers of a page's entries whose key lies in `[lo, hi)`, in slot order.
pub open spec fn page_range_pointers(v: Seq<Option<KvPair>>, lo: nat, hi: nat) -> Seq<ValueId>
    decreases v.len(),
{
    if v.len() == 0 {
        Seq::empty()
    } else {
        let rest = page_range_pointers(v.drop_last(), lo, hi);
        match v.last() {
            Some(kv) => if lo <= be_value(kv.0) < hi {
                rest.push(value_id_of(kv.1))
            } else {
                rest
            },
            None => rest,
        }
    }
}

/// The big-endian value of a search key.
fn key_value(key: &[u8]) -> (r: u64)
    requires
        key@.len() == SEARCH_KEY_SIZE,
    ensures
        r == be_value(key@),
{
    let mut v: u64 = 0;
    let mut i: usize = 0;
    while i < SEARCH_KEY_SIZE
        invariant
            i <= SEARCH_KEY_SIZE,
            key@.len() == SEARCH_KEY_SIZE,
            v == be_value(key@.take(i as int)),
            v < pow256(i as nat),
        decreases SEARCH_KEY_SIZE - i,
    {
        proof {
            assert(key@.take(i + 1).drop_last() =~= key@.take(i as int));
            assert(pow256((i + 1) as nat) == pow256(i as nat) * 256);
            assert(pow256(i as nat) <= pow256(7)) by {
                lemma_pow256_mono(i as nat, 7);
            }
            assert(v * 256 + key@[i as int] < pow256(i as nat) * 256) by (nonlinear_arith)
                requires v < pow256(i as nat), key@[i as int] < 256;
            reveal_with_fuel(pow256, 8);
            assert(pow256(7) == 72057594037927936);
            assert(pow256(i as nat) * 256 <= pow256(7) * 256) by (nonlinear_arith)
                requires pow256(i as nat) <= pow256(7);
        }
        v = v * 256 + key[i] as u64;
        i += 1;
    }
    assert(key@.take(i as int) =~= key@);
    v
}

/// `256` to the power `n`.
pub open spec fn pow256(n: nat) -> nat
    decreases n,
{
    if n == 0 {
        1
    } else {
        pow256((n - 1) as nat) * 256
    }
}

/// Powers of 256 grow with the exponent.
proof fn lemma_pow256_mono(a: nat, b: nat)
    requires
        a <= b,
    ensures
        pow256(a) <= pow256(b),
    decreases b - a,
{
    if a < b {
        lemma_pow256_mono(a, (b - 1) as nat);
    }
}

/// Appends the pointers of `page`'s entries whose key lies in `[lo, hi)` to `out`.
fn collect_range_pointers(page: &FixedPage, lo: u64, hi: u64, out: &mut Vec<ValueId>)
    requires
        page.wf(),
        page.key_size == SEARCH_KEY_SIZE,
        page.value_size == INDEX_POINTER_SIZE,
    ensures
        final(out)@ == old(out)@ + page_range_pointers(page@, lo as nat, hi as nat),
{
    let mut s: u16 = 0;
    while s < page.slot_capacity
        invariant
            page.wf(),
            page.key_size == SEARCH_KEY_SIZE,
            page.value_size == INDEX_POINTER_SIZE,
            s <= page.slot_capacity,
            out@ == old(out)@ + page_range_pointers(page@.take(s as int), lo as nat, hi as nat),
        decreases page.slot_capacity - s,
    {
        proof {
            assert(page@.take(s + 1).drop_last() =~= page@.take(s as int));
            assert(page@.take(s + 1).last() == page@[s as int]);
        }
        match page.get_kv(s) {
            Some(kv) => {
                proof {
                    lemma_record_sizes(*page, s as int);
                }
                let k = key_value(kv.0.as_slice());
                if lo <= k && k < hi {
                    out.push(ValueId::from_bytes(kv.1.as_slice()));
                }
            },
            None => {},
        }
        s += 1;
        proof {
            assert(out@ =~= old(out)@ + page_range_pointers(page@.take(s as int), lo as nat, hi as nat));
        }
    }
    assert(page@.take(s as int) =~= page@);
}

impl FixedIndexFile {
    /// The pointers of entries in the first `n` pages whose key lies in `[lo, hi)`.
    pub open spec fn range_upto(&self, bp: &BufferPool, lo: nat, hi: nat, n: int) -> Seq<ValueId>
        decreases n,
    {
        if n <= 0 {
            Seq::empty()
        } else {
            self.range_upto(bp, lo, hi, n - 1) + page_range_pointers(bp.page(self.c_id as int, n - 1)@, lo, hi)
        }
    }
}

/// The first slot of `page` that holds exactly `(key, ptr)`.
fn find_entry(page: &FixedPage, key: &[u8], ptr: &[u8]) -> (r: Option<SlotId>)
    requires
        page.wf(),
    ensures
        r matches Some(s) ==> s < page.slot_capacity && page@[s as int] == Some((key@, ptr@)),
        r is None ==> forall|s: int| 0 <= s < page@.len() ==> (#[trigger] page@[s]) != Some((key@, ptr@)),
{
    let mut s: u16 = 0;
    while s < page.slot_capacity
        invariant
            page.wf(),
            s <= page.slot_capacity,
            forall|t: int| 0 <= t < s ==> (#[trigger] page@[t]) != Some((key@, ptr@)),
        decreases page.slot_capacity - s,
    {
        match page.get_kv(s) {
            Some(kv) => {
                if bytes_eq(kv.0.as_slice(), key) && bytes_eq(kv.1.as_slice(), ptr) {
                    return Some(s);
                }
            },
            None => {},
        }
        s += 1;
    }
    None
}

impl FixedIndexFile {
    /// Frees slot `s` of page `p` of the index.
    fn clear_slot(&self, bp: &mut BufferPool, p: PageId, s: SlotId)
        requires
            self.index_wf(old(bp)),
            p < old(bp).page_count(self.c_id as int),
            s < old(bp).page(self.c_id as int, p as int).slot_capacity,
        ensures
            self.index_wf(final(bp)),
            final(bp).keeps_others(old(bp), self.c_id as int),
            final(bp).page_count(self.c_id as int) == old(bp).page_count(self.c_id as int),
            forall|q: int| 0 <= q < old(bp).page_count(self.c_id as int) && q != p ==> #[trigger] final(bp).page(self.c_id as int, q) == old(bp).page(self.c_id as int, q),
            final(bp).page(self.c_id as int, p as int).same_settings(&old(bp).page(self.c_id as int, p as int)),
            final(bp).page(self.c_id as int, p as int)@ == old(bp).page(self.c_id as int, p as int)@.update(s as int, None),
    {
        let ghost c = self.c_id as int;
        let ghost b0 = *bp;
        let v = ValueId::new_page(self.c_id, p);
        let g = match bp.get_page(&v, Permissions::ReadWrite) {
            Ok(g) => g,
            Err(_) => {
                return;
            },
        };
        let ghost b1 = *bp;
        proof {
            lemma_same_pages_keep(b0, b1, c);
            assert(b1.container_ok(c));
            assert(b1.page_ok(c, p as int, b1.frame_of(c, p as int)));
        }
        {
            let page = bp.frame_page_mut(&g);
            page.delete(s);
        }
        let ghost b2 = *bp;
        proof {
            lemma_page_write(b1, b2, c, p as int);
        }
        bp.release_page(g);
        proof {
            lemma_same_pages_keep(b2, *bp, c);
            lemma_keeps_others_trans(b0, b1, b2, c);
            lemma_keeps_others_trans(b0, b2, *bp, c);
            assert forall|q: int| 0 <= q < bp.page_count(c) implies self.page_ok(bp, q, #[trigger] bp.page(c, q)) by {
                assert(self.page_ok(&b0, q, b0.page(c, q)));
                if q == p {
                    let pg = bp.page(c, q);
                    assert forall|t: int| 0 <= t < pg@.len() && (#[trigger] pg@[t]) is Some implies bucket_of(pg@[t]->Some_0.0, self.bucket_count as int) == pg.extra by {
                        assert(pg@[t] == b0.page(c, q)@[t]);
                    }
                }
                match bp.page(c, q).overflow_pointer {
                    Some(t) => {
                        if t as int != p {
                            assert(bp.page(c, t as int) == b0.page(c, t as int));
                        }
                    },
                    None => {},
                }
            }
        }
    }


}

/// A slot holding `(k, ptr)` contributes the pointer `ptr` decodes to.
proof fn lemma_page_pointers_has(v: Seq<Option<KvPair>>, s: int, k: Seq<u8>, ptr: Seq<u8>)
    requires
        0 <= s < v.len(),
        v[s] == Some((k, ptr)),
    ensures
        page_pointers(v, k).contains(value_id_of(ptr)),
    decreases v.len(),
{
    let rest = page_pointers(v.drop_last(), k);
    if s == v.len() - 1 {
        assert(page_pointers(v, k) == rest.push(value_id_of(ptr)));
        assert(page_pointers(v, k)[rest.len() as int] == value_id_of(ptr));
    } else {
        lemma_page_pointers_has(v.drop_last(), s, k, ptr);
        let i = choose|i: int| 0 <= i < rest.len() && rest[i] == value_id_of(ptr);
        match v.last() {
            Some(kv) => {
                if kv.0 == k {
                    assert(page_pointers(v, k)[i] == value_id_of(ptr));
                }
            },
            None => {},
        }
    }
}

/// A pointer found on page `p` is among the pointers of the first `n > p` pages.
proof fn lemma_upto_has(idx: FixedIndexFile, bp: BufferPool, k: Seq<u8>, n: int, p: int, x: ValueId)
    requires
        0 <= p < n,
        page_pointers(bp.page(idx.c_id as int, p)@, k).contains(x),
    ensures
        idx.pointers_upto(&bp, k, n).contains(x),
    decreases n,
{
    let prev = idx.pointers_upto(&bp, k, n - 1);
    let here = page_pointers(bp.page(idx.c_id as int, n - 1)@, k);
    if p == n - 1 {
        let i = choose|i: int| 0 <= i < here.len() && here[i] == x;
        assert((prev + here)[prev.len() + i] == x);
    } else {
        lemma_upto_has(idx, bp, k, n - 1, p, x);
        let i = choose|i: int| 0 <= i < prev.len() && prev[i] == x;
        assert((prev + here)[i] == x);
    }
}

/// Every entry stored in an index is found again: a lookup of its search key
/// yields the value id its pointer encodes.
pub proof fn lemma_stored_entry_found(idx: FixedIndexFile, bp: BufferPool, v: ValueId, k: Seq<u8>, ptr: Seq<u8>)
    requires
        idx.index_wf(&bp),
        v.container_id == idx.c_id,
        bp.record(v) == Some((k, ptr)),
    ensures
        idx.pointers_for(&bp, k).contains(value_id_of(ptr)),
{
    let c = idx.c_id as int;
    let p = v.page_id->Some_0 as int;
    let s = v.slot_id->Some_0 as int;
    lemma_page_pointers_has(bp.page(c, p)@, s, k, ptr);
    lemma_upto_has(idx, bp, k, bp.page_count(c), p, value_id_of(ptr));
}

/// The operations of an index file over a buffer pool.
pub trait IndexFileTrait: Sized {
    /// The index agrees with its pages in the pool.
    spec fn index_ok(&self, bp: &BufferPool) -> bool;

    /// An index over a registered, still empty container; it allocates its
    /// first pages.
    fn new(c_id: ContainerId, bp: &mut BufferPool, supports_range: bool, initial_page_capacity: PageId) -> (r: Self)
        requires
            old(bp).wf(),
            !old(bp).latch,
            old(bp).is_registered(c_id as int),
            old(bp).containers@[c_id as int]->Some_0.key_size == SEARCH_KEY_SIZE,
            old(bp).containers@[c_id as int]->Some_0.value_size == INDEX_POINTER_SIZE,
            old(bp).page_count(c_id as int) == 0,
            1 <= initial_page_capacity,
            old(bp).free_frame + initial_page_capacity <= FRAMES,
        ensures
            r.index_ok(final(bp)),
    ;

    /// Adds an entry; returns where it was stored.
    fn add(&self, bp: &mut BufferPool, search_key: &[u8; SEARCH_KEY_SIZE], pointer: &[u8; INDEX_POINTER_SIZE], txn: &TransactionId) -> (r: Result<ValueId, CrustyError>)
        requires
            self.index_ok(old(bp)),
        ensures
            self.index_ok(final(bp)),
    ;

    /// The pointers stored under a search key.
    fn get_pointers_for_key(&self, bp: &BufferPool, search_key: &[u8; SEARCH_KEY_SIZE], txn: &TransactionId) -> (r: Result<Vec<ValueId>, CrustyError>)
        requires
            self.index_ok(bp),
    ;

    /// The pointers stored under the search keys of a range.
    fn get_pointers_for_key_range(
        &self,
        bp: &BufferPool,
        search_key_min_inclusive: &[u8; SEARCH_KEY_SIZE],
        search_key_max_exclusive: &[u8; SEARCH_KEY_SIZE],
        txn: &TransactionId,
    ) -> (r: Result<Vec<ValueId>, CrustyError>)
        requires
            self.index_ok(bp),
    ;

    /// The number of pages the index has allocated.
    fn get_pages_used(&self, bp: &BufferPool) -> (r: usize)
        requires
            self.index_ok(bp),
    ;

    /// Removes an entry; returns where it was.
    fn delete_entry(&self, bp: &mut BufferPool, search_key: &[u8; SEARCH_KEY_SIZE], pointer: &[u8; INDEX_POINTER_SIZE], txn: &TransactionId) -> (r: Result<ValueId, CrustyError>)
        requires
            self.index_ok(old(bp)),
        ensures
            self.index_ok(final(bp)),
    ;

    /// Moves an entry to a new search key; returns its new place.
    fn update_key(
        &self,
        bp: &mut BufferPool,
        old_search_key: &[u8; SEARCH_KEY_SIZE],
        new_search_key: &[u8; SEARCH_KEY_SIZE],
        pointer: &[u8; INDEX_POINTER_SIZE],
        txn: &TransactionId,
    ) -> (r: Result<ValueId, CrustyError>)
        requires
            self.index_ok(old(bp)),
        ensures
            self.index_ok(final(bp)),
    ;

    /// Adds several entries in turn.
    fn bulk_add(&self, bp: &mut BufferPool, search_keys: &Vec<[u8; SEARCH_KEY_SIZE]>, pointers: &Vec<[u8; INDEX_POINTER_SIZE]>, txn: &TransactionId) -> (r: Result<Vec<ValueId>, CrustyError>)
        requires
            self.index_ok(old(bp)),
        ensures
            self.index_ok(final(bp)),
    ;
}

impl IndexFileTrait for FixedIndexFile {
    open spec fn index_ok(&self, bp: &BufferPool) -> bool {
        self.index_wf(bp)
    }

    /// A hash index over a registered, still empty index container, with
    /// `initial_page_capacity` buckets; a page is created for each.
    fn new(c_id: ContainerId, bp: &mut BufferPool, supports_range: bool, initial_page_capacity: PageId) -> (r: FixedIndexFile)
        ensures
            r.index_wf(final(bp)),
            r.c_id == c_id,
            r.supports_range == supports_range,
            r.bucket_count == initial_page_capacity,
            final(bp).page_count(c_id as int) == initial_page_capacity,
            final(bp).keeps_others(old(bp), c_id as int),
            final(bp).containers@[c_id as int]->Some_0.container_type == old(bp).containers@[c_id as int]->Some_0.container_type,
            forall|k: Seq<u8>| r.pointers_for(final(bp), k) == Seq::<ValueId>::empty(),
    {
        let r = FixedIndexFile { c_id, supports_range, bucket_count: initial_page_capacity };
        let ghost c = c_id as int;
        let mut i: PageId = 0;
        while i < initial_page_capacity
            invariant
                bp.wf(),
                !bp.latch,
                r.c_id == c_id,
                r.bucket_count == initial_page_capacity,
                c == c_id,
                bp.is_registered(c),
                bp.containers@[c]->Some_0.key_size == SEARCH_KEY_SIZE,
                bp.containers@[c]->Some_0.value_size == INDEX_POINTER_SIZE,
                bp.containers@[c]->Some_0.container_type == old(bp).containers@[c]->Some_0.container_type,
                i <= initial_page_capacity,
                bp.page_count(c) == i,
                bp.free_frame + initial_page_capacity - i <= FRAMES,
                bp.keeps_others(old(bp), c),
                forall|q: int| 0 <= q < i ==> {
                    &&& (#[trigger] bp.page(c, q)).extra == q
                    &&& bp.page(c, q).overflow_pointer is None
                    &&& forall|s: int| 0 <= s < bp.page(c, q)@.len() ==> (#[trigger] bp.page(c, q)@[s]) is None
                },
            decreases initial_page_capacity - i,
        {
            let ghost b0 = *bp;
            proof {
                assert(b0.container_ok(c));
            }
            match bp.new_page(c_id) {
                Ok((p, g)) => {
                    let ghost b1 = *bp;
                    proof {
                        lemma_new_page_keeps_others(b0, b1, c);
                    }
                    bp.release_page(g);
                    let ghost b2 = *bp;
                    proof {
                        lemma_same_pages_keep(b1, b2, c);
                        lemma_keeps_others_trans(b0, b1, b2, c);
                    }
                    set_links(bp, c_id, p, p as usize, None);
                    proof {
                        lemma_keeps_others_trans(b0, b2, *bp, c);
                        lemma_keeps_others_trans(*old(bp), b0, *bp, c);
                        assert forall|q: int| 0 <= q < i + 1 implies {
                            &&& (#[trigger] bp.page(c, q)).extra == q
                            &&& bp.page(c, q).overflow_pointer is None
                            &&& forall|s: int| 0 <= s < bp.page(c, q)@.len() ==> (#[trigger] bp.page(c, q)@[s]) is None
                        } by {
                            if q < i {
                                assert(b1.page_frames@[c]@[q] == b0.page_frames@[c]@[q]);
                                assert(bp.page(c, q) == b0.page(c, q));
                            } else {
                                assert(bp.page(c, q)@ =~= b1.page(c, q)@);
                            }
                        }
                    }
                },
                Err(_) => {},
            }
            i += 1;
        }
        proof {
            assert forall|p: int| 0 <= p < bp.page_count(c) implies r.page_ok(bp, p, #[trigger] bp.page(c, p)) by {
            }
            assert forall|k: Seq<u8>| r.pointers_for(bp, k) == Seq::<ValueId>::empty() by {
                assert forall|q: int, s: int| 0 <= q < i && 0 <= s < bp.page(c, q)@.len() implies (#[trigger] bp.page(c, q)@[s]) is None by {
                    assert(bp.page(c, q).extra == q);
                }
                lemma_empty_pages_no_pointers(r, *bp, k, i as int);
            }
        }
        r
    }
    /// Adds an entry under `search_key`: it goes to the first free slot along
    /// the chain of the key's bucket, and a page is appended to the chain when
    /// every page of it is full. Fails only when the pool has no frame left.
    fn add(&self, bp: &mut BufferPool, search_key: &[u8; SEARCH_KEY_SIZE], pointer: &[u8; INDEX_POINTER_SIZE], _txn: &TransactionId) -> (r: Result<ValueId, CrustyError>)
        ensures
            self.index_wf(final(bp)),
            final(bp).keeps_others(old(bp), self.c_id as int),
            r matches Ok(v) ==> v.container_id == self.c_id && old(bp).record(v) is None
                && final(bp).record(v) == Some((search_key@, pointer@)) && forall|u: ValueId|
                u.container_id == self.c_id && u != v ==> #[trigger] final(bp).record(u) == old(bp).record(u),
            r is Err ==> r == Err::<ValueId, CrustyError>(CrustyError::OutOfFrames) && final(bp).free_frame >= FRAMES
                && self.same_records(final(bp), old(bp)),
    {
        let ghost c = self.c_id as int;
        let b = bucket(search_key, self.bucket_count);
        let mut cur: PageId = b;
        loop
            invariant
                self.index_wf(bp),
                c == self.c_id,
                b == bucket_of(search_key@, self.bucket_count as int),
                b < self.bucket_count,
                cur < bp.page_count(c),
                bp.page(c, cur as int).extra == b,
                bp.keeps_others(old(bp), c),
                self.same_records(bp, old(bp)),
                bp.free_frame >= old(bp).free_frame,
            decreases FRAMES - bp.free_frame, bp.page_count(c) - cur,
        {
            let ghost b0 = *bp;
            proof {
                assert(self.page_ok(&b0, b as int, b0.page(c, b as int)));
                assert(b0.container_ok(c));
            }
            match self.try_add(bp, cur, search_key, pointer) {
                Some(s) => {
                    let v = ValueId::new_slot(self.c_id, cur, s);
                    proof {
                        lemma_keeps_others_trans(*old(bp), b0, *bp, c);
                        assert(bp.record(v) == Some((search_key@, pointer@)));
                        assert forall|u: ValueId| u.container_id == self.c_id && u != v implies #[trigger] bp.record(u) == old(bp).record(u) by {
                            assert(b0.record(u) == old(bp).record(u));
                            if u.page_id is Some && u.slot_id is Some && bp.has_page(c, u.page_id->Some_0 as int) {
                                let q = u.page_id->Some_0 as int;
                                if q != cur {
                                    assert(bp.page(c, q) == b0.page(c, q));
                                }
                            }
                        }
                        assert(b0.record(v) == old(bp).record(v));
                    }
                    return Ok(v);
                },
                None => {},
            }
            let ghost b1 = *bp;
            proof {
                lemma_keeps_others_trans(*old(bp), b0, *bp, c);
                assert forall|u: ValueId| u.container_id == self.c_id implies #[trigger] bp.record(u) == old(bp).record(u) by {
                    assert(b0.record(u) == old(bp).record(u));
                    if u.page_id is Some && u.slot_id is Some && bp.has_page(c, u.page_id->Some_0 as int) {
                        let q = u.page_id->Some_0 as int;
                        if q != cur {
                            assert(bp.page(c, q) == b0.page(c, q));
                        }
                    }
                }
                assert(self.page_ok(bp, cur as int, bp.page(c, cur as int)));
            }
            let next = bp.page_of(self.c_id, cur).overflow_pointer;
            match next {
                Some(q) => {
                    cur = q;
                },
                None => {
                    match self.extend(bp, cur, b as usize) {
                        Ok(q) => {
                            proof {
                                lemma_keeps_others_trans(*old(bp), b1, *bp, c);
                            }
                            cur = q;
                        },
                        Err(e) => {
                            proof {
                                lemma_keeps_others_trans(*old(bp), b1, *bp, c);
                                assert forall|u: ValueId| u.container_id == self.c_id implies #[trigger] bp.record(u) == old(bp).record(u) by {
                                    assert(bp.record(u) == b1.record(u));
                                }
                            }
                            return Err(e);
                        },
                    }
                },
            }
        }
    }
    /// Every pointer stored under `search_key`, page by page and in slot order
    /// within a page. Only the pages of the key's bucket are read.
    fn get_pointers_for_key(&self, bp: &BufferPool, search_key: &[u8; SEARCH_KEY_SIZE], _txn: &TransactionId) -> (r: Result<Vec<ValueId>, CrustyError>)
        ensures
            r matches Ok(v) && v@ == self.pointers_for(bp, search_key@),
    {
        let c = self.c_id;
        let b = bucket(search_key, self.bucket_count);
        let count = bp.page_frames[c as usize].len();
        proof {
            assert(bp.container_ok(c as int));
        }
        let mut res: Vec<ValueId> = Vec::new();
        let mut p: usize = 0;
        while p < count
            invariant
                self.index_wf(bp),
                c == self.c_id,
                count == bp.page_count(c as int),
                count <= FRAMES,
                b == bucket_of(search_key@, self.bucket_count as int),
                p <= count,
                res@ == self.pointers_upto(bp, search_key@, p as int),
            decreases count - p,
        {
            let page = bp.page_of(c, p as PageId);
            proof {
                assert(self.page_ok(bp, p as int, bp.page(c as int, p as int)));
                assert(bp.container_ok(c as int));
                assert(bp.page_ok(c as int, p as int, bp.frame_of(c as int, p as int)));
            }
            let ghost before = res@;
            if page.extra == b as usize {
                collect_page_pointers(page, search_key.as_slice(), &mut res);
            } else {
                proof {
                    lemma_other_bucket_empty(page@, search_key@, self.bucket_count as int, page.extra as int);
                    assert(res@ + page_pointers(page@, search_key@) =~= res@);
                }
            }
            assert(res@ == before + page_pointers(bp.page(c as int, p as int)@, search_key@));
            p += 1;
            assert(self.pointers_upto(bp, search_key@, p as int) == self.pointers_upto(bp, search_key@, p - 1)
                + page_pointers(bp.page(c as int, p - 1)@, search_key@));
        }
        Ok(res)
    }
    /// The pointers of entries whose key is at least `search_key_min_inclusive`
    /// and below `search_key_max_exclusive`, page by page. An index made
    /// without range support refuses.
    fn get_pointers_for_key_range(
        &self,
        bp: &BufferPool,
        search_key_min_inclusive: &[u8; SEARCH_KEY_SIZE],
        search_key_max_exclusive: &[u8; SEARCH_KEY_SIZE],
        _txn: &TransactionId,
    ) -> (r: Result<Vec<ValueId>, CrustyError>)
        ensures
            !self.supports_range ==> r == Err::<Vec<ValueId>, CrustyError>(CrustyError::InvalidOperation),
            self.supports_range ==> (r matches Ok(v) && v@ == self.range_upto(
                bp,
                be_value(search_key_min_inclusive@),
                be_value(search_key_max_exclusive@),
                bp.page_count(self.c_id as int),
            )),
    {
        if !self.supports_range {
            return Err(CrustyError::InvalidOperation);
        }
        let lo = key_value(search_key_min_inclusive.as_slice());
        let hi = key_value(search_key_max_exclusive.as_slice());
        let c = self.c_id;
        let count = bp.page_frames[c as usize].len();
        proof {
            assert(bp.container_ok(c as int));
        }
        let mut res: Vec<ValueId> = Vec::new();
        let mut p: usize = 0;
        while p < count
            invariant
                self.index_wf(bp),
                c == self.c_id,
                count == bp.page_count(c as int),
                count <= FRAMES,
                p <= count,
                res@ == self.range_upto(bp, lo as nat, hi as nat, p as int),
            decreases count - p,
        {
            let page = bp.page_of(c, p as PageId);
            proof {
                assert(bp.container_ok(c as int));
                assert(bp.page_ok(c as int, p as int, bp.frame_of(c as int, p as int)));
            }
            collect_range_pointers(page, lo, hi, &mut res);
            p += 1;
            assert(self.range_upto(bp, lo as nat, hi as nat, p as int) == self.range_upto(bp, lo as nat, hi as nat, p - 1)
                + page_range_pointers(bp.page(c as int, p - 1)@, lo as nat, hi as nat));
        }
        Ok(res)
    }
    /// The number of pages the index has allocated.
    fn get_pages_used(&self, bp: &BufferPool) -> (r: usize)
        ensures
            r == bp.page_count(self.c_id as int),
    {
        bp.page_frames[self.c_id as usize].len()
    }
    /// Removes the entry with this search key and pointer, and returns where
    /// it was. Fails when the index holds no such entry.
    fn delete_entry(&self, bp: &mut BufferPool, search_key: &[u8; SEARCH_KEY_SIZE], pointer: &[u8; INDEX_POINTER_SIZE], _txn: &TransactionId) -> (r: Result<ValueId, CrustyError>)
        ensures
            self.index_wf(final(bp)),
            final(bp).keeps_others(old(bp), self.c_id as int),
            r matches Ok(v) ==> v.container_id == self.c_id && old(bp).record(v) == Some((search_key@, pointer@))
                && final(bp).record(v) is None && forall|u: ValueId|
                u.container_id == self.c_id && u != v ==> #[trigger] final(bp).record(u) == old(bp).record(u),
            r is Err ==> r == Err::<ValueId, CrustyError>(CrustyError::KeyNotFound) && self.same_records(final(bp), old(bp))
                && forall|u: ValueId| u.container_id == self.c_id ==> #[trigger] old(bp).record(u) != Some((search_key@, pointer@)),
    {
        let ghost c = self.c_id as int;
        let b = bucket(search_key, self.bucket_count);
        let count = bp.page_frames[self.c_id as usize].len();
        proof {
            assert(bp.container_ok(c));
        }
        let mut p: usize = 0;
        while p < count
            invariant
                self.index_wf(bp),
                *bp == *old(bp),
                c == self.c_id,
                count == bp.page_count(c),
                count <= FRAMES,
                b == bucket_of(search_key@, self.bucket_count as int),
                p <= count,
                forall|q: int, s: int| 0 <= q < p && 0 <= s < bp.page(c, q)@.len() ==> (#[trigger] bp.page(c, q)@[s]) != Some((search_key@, pointer@)),
            decreases count - p,
        {
            let page = bp.page_of(self.c_id, p as PageId);
            proof {
                assert(self.page_ok(bp, p as int, bp.page(c, p as int)));
                assert(bp.container_ok(c));
                assert(bp.page_ok(c, p as int, bp.frame_of(c, p as int)));
            }
            match find_entry(page, search_key.as_slice(), pointer.as_slice()) {
                Some(s) => {
                    let v = ValueId::new_slot(self.c_id, p as PageId, s);
                    self.clear_slot(bp, p as PageId, s);
                    proof {
                        assert forall|u: ValueId| u.container_id == self.c_id && u != v implies #[trigger] bp.record(u) == old(bp).record(u) by {
                            if u.page_id is Some && u.slot_id is Some && bp.has_page(c, u.page_id->Some_0 as int) {
                                let q = u.page_id->Some_0 as int;
                                if q != p {
                                    assert(bp.page(c, q) == old(bp).page(c, q));
                                }
                            }
                        }
                    }
                    return Ok(v);
                },
                None => {},
            }
            p += 1;
        }
        proof {
            assert forall|u: ValueId| u.container_id == self.c_id implies #[trigger] old(bp).record(u) != Some((search_key@, pointer@)) by {
                if u.page_id is Some && u.slot_id is Some && bp.has_page(c, u.page_id->Some_0 as int) {
                    let q = u.page_id->Some_0 as int;
                    let s = u.slot_id->Some_0 as int;
                    if s < bp.page(c, q).slot_capacity {
                        assert(bp.page(c, q)@[s] != Some((search_key@, pointer@)));
                    }
                }
            }
        }
        Err(CrustyError::KeyNotFound)
    }
    /// Moves the entry `(old_search_key, pointer)` to `new_search_key`: it is
    /// removed and added again, and the new place is returned. Fails when the
    /// entry does not exist or no frame is left for the new one.
    fn update_key(
        &self,
        bp: &mut BufferPool,
        old_search_key: &[u8; SEARCH_KEY_SIZE],
        new_search_key: &[u8; SEARCH_KEY_SIZE],
        pointer: &[u8; INDEX_POINTER_SIZE],
        txn: &TransactionId,
    ) -> (r: Result<ValueId, CrustyError>)
        ensures
            self.index_wf(final(bp)),
            final(bp).keeps_others(old(bp), self.c_id as int),
            r matches Ok(v) ==> v.container_id == self.c_id && final(bp).record(v) == Some((new_search_key@, pointer@)),
            r matches Err(e) ==> e == CrustyError::KeyNotFound || e == CrustyError::OutOfFrames,
            r == Err::<ValueId, CrustyError>(CrustyError::KeyNotFound) <==> forall|u: ValueId|
                u.container_id == self.c_id ==> #[trigger] old(bp).record(u) != Some((old_search_key@, pointer@)),
            r == Err::<ValueId, CrustyError>(CrustyError::KeyNotFound) ==> self.same_records(final(bp), old(bp)),
            r == Err::<ValueId, CrustyError>(CrustyError::OutOfFrames) ==> final(bp).free_frame >= FRAMES,
    {
        let ghost b0 = *bp;
        match self.delete_entry(bp, old_search_key, pointer, txn) {
            Ok(gone) => {
                proof {
                    assert(b0.record(gone) == Some((old_search_key@, pointer@)));
                }
            },
            Err(e) => {
                return Err(e);
            },
        }
        let ghost b1 = *bp;
        let r = self.add(bp, new_search_key, pointer, txn);
        proof {
            lemma_keeps_others_trans(b0, b1, *bp, self.c_id as int);
        }
        r
    }
    /// Adds the entries `(search_keys[i], pointers[i])` in turn, as `add`
    /// does; stops at the first failure. Lists of different lengths are refused.
    fn bulk_add(&self, bp: &mut BufferPool, search_keys: &Vec<[u8; SEARCH_KEY_SIZE]>, pointers: &Vec<[u8; INDEX_POINTER_SIZE]>, txn: &TransactionId) -> (r: Result<Vec<ValueId>, CrustyError>)
        ensures
            self.index_wf(final(bp)),
            final(bp).keeps_others(old(bp), self.c_id as int),
            r == Err::<Vec<ValueId>, CrustyError>(CrustyError::InvalidOperation) <==> search_keys@.len() != pointers@.len(),
            r matches Err(e) ==> e == CrustyError::InvalidOperation || e == CrustyError::OutOfFrames,
            r == Err::<Vec<ValueId>, CrustyError>(CrustyError::OutOfFrames) ==> final(bp).free_frame >= FRAMES,
            r matches Ok(vs) ==> vs@.len() == search_keys@.len() && forall|i: int| 0 <= i < vs@.len() ==> {
                &&& (#[trigger] vs@[i]).container_id == self.c_id
                &&& final(bp).record(vs@[i]) == Some((search_keys@[i]@, pointers@[i]@))
            },
    {
        if search_keys.len() != pointers.len() {
            return Err(CrustyError::InvalidOperation);
        }
        let ghost c = self.c_id as int;
        let mut vs: Vec<ValueId> = Vec::new();
        let mut i: usize = 0;
        while i < search_keys.len()
            invariant
                self.index_wf(bp),
                c == self.c_id,
                bp.keeps_others(old(bp), c),
                search_keys@.len() == pointers@.len(),
                i <= search_keys@.len(),
                vs@.len() == i,
                forall|j: int| 0 <= j < i ==> {
                    &&& (#[trigger] vs@[j]).container_id == self.c_id
                    &&& bp.record(vs@[j]) == Some((search_keys@[j]@, pointers@[j]@))
                },
            decreases search_keys@.len() - i,
        {
            let ghost b0 = *bp;
            match self.add(bp, &search_keys[i], &pointers[i], txn) {
                Ok(v) => {
                    proof {
                        lemma_keeps_others_trans(*old(bp), b0, *bp, c);
                        assert forall|j: int| 0 <= j < i implies (#[trigger] vs@[j]) != v by {
                            assert(b0.record(vs@[j]) is Some);
                        }
                    }
                    let ghost prev = vs@;
                    vs.push(v);
                    proof {
                        assert forall|j: int| 0 <= j < i + 1 implies {
                            &&& (#[trigger] vs@[j]).container_id == self.c_id
                            &&& bp.record(vs@[j]) == Some((search_keys@[j]@, pointers@[j]@))
                        } by {
                            if j < i {
                                assert(vs@[j] == prev[j]);
                            }
                        }
                    }
                },
                Err(e) => {
                    proof {
                        lemma_keeps_others_trans(*old(bp), b0, *bp, c);
                    }
                    return Err(e);
                },
            }
            i += 1;
        }
        Ok(vs)
    }
}

} // verus!
