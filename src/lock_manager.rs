use vstd::prelude::*;
use crate::error::CrustyError;
use crate::ids::{Permissions, TransactionId, ValueId};

verus! {

broadcast use vstd::seq_lib::group_filter_ensures;

/// A lock a transaction holds on a resource, or one it waits for.
#[derive(Debug, Clone, Copy, PartialEq, Eq, Structural)]
pub struct LockEntry {
    pub tid: TransactionId,
    /// The page the lock is on; the slot is always left out.
    pub resource: ValueId,
    pub mode: Permissions,
}

/// What a lock request comes to.
#[derive(Debug, Clone, Copy, PartialEq, Eq, Structural)]
pub enum LockDecision {
    /// The transaction now holds the lock.
    Granted,
    /// The lock is taken; the transaction is queued and must wait.
    Wait,
    /// Waiting would close a cycle of waiting transactions; nothing was queued.
    Deadlock,
}

/// A two-phase lock manager over pages. It keeps the locks held and a FIFO
/// queue of waiting requests, and decides each request at once; a caller that
/// is told to wait retries after a release or gives up with `cancel_wait`.
pub struct LockManager {
    /// How long a request may wait, in milliseconds.
    pub timeout_ms: u64,
    /// The locks held.
    pub held: Vec<LockEntry>,
    /// The waiting requests, oldest first; at most one per transaction.
    pub waiting: Vec<LockEntry>,
}

/// The entry for `t` holding `r` in mode `m`.
pub open spec fn entry(t: TransactionId, r: ValueId, m: Permissions) -> LockEntry {
    LockEntry { tid: t, resource: r, mode: m }
}

/// The resource a value id is locked through: its page.
pub open spec fn resource_of(v: ValueId) -> ValueId {
    ValueId { slot_id: None, ..v }
}

/// The strongest mode `t` holds on `r`, if any.
pub open spec fn held_mode(s: Seq<LockEntry>, t: TransactionId, r: ValueId) -> Option<Permissions> {
    if s.contains(entry(t, r, Permissions::ReadWrite)) {
        Some(Permissions::ReadWrite)
    } else if s.contains(entry(t, r, Permissions::ReadOnly)) {
        Some(Permissions::ReadOnly)
    } else {
        None
    }
}

/// Another transaction holds a lock on `r` that a request of `t` in mode `m`
/// cannot share.
pub open spec fn others_conflict(s: Seq<LockEntry>, t: TransactionId, r: ValueId, m: Permissions) -> bool {
    exists|e: LockEntry|
        #![trigger s.contains(e)]
        s.contains(e) && e.resource == r && e.tid != t && (m == Permissions::ReadWrite || e.mode
            == Permissions::ReadWrite)
}

/// Another transaction waits for `r` ahead of `t` in the queue.
pub open spec fn queued_ahead(w: Seq<LockEntry>, t: TransactionId, r: ValueId) -> bool {
    exists|i: int|
        0 <= i < w.len() && #[trigger] w[i].resource == r && w[i].tid != t && forall|j: int|
            0 <= j <= i ==> (#[trigger] w[j]).tid != t
}

/// Keeps the entries that are not `t`'s lock on `r`.
pub open spec fn not_key(t: TransactionId, r: ValueId) -> spec_fn(LockEntry) -> bool {
    |e: LockEntry| !(e.tid == t && e.resource == r)
}

/// Keeps the entries of transactions other than `t`.
pub open spec fn not_tid(t: TransactionId) -> spec_fn(LockEntry) -> bool {
    |e: LockEntry| e.tid != t
}

/// Keeps the entries of `t`.
pub open spec fn of_tid(t: TransactionId) -> spec_fn(LockEntry) -> bool {
    |e: LockEntry| e.tid == t
}

/// The resources `t` holds, in the order the locks were taken.
pub open spec fn resources_of(s: Seq<LockEntry>, t: TransactionId) -> Seq<ValueId> {
    s.filter(of_tid(t)).map_values(|e: LockEntry| e.resource)
}

/// `a` waits for a resource that `b` holds.
pub open spec fn waits_for(held: Seq<LockEntry>, waiting: Seq<LockEntry>, a: TransactionId, b: TransactionId) -> bool {
    exists|w: LockEntry, h: LockEntry|
        #![trigger waiting.contains(w), held.contains(h)]
        waiting.contains(w) && held.contains(h) && w.tid == a && h.tid == b && h.resource == w.resource && a != b
}

/// `a` reaches `b` in at most `n` steps of waiting.
pub open spec fn reaches_in(
    held: Seq<LockEntry>,
    waiting: Seq<LockEntry>,
    a: TransactionId,
    b: TransactionId,
    n: nat,
) -> bool
    decreases n,
{
    a == b || (n > 0 && exists|c: TransactionId|
        #![trigger waits_for(held, waiting, a, c)]
        waits_for(held, waiting, a, c) && reaches_in(held, waiting, c, b, (n - 1) as nat))
}

/// If `t` waited for `r`, a cycle of waiting transactions would close: a
/// holder of `r` other than `t` already waits, through others, for `t`.
pub open spec fn would_deadlock(held: Seq<LockEntry>, waiting: Seq<LockEntry>, t: TransactionId, r: ValueId) -> bool {
    exists|h: LockEntry, n: nat|
        #![trigger held.contains(h), reaches_in(held, waiting, h.tid, t, n)]
        held.contains(h) && h.resource == r && h.tid != t && reaches_in(held, waiting, h.tid, t, n)
}

impl LockManager {
    /// The lock table is consistent: no transaction holds two modes on one
    /// resource, an exclusive lock is held alone, and each transaction waits
    /// for at most one thing.
    pub open spec fn wf(&self) -> bool {
        &&& forall|a: LockEntry, b: LockEntry|
            #![trigger self.held@.contains(a), self.held@.contains(b)]
            self.held@.contains(a) && self.held@.contains(b) && a.tid == b.tid && a.resource == b.resource
                ==> a == b
        &&& forall|a: LockEntry, b: LockEntry|
            #![trigger self.held@.contains(a), self.held@.contains(b)]
            self.held@.contains(a) && self.held@.contains(b) && a.resource == b.resource && a.tid != b.tid
                ==> a.mode == Permissions::ReadOnly && b.mode == Permissions::ReadOnly
        &&& forall|a: LockEntry, b: LockEntry|
            #![trigger self.waiting@.contains(a), self.waiting@.contains(b)]
            self.waiting@.contains(a) && self.waiting@.contains(b) && a.tid == b.tid ==> a == b
    }
}

/// The entries of `v` other than `t`'s lock on `r`, in order.
fn entries_where_not_key(v: &Vec<LockEntry>, t: TransactionId, r: ValueId) -> (res: Vec<LockEntry>)
    ensures
        res@ == v@.filter(not_key(t, r)),
{
    let mut res: Vec<LockEntry> = Vec::new();
    let mut i: usize = 0;
    while i < v.len()
        invariant
            i <= v@.len(),
            res@ == v@.take(i as int).filter(not_key(t, r)),
        decreases v@.len() - i,
    {
        let e = v[i];
        proof {
            assert(v@.take(i + 1) =~= v@.take(i as int).push(e));
            v@.take(i as int).lemma_filter_push(e, not_key(t, r));
        }
        if !(e.tid == t && e.resource == r) {
            res.push(e);
        }
        i += 1;
    }
    assert(v@.take(i as int) =~= v@);
    res
}

/// The entries of `v` of transactions other than `t`, in order.
fn entries_where_not_tid(v: &Vec<LockEntry>, t: TransactionId) -> (res: Vec<LockEntry>)
    ensures
        res@ == v@.filter(not_tid(t)),
{
    let mut res: Vec<LockEntry> = Vec::new();
    let mut i: usize = 0;
    while i < v.len()
        invariant
            i <= v@.len(),
            res@ == v@.take(i as int).filter(not_tid(t)),
        decreases v@.len() - i,
    {
        let e = v[i];
        proof {
            assert(v@.take(i + 1) =~= v@.take(i as int).push(e));
            v@.take(i as int).lemma_filter_push(e, not_tid(t));
        }
        if e.tid != t {
            res.push(e);
        }
        i += 1;
    }
    assert(v@.take(i as int) =~= v@);
    res
}

impl Default for LockManager {
    /// A lock manager with no locks, whose requests wait at most two seconds.
    fn default() -> (r: LockManager)
        ensures
            r.wf(),
            r.timeout_ms == 2000,
            r.held@ == Seq::<LockEntry>::empty(),
            r.waiting@ == Seq::<LockEntry>::empty(),
    {
        LockManager::new(2000)
    }
}

/// An entry survives a filter exactly when it was there and is accepted.
proof fn lemma_filter_has(s: Seq<LockEntry>, p: spec_fn(LockEntry) -> bool, e: LockEntry)
    ensures
        s.filter(p).contains(e) <==> s.contains(e) && p(e),
{
    if s.filter(p).contains(e) {
        s.lemma_filter_contains_rev(p, e);
        let i = choose|i: int| 0 <= i < s.filter(p).len() && s.filter(p)[i] == e;
        assert(p(s.filter(p)[i]));
    }
    if s.contains(e) && p(e) {
        let i = choose|i: int| 0 <= i < s.len() && s[i] == e;
        s.lemma_filter_contains(p, i);
    }
}

impl LockManager {
    /// A lock manager with no locks, whose requests wait at most `timeout_ms`.
    pub fn new(timeout_ms: u64) -> (r: LockManager)
        ensures
            r.wf(),
            r.timeout_ms == timeout_ms,
            r.held@ == Seq::<LockEntry>::empty(),
            r.waiting@ == Seq::<LockEntry>::empty(),
    {
        LockManager { timeout_ms, held: Vec::new(), waiting: Vec::new() }
    }

    /// Drops every lock and every waiting request.
    pub fn clear(&mut self)
        ensures
            final(self).wf(),
            final(self).timeout_ms == old(self).timeout_ms,
            final(self).held@ == Seq::<LockEntry>::empty(),
            final(self).waiting@ == Seq::<LockEntry>::empty(),
    {
        self.held = Vec::new();
        self.waiting = Vec::new();
    }

    /// The resources `t` holds a lock on, in the order the locks were taken.
    pub fn locks_held(&self, tid: TransactionId) -> (r: Vec<ValueId>)
        ensures
            r@ == resources_of(self.held@, tid),
    {
        let mut r: Vec<ValueId> = Vec::new();
        let mut i: usize = 0;
        while i < self.held.len()
            invariant
                i <= self.held@.len(),
                r@ == resources_of(self.held@.take(i as int), tid),
            decreases self.held@.len() - i,
        {
            let e = self.held[i];
            proof {
                assert(self.held@.take(i + 1) =~= self.held@.take(i as int).push(e));
                self.held@.take(i as int).lemma_filter_push(e, of_tid(tid));
            }
            if e.tid == tid {
                r.push(e.resource);
            }
            i += 1;
            proof {
                assert(r@ =~= resources_of(self.held@.take(i as int), tid));
            }
        }
        assert(self.held@.take(i as int) =~= self.held@);
        r
    }

    /// Whether `t` holds any lock.
    fn holds_any(&self, tid: TransactionId) -> (r: bool)
        ensures
            r == exists|e: LockEntry| #![trigger self.held@.contains(e)] self.held@.contains(e) && e.tid == tid,
    {
        let mut i: usize = 0;
        while i < self.held.len()
            invariant
                i <= self.held@.len(),
                forall|j: int| 0 <= j < i ==> (#[trigger] self.held@[j]).tid != tid,
            decreases self.held@.len() - i,
        {
            if self.held[i].tid == tid {
                assert(self.held@.contains(self.held@[i as int]));
                return true;
            }
            i += 1;
        }
        assert forall|e: LockEntry| #[trigger] self.held@.contains(e) implies e.tid != tid by {
            let j = choose|j: int| 0 <= j < self.held@.len() && self.held@[j] == e;
            assert(self.held@[j].tid != tid);
        }
        false
    }
}

/// Dropping entries keeps the lock table consistent.
proof fn lemma_subset_keeps_wf(a: LockManager, b: LockManager)
    requires
        a.wf(),
        forall|e: LockEntry| #[trigger] b.held@.contains(e) ==> a.held@.contains(e),
        forall|e: LockEntry| #[trigger] b.waiting@.contains(e) ==> a.waiting@.contains(e),
    ensures
        b.wf(),
{
}

/// Replacing `t`'s lock on `r` by one in mode `m` keeps the lock table
/// consistent when no other holder of `r` conflicts with `m`.
proof fn lemma_replace_keeps_wf(a: LockManager, b: LockManager, t: TransactionId, r: ValueId, m: Permissions)
    requires
        a.wf(),
        b.held@ == a.held@.filter(not_key(t, r)).push(entry(t, r, m)),
        forall|e: LockEntry| #[trigger] b.waiting@.contains(e) ==> a.waiting@.contains(e),
        !others_conflict(a.held@, t, r, m),
    ensures
        b.wf(),
        forall|e: LockEntry|
            #[trigger] b.held@.contains(e) <==> (a.held@.contains(e) && !(e.tid == t && e.resource == r)) || e
                == entry(t, r, m),
{
    let f = a.held@.filter(not_key(t, r));
    assert forall|e: LockEntry|
        #[trigger] b.held@.contains(e) <==> (a.held@.contains(e) && !(e.tid == t && e.resource == r)) || e
            == entry(t, r, m) by {
        lemma_filter_has(a.held@, not_key(t, r), e);
        if b.held@.contains(e) && e != entry(t, r, m) {
            let i = choose|i: int| 0 <= i < b.held@.len() && b.held@[i] == e;
            assert(i < f.len());
            assert(f.contains(e));
        }
        if f.contains(e) {
            let i = choose|i: int| 0 <= i < f.len() && f[i] == e;
            assert(b.held@[i] == e);
        }
        if e == entry(t, r, m) {
            assert(b.held@[f.len() as int] == e);
        }
    }
    assert forall|x: LockEntry, y: LockEntry|
        b.held@.contains(x) && b.held@.contains(y) && x.resource == y.resource && x.tid != y.tid implies x.mode
        == Permissions::ReadOnly && y.mode == Permissions::ReadOnly by {
        if x == entry(t, r, m) {
            assert(a.held@.contains(y));
        } else if y == entry(t, r, m) {
            assert(a.held@.contains(x));
        } else {
            assert(a.held@.contains(x) && a.held@.contains(y));
        }
    }
    assert forall|x: LockEntry, y: LockEntry|
        b.held@.contains(x) && b.held@.contains(y) && x.tid == y.tid && x.resource == y.resource implies x == y by {
        if x != entry(t, r, m) && y != entry(t, r, m) {
            assert(a.held@.contains(x) && a.held@.contains(y));
        }
    }
}

impl LockManager {
    /// The mode `t` holds on `r`.
    fn mode_of(&self, tid: TransactionId, r: ValueId) -> (m: Option<Permissions>)
        requires
            self.wf(),
        ensures
            m == held_mode(self.held@, tid, r),
    {
        let mut i: usize = 0;
        while i < self.held.len()
            invariant
                self.wf(),
                i <= self.held@.len(),
                forall|j: int| 0 <= j < i ==> !((#[trigger] self.held@[j]).tid == tid && self.held@[j].resource == r),
            decreases self.held@.len() - i,
        {
            let e = self.held[i];
            if e.tid == tid && e.resource == r {
                proof {
                    assert(self.held@.contains(e));
                    if e.mode == Permissions::ReadOnly {
                        if self.held@.contains(entry(tid, r, Permissions::ReadWrite)) {
                            assert(e == entry(tid, r, Permissions::ReadWrite));
                        }
                    }
                }
                return Some(e.mode);
            }
            i += 1;
        }
        proof {
            assert forall|m: Permissions| !self.held@.contains(entry(tid, r, m)) by {
                if self.held@.contains(entry(tid, r, m)) {
                    let j = choose|j: int| 0 <= j < self.held@.len() && self.held@[j] == entry(tid, r, m);
                    assert(!(self.held@[j].tid == tid && self.held@[j].resource == r));
                }
            }
        }
        None
    }

    /// Whether another transaction holds `r` in a mode that `m` cannot share.
    fn conflicts(&self, tid: TransactionId, r: ValueId, m: Permissions) -> (c: bool)
        ensures
            c == others_conflict(self.held@, tid, r, m),
    {
        let mut i: usize = 0;
        while i < self.held.len()
            invariant
                i <= self.held@.len(),
                forall|j: int|
                    0 <= j < i ==> !((#[trigger] self.held@[j]).resource == r && self.held@[j].tid != tid && (m
                        == Permissions::ReadWrite || self.held@[j].mode == Permissions::ReadWrite)),
            decreases self.held@.len() - i,
        {
            let e = self.held[i];
            if e.resource == r && e.tid != tid && (m == Permissions::ReadWrite || e.mode == Permissions::ReadWrite) {
                assert(self.held@.contains(e));
                return true;
            }
            i += 1;
        }
        proof {
            assert forall|e: LockEntry| #[trigger] self.held@.contains(e) implies !(e.resource == r && e.tid != tid
                && (m == Permissions::ReadWrite || e.mode == Permissions::ReadWrite)) by {
                let j = choose|j: int| 0 <= j < self.held@.len() && self.held@[j] == e;
                assert(self.held@[j] == e);
            }
        }
        false
    }

    /// Releases `t`'s lock on the page of `vid`; fails if `t` holds none there.
    pub fn release_lock(&mut self, tid: TransactionId, vid: ValueId) -> (res: Result<(), CrustyError>)
        requires
            old(self).wf(),
        ensures
            final(self).wf(),
            final(self).timeout_ms == old(self).timeout_ms,
            final(self).waiting == old(self).waiting,
            held_mode(old(self).held@, tid, resource_of(vid)) is None ==> res == Err::<(), CrustyError>(
                CrustyError::LockNotHeld,
            ) && final(self).held == old(self).held,
            held_mode(old(self).held@, tid, resource_of(vid)) is Some ==> res is Ok && final(self).held@ == old(self).held@.filter(not_key(tid, resource_of(vid))),
    {
        let r = vid.page_only();
        if self.mode_of(tid, r).is_none() {
            return Err(CrustyError::LockNotHeld);
        }
        let ghost pre = *self;
        self.held = entries_where_not_key(&self.held, tid, r);
        proof {
            assert forall|e: LockEntry| #[trigger] self.held@.contains(e) implies pre.held@.contains(e) by {
                lemma_filter_has(pre.held@, not_key(tid, r), e);
            }
            lemma_subset_keeps_wf(pre, *self);
        }
        Ok(())
    }

    /// Releases every lock of `t` and drops its waiting request; fails if `t`
    /// holds no lock.
    pub fn release_all_locks(&mut self, tid: TransactionId) -> (res: Result<(), CrustyError>)
        requires
            old(self).wf(),
        ensures
            final(self).wf(),
            final(self).timeout_ms == old(self).timeout_ms,
            !(exists|e: LockEntry| #![trigger old(self).held@.contains(e)] old(self).held@.contains(e) && e.tid == tid)
                ==> res == Err::<(), CrustyError>(CrustyError::LockNotHeld) && *final(self) == *old(self),
            (exists|e: LockEntry| #![trigger old(self).held@.contains(e)] old(self).held@.contains(e) && e.tid == tid)
                ==> res is Ok && final(self).held@ == old(self).held@.filter(not_tid(tid)) && final(self).waiting@
                == old(self).waiting@.filter(not_tid(tid)),
    {
        if !self.holds_any(tid) {
            return Err(CrustyError::LockNotHeld);
        }
        let ghost pre = *self;
        self.held = entries_where_not_tid(&self.held, tid);
        self.waiting = entries_where_not_tid(&self.waiting, tid);
        proof {
            assert forall|e: LockEntry| #[trigger] self.held@.contains(e) implies pre.held@.contains(e) by {
                lemma_filter_has(pre.held@, not_tid(tid), e);
            }
            assert forall|e: LockEntry| #[trigger] self.waiting@.contains(e) implies pre.waiting@.contains(e) by {
                lemma_filter_has(pre.waiting@, not_tid(tid), e);
            }
            lemma_subset_keeps_wf(pre, *self);
        }
        Ok(())
    }

    /// Turns `t`'s shared lock on the page of `vid` into an exclusive one, when
    /// `t` is its only holder. Never waits.
    pub fn upgrade_lock(&mut self, tid: TransactionId, vid: ValueId) -> (res: Result<(), CrustyError>)
        requires
            old(self).wf(),
        ensures
            final(self).wf(),
            final(self).timeout_ms == old(self).timeout_ms,
            final(self).waiting == old(self).waiting,
            ({
                let r = resource_of(vid);
                let s = old(self).held@;
                match held_mode(s, tid, r) {
                    None => res == Err::<(), CrustyError>(CrustyError::LockNotHeld) && final(self).held == old(self).held,
                    Some(Permissions::ReadWrite) => res is Ok && final(self).held == old(self).held,
                    Some(Permissions::ReadOnly) => if others_conflict(s, tid, r, Permissions::ReadWrite) {
                        res == Err::<(), CrustyError>(CrustyError::LockConflict) && final(self).held == old(self).held
                    } else {
                        res is Ok && final(self).held@ == s.filter(not_key(tid, r)).push(
                            entry(tid, r, Permissions::ReadWrite),
                        )
                    },
                }
            }),
    {
        let r = vid.page_only();
        match self.mode_of(tid, r) {
            None => Err(CrustyError::LockNotHeld),
            Some(Permissions::ReadWrite) => Ok(()),
            Some(Permissions::ReadOnly) => {
                if self.conflicts(tid, r, Permissions::ReadWrite) {
                    return Err(CrustyError::LockConflict);
                }
                let ghost pre = *self;
                let mut held = entries_where_not_key(&self.held, tid, r);
                held.push(LockEntry { tid, resource: r, mode: Permissions::ReadWrite });
                self.held = held;
                proof {
                    lemma_replace_keeps_wf(pre, *self, tid, r, Permissions::ReadWrite);
                }
                Ok(())
            },
        }
    }

    /// Turns `t`'s exclusive lock on the page of `vid` into a shared one.
    /// Fails if `t` holds no lock there, or only a shared one.
    pub fn downgrade_lock(&mut self, tid: TransactionId, vid: ValueId) -> (res: Result<(), CrustyError>)
        requires
            old(self).wf(),
        ensures
            final(self).wf(),
            final(self).timeout_ms == old(self).timeout_ms,
            final(self).waiting == old(self).waiting,
            ({
                let r = resource_of(vid);
                let s = old(self).held@;
                match held_mode(s, tid, r) {
                    None => res == Err::<(), CrustyError>(CrustyError::LockNotHeld) && final(self).held == old(self).held,
                    Some(Permissions::ReadOnly) => res == Err::<(), CrustyError>(CrustyError::LockConflict) && final(self).held == old(self).held,
                    Some(Permissions::ReadWrite) => res is Ok && final(self).held@ == s.filter(not_key(tid, r)).push(
                        entry(tid, r, Permissions::ReadOnly),
                    ),
                }
            }),
    {
        let r = vid.page_only();
        match self.mode_of(tid, r) {
            None => Err(CrustyError::LockNotHeld),
            Some(Permissions::ReadOnly) => Err(CrustyError::LockConflict),
            Some(Permissions::ReadWrite) => {
                let ghost pre = *self;
                proof {
                    assert(pre.held@.contains(entry(tid, r, Permissions::ReadWrite)));
                    assert(!others_conflict(pre.held@, tid, r, Permissions::ReadOnly));
                }
                let mut held = entries_where_not_key(&self.held, tid, r);
                held.push(LockEntry { tid, resource: r, mode: Permissions::ReadOnly });
                self.held = held;
                proof {
                    lemma_replace_keeps_wf(pre, *self, tid, r, Permissions::ReadOnly);
                }
                Ok(())
            },
        }
    }
}

/// `x` is `t`, or the transaction of a marked waiting request.
pub open spec fn in_closure(waiting: Seq<LockEntry>, marks: Seq<bool>, t: TransactionId, x: TransactionId) -> bool {
    x == t || exists|i: int| 0 <= i < marks.len() && #[trigger] marks[i] && waiting[i].tid == x
}

/// No unmarked waiting request waits for a holder inside the closure.
pub open spec fn closed(
    held: Seq<LockEntry>,
    waiting: Seq<LockEntry>,
    marks: Seq<bool>,
    t: TransactionId,
) -> bool {
    forall|i: int, j: int|
        0 <= i < waiting.len() && 0 <= j < held.len() && !(#[trigger] marks[i]) && (#[trigger] held[j]).resource
            == waiting[i].resource && held[j].tid != waiting[i].tid ==> !in_closure(waiting, marks, t, held[j].tid)
}

/// Every marked waiting request's transaction reaches `t`.
pub open spec fn marks_sound(held: Seq<LockEntry>, waiting: Seq<LockEntry>, marks: Seq<bool>, t: TransactionId) -> bool {
    forall|i: int|
        0 <= i < marks.len() && #[trigger] marks[i] ==> exists|k: nat| reaches_in(held, waiting, waiting[i].tid, t, k)
}

/// How many marks are still unset.
pub open spec fn count_unmarked(m: Seq<bool>) -> nat
    decreases m.len(),
{
    if m.len() == 0 {
        0
    } else {
        count_unmarked(m.drop_last()) + if m.last() { 0nat } else { 1nat }
    }
}

/// Setting an unset mark lowers the count of unset marks.
proof fn lemma_mark_decreases(m: Seq<bool>, i: int)
    requires
        0 <= i < m.len(),
        !m[i],
    ensures
        count_unmarked(m.update(i, true)) < count_unmarked(m),
    decreases m.len(),
{
    let u = m.update(i, true);
    if i == m.len() - 1 {
        assert(u.drop_last() =~= m.drop_last());
    } else {
        assert(u.drop_last() =~= m.drop_last().update(i, true));
        lemma_mark_decreases(m.drop_last(), i);
    }
}

/// In a closed marking, every transaction that reaches `t` is in the closure.
proof fn lemma_closed_complete(
    held: Seq<LockEntry>,
    waiting: Seq<LockEntry>,
    marks: Seq<bool>,
    t: TransactionId,
    a: TransactionId,
    k: nat,
)
    requires
        marks.len() == waiting.len(),
        closed(held, waiting, marks, t),
        reaches_in(held, waiting, a, t, k),
    ensures
        in_closure(waiting, marks, t, a),
    decreases k,
{
    if a != t {
        let c = choose|c: TransactionId| waits_for(held, waiting, a, c) && reaches_in(held, waiting, c, t, (k - 1) as nat);
        lemma_closed_complete(held, waiting, marks, t, c, (k - 1) as nat);
        let (w, h) = choose|w: LockEntry, h: LockEntry|
            waiting.contains(w) && held.contains(h) && w.tid == a && h.tid == c && h.resource == w.resource && a != c;
        let i = choose|i: int| 0 <= i < waiting.len() && waiting[i] == w;
        let j = choose|j: int| 0 <= j < held.len() && held[j] == h;
        if !marks[i] {
            assert(held[j].resource == waiting[i].resource);
        }
        assert(marks[i]);
    }
}

impl LockManager {
    /// Whether `x` is in the closure given by `marks`.
    fn closure_has(&self, marks: &Vec<bool>, t: TransactionId, x: TransactionId) -> (b: bool)
        requires
            marks@.len() == self.waiting@.len(),
        ensures
            b == in_closure(self.waiting@, marks@, t, x),
    {
        if x == t {
            return true;
        }
        let mut i: usize = 0;
        while i < marks.len()
            invariant
                marks@.len() == self.waiting@.len(),
                i <= marks@.len(),
                forall|j: int| 0 <= j < i ==> !(#[trigger] marks@[j] && self.waiting@[j].tid == x),
            decreases marks@.len() - i,
        {
            if marks[i] && self.waiting[i].tid == x {
                return true;
            }
            i += 1;
        }
        false
    }

    /// Whether waiting request `i` waits for a holder inside the closure; if
    /// so, which held entry.
    fn blocker_in_closure(&self, marks: &Vec<bool>, t: TransactionId, i: usize) -> (res: Option<usize>)
        requires
            marks@.len() == self.waiting@.len(),
            i < self.waiting@.len(),
        ensures
            res matches Some(j) ==> j < self.held@.len() && self.held@[j as int].resource == self.waiting@[i as int].resource
                && self.held@[j as int].tid != self.waiting@[i as int].tid && in_closure(
                self.waiting@,
                marks@,
                t,
                self.held@[j as int].tid,
            ),
            res is None ==> forall|j: int|
                0 <= j < self.held@.len() && (#[trigger] self.held@[j]).resource == self.waiting@[i as int].resource
                    && self.held@[j].tid != self.waiting@[i as int].tid ==> !in_closure(
                    self.waiting@,
                    marks@,
                    t,
                    self.held@[j].tid,
                ),
    {
        let w = self.waiting[i];
        let mut j: usize = 0;
        while j < self.held.len()
            invariant
                marks@.len() == self.waiting@.len(),
                i < self.waiting@.len(),
                w == self.waiting@[i as int],
                j <= self.held@.len(),
                forall|k: int|
                    0 <= k < j && (#[trigger] self.held@[k]).resource == w.resource && self.held@[k].tid != w.tid
                        ==> !in_closure(self.waiting@, marks@, t, self.held@[k].tid),
            decreases self.held@.len() - j,
        {
            let h = self.held[j];
            if h.resource == w.resource && h.tid != w.tid && self.closure_has(marks, t, h.tid) {
                return Some(j);
            }
            j += 1;
        }
        None
    }

    /// Whether `t` waiting for `r` would close a cycle of waiting transactions.
    fn closes_cycle(&self, t: TransactionId, r: ValueId) -> (b: bool)
        ensures
            b == would_deadlock(self.held@, self.waiting@, t, r),
    {
        let n = self.waiting.len();
        let mut marks: Vec<bool> = vec![false; n];
        proof {
            assert forall|i: int| 0 <= i < n implies !(#[trigger] marks@[i]) by {
                assert(cloned(false, marks@[i]));
            }
        }
        loop
            invariant
                marks@.len() == n,
                n == self.waiting@.len(),
                marks_sound(self.held@, self.waiting@, marks@, t),
            ensures
                marks@.len() == n,
                marks_sound(self.held@, self.waiting@, marks@, t),
                closed(self.held@, self.waiting@, marks@, t),
            decreases count_unmarked(marks@),
        {
            let ghost start = marks@;
            let mut changed = false;
            let mut i: usize = 0;
            while i < n
                invariant
                    marks@.len() == n,
                    n == self.waiting@.len(),
                    start.len() == n,
                    i <= n,
                    marks_sound(self.held@, self.waiting@, marks@, t),
                    changed ==> count_unmarked(marks@) < count_unmarked(start),
                    !changed ==> marks@ == start,
                    !changed ==> forall|a: int, j: int|
                        0 <= a < i && 0 <= j < self.held@.len() && !(#[trigger] marks@[a]) && (
                        #[trigger] self.held@[j]).resource == self.waiting@[a].resource && self.held@[j].tid
                            != self.waiting@[a].tid ==> !in_closure(self.waiting@, marks@, t, self.held@[j].tid),
                decreases n - i,
            {
                if !marks[i] {
                    match self.blocker_in_closure(&marks, t, i) {
                        Some(j) => {
                            let ghost before = marks@;
                            proof {
                                let c = self.held@[j as int].tid;
                                let a = self.waiting@[i as int].tid;
                                let k: nat = if c == t {
                                    0
                                } else {
                                    let m = choose|m: int| 0 <= m < before.len() && #[trigger] before[m] && self.waiting@[m].tid == c;
                                    choose|k: nat| reaches_in(self.held@, self.waiting@, self.waiting@[m].tid, t, k)
                                };
                                assert(reaches_in(self.held@, self.waiting@, c, t, k));
                                assert(self.waiting@.contains(self.waiting@[i as int]));
                                assert(self.held@.contains(self.held@[j as int]));
                                assert(waits_for(self.held@, self.waiting@, a, c));
                                assert(reaches_in(self.held@, self.waiting@, a, t, k + 1));
                                lemma_mark_decreases(before, i as int);
                            }
                            marks.set(i, true);
                            proof {
                                assert forall|x: int| 0 <= x < marks@.len() && #[trigger] marks@[x] implies exists|k: nat|
                                    reaches_in(self.held@, self.waiting@, self.waiting@[x].tid, t, k) by {
                                    if x != i {
                                        assert(before[x]);
                                    }
                                }
                                if !changed {
                                    assert(marks@ == before.update(i as int, true));
                                }
                            }
                            changed = true;
                        },
                        None => {},
                    }
                }
                i += 1;
            }
            if !changed {
                break;
            }
        }
        let mut j: usize = 0;
        while j < self.held.len()
            invariant
                marks@.len() == n,
                n == self.waiting@.len(),
                marks_sound(self.held@, self.waiting@, marks@, t),
                closed(self.held@, self.waiting@, marks@, t),
                j <= self.held@.len(),
                forall|x: int|
                    0 <= x < j && (#[trigger] self.held@[x]).resource == r && self.held@[x].tid != t ==> !in_closure(
                        self.waiting@,
                        marks@,
                        t,
                        self.held@[x].tid,
                    ),
            decreases self.held@.len() - j,
        {
            let h = self.held[j];
            if h.resource == r && h.tid != t && self.closure_has(&marks, t, h.tid) {
                proof {
                    let k: nat = if h.tid == t {
                        0
                    } else {
                        let m = choose|m: int| 0 <= m < marks@.len() && #[trigger] marks@[m] && self.waiting@[m].tid == h.tid;
                        choose|k: nat| reaches_in(self.held@, self.waiting@, self.waiting@[m].tid, t, k)
                    };
                    assert(self.held@.contains(h));
                    assert(reaches_in(self.held@, self.waiting@, h.tid, t, k));
                }
                return true;
            }
            j += 1;
        }
        proof {
            if would_deadlock(self.held@, self.waiting@, t, r) {
                let (h, k) = choose|h: LockEntry, k: nat|
                    self.held@.contains(h) && h.resource == r && h.tid != t && reaches_in(self.held@, self.waiting@, h.tid, t, k);
                lemma_closed_complete(self.held@, self.waiting@, marks@, t, h.tid, k);
                let x = choose|x: int| 0 <= x < self.held@.len() && self.held@[x] == h;
                assert(self.held@[x].resource == r);
            }
        }
        false
    }
}

/// Puts `e` in place of each entry of its transaction.
pub open spec fn renew(e: LockEntry) -> spec_fn(LockEntry) -> LockEntry {
    |x: LockEntry| if x.tid == e.tid { e } else { x }
}

/// The queue after `e.tid` starts or renews waiting with request `e`: the
/// request takes the place of the transaction's earlier one, or joins the end.
pub open spec fn queue_with(w: Seq<LockEntry>, e: LockEntry) -> Seq<LockEntry> {
    if exists|i: int| 0 <= i < w.len() && (#[trigger] w[i]).tid == e.tid {
        w.map_values(renew(e))
    } else {
        w.push(e)
    }
}

/// `t` already holds a lock on `r` at least as strong as `m`.
pub open spec fn already_holds(s: Seq<LockEntry>, t: TransactionId, r: ValueId, m: Permissions) -> bool {
    held_mode(s, t, r) == Some(Permissions::ReadWrite) || (held_mode(s, t, r) == Some(Permissions::ReadOnly) && m
        == Permissions::ReadOnly)
}

/// A request of `t` for `r` in mode `m` can be granted now: no holder
/// conflicts and nobody waits for `r` ahead of `t`.
pub open spec fn grantable(held: Seq<LockEntry>, waiting: Seq<LockEntry>, t: TransactionId, r: ValueId, m: Permissions) -> bool {
    !others_conflict(held, t, r, m) && !queued_ahead(waiting, t, r)
}

impl LockManager {
    /// Whether another transaction waits for `r` ahead of `t`.
    fn queue_blocks(&self, t: TransactionId, r: ValueId) -> (b: bool)
        ensures
            b == queued_ahead(self.waiting@, t, r),
    {
        let mut i: usize = 0;
        while i < self.waiting.len()
            invariant
                i <= self.waiting@.len(),
                forall|j: int| 0 <= j < i ==> (#[trigger] self.waiting@[j]).tid != t,
                forall|j: int| 0 <= j < i ==> (#[trigger] self.waiting@[j]).resource != r,
            decreases self.waiting@.len() - i,
        {
            let w = self.waiting[i];
            if w.tid == t {
                proof {
                    assert forall|x: int| 0 <= x < self.waiting@.len() && #[trigger] self.waiting@[x].resource == r
                        && self.waiting@[x].tid != t implies !(forall|j: int| 0 <= j <= x ==> (#[trigger] self.waiting@[j]).tid != t) by {
                        if x < i {
                            assert(self.waiting@[x].resource != r);
                        } else {
                            assert(self.waiting@[i as int].tid == t);
                        }
                    }
                }
                return false;
            }
            if w.resource == r {
                return true;
            }
            i += 1;
        }
        false
    }

    /// Makes `e` the waiting request of its transaction.
    fn set_waiting(&mut self, e: LockEntry)
        requires
            old(self).wf(),
        ensures
            final(self).wf(),
            final(self).held == old(self).held,
            final(self).timeout_ms == old(self).timeout_ms,
            final(self).waiting@ == queue_with(old(self).waiting@, e),
    {
        let ghost pre = *self;
        let mut found = false;
        let mut i: usize = 0;
        while i < self.waiting.len()
            invariant
                self.held == pre.held,
                self.timeout_ms == pre.timeout_ms,
                self.waiting@.len() == pre.waiting@.len(),
                i <= self.waiting@.len(),
                found == exists|j: int| 0 <= j < i && (#[trigger] pre.waiting@[j]).tid == e.tid,
                forall|j: int|
                    0 <= j < i ==> #[trigger] self.waiting@[j] == if pre.waiting@[j].tid == e.tid {
                        e
                    } else {
                        pre.waiting@[j]
                    },
                forall|j: int| i <= j < self.waiting@.len() ==> #[trigger] self.waiting@[j] == pre.waiting@[j],
            decreases self.waiting@.len() - i,
        {
            if self.waiting[i].tid == e.tid {
                self.waiting.set(i, e);
                found = true;
            }
            i += 1;
        }
        if !found {
            self.waiting.push(e);
            proof {
                assert(self.waiting@ =~= pre.waiting@.push(e));
            }
        } else {
            proof {
                assert(self.waiting@ =~= pre.waiting@.map_values(renew(e)));
            }
        }
        proof {
            assert forall|a: LockEntry, b: LockEntry|
                self.waiting@.contains(a) && self.waiting@.contains(b) && a.tid == b.tid implies a == b by {
                let ia = choose|ia: int| 0 <= ia < self.waiting@.len() && self.waiting@[ia] == a;
                let ib = choose|ib: int| 0 <= ib < self.waiting@.len() && self.waiting@[ib] == b;
                if a.tid != e.tid {
                    assert(ia < pre.waiting@.len() && pre.waiting@[ia] == a);
                    assert(ib < pre.waiting@.len() && pre.waiting@[ib] == b);
                    assert(pre.waiting@.contains(a) && pre.waiting@.contains(b));
                } else {
                    if ia < pre.waiting@.len() && pre.waiting@[ia].tid != e.tid {
                        assert(self.waiting@[ia] == pre.waiting@[ia]);
                    }
                    if ib < pre.waiting@.len() && pre.waiting@[ib].tid != e.tid {
                        assert(self.waiting@[ib] == pre.waiting@[ib]);
                    }
                }
            }
        }
    }

    /// Drops the waiting request of `t`, if any: what a caller does when its
    /// wait times out.
    pub fn cancel_wait(&mut self, tid: TransactionId)
        requires
            old(self).wf(),
        ensures
            final(self).wf(),
            final(self).held == old(self).held,
            final(self).timeout_ms == old(self).timeout_ms,
            final(self).waiting@ == old(self).waiting@.filter(not_tid(tid)),
    {
        let ghost pre = *self;
        self.waiting = entries_where_not_tid(&self.waiting, tid);
        proof {
            assert forall|e: LockEntry| #[trigger] self.waiting@.contains(e) implies pre.waiting@.contains(e) by {
                lemma_filter_has(pre.waiting@, not_tid(tid), e);
            }
            lemma_subset_keeps_wf(pre, *self);
        }
    }

    /// Decides a request of `t` for the page of `vid` in mode `perm`. A lock
    /// already held at least as strongly is granted again; a grantable one is
    /// recorded; otherwise the request is refused when waiting would close a
    /// cycle, and queued when not. Only a queued request leaves a waiting entry.
    pub fn request_lock(&mut self, tid: TransactionId, vid: ValueId, perm: Permissions) -> (d: LockDecision)
        requires
            old(self).wf(),
        ensures
            final(self).wf(),
            final(self).timeout_ms == old(self).timeout_ms,
            ({
                let r = resource_of(vid);
                let s = old(self).held@;
                let w = old(self).waiting@;
                if already_holds(s, tid, r, perm) {
                    &&& d == LockDecision::Granted
                    &&& final(self).held == old(self).held
                    &&& final(self).waiting@ == w.filter(not_tid(tid))
                } else if grantable(s, w, tid, r, perm) {
                    &&& d == LockDecision::Granted
                    &&& final(self).held@ == s.filter(not_key(tid, r)).push(entry(tid, r, perm))
                    &&& final(self).waiting@ == w.filter(not_tid(tid))
                } else if would_deadlock(s, w, tid, r) {
                    &&& d == LockDecision::Deadlock
                    &&& final(self).held == old(self).held
                    &&& final(self).waiting@ == w.filter(not_tid(tid))
                } else {
                    &&& d == LockDecision::Wait
                    &&& final(self).held == old(self).held
                    &&& final(self).waiting@ == queue_with(w, entry(tid, r, perm))
                }
            }),
    {
        let r = vid.page_only();
        let cur = self.mode_of(tid, r);
        let already = match cur {
            Some(Permissions::ReadWrite) => true,
            Some(Permissions::ReadOnly) => perm == Permissions::ReadOnly,
            None => false,
        };
        if already {
            self.cancel_wait(tid);
            return LockDecision::Granted;
        }
        if !self.conflicts(tid, r, perm) && !self.queue_blocks(tid, r) {
            let ghost pre = *self;
            let mut held = entries_where_not_key(&self.held, tid, r);
            held.push(LockEntry { tid, resource: r, mode: perm });
            self.held = held;
            proof {
                lemma_replace_keeps_wf(pre, *self, tid, r, perm);
            }
            self.cancel_wait(tid);
            return LockDecision::Granted;
        }
        if self.closes_cycle(tid, r) {
            self.cancel_wait(tid);
            return LockDecision::Deadlock;
        }
        self.set_waiting(LockEntry { tid, resource: r, mode: perm });
        LockDecision::Wait
    }

    /// Acquires a lock for `t` on the page of `vid`. A request that would have
    /// to wait fails at once with a deadlock error when waiting would close a
    /// cycle; otherwise it fails with a timeout, since no release can come
    /// while the caller waits here. A failed request leaves no waiting entry.
    pub fn acquire_lock(&mut self, tid: TransactionId, vid: ValueId, perm: Permissions) -> (res: Result<(), CrustyError>)
        requires
            old(self).wf(),
        ensures
            final(self).wf(),
            final(self).timeout_ms == old(self).timeout_ms,
            final(self).waiting@ == old(self).waiting@.filter(not_tid(tid)),
            ({
                let r = resource_of(vid);
                let s = old(self).held@;
                let w = old(self).waiting@;
                if already_holds(s, tid, r, perm) {
                    res is Ok && final(self).held == old(self).held
                } else if grantable(s, w, tid, r, perm) {
                    res is Ok && final(self).held@ == s.filter(not_key(tid, r)).push(entry(tid, r, perm))
                } else if would_deadlock(s, w, tid, r) {
                    res == Err::<(), CrustyError>(CrustyError::Deadlock) && final(self).held == old(self).held
                } else {
                    res == Err::<(), CrustyError>(CrustyError::LockTimeout) && final(self).held == old(self).held
                }
            }),
    {
        let ghost w0 = self.waiting@;
        match self.request_lock(tid, vid, perm) {
            LockDecision::Granted => Ok(()),
            LockDecision::Deadlock => Err(CrustyError::Deadlock),
            LockDecision::Wait => {
                self.cancel_wait(tid);
                proof {
                    lemma_queue_then_cancel(w0, entry(tid, resource_of(vid), perm));
                }
                Err(CrustyError::LockTimeout)
            },
        }
    }
}

/// Queuing a request of `e.tid` and then dropping that transaction's request
/// leaves the queue as if it had only been dropped.
proof fn lemma_queue_then_cancel(w: Seq<LockEntry>, e: LockEntry)
    ensures
        queue_with(w, e).filter(not_tid(e.tid)) == w.filter(not_tid(e.tid)),
    decreases w.len(),
{
    reveal(Seq::filter);
    if exists|i: int| 0 <= i < w.len() && (#[trigger] w[i]).tid == e.tid {
        lemma_map_then_filter(w, e);
    } else {
        w.lemma_filter_push(e, not_tid(e.tid));
    }
}

/// Replacing the entries of `e.tid` by `e` does not change what a filter
/// that drops that transaction keeps.
proof fn lemma_map_then_filter(w: Seq<LockEntry>, e: LockEntry)
    ensures
        w.map_values(renew(e)).filter(not_tid(e.tid)) == w.filter(not_tid(e.tid)),
    decreases w.len(),
{
    let f = renew(e);
    let m = w.map_values(f);
    if w.len() > 0 {
        lemma_map_then_filter(w.drop_last(), e);
        assert(m.drop_last() =~= w.drop_last().map_values(f));
        assert(m =~= m.drop_last().push(m.last()));
        assert(w =~= w.drop_last().push(w.last()));
        m.drop_last().lemma_filter_push(m.last(), not_tid(e.tid));
        w.drop_last().lemma_filter_push(w.last(), not_tid(e.tid));
    } else {
        assert(m =~= w);
    }
}

/// Shared locks are compatible: when every other holder of `r` holds it
/// shared and nobody is queued for `r`, a shared request of `t` is granted.
pub proof fn lemma_shared_locks_coexist(held: Seq<LockEntry>, waiting: Seq<LockEntry>, t: TransactionId, r: ValueId)
    requires
        forall|e: LockEntry| #[trigger] held.contains(e) && e.resource == r ==> e.mode == Permissions::ReadOnly,
        forall|e: LockEntry| #[trigger] waiting.contains(e) ==> e.resource != r,
    ensures
        grantable(held, waiting, t, r, Permissions::ReadOnly),
{
    if queued_ahead(waiting, t, r) {
        let i = choose|i: int|
            0 <= i < waiting.len() && #[trigger] waiting[i].resource == r && waiting[i].tid != t && forall|j: int|
                0 <= j <= i ==> (#[trigger] waiting[j]).tid != t;
        assert(waiting.contains(waiting[i]));
    }
}

/// An exclusive request cannot be granted while another transaction holds
/// any lock on the resource, and can once no other transaction does and
/// nobody is queued ahead.
pub proof fn lemma_exclusive_excludes(held: Seq<LockEntry>, waiting: Seq<LockEntry>, t: TransactionId, r: ValueId)
    ensures
        (exists|e: LockEntry| #![trigger held.contains(e)] held.contains(e) && e.resource == r && e.tid != t) ==> !grantable(
            held,
            waiting,
            t,
            r,
            Permissions::ReadWrite,
        ),
        !(exists|e: LockEntry| #![trigger held.contains(e)] held.contains(e) && e.resource == r && e.tid != t)
            && !queued_ahead(waiting, t, r) ==> grantable(held, waiting, t, r, Permissions::ReadWrite),
{
}

/// Two transactions that each hold a page the other wants are caught: when
/// `t1` holds `a` and waits for `b`, and `t2` holds `b`, a request of `t2`
/// for `a` would close a cycle.
pub proof fn lemma_two_party_deadlock(
    held: Seq<LockEntry>,
    waiting: Seq<LockEntry>,
    t1: TransactionId,
    t2: TransactionId,
    a: ValueId,
    b: ValueId,
    m1: Permissions,
    m2: Permissions,
    mw: Permissions,
)
    requires
        t1 != t2,
        held.contains(entry(t1, a, m1)),
        held.contains(entry(t2, b, m2)),
        waiting.contains(entry(t1, b, mw)),
    ensures
        would_deadlock(held, waiting, t2, a),
{
    assert(waits_for(held, waiting, t1, t2));
    assert(reaches_in(held, waiting, t2, t2, 0));
    assert(reaches_in(held, waiting, t1, t2, 1));
    let h = entry(t1, a, m1);
    assert(held.contains(h) && h.resource == a && h.tid != t2 && reaches_in(held, waiting, h.tid, t2, 1));
}

/// After all of `t`'s locks are released it holds none, and no other
/// transaction is held back by a lock of `t` any more.
pub proof fn lemma_release_all_frees(
    held: Seq<LockEntry>,
    t: TransactionId,
    t2: TransactionId,
    r: ValueId,
    m: Permissions,
)
    ensures
        resources_of(held.filter(not_tid(t)), t) == Seq::<ValueId>::empty(),
        others_conflict(held.filter(not_tid(t)), t2, r, m) ==> exists|e: LockEntry|
            #![trigger held.contains(e)]
            held.contains(e) && e.tid != t && e.resource == r && e.tid != t2 && (m == Permissions::ReadWrite
                || e.mode == Permissions::ReadWrite),
{
    let f = held.filter(not_tid(t));
    let g = f.filter(of_tid(t));
    if g.len() > 0 {
        assert(f.filter(of_tid(t)).contains(g[0]));
        lemma_filter_has(f, of_tid(t), g[0]);
        lemma_filter_has(held, not_tid(t), g[0]);
    }
    assert(g.map_values(|e: LockEntry| e.resource) =~= Seq::<ValueId>::empty());
    if others_conflict(f, t2, r, m) {
        let e = choose|e: LockEntry|
            #![trigger f.contains(e)]
            f.contains(e) && e.resource == r && e.tid != t2 && (m == Permissions::ReadWrite || e.mode
                == Permissions::ReadWrite);
        lemma_filter_has(held, not_tid(t), e);
    }
}

} // verus!
