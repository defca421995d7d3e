use vstd::prelude::*;
use crate::buffer_frame::{BufferFrame, FrameGuard};
use crate::error::CrustyError;
use crate::fixed_page::{valid_settings, FixedPage, KvPair};
use crate::ids::{ContainerId, PageId, Permissions, StateType, ValueId};
use crate::prelude::{INDEX_POINTER_SIZE, KEY_SIZE, PAGE_SIZE, SEARCH_KEY_SIZE, VALUE_SIZE};

verus! {

/// Frames in a buffer pool.
pub const FRAMES: usize = 500;
/// Containers a buffer pool can register.
pub const MAX_CONTAINERS: usize = 256;

/// The metadata of a registered container.
pub struct ContainerMeta {
    pub container_id: ContainerId,
    pub name: Option<String>,
    pub container_type: StateType,
    /// The id the next new page of the container gets.
    pub max_page: PageId,
    pub key_size: usize,
    pub value_size: usize,
}

/// The key and value sizes of the pages of a container of the given kind.
pub open spec fn sizes_for(t: StateType) -> (usize, usize) {
    match t {
        StateType::HashTable | StateType::Tree => (SEARCH_KEY_SIZE, INDEX_POINTER_SIZE),
        StateType::BaseTable | StateType::MatView => (KEY_SIZE, VALUE_SIZE),
    }
}

/// What a registration gives: an id that was free before and is registered
/// after, with no pages yet.
pub open spec fn registered_fresh(before: BufferPool, after: BufferPool, r: Result<ContainerId, CrustyError>) -> bool {
    r matches Ok(c) ==> !before.is_registered(c as int) && after.is_registered(c as int) && after.page_count(c as int) == 0
}

/// What a new page of container `c` gets: the container's page count as its
/// id, and the count rises by one.
pub open spec fn next_page_id(before: BufferPool, after: BufferPool, c: int, r: Result<(PageId, FrameGuard), CrustyError>) -> bool {
    r matches Ok((p, g)) ==> p == before.page_count(c) && after.page_count(c) == p + 1
}

/// Page access for the files of a storage manager.
pub trait BufferPoolTrait: Sized {
    /// The pool is well formed.
    spec fn pool_wf(&self) -> bool;

    /// Appends a new page to a container; returns its id and a guard on its frame.
    fn new_page(&mut self, c_id: ContainerId) -> (r: Result<(PageId, FrameGuard), CrustyError>)
        requires
            old(self).pool_wf(),
        ensures
            final(self).pool_wf(),
    ;

    /// A guard on the frame of a page; the slot of `v_id` is ignored.
    fn get_page(&mut self, v_id: &ValueId, perm: Permissions) -> (r: Result<FrameGuard, CrustyError>)
        requires
            old(self).pool_wf(),
        ensures
            final(self).pool_wf(),
    ;

    /// Registers a new container and returns its id.
    fn register_container(&mut self, name: Option<String>, state: StateType) -> (r: Result<
        ContainerId,
        CrustyError,
    >)
        requires
            old(self).pool_wf(),
        ensures
            final(self).pool_wf(),
    ;
}

/// An in-memory buffer pool without eviction: each new page takes the next
/// unused frame for good.
pub struct BufferPool {
    /// The frames; frame `i` sits at index `i`.
    pub frames: Vec<BufferFrame>,
    /// For each container, the frame of each of its pages, by page id.
    pub page_frames: Vec<Vec<usize>>,
    /// The registered containers, by id.
    pub containers: Vec<Option<ContainerMeta>>,
    /// Whether the latch is held.
    pub latch: bool,
    /// The next unused frame.
    pub free_frame: usize,
}

impl BufferPool {
    /// The pool's bookkeeping is consistent: every page of a registered
    /// container has its own used frame, configured for the container.
    pub open spec fn wf(&self) -> bool {
        &&& self.frames@.len() == FRAMES
        &&& self.page_frames@.len() == MAX_CONTAINERS
        &&& self.containers@.len() == MAX_CONTAINERS
        &&& self.free_frame <= FRAMES
        &&& forall|i: int| 0 <= i < FRAMES ==> (#[trigger] self.frames@[i]).page.wf()
        &&& forall|i: int| 0 <= i < FRAMES ==> (#[trigger] self.frames@[i]).frame_id == i
        &&& forall|c: int| 0 <= c < MAX_CONTAINERS ==> self.container_ok(c)
        &&& forall|c1: int, p1: int, c2: int, p2: int|
            0 <= c1 < MAX_CONTAINERS && 0 <= c2 < MAX_CONTAINERS && 0 <= p1 < self.page_frames@[c1]@.len() && 0
                <= p2 < self.page_frames@[c2]@.len() && (c1 != c2 || p1 != p2) ==> #[trigger] self.page_frames@[c1]@[p1]
                != #[trigger] self.page_frames@[c2]@[p2]
    }

    /// Container `c` is consistent with its pages.
    pub open spec fn container_ok(&self, c: int) -> bool {
        let pf = self.page_frames@[c]@;
        &&& pf.len() <= self.free_frame
        &&& self.containers@[c] is None ==> pf.len() == 0
        &&& self.containers@[c] matches Some(m) ==> {
            &&& m.container_id == c
            &&& m.max_page == pf.len()
            &&& (m.key_size, m.value_size) == sizes_for(m.container_type)
        }
        &&& forall|p: int| 0 <= p < pf.len() ==> self.page_ok(c, p, #[trigger] pf[p] as int)
    }

    /// Page `p` of container `c` lives in the used frame `f`, set up for it.
    pub open spec fn page_ok(&self, c: int, p: int, f: int) -> bool {
        &&& 0 <= f < self.free_frame
        &&& self.containers@[c] is Some
        &&& self.frames@[f].page.p_id == p
        &&& self.frames@[f].page.key_size == self.containers@[c]->Some_0.key_size
        &&& self.frames@[f].page.value_size == self.containers@[c]->Some_0.value_size
    }

    /// Whether container `c` is registered.
    pub open spec fn is_registered(&self, c: int) -> bool {
        0 <= c < MAX_CONTAINERS && self.containers@[c] is Some
    }

    /// How many pages container `c` has.
    pub open spec fn page_count(&self, c: int) -> int {
        self.page_frames@[c]@.len() as int
    }

    /// Whether page `p` of container `c` exists.
    pub open spec fn has_page(&self, c: int, p: int) -> bool {
        0 <= c < MAX_CONTAINERS && 0 <= p < self.page_frames@[c]@.len()
    }

    /// The frame of page `p` of container `c`.
    pub open spec fn frame_of(&self, c: int, p: int) -> int {
        self.page_frames@[c]@[p] as int
    }

    /// The page `p` of container `c`.
    pub open spec fn page(&self, c: int, p: int) -> FixedPage {
        self.frames@[self.frame_of(c, p)].page
    }

    /// The record at a value id: its slot on its page, when both exist.
    pub open spec fn record(&self, v: ValueId) -> Option<KvPair> {
        match (v.page_id, v.slot_id) {
            (Some(p), Some(s)) => if self.has_page(v.container_id as int, p as int) && s < self.page(
                v.container_id as int,
                p as int,
            ).slot_capacity {
                self.page(v.container_id as int, p as int)@[s as int]
            } else {
                None
            },
            _ => None,
        }
    }

    /// Containers other than `c` and their pages are as in `o`, and `c` is
    /// registered in both or in neither.
    pub open spec fn keeps_others(&self, o: &BufferPool, c: int) -> bool {
        &&& forall|d: int| 0 <= d < MAX_CONTAINERS && d != c ==> #[trigger] self.containers@[d] == o.containers@[d]
        &&& forall|d: int| 0 <= d < MAX_CONTAINERS && d != c ==> #[trigger] self.page_frames@[d] == o.page_frames@[d]
        &&& forall|d: int, p: int|
            0 <= d < MAX_CONTAINERS && d != c && 0 <= p < o.page_frames@[d]@.len() ==> #[trigger] self.page(d, p)
                == o.page(d, p)
        &&& self.containers@[c] is Some == o.containers@[c] is Some
    }

    /// The pages of every container are those of `o`.
    pub open spec fn same_pages(&self, o: &BufferPool) -> bool {
        &&& self.page_frames@ == o.page_frames@
        &&& forall|f: int| 0 <= f < FRAMES ==> (#[trigger] self.frames@[f]).page == o.frames@[f].page
    }

    /// Every container id below `n` is registered.
    pub open spec fn all_registered_below(&self, n: int) -> bool {
        forall|c: int| 0 <= c < n ==> (#[trigger] self.containers@[c]) is Some
    }

    /// A pool with every frame unused and no container.
    pub fn new() -> (r: BufferPool)
        ensures
            r.wf(),
            !r.latch,
            r.free_frame == 0,
            forall|c: int| 0 <= c < MAX_CONTAINERS ==> !r.is_registered(c) && r.page_count(c) == 0,
            forall|i: int| 0 <= i < FRAMES ==> (#[trigger] r.frames@[i]).pin_count == 0,
    {
        let mut frames: Vec<BufferFrame> = Vec::with_capacity(FRAMES);
        let mut i: usize = 0;
        while i < FRAMES
            invariant
                i <= FRAMES,
                frames@.len() == i,
                forall|j: int| 0 <= j < i ==> (#[trigger] frames@[j]).page.wf(),
                forall|j: int| 0 <= j < i ==> (#[trigger] frames@[j]).frame_id == j,
                forall|j: int| 0 <= j < i ==> (#[trigger] frames@[j]).pin_count == 0,
            decreases FRAMES - i,
        {
            frames.push(BufferFrame::new(i));
            i += 1;
        }
        let mut page_frames: Vec<Vec<usize>> = Vec::with_capacity(MAX_CONTAINERS);
        let mut containers: Vec<Option<ContainerMeta>> = Vec::with_capacity(MAX_CONTAINERS);
        let mut c: usize = 0;
        while c < MAX_CONTAINERS
            invariant
                c <= MAX_CONTAINERS,
                page_frames@.len() == c,
                containers@.len() == c,
                forall|j: int| 0 <= j < c ==> (#[trigger] page_frames@[j])@.len() == 0,
                forall|j: int| 0 <= j < c ==> (#[trigger] containers@[j]) is None,
            decreases MAX_CONTAINERS - c,
        {
            page_frames.push(Vec::new());
            containers.push(None);
            c += 1;
        }
        let r = BufferPool { frames, page_frames, containers, latch: false, free_frame: 0 };
        assert forall|c: int| 0 <= c < MAX_CONTAINERS implies r.container_ok(c) by {
            assert(r.page_frames@[c]@.len() == 0);
        }
        r
    }

    /// Takes the latch; fails with a timeout when it is already held, since
    /// nothing can release it while this call waits.
    pub fn acquire_latch(&mut self) -> (r: Result<(), CrustyError>)
        ensures
            old(self).latch ==> r == Err::<(), CrustyError>(CrustyError::LatchTimeout) && *final(self) == *old(self),
            !old(self).latch ==> r is Ok && final(self).latch && final(self).same_state(old(self)),
            old(self).wf() ==> final(self).wf(),
    {
        if self.latch {
            return Err(CrustyError::LatchTimeout);
        }
        let ghost pre = *self;
        self.latch = true;
        proof {
            if pre.wf() {
                lemma_same_state_wf(pre, *self);
            }
        }
        Ok(())
    }

    /// Releases the latch.
    pub fn release_latch(&mut self)
        ensures
            !final(self).latch,
            final(self).same_state(old(self)),
            old(self).wf() ==> final(self).wf(),
    {
        let ghost pre = *self;
        self.latch = false;
        proof {
            if pre.wf() {
                lemma_same_state_wf(pre, *self);
            }
        }
    }
}

impl BufferPool {
    /// Only the latch may differ between the two pools.
    pub open spec fn same_state(&self, o: &BufferPool) -> bool {
        &&& self.frames == o.frames
        &&& self.page_frames == o.page_frames
        &&& self.containers == o.containers
        &&& self.free_frame == o.free_frame
    }

    /// Unpins the frame of a guard, ending the guard.
    pub fn release_page(&mut self, guard: FrameGuard)
        requires
            old(self).wf(),
        ensures
            final(self).wf(),
            final(self).latch == old(self).latch,
            final(self).same_pages(old(self)),
            final(self).containers == old(self).containers,
            final(self).free_frame == old(self).free_frame,
            guard.frame_id < FRAMES ==> final(self).frames@[guard.frame_id as int].pin_count
                == old(self).frames@[guard.frame_id as int].pin_count.wrapping_sub(1),
    {
        if guard.frame_id < self.frames.len() {
            self.frames[guard.frame_id].unpin();
        }
        proof {
            assert forall|c: int| 0 <= c < MAX_CONTAINERS implies self.container_ok(c) by {
                assert(old(self).container_ok(c));
            }
        }
    }

    /// The page of a guard's frame.
    pub fn frame_page(&self, guard: &FrameGuard) -> (r: &FixedPage)
        requires
            self.wf(),
            guard.frame_id < FRAMES,
        ensures
            *r == self.frames@[guard.frame_id as int].page,
    {
        &self.frames[guard.frame_id].page
    }

    /// Page `p` of container `c`, read without pinning it.
    pub fn page_of(&self, c_id: ContainerId, p: PageId) -> (r: &FixedPage)
        requires
            self.wf(),
            self.has_page(c_id as int, p as int),
        ensures
            *r == self.page(c_id as int, p as int),
    {
        proof {
            assert(self.container_ok(c_id as int));
            assert(self.page_ok(c_id as int, p as int, self.frame_of(c_id as int, p as int)));
        }
        let f = self.page_frames[c_id as usize][p as usize];
        &self.frames[f].page
    }

    /// The page of a guard's frame, for changing its slots.
    pub fn frame_page_mut(&mut self, guard: &FrameGuard) -> (r: &mut FixedPage)
        requires
            old(self).wf(),
            guard.frame_id < FRAMES,
        ensures
            *r == old(self).frames@[guard.frame_id as int].page,
            final(self).frames@ == old(self).frames@.update(
                guard.frame_id as int,
                BufferFrame { page: *final(r), ..old(self).frames@[guard.frame_id as int] },
            ),
            final(self).page_frames == old(self).page_frames,
            final(self).containers == old(self).containers,
            final(self).free_frame == old(self).free_frame,
            final(self).latch == old(self).latch,
    {
        &mut self.frames[guard.frame_id].page
    }
}

/// The sizes of every container kind make a usable page.
pub proof fn lemma_kind_sizes_valid(t: StateType)
    ensures
        valid_settings(sizes_for(t).0 as int, sizes_for(t).1 as int),
{
    assert(PAGE_SIZE as int / 144 == 28);
    assert(PAGE_SIZE as int / 18 == 227);
}

/// A pool that differs from a well-formed one only in its latch is well formed.
pub proof fn lemma_same_state_wf(a: BufferPool, b: BufferPool)
    requires
        a.wf(),
        b.same_state(&a),
    ensures
        b.wf(),
{
    assert forall|c: int| 0 <= c < MAX_CONTAINERS implies b.container_ok(c) by {
        assert(a.container_ok(c));
        let pf = b.page_frames@[c]@;
        assert forall|p: int| 0 <= p < pf.len() implies b.page_ok(c, p, #[trigger] pf[p] as int) by {
            assert(a.page_ok(c, p, pf[p] as int));
        }
    }
}

/// A pool whose frame `f` got a well-formed page with the same id and sizes stays well formed.
pub proof fn lemma_page_replaced(before: BufferPool, after: BufferPool, f: int)
    requires
        before.wf(),
        0 <= f < FRAMES,
        after.frames@.len() == FRAMES,
        after.frames@[f].page.wf(),
        after.frames@[f].page.p_id == before.frames@[f].page.p_id,
        after.frames@[f].page.key_size == before.frames@[f].page.key_size,
        after.frames@[f].page.value_size == before.frames@[f].page.value_size,
        after.frames@[f].frame_id == before.frames@[f].frame_id,
        forall|g: int| 0 <= g < FRAMES && g != f ==> after.frames@[g] == before.frames@[g],
        after.page_frames == before.page_frames,
        after.containers == before.containers,
        after.free_frame == before.free_frame,
    ensures
        after.wf(),
        forall|c: int, p: int|
            before.has_page(c, p) && before.frame_of(c, p) != f ==> #[trigger] after.page(c, p) == before.page(c, p),
{
    assert forall|i: int| 0 <= i < FRAMES implies (#[trigger] after.frames@[i]).page.wf() && after.frames@[i].frame_id
        == i by {
        if i != f {
            assert(after.frames@[i] == before.frames@[i]);
        }
    }
    assert forall|c: int, p: int|
        before.has_page(c, p) && before.frame_of(c, p) != f implies #[trigger] after.page(c, p) == before.page(c, p) by {
        assert(before.container_ok(c));
        assert(before.page_ok(c, p, before.page_frames@[c]@[p] as int));
    }
    assert forall|c: int| 0 <= c < MAX_CONTAINERS implies after.container_ok(c) by {
        assert(before.container_ok(c));
        let pf = after.page_frames@[c]@;
        assert forall|p: int| 0 <= p < pf.len() implies after.page_ok(c, p, #[trigger] pf[p] as int) by {
            assert(before.page_ok(c, p, pf[p] as int));
            if pf[p] != f {
                assert(after.frames@[pf[p] as int] == before.frames@[pf[p] as int]);
            }
        }
    }
}

impl BufferPoolTrait for BufferPool {
    open spec fn pool_wf(&self) -> bool {
        self.wf() && !self.latch
    }

    fn register_container(&mut self, name: Option<String>, state: StateType) -> (r: Result<
        ContainerId,
        CrustyError,
    >)
        ensures
            registered_fresh(*old(self), *final(self), r),
            final(self).same_pages(old(self)),
            final(self).free_frame == old(self).free_frame,
            old(self).all_registered_below(MAX_CONTAINERS as int) ==> r == Err::<ContainerId, CrustyError>(
                CrustyError::OutOfContainers,
            ) && final(self).same_state(old(self)),
            !old(self).all_registered_below(MAX_CONTAINERS as int) ==> (r matches Ok(c) && {
                &&& !old(self).is_registered(c as int)
                &&& old(self).all_registered_below(c as int)
                &&& final(self).is_registered(c as int)
                &&& final(self).containers@[c as int] matches Some(m) && m.container_type == state && m.name
                    == name && m.max_page == 0
                &&& final(self).page_count(c as int) == 0
                &&& forall|d: int| 0 <= d < MAX_CONTAINERS && d != c ==> #[trigger] final(self).containers@[d] == old(self).containers@[d]
            }),
    {
        let _ = self.acquire_latch();
        let mut cid: usize = 0;
        while cid < MAX_CONTAINERS && self.containers[cid].is_some()
            invariant
                self.wf(),
                self.latch,
                self.same_state(old(self)),
                cid <= MAX_CONTAINERS,
                self.all_registered_below(cid as int),
            decreases MAX_CONTAINERS - cid,
        {
            cid += 1;
        }
        if cid == MAX_CONTAINERS {
            self.release_latch();
            return Err(CrustyError::OutOfContainers);
        }
        let (key_size, value_size) = match state {
            StateType::HashTable => (SEARCH_KEY_SIZE, INDEX_POINTER_SIZE),
            StateType::Tree => (SEARCH_KEY_SIZE, INDEX_POINTER_SIZE),
            StateType::BaseTable => (KEY_SIZE, VALUE_SIZE),
            StateType::MatView => (KEY_SIZE, VALUE_SIZE),
        };
        let ghost pre = *self;
        let meta = ContainerMeta {
            container_id: cid as ContainerId,
            name,
            container_type: state,
            max_page: 0,
            key_size,
            value_size,
        };
        self.containers.set(cid, Some(meta));
        self.release_latch();
        proof {
            assert(pre.container_ok(cid as int));
            assert forall|c: int| 0 <= c < MAX_CONTAINERS implies self.container_ok(c) by {
                assert(pre.container_ok(c));
                let pf = self.page_frames@[c]@;
                assert forall|p: int| 0 <= p < pf.len() implies self.page_ok(c, p, #[trigger] pf[p] as int) by {
                    assert(pre.page_ok(c, p, pf[p] as int));
                }
            }
        }
        Ok(cid as ContainerId)
    }

    fn new_page(&mut self, c_id: ContainerId) -> (r: Result<(PageId, FrameGuard), CrustyError>)
        ensures
            next_page_id(*old(self), *final(self), c_id as int, r),
            !old(self).is_registered(c_id as int) ==> r == Err::<(PageId, FrameGuard), CrustyError>(
                CrustyError::ContainerDoesNotExist,
            ) && final(self).same_state(old(self)),
            old(self).is_registered(c_id as int) && old(self).free_frame >= FRAMES ==> r == Err::<
                (PageId, FrameGuard),
                CrustyError,
            >(CrustyError::OutOfFrames) && final(self).same_state(old(self)),
            old(self).is_registered(c_id as int) && old(self).free_frame < FRAMES ==> (r matches Ok((p, g)) && {
                &&& p == old(self).page_count(c_id as int)
                &&& g.frame_id == old(self).free_frame
                &&& final(self).free_frame == old(self).free_frame + 1
                &&& final(self).page_frames@[c_id as int]@ == old(self).page_frames@[c_id as int]@.push(g.frame_id)
                &&& forall|d: int| 0 <= d < MAX_CONTAINERS && d != c_id ==> #[trigger] final(self).page_frames@[d] == old(self).page_frames@[d]
                &&& final(self).page(c_id as int, p as int)@ == Seq::new(
                    final(self).page(c_id as int, p as int).slot_capacity as nat,
                    |i: int| None::<KvPair>,
                )
                &&& forall|f: int| 0 <= f < FRAMES && f != g.frame_id ==> #[trigger] final(self).frames@[f] == old(self).frames@[f]
                &&& final(self).frames@[g.frame_id as int].pin_count == old(self).frames@[g.frame_id as int].pin_count.wrapping_add(1)
                &&& forall|d: int| 0 <= d < MAX_CONTAINERS && d != c_id ==> #[trigger] final(self).containers@[d]
                    == old(self).containers@[d]
                &&& final(self).containers@[c_id as int] matches Some(m) && m.key_size == old(self).containers@[c_id as int]->Some_0.key_size
                    && m.value_size == old(self).containers@[c_id as int]->Some_0.value_size
                    && m.container_type == old(self).containers@[c_id as int]->Some_0.container_type
            }),
    {
        let _ = self.acquire_latch();
        let c = c_id as usize;
        if c >= MAX_CONTAINERS || self.containers[c].is_none() {
            self.release_latch();
            return Err(CrustyError::ContainerDoesNotExist);
        }
        if self.free_frame >= FRAMES {
            self.release_latch();
            return Err(CrustyError::OutOfFrames);
        }
        let ghost pre = *self;
        proof {
            assert(pre.container_ok(c as int));
        }
        let (new_pid, key_size, value_size) = match &self.containers[c] {
            Some(m) => (m.max_page, m.key_size, m.value_size),
            None => (0, 0, 0),
        };
        proof {
            let m = self.containers@[c as int]->Some_0;
            lemma_kind_sizes_valid(m.container_type);
        }
        let f = self.free_frame;
        self.frames[f].page.update_settings(new_pid, key_size, value_size);
        let guard = self.frames[f].read();
        self.page_frames[c].push(f);
        match &mut self.containers[c] {
            Some(m) => {
                m.max_page = m.max_page + 1;
            },
            None => {},
        }
        self.free_frame = f + 1;
        self.release_latch();
        proof {
            assert forall|i: int| 0 <= i < FRAMES implies (#[trigger] self.frames@[i]).page.wf() && self.frames@[i].frame_id
                == i by {
                if i != f {
                    assert(self.frames@[i] == pre.frames@[i]);
                }
            }
            assert forall|d: int| 0 <= d < MAX_CONTAINERS implies self.container_ok(d) by {
                assert(pre.container_ok(d));
                let pf = self.page_frames@[d]@;
                assert forall|p: int| 0 <= p < pf.len() implies self.page_ok(d, p, #[trigger] pf[p] as int) by {
                    if d != c || p < pf.len() - 1 {
                        assert(pre.page_ok(d, p, pf[p] as int));
                        assert(pf[p] != f);
                    }
                }
            }
            assert forall|c1: int, p1: int, c2: int, p2: int|
                0 <= c1 < MAX_CONTAINERS && 0 <= c2 < MAX_CONTAINERS && 0 <= p1 < self.page_frames@[c1]@.len() && 0 <= p2
                    < self.page_frames@[c2]@.len() && (c1 != c2 || p1 != p2) implies #[trigger] self.page_frames@[c1]@[p1]
                != #[trigger] self.page_frames@[c2]@[p2] by {
                let new1 = c1 == c && p1 == pre.page_frames@[c1]@.len();
                let new2 = c2 == c && p2 == pre.page_frames@[c2]@.len();
                assert(pre.container_ok(c1));
                assert(pre.container_ok(c2));
                if !new1 {
                    assert(self.page_frames@[c1]@[p1] == pre.page_frames@[c1]@[p1]);
                    assert(pre.page_ok(c1, p1, pre.page_frames@[c1]@[p1] as int));
                }
                if !new2 {
                    assert(self.page_frames@[c2]@[p2] == pre.page_frames@[c2]@[p2]);
                    assert(pre.page_ok(c2, p2, pre.page_frames@[c2]@[p2] as int));
                }
            }
        }
        Ok((new_pid, guard))
    }

    fn get_page(&mut self, v_id: &ValueId, perm: Permissions) -> (r: Result<FrameGuard, CrustyError>)
        ensures
            final(self).same_pages(old(self)),
            final(self).containers == old(self).containers,
            final(self).free_frame == old(self).free_frame,
            (v_id.page_id matches Some(p) && old(self).has_page(v_id.container_id as int, p as int)) ==> (r matches Ok(
                g) && g.frame_id == old(self).frame_of(v_id.container_id as int, v_id.page_id->Some_0 as int)),
            r matches Ok(g) ==> g.frame_id < FRAMES && final(self).frames@[g.frame_id as int].pin_count == old(
                self,
            ).frames@[g.frame_id as int].pin_count.wrapping_add(1) && forall|f: int|
                0 <= f < FRAMES && f != g.frame_id ==> #[trigger] final(self).frames@[f] == old(self).frames@[f],
            !(v_id.page_id matches Some(p) && old(self).has_page(v_id.container_id as int, p as int)) ==> r
                == Err::<FrameGuard, CrustyError>(CrustyError::PageNotFound) && final(self).same_state(old(self)),
    {
        let _ = self.acquire_latch();
        let c = v_id.container_id as usize;
        let p = match v_id.page_id {
            Some(p) => p as usize,
            None => {
                self.release_latch();
                return Err(CrustyError::PageNotFound);
            },
        };
        if c >= MAX_CONTAINERS || p >= self.page_frames[c].len() {
            self.release_latch();
            return Err(CrustyError::PageNotFound);
        }
        let f = self.page_frames[c][p];
        proof {
            assert(self.container_ok(c as int));
            assert(self.page_ok(c as int, p as int, f as int));
        }
        let ghost pre = *self;
        let guard = self.frames[f].read();
        self.release_latch();
        proof {
            assert forall|i: int| 0 <= i < FRAMES implies (#[trigger] self.frames@[i]).page.wf() && self.frames@[i].frame_id
                == i by {
                if i != f {
                    assert(self.frames@[i] == pre.frames@[i]);
                }
            }
            assert forall|d: int| 0 <= d < MAX_CONTAINERS implies self.container_ok(d) by {
                assert(pre.container_ok(d));
                let pf = self.page_frames@[d]@;
                assert forall|q: int| 0 <= q < pf.len() implies self.page_ok(d, q, #[trigger] pf[q] as int) by {
                    assert(pre.page_ok(d, q, pf[q] as int));
                }
            }
        }
        Ok(guard)
    }
}

/// Writing the page of `(c, p)` in place changes that page alone.
pub proof fn lemma_page_write(before: BufferPool, after: BufferPool, c: int, p: int)
    requires
        before.wf(),
        before.has_page(c, p),
        after.frames@.len() == FRAMES,
        after.frames@[before.frame_of(c, p)].page.wf(),
        after.frames@[before.frame_of(c, p)].page.p_id == before.page(c, p).p_id,
        after.frames@[before.frame_of(c, p)].page.key_size == before.page(c, p).key_size,
        after.frames@[before.frame_of(c, p)].page.value_size == before.page(c, p).value_size,
        after.frames@[before.frame_of(c, p)].frame_id == before.frames@[before.frame_of(c, p)].frame_id,
        forall|g: int| 0 <= g < FRAMES && g != before.frame_of(c, p) ==> after.frames@[g] == before.frames@[g],
        after.page_frames == before.page_frames,
        after.containers == before.containers,
        after.free_frame == before.free_frame,
    ensures
        after.wf(),
        after.keeps_others(&before, c),
        after.page(c, p) == after.frames@[before.frame_of(c, p)].page,
        forall|q: int| 0 <= q < before.page_count(c) && q != p ==> #[trigger] after.page(c, q) == before.page(c, q),
{
    let f = before.frame_of(c, p);
    assert(before.container_ok(c));
    assert(before.page_ok(c, p, f));
    lemma_page_replaced(before, after, f);
    assert forall|d: int, q: int|
        0 <= d < MAX_CONTAINERS && d != c && 0 <= q < before.page_frames@[d]@.len() implies #[trigger] after.page(d, q)
        == before.page(d, q) by {
        assert(before.page_frames@[d]@[q] != before.page_frames@[c]@[p]);
    }
    assert forall|q: int| 0 <= q < before.page_count(c) && q != p implies #[trigger] after.page(c, q) == before.page(
        c,
        q,
    ) by {
        assert(before.page_frames@[c]@[q] != before.page_frames@[c]@[p]);
    }
}

/// Keeping the other containers is transitive.
pub proof fn lemma_keeps_others_trans(a: BufferPool, b: BufferPool, d: BufferPool, c: int)
    requires
        b.keeps_others(&a, c),
        d.keeps_others(&b, c),
    ensures
        d.keeps_others(&a, c),
{
    assert forall|x: int, p: int|
        0 <= x < MAX_CONTAINERS && x != c && 0 <= p < a.page_frames@[x]@.len() implies #[trigger] d.page(x, p) == a.page(
        x,
        p,
    ) by {
        assert(b.page_frames@[x] == a.page_frames@[x]);
        assert(b.page(x, p) == a.page(x, p));
    }
}

/// A new page, put in the next unused frame, leaves the other containers as they were.
pub proof fn lemma_new_page_keeps_others(before: BufferPool, after: BufferPool, c: int)
    requires
        before.wf(),
        0 <= c < MAX_CONTAINERS,
        before.free_frame < FRAMES,
        forall|d: int| 0 <= d < MAX_CONTAINERS && d != c ==> #[trigger] after.page_frames@[d] == before.page_frames@[d],
        forall|d: int| 0 <= d < MAX_CONTAINERS && d != c ==> #[trigger] after.containers@[d] == before.containers@[d],
        after.containers@[c] is Some == before.containers@[c] is Some,
        forall|g: int| 0 <= g < FRAMES && g != before.free_frame ==> #[trigger] after.frames@[g] == before.frames@[g],
    ensures
        after.keeps_others(&before, c),
        forall|q: int| 0 <= q < before.page_count(c) && after.page_frames@[c]@[q] == before.page_frames@[c]@[q] ==> #[trigger] after.page(c, q) == before.page(c, q),
{
    assert forall|d: int, q: int|
        0 <= d < MAX_CONTAINERS && d != c && 0 <= q < before.page_frames@[d]@.len() implies #[trigger] after.page(d, q)
        == before.page(d, q) by {
        assert(before.container_ok(d));
        assert(before.page_ok(d, q, before.page_frames@[d]@[q] as int));
    }
    assert forall|q: int| 0 <= q < before.page_count(c) && after.page_frames@[c]@[q] == before.page_frames@[c]@[q] implies #[trigger] after.page(c, q) == before.page(c, q) by {
        assert(before.container_ok(c));
        assert(before.page_ok(c, q, before.page_frames@[c]@[q] as int));
    }
}

/// With the same pages and containers, every container is kept and every record is the same.
pub proof fn lemma_same_pages_keep(before: BufferPool, after: BufferPool, c: int)
    requires
        before.wf(),
        after.same_pages(&before),
        after.containers == before.containers,
    ensures
        after.keeps_others(&before, c),
        forall|v: ValueId| #[trigger] after.record(v) == before.record(v),
        forall|d: int, q: int| 0 <= d < MAX_CONTAINERS && 0 <= q < before.page_count(d) ==> #[trigger] after.page(d, q) == before.page(d, q),
{
    assert forall|d: int, q: int| 0 <= d < MAX_CONTAINERS && 0 <= q < before.page_count(d) implies #[trigger] after.page(d, q) == before.page(d, q) by {
        assert(before.container_ok(d));
        assert(before.page_ok(d, q, before.page_frames@[d]@[q] as int));
    }
    assert forall|v: ValueId| #[trigger] after.record(v) == before.record(v) by {
        if v.page_id is Some && before.has_page(v.container_id as int, v.page_id->Some_0 as int) {
            assert(after.page(v.container_id as int, v.page_id->Some_0 as int) == before.page(v.container_id as int, v.page_id->Some_0 as int));
        }
    }
}

/// With the same pages, every existing page reads the same.
pub proof fn lemma_same_pages_read_same(before: BufferPool, after: BufferPool)
    requires
        before.wf(),
        after.same_pages(&before),
    ensures
        forall|d: int, q: int| 0 <= d < MAX_CONTAINERS && 0 <= q < before.page_count(d) ==> #[trigger] after.page(d, q) == before.page(d, q),
{
    assert forall|d: int, q: int| 0 <= d < MAX_CONTAINERS && 0 <= q < before.page_count(d) implies #[trigger] after.page(d, q) == before.page(d, q) by {
        assert(before.container_ok(d));
        assert(before.page_ok(d, q, before.page_frames@[d]@[q] as int));
    }
}

/// Two successful registrations, one after the other, hand out different ids.
pub proof fn lemma_register_distinct(
    p0: BufferPool,
    p1: BufferPool,
    p2: BufferPool,
    r1: Result<ContainerId, CrustyError>,
    r2: Result<ContainerId, CrustyError>,
)
    requires
        registered_fresh(p0, p1, r1),
        registered_fresh(p1, p2, r2),
        r1 is Ok,
        r2 is Ok,
    ensures
        r1->Ok_0 != r2->Ok_0,
{
}

/// The pages of a freshly registered container get the ids 0, then 1: each
/// new page takes the container's page count as its id.
pub proof fn lemma_page_ids_increase(
    p0: BufferPool,
    p1: BufferPool,
    p2: BufferPool,
    c: int,
    r1: Result<(PageId, FrameGuard), CrustyError>,
    r2: Result<(PageId, FrameGuard), CrustyError>,
)
    requires
        p0.page_count(c) == 0,
        next_page_id(p0, p1, c, r1),
        next_page_id(p1, p2, c, r2),
        r1 is Ok,
        r2 is Ok,
    ensures
        r1->Ok_0.0 == 0,
        r2->Ok_0.0 == 1,
        r1->Ok_0.0 < r2->Ok_0.0,
{
}

} // verus!
