use vstd::prelude::*;
use vstd::string::StringExecFns;
use crate::buffer_pool::{lemma_same_pages_keep, lemma_same_pages_read_same, BufferPool, BufferPoolTrait, FRAMES, MAX_CONTAINERS};
use crate::error::CrustyError;
use crate::heap_file::FixedHeapFile;
use crate::ids::{fixed_bytes_of, lemma_fixed_bytes_round_trip, ContainerId, StateType, TransactionId, ValueId};
use crate::index_file::{lemma_stored_entry_found, FixedIndexFile, IndexFileTrait, INDEX_TYPE, STARTING_PAGE_CAPACITY};
use crate::lock_manager::LockManager;
use crate::fixed_page::KvPair;
use crate::prelude::{extract_search_key, search_key_of, KEY_SIZE, SEARCH_KEY_SIZE, VALUE_SIZE};

verus! {

/// A table's heap file and the hash index on its search key.
#[derive(Clone, Copy)]
pub struct TableFiles {
    pub table: FixedHeapFile,
    pub index: FixedIndexFile,
}

/// Tables with an index each, over one buffer pool and one lock manager.
pub struct StorageManager {
    pub lm: LockManager,
    pub bp: BufferPool,
    /// The tables, in the order they were created.
    pub tables: Vec<TableFiles>,
}

/// The name of a table's index: the table's name followed by `_idx`.
fn index_name(name: &String) -> (r: String)
    ensures
        r@ == name@ + seq!['_', 'i', 'd', 'x'],
{
    let r = name.clone().concat("_idx");
    proof {
        reveal_strlit("_idx");
        assert(r@ =~= name@ + seq!['_', 'i', 'd', 'x']);
    }
    r
}

/// Container `d` and its pages are the same in both pools.
pub open spec fn keeps_container(a: BufferPool, b: BufferPool, d: int) -> bool {
    &&& b.containers@[d] == a.containers@[d]
    &&& b.page_frames@[d] == a.page_frames@[d]
    &&& forall|p: int| 0 <= p < a.page_count(d) ==> #[trigger] b.page(d, p) == a.page(d, p)
}

/// A change confined to container `c` keeps every other container.
pub proof fn lemma_keeps_container(a: BufferPool, b: BufferPool, c: int, d: int)
    requires
        b.keeps_others(&a, c),
        0 <= d < MAX_CONTAINERS,
        d != c,
    ensures
        keeps_container(a, b, d),
{
    assert(b.containers@[d] == a.containers@[d]);
    assert(b.page_frames@[d] == a.page_frames@[d]);
}

/// A change confined to container `c` keeps the record of every value id of
/// another container.
pub proof fn lemma_records_kept_except(a: BufferPool, b: BufferPool, c: int)
    requires
        b.keeps_others(&a, c),
    ensures
        forall|w: ValueId| w.container_id != c ==> #[trigger] b.record(w) == a.record(w),
{
    assert forall|w: ValueId| w.container_id != c implies #[trigger] b.record(w) == a.record(w) by {
        let d = w.container_id as int;
        if d < MAX_CONTAINERS {
            lemma_keeps_container(a, b, c, d);
            if w.page_id is Some && a.has_page(d, w.page_id->Some_0 as int) {
                assert(b.page(d, w.page_id->Some_0 as int) == a.page(d, w.page_id->Some_0 as int));
            }
        }
    }
}

/// A heap file stays well formed when its container is kept.
pub proof fn lemma_file_kept(file: FixedHeapFile, a: BufferPool, b: BufferPool)
    requires
        file.file_wf(&a),
        b.wf(),
        !b.latch,
        keeps_container(a, b, file.c_id as int),
    ensures
        file.file_wf(&b),
        file.same_records(&b, &a),
{
    let d = file.c_id as int;
    assert forall|p: int| 0 <= p < file.free_page_cache implies crate::heap_file::page_full(#[trigger] b.page(d, p)) by {
        assert(b.page(d, p) == a.page(d, p));
    }
    assert forall|v: ValueId| v.container_id == file.c_id implies #[trigger] b.record(v) == a.record(v) by {
        if v.page_id is Some && a.has_page(d, v.page_id->Some_0 as int) {
            assert(b.page(d, v.page_id->Some_0 as int) == a.page(d, v.page_id->Some_0 as int));
        }
    }
}

/// An index stays well formed, with the same entries, when its container is kept.
pub proof fn lemma_index_kept(idx: FixedIndexFile, a: BufferPool, b: BufferPool)
    requires
        idx.index_wf(&a),
        b.wf(),
        !b.latch,
        keeps_container(a, b, idx.c_id as int),
    ensures
        idx.index_wf(&b),
        forall|k: Seq<u8>| #[trigger] idx.pointers_for(&b, k) == idx.pointers_for(&a, k),
{
    let d = idx.c_id as int;
    assert forall|p: int| 0 <= p < b.page_count(d) implies idx.page_ok(&b, p, #[trigger] b.page(d, p)) by {
        assert(b.page(d, p) == a.page(d, p));
        assert(idx.page_ok(&a, p, a.page(d, p)));
        match a.page(d, p).overflow_pointer {
            Some(q) => {
                assert(b.page(d, q as int) == a.page(d, q as int));
            },
            None => {},
        }
    }
    assert forall|k: Seq<u8>| #[trigger] idx.pointers_for(&b, k) == idx.pointers_for(&a, k) by {
        lemma_pointers_kept(idx, a, b, k, a.page_count(d));
    }
}

/// Equal pages give equal pointers.
proof fn lemma_pointers_kept(idx: FixedIndexFile, a: BufferPool, b: BufferPool, k: Seq<u8>, n: int)
    requires
        0 <= n <= a.page_count(idx.c_id as int),
        forall|p: int| 0 <= p < a.page_count(idx.c_id as int) ==> #[trigger] b.page(idx.c_id as int, p) == a.page(idx.c_id as int, p),
    ensures
        idx.pointers_upto(&b, k, n) == idx.pointers_upto(&a, k, n),
    decreases n,
{
    if n > 0 {
        lemma_pointers_kept(idx, a, b, k, n - 1);
        assert(b.page(idx.c_id as int, n - 1) == a.page(idx.c_id as int, n - 1));
    }
}

impl StorageManager {
    /// The catalog agrees with the pool: every table and index file is well
    /// formed, and no two files share a container.
    pub open spec fn wf(&self) -> bool {
        &&& self.bp.wf()
        &&& !self.bp.latch
        &&& self.lm.wf()
        &&& forall|i: int| 0 <= i < self.tables@.len() ==> {
            &&& (#[trigger] self.tables@[i]).table.file_wf(&self.bp)
            &&& self.tables@[i].index.index_wf(&self.bp)
            &&& self.tables@[i].table.c_id != self.tables@[i].index.c_id
            &&& !self.tables@[i].index.supports_range
        }
        &&& forall|i: int, j: int|
            0 <= i < self.tables@.len() && 0 <= j < self.tables@.len() && i != j ==> {
                &&& (#[trigger] self.tables@[i]).table.c_id != (#[trigger] self.tables@[j]).table.c_id
                &&& self.tables@[i].table.c_id != self.tables@[j].index.c_id
                &&& self.tables@[i].index.c_id != self.tables@[j].index.c_id
            }
    }

    /// A storage manager with no tables, whose lock requests wait at most `timeout_ms`.
    pub fn new(timeout_ms: u64) -> (r: StorageManager)
        ensures
            r.wf(),
            r.tables@.len() == 0,
            r.lm.timeout_ms == timeout_ms,
            r.bp.free_frame == 0,
            forall|c: int| 0 <= c < MAX_CONTAINERS ==> !r.bp.is_registered(c),
    {
        let lm = LockManager::new(timeout_ms);
        let bp = BufferPool::new();
        StorageManager { lm, bp, tables: Vec::new() }
    }

    /// The position of the table stored in container `c_id`.
    fn find_table(&self, c_id: ContainerId) -> (r: Option<usize>)
        ensures
            r matches Some(i) ==> i < self.tables@.len() && self.tables@[i as int].table.c_id == c_id,
            r is None ==> forall|i: int| 0 <= i < self.tables@.len() ==> (#[trigger] self.tables@[i]).table.c_id != c_id,
    {
        let mut i: usize = 0;
        while i < self.tables.len()
            invariant
                i <= self.tables@.len(),
                forall|j: int| 0 <= j < i ==> (#[trigger] self.tables@[j]).table.c_id != c_id,
            decreases self.tables@.len() - i,
        {
            if self.tables[i].table.c_id == c_id {
                return Some(i);
            }
            i += 1;
        }
        None
    }
}

/// Every table whose containers are kept stays well formed.
proof fn lemma_tables_kept(tables: Seq<TableFiles>, a: BufferPool, b: BufferPool)
    requires
        b.wf(),
        !b.latch,
        forall|i: int| 0 <= i < tables.len() ==> {
            &&& (#[trigger] tables[i]).table.file_wf(&a)
            &&& tables[i].index.index_wf(&a)
            &&& keeps_container(a, b, tables[i].table.c_id as int)
            &&& keeps_container(a, b, tables[i].index.c_id as int)
        },
    ensures
        forall|i: int| 0 <= i < tables.len() ==> {
            &&& (#[trigger] tables[i]).table.file_wf(&b)
            &&& tables[i].index.index_wf(&b)
        },
{
    assert forall|i: int| 0 <= i < tables.len() implies {
        &&& (#[trigger] tables[i]).table.file_wf(&b)
        &&& tables[i].index.index_wf(&b)
    } by {
        lemma_file_kept(tables[i].table, a, b);
        lemma_index_kept(tables[i].index, a, b);
    }
}

impl StorageManager {
    /// Registers a base-table container and a hash-index container, and
    /// creates the table's heap file and its index. Fails when the pool lacks
    /// the frames for their first pages or the ids for their containers.
    pub fn create_table_with_idx(&mut self, name: Option<String>) -> (r: Result<(ContainerId, ContainerId), CrustyError>)
        requires
            old(self).wf(),
        ensures
            final(self).wf(),
            final(self).lm == old(self).lm,
            old(self).bp.free_frame + 1 + STARTING_PAGE_CAPACITY > FRAMES ==> r == Err::<(ContainerId, ContainerId), CrustyError>(CrustyError::OutOfFrames),
            old(self).bp.free_frame + 1 + STARTING_PAGE_CAPACITY <= FRAMES && (exists|a: int, b: int|
                0 <= a < MAX_CONTAINERS && 0 <= b < MAX_CONTAINERS && a != b && !old(self).bp.is_registered(a)
                    && !old(self).bp.is_registered(b)) ==> r is Ok,
            r is Err ==> final(self).tables@ == old(self).tables@,
            r matches Err(e) ==> e == CrustyError::OutOfFrames || e == CrustyError::OutOfContainers,
            r matches Ok((t, i)) ==> {
                &&& t != i
                &&& !old(self).bp.is_registered(t as int) && old(self).bp.all_registered_below(t as int)
                &&& !old(self).bp.is_registered(i as int)
                &&& forall|d: int| 0 <= d < i && d != t ==> #[trigger] old(self).bp.containers@[d] is Some
                &&& final(self).bp.containers@[t as int]->Some_0.container_type == StateType::BaseTable
                &&& final(self).bp.containers@[i as int]->Some_0.container_type == INDEX_TYPE
                &&& final(self).tables@.len() == old(self).tables@.len() + 1
                &&& final(self).tables@.drop_last() == old(self).tables@
                &&& final(self).tables@.last().table.c_id == t
                &&& final(self).tables@.last().index.c_id == i
                &&& forall|k: Seq<u8>| #[trigger] final(self).tables@.last().index.pointers_for(&final(self).bp, k) == Seq::<ValueId>::empty()
            },
    {
        if self.bp.free_frame + 1 + STARTING_PAGE_CAPACITY as usize > FRAMES {
            return Err(CrustyError::OutOfFrames);
        }
        let i_name = match &name {
            Some(n) => Some(index_name(n)),
            None => None,
        };
        let ghost b0 = self.bp;
        let ghost tabs = self.tables@;
        let t_id = match self.bp.register_container(name, StateType::BaseTable) {
            Ok(t) => t,
            Err(e) => {
                proof {
                    lemma_same_pages_read_same(b0, self.bp);
                    assert forall|i: int| 0 <= i < tabs.len() implies keeps_container(b0, self.bp, (#[trigger] tabs[i]).table.c_id as int) && keeps_container(b0, self.bp, tabs[i].index.c_id as int) by {
                    }
                    lemma_tables_kept(tabs, b0, self.bp);
                    if exists|a: int, b: int| 0 <= a < MAX_CONTAINERS && 0 <= b < MAX_CONTAINERS && a != b && !b0.is_registered(a) && !b0.is_registered(b) {
                        let (a, b) = choose|a: int, b: int| 0 <= a < MAX_CONTAINERS && 0 <= b < MAX_CONTAINERS && a != b && !b0.is_registered(a) && !b0.is_registered(b);
                        assert(b0.containers@[a] is None);
                    }
                }
                return Err(e);
            },
        };
        let ghost b1 = self.bp;
        proof {
            lemma_same_pages_read_same(b0, b1);
            assert forall|i: int| 0 <= i < tabs.len() implies keeps_container(b0, b1, (#[trigger] tabs[i]).table.c_id as int) && keeps_container(b0, b1, tabs[i].index.c_id as int) by {
                assert(b0.is_registered(tabs[i].table.c_id as int));
                assert(b0.is_registered(tabs[i].index.c_id as int));
            }
            lemma_tables_kept(tabs, b0, b1);
        }
        let i_id = match self.bp.register_container(i_name, INDEX_TYPE) {
            Ok(i) => i,
            Err(e) => {
                proof {
                    lemma_same_pages_read_same(b1, self.bp);
                    assert forall|i: int| 0 <= i < tabs.len() implies keeps_container(b1, self.bp, (#[trigger] tabs[i]).table.c_id as int) && keeps_container(b1, self.bp, tabs[i].index.c_id as int) by {
                    }
                    lemma_tables_kept(tabs, b1, self.bp);
                    if exists|a: int, b: int| 0 <= a < MAX_CONTAINERS && 0 <= b < MAX_CONTAINERS && a != b && !b0.is_registered(a) && !b0.is_registered(b) {
                        let (a, b) = choose|a: int, b: int| 0 <= a < MAX_CONTAINERS && 0 <= b < MAX_CONTAINERS && a != b && !b0.is_registered(a) && !b0.is_registered(b);
                        if a != t_id {
                            assert(b1.containers@[a] == b0.containers@[a]);
                            assert(b1.containers@[a] is None);
                        } else {
                            assert(b1.containers@[b] == b0.containers@[b]);
                            assert(b1.containers@[b] is None);
                        }
                    }
                }
                return Err(e);
            },
        };
        let ghost b2 = self.bp;
        proof {
            lemma_same_pages_read_same(b1, b2);
            assert forall|i: int| 0 <= i < tabs.len() implies keeps_container(b1, b2, (#[trigger] tabs[i]).table.c_id as int) && keeps_container(b1, b2, tabs[i].index.c_id as int) by {
                assert(b1.is_registered(tabs[i].table.c_id as int));
                assert(b1.is_registered(tabs[i].index.c_id as int));
            }
            lemma_tables_kept(tabs, b1, b2);
            assert(b2.container_ok(t_id as int));
            assert(b2.container_ok(i_id as int));
        }
        let table = FixedHeapFile::new(t_id, &mut self.bp);
        let ghost b3 = self.bp;
        proof {
            assert forall|i: int| 0 <= i < tabs.len() implies keeps_container(b2, b3, (#[trigger] tabs[i]).table.c_id as int) && keeps_container(b2, b3, tabs[i].index.c_id as int) by {
                lemma_keeps_container(b2, b3, t_id as int, tabs[i].table.c_id as int);
                lemma_keeps_container(b2, b3, t_id as int, tabs[i].index.c_id as int);
            }
            lemma_tables_kept(tabs, b2, b3);
            lemma_keeps_container(b2, b3, t_id as int, i_id as int);
            assert(b3.container_ok(i_id as int));
        }
        let index = FixedIndexFile::new(i_id, &mut self.bp, false, STARTING_PAGE_CAPACITY);
        proof {
            assert forall|i: int| 0 <= i < tabs.len() implies keeps_container(b3, self.bp, (#[trigger] tabs[i]).table.c_id as int) && keeps_container(b3, self.bp, tabs[i].index.c_id as int) by {
                lemma_keeps_container(b3, self.bp, i_id as int, tabs[i].table.c_id as int);
                lemma_keeps_container(b3, self.bp, i_id as int, tabs[i].index.c_id as int);
            }
            lemma_tables_kept(tabs, b3, self.bp);
            lemma_keeps_container(b3, self.bp, i_id as int, t_id as int);
            lemma_file_kept(table, b3, self.bp);
        }
        proof {
            assert(b1.containers@[i_id as int] is None);
            assert(b0.containers@[i_id as int] == b1.containers@[i_id as int]);
            assert forall|d: int| 0 <= d < i_id && d != t_id implies #[trigger] b0.containers@[d] is Some by {
                assert(b1.containers@[d] is Some);
                assert(b0.containers@[d] == b1.containers@[d]);
            }
            assert(b2.containers@[t_id as int] == b1.containers@[t_id as int]);
            assert(b3.containers@[i_id as int] == b2.containers@[i_id as int]);
            assert(self.bp.containers@[t_id as int] == b3.containers@[t_id as int]);
        }
        self.tables.push(TableFiles { table, index });
        proof {
            assert(self.tables@.drop_last() =~= tabs);
        }
        Ok((t_id, i_id))
    }
}

impl StorageManager {
    /// The containers of the catalog are those of `o`, in order.
    pub open spec fn same_catalog(&self, o: &StorageManager) -> bool {
        &&& self.tables@.len() == o.tables@.len()
        &&& forall|i: int|
            0 <= i < self.tables@.len() ==> (#[trigger] self.tables@[i]).table.c_id == o.tables@[i].table.c_id
                && self.tables@[i].index == o.tables@[i].index
    }

    /// Whether a table is stored in container `c`.
    pub open spec fn has_table(&self, c: ContainerId) -> bool {
        exists|i: int| 0 <= i < self.tables@.len() && (#[trigger] self.tables@[i]).table.c_id == c
    }

    /// Stores a record in the table of container `c_id` and indexes it under
    /// its search key. Fails when there is no such table or no frame is left.
    pub fn insert_kv(&mut self, c_id: &ContainerId, key: &[u8], val: &[u8], txn: &TransactionId) -> (r: Result<ValueId, CrustyError>)
        requires
            old(self).wf(),
            key@.len() == KEY_SIZE,
            val@.len() == VALUE_SIZE,
        ensures
            final(self).wf(),
            final(self).same_catalog(old(self)),
            final(self).lm == old(self).lm,
            !old(self).has_table(*c_id) ==> r == Err::<ValueId, CrustyError>(CrustyError::ContainerDoesNotExist),
            r matches Err(e) ==> e == CrustyError::ContainerDoesNotExist || e == CrustyError::OutOfFrames,
            old(self).has_table(*c_id) ==> r is Ok || r == Err::<ValueId, CrustyError>(CrustyError::OutOfFrames),
            r == Err::<ValueId, CrustyError>(CrustyError::OutOfFrames) ==> final(self).bp.free_frame >= FRAMES,
            r matches Ok(v) ==> v.container_id == *c_id && old(self).bp.record(v) is None && final(self).bp.record(v)
                == Some((key@, val@)),
            r matches Ok(v) ==> forall|i: int| 0 <= i < old(self).tables@.len() && (#[trigger] old(self).tables@[i]).table.c_id == *c_id ==> {
                let ic = old(self).tables@[i].index.c_id;
                &&& exists|u: ValueId| {
                    &&& u.container_id == ic
                    &&& old(self).bp.record(u) is None
                    &&& final(self).bp.record(u) == Some((search_key_of(val@), fixed_bytes_of(v)))
                    &&& forall|w: ValueId| w.container_id == ic && w != u ==> #[trigger] final(self).bp.record(w) == old(self).bp.record(w)
                }
                &&& forall|w: ValueId| w.container_id != *c_id && w.container_id != ic ==> #[trigger] final(self).bp.record(w) == old(self).bp.record(w)
            },
            r matches Ok(v) ==> forall|u: ValueId| u.container_id == *c_id && u != v ==> #[trigger] final(self).bp.record(u) == old(self).bp.record(u),
            r matches Ok(v) ==> forall|i: int| 0 <= i < final(self).tables@.len() && (#[trigger] final(self).tables@[i]).table.c_id == *c_id
                ==> final(self).tables@[i].index.pointers_for(&final(self).bp, search_key_of(val@)).contains(v),
    {
        let i = match self.find_table(*c_id) {
            Some(i) => i,
            None => {
                return Err(CrustyError::ContainerDoesNotExist);
            },
        };
        let ghost b0 = self.bp;
        let ghost tabs = self.tables@;
        let search_key = extract_search_key(val);
        let mut files = self.tables[i];
        let ghost tc = files.table.c_id as int;
        let ghost ic = files.index.c_id as int;
        let v_id = match files.table.insert_kv(&mut self.bp, key, val, txn) {
            Ok(v) => v,
            Err(e) => {
                proof {
                    self.lemma_after_change(tabs, b0, i as int, files, tc);
                }
                self.tables.set(i, files);
                proof {
                    assert(self.tables@ =~= tabs.update(i as int, files));
                }
                return Err(e);
            },
        };
        let ghost b1 = self.bp;
        proof {
            self.lemma_after_change(tabs, b0, i as int, files, tc);
        }
        let ptr = v_id.to_fixed_bytes();
        let res = files.index.add(&mut self.bp, &search_key, &ptr, txn);
        proof {
            let t2 = tabs.update(i as int, files);
            assert forall|j: int| 0 <= j < t2.len() implies (#[trigger] t2[j]).table.file_wf(&b1) && t2[j].index.index_wf(&b1) by {
            }
            self.lemma_after_change(t2, b1, i as int, files, ic);
            lemma_keeps_container(b1, self.bp, ic, tc);
            lemma_file_kept(files.table, b1, self.bp);
            assert forall|u: ValueId| u.container_id == *c_id && u != v_id implies #[trigger] self.bp.record(u) == b0.record(u) by {
                assert(self.bp.record(u) == b1.record(u));
            }
        }
        self.tables.set(i, files);
        proof {
            assert(self.tables@ =~= tabs.update(i as int, files));
        }
        match res {
            Ok(u) => {
                proof {
                    lemma_records_kept_except(b0, b1, tc);
                    lemma_records_kept_except(b1, self.bp, ic);
                    assert forall|w: ValueId| w.container_id == ic && w != u implies #[trigger] self.bp.record(w) == b0.record(w) by {
                        assert(b1.record(w) == b0.record(w));
                    }
                    assert(b1.record(u) == b0.record(u));
                    assert forall|w: ValueId| w.container_id != *c_id && w.container_id != ic implies #[trigger] self.bp.record(w) == b0.record(w) by {
                        assert(b1.record(w) == b0.record(w));
                    }
                    lemma_fixed_bytes_round_trip(v_id);
                    assert(self.tables@[i as int].index.index_wf(&self.bp));
                    lemma_stored_entry_found(files.index, self.bp, u, search_key@, ptr@);
                    self.lemma_table_unique(i as int, *c_id);
                }
                Ok(v_id)
            },
            Err(e) => Err(e),
        }
    }

    /// After a change confined to container `c` of table `i`, the other files
    /// stay well formed.
    proof fn lemma_after_change(&self, tabs: Seq<TableFiles>, before: BufferPool, i: int, files: TableFiles, c: int)
        requires
            0 <= i < tabs.len(),
            files.table.c_id == tabs[i].table.c_id,
            files.index == tabs[i].index,
            c == files.table.c_id || c == files.index.c_id,
            c == files.index.c_id ==> tabs[i] == files,
            forall|j: int| 0 <= j < tabs.len() ==> {
                &&& (#[trigger] tabs[j]).table.file_wf(&before)
                &&& tabs[j].index.index_wf(&before)
                &&& tabs[j].table.c_id != tabs[j].index.c_id
            },
            forall|j: int, k: int|
                0 <= j < tabs.len() && 0 <= k < tabs.len() && j != k ==> {
                    &&& (#[trigger] tabs[j]).table.c_id != (#[trigger] tabs[k]).table.c_id
                    &&& tabs[j].table.c_id != tabs[k].index.c_id
                    &&& tabs[j].index.c_id != tabs[k].index.c_id
                },
            self.bp.wf(),
            !self.bp.latch,
            self.bp.keeps_others(&before, c),
            c == files.table.c_id ==> files.table.file_wf(&self.bp),
            c == files.index.c_id ==> files.index.index_wf(&self.bp),
        ensures
            forall|j: int| 0 <= j < tabs.len() ==> {
                &&& (#[trigger] tabs.update(i, files)[j]).table.file_wf(&self.bp)
                &&& tabs.update(i, files)[j].index.index_wf(&self.bp)
                &&& tabs.update(i, files)[j].table.c_id != tabs.update(i, files)[j].index.c_id
            },
    {
        let t2 = tabs.update(i, files);
        assert forall|j: int| 0 <= j < tabs.len() implies {
            &&& (#[trigger] t2[j]).table.file_wf(&self.bp)
            &&& t2[j].index.index_wf(&self.bp)
            &&& t2[j].table.c_id != t2[j].index.c_id
        } by {
            assert(before.is_registered(tabs[j].table.c_id as int));
            assert(before.is_registered(tabs[j].index.c_id as int));
            if j != i {
                lemma_keeps_container(before, self.bp, c, tabs[j].table.c_id as int);
                lemma_keeps_container(before, self.bp, c, tabs[j].index.c_id as int);
                lemma_file_kept(tabs[j].table, before, self.bp);
                lemma_index_kept(tabs[j].index, before, self.bp);
            } else if c == files.table.c_id {
                lemma_keeps_container(before, self.bp, c, tabs[j].index.c_id as int);
                lemma_index_kept(tabs[j].index, before, self.bp);
            } else {
                lemma_keeps_container(before, self.bp, c, tabs[j].table.c_id as int);
                lemma_file_kept(files.table, before, self.bp);
            }
        }
    }
}

/// The views of records returned by value.
pub open spec fn kvs_view(v: Seq<(Vec<u8>, Vec<u8>)>) -> Seq<KvPair> {
    v.map_values(|p: (Vec<u8>, Vec<u8>)| (p.0@, p.1@))
}

impl StorageManager {
    /// Reading pins and unpins frames only: the catalog stays well formed.
    proof fn lemma_read_only(&self, before: &StorageManager)
        requires
            before.wf(),
            self.bp.wf(),
            !self.bp.latch,
            self.bp.same_pages(&before.bp),
            self.bp.containers == before.bp.containers,
            self.tables == before.tables,
            self.lm == before.lm,
        ensures
            self.wf(),
            forall|v: ValueId| #[trigger] self.bp.record(v) == before.bp.record(v),
    {
        lemma_same_pages_read_same(before.bp, self.bp);
        lemma_same_pages_keep(before.bp, self.bp, 0);
        assert forall|i: int| 0 <= i < self.tables@.len() implies {
            &&& (#[trigger] self.tables@[i]).table.file_wf(&self.bp)
            &&& self.tables@[i].index.index_wf(&self.bp)
        } by {
            let t = self.tables@[i];
            assert(before.bp.is_registered(t.table.c_id as int));
            assert(before.bp.is_registered(t.index.c_id as int));
            assert(keeps_container(before.bp, self.bp, t.table.c_id as int));
            assert(keeps_container(before.bp, self.bp, t.index.c_id as int));
            lemma_file_kept(t.table, before.bp, self.bp);
            lemma_index_kept(t.index, before.bp, self.bp);
        }
    }

    /// The record at `v_id`, read through the table of container `c_id`.
    pub fn get_kv_by_val_id(&mut self, c_id: &ContainerId, v_id: &ValueId, txn: &TransactionId) -> (r: Result<(Vec<u8>, Vec<u8>), CrustyError>)
        requires
            old(self).wf(),
        ensures
            final(self).wf(),
            final(self).tables == old(self).tables,
            final(self).lm == old(self).lm,
            forall|v: ValueId| #[trigger] final(self).bp.record(v) == old(self).bp.record(v),
            !old(self).has_table(*c_id) ==> r == Err::<(Vec<u8>, Vec<u8>), CrustyError>(CrustyError::ContainerDoesNotExist),
            old(self).has_table(*c_id) ==> match old(self).bp.record(*v_id) {
                Some(kv) => r matches Ok(got) && got.0@ == kv.0 && got.1@ == kv.1,
                None => r is Err,
            },
    {
        let i = match self.find_table(*c_id) {
            Some(i) => i,
            None => {
                return Err(CrustyError::ContainerDoesNotExist);
            },
        };
        let ghost before = *self;
        let files = self.tables[i];
        let r = files.table.get_kv(&mut self.bp, v_id, txn);
        proof {
            self.lemma_read_only(&before);
        }
        r
    }

    /// The records at `ptrs`, in order, read through `table`. Fails at the
    /// first pointer that leads to no record.
    fn records_at(&mut self, table: &FixedHeapFile, ptrs: &Vec<ValueId>, txn: &TransactionId) -> (r: Result<Vec<(Vec<u8>, Vec<u8>)>, CrustyError>)
        requires
            old(self).wf(),
        ensures
            final(self).wf(),
            final(self).tables == old(self).tables,
            final(self).lm == old(self).lm,
            forall|v: ValueId| #[trigger] final(self).bp.record(v) == old(self).bp.record(v),
            (forall|j: int| 0 <= j < ptrs@.len() ==> (#[trigger] old(self).bp.record(ptrs@[j])) is Some) ==> (r matches Ok(kvs)
                && kvs_view(kvs@) == ptrs@.map_values(|v: ValueId| old(self).bp.record(v)->Some_0)),
            r is Err ==> exists|j: int| 0 <= j < ptrs@.len() && (#[trigger] old(self).bp.record(ptrs@[j])) is None,
    {
        let ghost before = *self;
        let ghost want = ptrs@.map_values(|v: ValueId| before.bp.record(v)->Some_0);
        let mut res: Vec<(Vec<u8>, Vec<u8>)> = Vec::new();
        let mut j: usize = 0;
        while j < ptrs.len()
            invariant
                before == *old(self),
                before.wf(),
                self.bp.wf(),
                !self.bp.latch,
                self.bp.same_pages(&before.bp),
                self.bp.containers == before.bp.containers,
                self.tables == before.tables,
                self.lm == before.lm,
                j <= ptrs@.len(),
                want == ptrs@.map_values(|v: ValueId| before.bp.record(v)->Some_0),
                forall|a: int| 0 <= a < j ==> (#[trigger] before.bp.record(ptrs@[a])) is Some,
                res@.len() == j,
                kvs_view(res@) == want.take(j as int),
            decreases ptrs@.len() - j,
        {
            let ghost b0 = self.bp;
            proof {
                self.lemma_read_only(&before);
            }
            let kv = table.get_kv(&mut self.bp, &ptrs[j], txn);
            proof {
                lemma_same_pages_read_same(b0, self.bp);
                lemma_same_pages_keep(b0, self.bp, 0);
                self.lemma_read_only(&before);
            }
            match kv {
                Ok(kv) => {
                    let ghost prev = res@;
                    let ghost kv_v = (kv.0@, kv.1@);
                    res.push(kv);
                    proof {
                        assert(before.bp.record(ptrs@[j as int]) is Some);
                        assert(want[j as int] == kv_v);
                        assert forall|k: int| 0 <= k < j + 1 implies #[trigger] kvs_view(res@)[k] == want.take(j + 1)[k] by {
                            if k < j {
                                assert(res@[k] == prev[k]);
                                assert(kvs_view(prev)[k] == want.take(j as int)[k]);
                            }
                        }
                        assert(kvs_view(res@) =~= want.take(j + 1));
                    }
                },
                Err(e) => {
                    proof {
                        assert(before.bp.record(ptrs@[j as int]) is None);
                    }
                    return Err(e);
                },
            }
            j += 1;
        }
        proof {
            self.lemma_read_only(&before);
            assert(want.take(j as int) =~= want);
        }
        Ok(res)
    }

    /// The position of the table of `c_id`: no other table has that container.
    proof fn lemma_table_unique(&self, i: int, c_id: ContainerId)
        requires
            self.wf(),
            0 <= i < self.tables@.len(),
            self.tables@[i].table.c_id == c_id,
        ensures
            self.has_table(c_id),
            forall|x: int| 0 <= x < self.tables@.len() && (#[trigger] self.tables@[x]).table.c_id == c_id ==> x == i,
    {
        assert forall|x: int| 0 <= x < self.tables@.len() && (#[trigger] self.tables@[x]).table.c_id == c_id implies x == i by {
            if x != i {
                assert(self.tables@[x].table.c_id != self.tables@[i].table.c_id);
            }
        }
    }

    /// The records indexed under `search_key` in the table of container
    /// `c_id`, in the order the index yields their pointers. Fails when there
    /// is no such table or a pointer leads to no record.
    pub fn get_kvs_by_search_key_equality(&mut self, c_id: &ContainerId, search_key: &[u8; SEARCH_KEY_SIZE], txn: &TransactionId) -> (r: Result<Vec<(Vec<u8>, Vec<u8>)>, CrustyError>)
        requires
            old(self).wf(),
        ensures
            final(self).wf(),
            final(self).tables == old(self).tables,
            final(self).lm == old(self).lm,
            forall|v: ValueId| #[trigger] final(self).bp.record(v) == old(self).bp.record(v),
            !old(self).has_table(*c_id) ==> r == Err::<Vec<(Vec<u8>, Vec<u8>)>, CrustyError>(CrustyError::ContainerDoesNotExist),
            forall|i: int| 0 <= i < old(self).tables@.len() && (#[trigger] old(self).tables@[i]).table.c_id == *c_id ==> {
                let ptrs = old(self).tables@[i].index.pointers_for(&old(self).bp, search_key@);
                &&& (forall|j: int| 0 <= j < ptrs.len() ==> (#[trigger] old(self).bp.record(ptrs[j])) is Some) ==> (r matches Ok(kvs)
                    && kvs_view(kvs@) == ptrs.map_values(|v: ValueId| old(self).bp.record(v)->Some_0))
                &&& r is Err ==> exists|j: int| 0 <= j < ptrs.len() && (#[trigger] old(self).bp.record(ptrs[j])) is None
            },
    {
        let i = match self.find_table(*c_id) {
            Some(i) => i,
            None => {
                return Err(CrustyError::ContainerDoesNotExist);
            },
        };
        proof {
            self.lemma_table_unique(i as int, *c_id);
        }
        let files = self.tables[i];
        let ptrs = match files.index.get_pointers_for_key(&self.bp, search_key, txn) {
            Ok(p) => p,
            Err(e) => {
                return Err(e);
            },
        };
        self.records_at(&files.table, &ptrs, txn)
    }

    /// The records whose search key lies in `[search_key_min_inclusive,
    /// search_key_max_exclusive)` in the table of container `c_id`. The hash
    /// indexes of this storage manager offer no range lookups, so this fails
    /// with an invalid-operation error on every table.
    pub fn get_kvs_by_search_key_range(
        &mut self,
        c_id: &ContainerId,
        search_key_min_inclusive: &[u8; SEARCH_KEY_SIZE],
        search_key_max_exclusive: &[u8; SEARCH_KEY_SIZE],
        txn: &TransactionId,
    ) -> (r: Result<Vec<(Vec<u8>, Vec<u8>)>, CrustyError>)
        requires
            old(self).wf(),
        ensures
            final(self).wf(),
            final(self).tables == old(self).tables,
            final(self).lm == old(self).lm,
            forall|v: ValueId| #[trigger] final(self).bp.record(v) == old(self).bp.record(v),
            !old(self).has_table(*c_id) ==> r == Err::<Vec<(Vec<u8>, Vec<u8>)>, CrustyError>(CrustyError::ContainerDoesNotExist),
            old(self).has_table(*c_id) ==> r == Err::<Vec<(Vec<u8>, Vec<u8>)>, CrustyError>(CrustyError::InvalidOperation),
    {
        let i = match self.find_table(*c_id) {
            Some(i) => i,
            None => {
                return Err(CrustyError::ContainerDoesNotExist);
            },
        };
        proof {
            self.lemma_table_unique(i as int, *c_id);
        }
        let files = self.tables[i];
        let ptrs = match files.index.get_pointers_for_key_range(&self.bp, search_key_min_inclusive, search_key_max_exclusive, txn) {
            Ok(p) => p,
            Err(e) => {
                return Err(e);
            },
        };
        self.records_at(&files.table, &ptrs, txn)
    }
}

impl StorageManager {
    /// Inserts each record in turn, as `insert_kv` does; stops at the first failure.
    pub fn insert_kvs(&mut self, c_id: &ContainerId, recs: &Vec<(Vec<u8>, Vec<u8>)>, txn: &TransactionId) -> (r: Result<Vec<ValueId>, CrustyError>)
        requires
            old(self).wf(),
            forall|i: int| 0 <= i < recs@.len() ==> (#[trigger] recs@[i]).0@.len() == KEY_SIZE && recs@[i].1@.len() == VALUE_SIZE,
        ensures
            final(self).wf(),
            final(self).same_catalog(old(self)),
            !old(self).has_table(*c_id) && recs@.len() > 0 ==> r == Err::<Vec<ValueId>, CrustyError>(CrustyError::ContainerDoesNotExist),
            r matches Err(e) ==> e == CrustyError::ContainerDoesNotExist || e == CrustyError::OutOfFrames,
            old(self).has_table(*c_id) ==> r is Ok || r == Err::<Vec<ValueId>, CrustyError>(CrustyError::OutOfFrames),
            r == Err::<Vec<ValueId>, CrustyError>(CrustyError::OutOfFrames) ==> final(self).bp.free_frame >= FRAMES,
            r matches Ok(vs) ==> vs@.len() == recs@.len() && forall|j: int| 0 <= j < vs@.len() ==> {
                &&& (#[trigger] vs@[j]).container_id == *c_id
                &&& final(self).bp.record(vs@[j]) == Some((recs@[j].0@, recs@[j].1@))
            },
    {
        let mut vs: Vec<ValueId> = Vec::new();
        let mut i: usize = 0;
        while i < recs.len()
            invariant
                self.wf(),
                self.same_catalog(old(self)),
                i <= recs@.len(),
                vs@.len() == i,
                forall|i: int| 0 <= i < recs@.len() ==> (#[trigger] recs@[i]).0@.len() == KEY_SIZE && recs@[i].1@.len() == VALUE_SIZE,
                forall|j: int| 0 <= j < i ==> {
                    &&& (#[trigger] vs@[j]).container_id == *c_id
                    &&& self.bp.record(vs@[j]) == Some((recs@[j].0@, recs@[j].1@))
                },
                i > 0 ==> old(self).has_table(*c_id),
            decreases recs@.len() - i,
        {
            let ghost b0 = self.bp;
            let ghost s0 = *self;
            match self.insert_kv(c_id, recs[i].0.as_slice(), recs[i].1.as_slice(), txn) {
                Ok(v) => {
                    proof {
                        assert forall|j: int| 0 <= j < i implies (#[trigger] vs@[j]) != v by {
                            assert(b0.record(vs@[j]) is Some);
                        }
                        if !old(self).has_table(*c_id) {
                            assert(!s0.has_table(*c_id)) by {
                                if s0.has_table(*c_id) {
                                    let x = choose|x: int| 0 <= x < s0.tables@.len() && (#[trigger] s0.tables@[x]).table.c_id == *c_id;
                                    assert(old(self).tables@[x].table.c_id == *c_id);
                                }
                            }
                        }
                    }
                    let ghost prev = vs@;
                    vs.push(v);
                    proof {
                        assert forall|j: int| 0 <= j < i + 1 implies {
                            &&& (#[trigger] vs@[j]).container_id == *c_id
                            &&& self.bp.record(vs@[j]) == Some((recs@[j].0@, recs@[j].1@))
                        } by {
                            if j < i {
                                assert(vs@[j] == prev[j]);
                            }
                        }
                        assert forall|x: int| 0 <= x < self.tables@.len() implies (#[trigger] self.tables@[x]).table.c_id == old(self).tables@[x].table.c_id && self.tables@[x].index == old(self).tables@[x].index by {
                            assert(s0.tables@[x].table.c_id == old(self).tables@[x].table.c_id);
                        }
                    }
                },
                Err(e) => {
                    proof {
                        if old(self).has_table(*c_id) {
                            let x = choose|x: int| 0 <= x < old(self).tables@.len() && (#[trigger] old(self).tables@[x]).table.c_id == *c_id;
                            assert(s0.tables@[x].table.c_id == *c_id);
                            assert(s0.has_table(*c_id));
                        }
                        assert forall|x: int| 0 <= x < self.tables@.len() implies (#[trigger] self.tables@[x]).table.c_id == old(self).tables@[x].table.c_id && self.tables@[x].index == old(self).tables@[x].index by {
                            assert(s0.tables@[x].table.c_id == old(self).tables@[x].table.c_id);
                        }
                        if !old(self).has_table(*c_id) {
                            assert(!s0.has_table(*c_id)) by {
                                if s0.has_table(*c_id) {
                                    let x = choose|x: int| 0 <= x < s0.tables@.len() && (#[trigger] s0.tables@[x]).table.c_id == *c_id;
                                    assert(old(self).tables@[x].table.c_id == *c_id);
                                }
                            }
                        }
                    }
                    return Err(e);
                },
            }
            i += 1;
        }
        Ok(vs)
    }
}

} // verus!
