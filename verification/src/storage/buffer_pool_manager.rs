//! The buffer pool manager: it keeps pages in a fixed number of frames,
//! pins them for its callers, picks victims among the unpinned frames and
//! writes dirty victims back before their frames take another page.

use vstd::prelude::*;
use crate::catalog::Catalog;
use crate::storage::buffer_pool::{Buffer, BufferPool, BufferPoolID};
use crate::storage::descriptors::{DescriptorID, Descriptors};
use crate::storage::disk_manager::DiskManager;
use crate::storage::hash_table::HashTable;
use crate::storage::page::{Page, PageHeader, PageID, PageView, PAGE_SIZE};
use crate::storage::protocol::{
    allocation_begun, candidates_inv, dirty_frames, fetched, flush_all_begun, flush_begun,
    flushed_from, frame_of, frames_inv, gave_up, holds, idle, in_flight, key_in_range,
    last_page_begun, load_begun, next_dirty, page_key, pending_inv, pool_inv, resident, resumed,
    taken, took_victim, unpinned, victim_ready, write_request, DiskReply, DiskRequest, FrameView,
    Key, Outcome, Pending, PoolView, RequestView, Step, StepView,
};
use crate::storage::replacer::{LruReplacer, Replacer};
use crate::storage::StorageError;

verus! {

/// The buffer pool manager, with the victim selector `R`.
pub struct BufferPoolManager<R> where R: Replacer {
    replacer: R,
    disk_manager: DiskManager,
    buffer_pool: BufferPool,
    page_table: HashTable<Key, DescriptorID>,
    descriptors: Descriptors,
    bound: Vec<Option<Key>>,
    pending: Pending,
}

impl<R: Replacer> View for BufferPoolManager<R> {
    type V = PoolView;

    closed spec fn view(&self) -> PoolView {
        PoolView {
            frames: Seq::new(
                self.buffer_pool.frames().len(),
                |f: int|
                    FrameView {
                        page: self.buffer_pool.frames()[f].page@,
                        key: self.bound@[f],
                        pin_count: self.descriptors.items@[f]@.pin_count,
                        dirty: self.descriptors.items@[f]@.dirty,
                    },
            ),
            candidates: self.replacer.candidates(),
            policy: R::policy(),
            pending: self.pending,
        }
    }
}

impl<R: Replacer> BufferPoolManager<R> {
    /// The disk manager, which knows the catalog and the files' paths.
    pub closed spec fn disk(&self) -> DiskManager {
        self.disk_manager
    }

    /// The number of tables in the catalog.
    pub open spec fn tables(&self) -> nat {
        self.disk().catalog().spec_schemas().len()
    }

    /// The page table: for each resident page, the descriptor of its frame.
    pub closed spec fn table(&self) -> Map<Key, DescriptorID> {
        self.page_table@
    }

    /// Whether the manager's parts agree with each other: each part is
    /// consistent, there are as many descriptors as frames, and the page
    /// table lists exactly the resident pages.
    pub closed spec fn parts_wf(&self) -> bool {
        let n = self.buffer_pool.frames().len();
        &&& self.descriptors.items@.len() == n
        &&& self.bound@.len() == n
        &&& self.buffer_pool.wf()
        &&& self.descriptors.wf()
        &&& self.replacer.wf()
        &&& self.replacer.capacity() == n
        &&& self.page_table.wf()
        &&& self.page_table.spec_size() == n
        &&& forall|key: Key| #[trigger]
            self.page_table@.contains_key(key) <==> resident(self@.frames, key)
        &&& forall|key: Key| #[trigger]
            self.page_table@.contains_key(key) ==> holds(
                self@.frames,
                self.page_table@[key].0 as int,
                key,
            )
    }

    /// Whether the manager is consistent: its parts agree, and its state
    /// has its invariant.
    pub open spec fn wf(&self) -> bool {
        self.parts_wf() && pool_inv(self@, self.tables())
    }

    /// The page table of a consistent manager holds one entry for each
    /// resident page, which names the page's frame, and none for any other
    /// page; no frame stands under two keys.
    pub proof fn lemma_page_table(&self)
        requires
            self.wf(),
        ensures
            forall|key: Key| #[trigger] self.table().contains_key(key) <==> resident(self@.frames, key),
            forall|key: Key| #[trigger]
                self.table().contains_key(key) ==> self.table()[key].0 == frame_of(self@.frames, key),
            forall|a: Key, b: Key|
                #[trigger] self.table().contains_key(a) && #[trigger] self.table().contains_key(b)
                    && self.table()[a] == self.table()[b] ==> a == b,
    {
        assert forall|key: Key| #[trigger] self.table().contains_key(key) implies self.table()[key].0
            == frame_of(self@.frames, key) by {
            lemma_frame_of(self@.frames, self.tables(), self.table()[key].0 as int, key);
        }
        assert forall|a: Key, b: Key|
            #[trigger] self.table().contains_key(a) && #[trigger] self.table().contains_key(b)
                && self.table()[a] == self.table()[b] implies a == b by {
            assert(holds(self@.frames, self.table()[a].0 as int, a));
            assert(holds(self@.frames, self.table()[b].0 as int, b));
        }
    }

    /// The key of the page `p_id` of the table `table_name`, or `None`
    /// where the catalog lacks the table.
    pub open spec fn spec_key(&self, p_id: PageID, table_name: Seq<char>) -> Option<Key> {
        page_key(self.disk(), p_id, table_name)
    }

    /// The catalog of the tables.
    pub fn catalog(&self) -> (r: &Catalog)
        ensures
            *r == self.disk().catalog(),
    {
        self.disk_manager.get_catalog()
    }

    /// The number of frames.
    pub fn pool_size(&self) -> (n: usize)
        ensures
            n == self@.frames.len(),
    {
        self.buffer_pool.size()
    }

    /// Whether no operation waits for the disk.
    pub fn is_idle(&self) -> (r: bool)
        ensures
            r == self@.pending is Idle,
    {
        match self.pending {
            Pending::Idle => true,
            _ => false,
        }
    }

    fn key_of(&self, p_id: PageID, table_name: &str) -> (r: Option<Key>)
        ensures
            r == self.spec_key(p_id, table_name@),
            r matches Some(key) ==> key.table < self.tables(),
    {
        match self.disk_manager.get_catalog().table_id(table_name) {
            Some(t) => Some(Key::new(p_id, t)),
            None => None,
        }
    }

    fn lookup(&self, key: Key) -> (r: Option<DescriptorID>)
        requires
            self.parts_wf(),
            frames_inv(self@.frames, self.tables()),
        ensures
            match r {
                Some(d) => resident(self@.frames, key) && d.0 == frame_of(self@.frames, key)
                    && d.0 < self@.frames.len(),
                None => !resident(self@.frames, key),
            },
    {
        let r = self.page_table.get(key);
        proof {
            if let Some(d) = r {
                lemma_frame_of(self@.frames, self.tables(), d.0 as int, key);
            }
        }
        r
    }

    /// The frame with the given index.
    pub fn buffer(&self, id: BufferPoolID) -> (buffer: &Buffer)
        requires
            self.wf(),
            id.0 < self@.frames.len(),
        ensures
            buffer.id == id,
            buffer.page@ == self@.frames[id.0 as int].page,
    {
        self.buffer_pool.get(id)
    }

    /// Whether `self` is `pre` with `buffer` in the frame `id`.
    pub closed spec fn with_buffer(&self, pre: &Self, id: BufferPoolID, buffer: Buffer) -> bool {
        &&& self.buffer_pool.frames() == pre.buffer_pool.frames().update(id.0 as int, buffer)
        &&& self.replacer == pre.replacer
        &&& self.disk_manager == pre.disk_manager
        &&& self.page_table == pre.page_table
        &&& self.descriptors == pre.descriptors
        &&& self.bound == pre.bound
        &&& self.pending == pre.pending
    }

    /// A manager stays consistent when the page of a frame changes, as
    /// long as the frame keeps its index and the page its number.
    pub proof fn lemma_with_buffer(&self, pre: &Self, id: BufferPoolID, buffer: Buffer)
        requires
            pre.wf(),
            id.0 < pre@.frames.len(),
            self.with_buffer(pre, id, buffer),
            buffer.id == id,
            buffer.page@.id == pre@.frames[id.0 as int].page.id,
        ensures
            self.wf(),
            self.disk() == pre.disk(),
            self@ == (PoolView {
                frames: pre@.frames.update(
                    id.0 as int,
                    FrameView { page: buffer.page@, ..pre@.frames[id.0 as int] },
                ),
                ..pre@
            }),
    {
        let frames = pre@.frames;
        assert(self@.frames =~= frames.update(
            id.0 as int,
            FrameView { page: buffer.page@, ..frames[id.0 as int] },
        ));
        assert forall|key: Key| resident(self@.frames, key) == resident(frames, key) by {
            if resident(self@.frames, key) {
                let f = choose|f: int| holds(self@.frames, f, key);
                assert(holds(frames, f, key));
            }
            if resident(frames, key) {
                let f = choose|f: int| holds(frames, f, key);
                assert(holds(self@.frames, f, key));
            }
        }
        assert forall|key: Key| #[trigger] self.page_table@.contains_key(key) implies holds(
            self@.frames,
            self.page_table@[key].0 as int,
            key,
        ) by {
            assert(holds(frames, pre.page_table@[key].0 as int, key));
        }
        assert(self.buffer_pool.wf());
        assert(self.parts_wf());
        assert(pool_inv(self@, self.tables()));
    }

    /// The frame with the given index, to change its page. What the
    /// manager is afterwards, `lemma_with_buffer` tells.
    pub fn buffer_mut(&mut self, id: BufferPoolID) -> (buffer: &mut Buffer)
        requires
            old(self).wf(),
            id.0 < old(self)@.frames.len(),
        ensures
            buffer.id == id,
            buffer.page@ == old(self)@.frames[id.0 as int].page,
            final(self).with_buffer(old(self), id, *final(buffer)),
    {
        self.buffer_pool.get_mut(id)
    }

    /// Marks the page of the frame with the given index as changed.
    pub fn mark_dirty(&mut self, buffer_pool_id: BufferPoolID) -> (r: Result<(), StorageError>)
        requires
            old(self).wf(),
            buffer_pool_id.0 < old(self)@.frames.len(),
        ensures
            r is Ok,
            final(self).wf(),
            final(self).disk() == old(self).disk(),
            final(self)@ == (PoolView {
                frames: old(self)@.frames.update(
                    buffer_pool_id.0 as int,
                    FrameView { dirty: true, ..old(self)@.frames[buffer_pool_id.0 as int] },
                ),
                ..old(self)@
            }),
    {
        let descriptor_id = DescriptorID::from_buf_pool_id(buffer_pool_id);
        let descriptor = self.descriptors.get_mut(descriptor_id);
        descriptor.mark_dirty();
        proof {
            let frames = old(self)@.frames;
            assert(self@.frames =~= frames.update(
                buffer_pool_id.0 as int,
                FrameView { dirty: true, ..frames[buffer_pool_id.0 as int] },
            ));
            assert forall|key: Key| resident(self@.frames, key) == resident(frames, key) by {
                if resident(self@.frames, key) {
                    let f = choose|f: int| holds(self@.frames, f, key);
                    assert(holds(frames, f, key));
                }
                if resident(frames, key) {
                    let f = choose|f: int| holds(frames, f, key);
                    assert(holds(self@.frames, f, key));
                }
            }
        }
        Ok(())
    }

    /// Takes the next victim out of the replacer.
    ///
    /// A frame that somebody holds is no candidate, so the first candidate
    /// is free; the loop stays as a guard for a replacer that still lists
    /// a held frame.
    #[verifier::rlimit(50)]
    fn victim_descriptor(&mut self) -> (r: Option<DescriptorID>)
        requires
            old(self).parts_wf(),
            frames_inv(old(self)@.frames, old(self).tables()),
            candidates_inv(old(self)@.frames, old(self)@.candidates, None),
        ensures
            final(self).parts_wf(),
            final(self).disk() == old(self).disk(),
            final(self)@.frames == old(self)@.frames,
            final(self)@.pending == old(self)@.pending,
            match r {
                None => old(self)@.candidates.len() == 0 && final(self)@ == old(self)@,
                Some(v) => {
                    &&& old(self)@.candidates.len() > 0
                    &&& v.0 == old(self)@.candidates[0]
                    &&& final(self)@ == taken(old(self)@)
                    &&& final(self)@.candidates.to_set() == old(self)@.candidates.to_set().remove(v.0)
                    &&& candidates_inv(final(self)@.frames, final(self)@.candidates, Some(v.0 as int))
                },
            },
    {
        let first = self.replacer.victim();
        let mut victim = match first {
            None => {
                return None;
            },
            Some(v) => v,
        };
        proof {
            let before = old(self)@.candidates;
            let after = self@.candidates;
            let frames = self@.frames;
            self.replacer.lemma_wf();
            assert(before.contains(victim.0));
            assert forall|x: usize| after.contains(x) <==> before.contains(x) && x != victim.0 by {
                assert(after.to_set().contains(x) == after.contains(x));
                assert(before.to_set().contains(x) == before.contains(x));
            }
            assert forall|i: int| 0 <= i < after.len() implies (#[trigger] after[i])
                < frames.len() by {
                assert(after.contains(after[i]));
                assert(before.contains(after[i]));
                let j = choose|j: int| 0 <= j < before.len() && before[j] == after[i];
                assert(before[j] < frames.len());
            }
            assert(frames[victim.0 as int].pin_count == 0);
        }
        while self.descriptors.get(victim).pinned()
            invariant
                self.parts_wf(),
                victim.0 < self.descriptors.items@.len(),
                self.descriptors.items@[victim.0 as int]@.pin_count == 0,
                self.disk() == old(self).disk(),
                self@.frames == old(self)@.frames,
                self@.pending == old(self)@.pending,
                old(self)@.candidates.len() > 0,
                victim.0 == old(self)@.candidates[0],
                self@ == taken(old(self)@),
                self@.candidates.to_set() == old(self)@.candidates.to_set().remove(victim.0),
                candidates_inv(self@.frames, self@.candidates, Some(victim.0 as int)),
            decreases self@.candidates.len(),
        {
            match self.replacer.victim() {
                Some(next) => {
                    victim = next;
                },
                None => {
                    return None;
                },
            }
        }
        Some(victim)
    }

    /// Puts `page` in the frame `v` as the page `key`, pinned once and
    /// clean, and lists it in the page table in place of the page that
    /// the frame held.
    #[verifier::rlimit(50)]
    fn load_page_to_buffer_pool(&mut self, v: DescriptorID, key: Key, page: Page)
        requires
            old(self).parts_wf(),
            frames_inv(old(self)@.frames, old(self).tables()),
            candidates_inv(old(self)@.frames, old(self)@.candidates, Some(v.0 as int)),
            key_in_range(key, old(self).tables()),
            !resident(old(self)@.frames, key),
            page@.id == key.page_id.0,
        ensures
            final(self).wf(),
            final(self).disk() == old(self).disk(),
            final(self)@.frames == old(self)@.frames.update(
                v.0 as int,
                FrameView { page: page@, key: Some(key), pin_count: 1, dirty: false },
            ),
            final(self)@.candidates == old(self)@.candidates,
            final(self)@.pending is Idle,
    {
        let ghost frames = self@.frames;
        let ghost table = self.page_table@;
        let descriptor = self.descriptors.get_mut(v);
        descriptor.reset();
        descriptor.pin();
        let held = self.bound[v.0];
        if let Some(old_key) = held {
            self.page_table.remove(old_key);
        }
        self.page_table.put(key, v);
        self.bound.set(v.0, Some(key));
        self.buffer_pool.put(BufferPoolID(v.0), page);
        self.pending = Pending::Idle;
        proof {
            let after = self@.frames;
            assert(after =~= frames.update(
                v.0 as int,
                FrameView { page: page@, key: Some(key), pin_count: 1, dirty: false },
            ));
            assert forall|k: Key| #[trigger]
                self.page_table@.contains_key(k) <==> resident(after, k) by {
                if self.page_table@.contains_key(k) {
                    if k == key {
                        assert(holds(after, v.0 as int, k));
                    } else {
                        assert(table.contains_key(k));
                        let f = table[k].0 as int;
                        assert(holds(frames, f, k));
                        assert(holds(after, f, k));
                    }
                }
                if resident(after, k) {
                    let f = choose|f: int| holds(after, f, k);
                    if f != v.0 {
                        assert(holds(frames, f, k));
                        assert(resident(frames, k));
                        assert(table.contains_key(k));
                        if held is Some && held->Some_0 == k {
                            assert(frames[v.0 as int].key != frames[f].key);
                        }
                    }
                }
            }
            assert forall|k: Key| #[trigger] self.page_table@.contains_key(k) implies holds(
                after,
                self.page_table@[k].0 as int,
                k,
            ) by {
                if k != key {
                    let f = table[k].0 as int;
                    assert(holds(frames, f, k));
                    assert(holds(after, f, k));
                }
            }
            assert forall|f: int, g: int|
                0 <= f < after.len() && 0 <= g < after.len() && f != g && (#[trigger] after[f]).key is Some implies after[f].key
                != (#[trigger] after[g]).key by {
                if f == v.0 {
                    if after[g].key == Some(key) {
                        assert(holds(frames, g, key));
                    }
                } else if g == v.0 {
                    if after[f].key == Some(key) {
                        assert(holds(frames, f, key));
                    }
                } else {
                    assert(frames[f].key != frames[g].key);
                }
            }
            assert(frames_inv(after, self.tables()));
            assert(candidates_inv(after, self@.candidates, None));
        }
    }

    /// Gives up the operation under way: the frame `v`, if there is one,
    /// becomes a candidate again.
    #[verifier::rlimit(50)]
    fn give_up(&mut self, v: Option<DescriptorID>)
        requires
            old(self).parts_wf(),
            frames_inv(old(self)@.frames, old(self).tables()),
            candidates_inv(
                old(self)@.frames,
                old(self)@.candidates,
                match v {
                    Some(v) => Some(v.0 as int),
                    None => None,
                },
            ),
        ensures
            final(self).wf(),
            final(self).disk() == old(self).disk(),
            final(self)@.frames == old(self)@.frames,
            final(self)@.pending is Idle,
            final(self)@.policy == old(self)@.policy,
            match v {
                Some(v) => final(self)@.candidates == (old(self)@.policy.unpinned)(
                    old(self)@.candidates,
                    old(self)@.frames.len(),
                    v.0,
                ) && final(self)@.candidates.to_set() == old(self)@.candidates.to_set().insert(v.0),
                None => final(self)@.candidates == old(self)@.candidates,
            },
    {
        if let Some(v) = v {
            proof {
                self.replacer.lemma_wf();
                crate::storage::replacer::lemma_room_left(
                    self@.candidates,
                    self@.frames.len(),
                    v.0,
                );
            }
            self.replacer.unpin(v);
            proof {
                let before = old(self)@.candidates;
                let after = self@.candidates;
                let frames = self@.frames;
                self.replacer.lemma_wf();
                assert forall|x: usize| after.contains(x) <==> before.contains(x) || x == v.0 by {
                    assert(after.to_set().contains(x) == after.contains(x));
                    assert(before.to_set().contains(x) == before.contains(x));
                }
                assert forall|i: int| 0 <= i < after.len() implies (#[trigger] after[i])
                    < frames.len() by {
                    assert(after.contains(after[i]));
                    if after[i] != v.0 {
                        let j = choose|j: int| 0 <= j < before.len() && before[j] == after[i];
                        assert(before[j] < frames.len());
                    }
                }
            }
        }
        self.pending = Pending::Idle;
    }

    /// The request that writes the page of the frame `f`, which holds the
    /// page `key`, or why the page cannot be written.
    fn write_of(&self, f: usize, key: Key) -> (r: Result<DiskRequest, StorageError>)
        requires
            self.parts_wf(),
            f < self@.frames.len(),
            key_in_range(key, self.tables()),
        ensures
            match r {
                Ok(request) => write_request(self.disk(), key, self@.frames[f as int].page) == Ok::<
                    RequestView,
                    StorageError,
                >(request@),
                Err(e) => write_request(self.disk(), key, self@.frames[f as int].page) == Err::<
                    RequestView,
                    StorageError,
                >(e),
            },
    {
        let name = self.disk_manager.get_catalog().schema_at(key.table).table.name.as_str();
        let page = &self.buffer_pool.get(BufferPoolID(f)).page;
        match self.disk_manager.write(page, name) {
            Ok((offset, data)) => Ok(
                DiskRequest::Write { path: self.disk_manager.path(name), offset, data },
            ),
            Err(e) => Err(e),
        }
    }

    /// Goes on once the frame `v` is free to take the page `key`.
    fn ready(&mut self, v: DescriptorID, key: Key, fresh: bool) -> (r: Step)
        requires
            old(self).parts_wf(),
            frames_inv(old(self)@.frames, old(self).tables()),
            candidates_inv(old(self)@.frames, old(self)@.candidates, Some(v.0 as int)),
            key_in_range(key, old(self).tables()),
            !resident(old(self)@.frames, key),
        ensures
            final(self).wf(),
            final(self).disk() == old(self).disk(),
            victim_ready(old(self)@, old(self).disk(), v.0, key, fresh, final(self)@, r@),
    {
        if fresh {
            let page = Page {
                id: key.page_id,
                size: PAGE_SIZE,
                header: PageHeader { tuple_count: 0 },
                body: Vec::new(),
            };
            assert(page@.tuples =~= Seq::empty());
            self.load_page_to_buffer_pool(v, key, page);
            Step::Done(Ok(Outcome::Buffer(BufferPoolID(v.0))))
        } else {
            let name = self.disk_manager.get_catalog().schema_at(key.table).table.name.as_str();
            let path = self.disk_manager.path(name);
            self.pending = Pending::Load { victim: v, key };
            Step::Disk(DiskRequest::Read { path, offset: key.page_id.offset(), length: PAGE_SIZE })
        }
    }

    /// Finds a frame for the page `key`, which is in none.
    #[verifier::rlimit(50)]
    fn load_page_from_storage_to_buffer_pool(&mut self, key: Key, fresh: bool) -> (r: Step)
        requires
            old(self).parts_wf(),
            frames_inv(old(self)@.frames, old(self).tables()),
            candidates_inv(old(self)@.frames, old(self)@.candidates, None),
            key_in_range(key, old(self).tables()),
            !resident(old(self)@.frames, key),
        ensures
            final(self).wf(),
            final(self).disk() == old(self).disk(),
            load_begun(idle(old(self)@), old(self).disk(), key, fresh, final(self)@, r@),
    {
        let v = match self.victim_descriptor() {
            None => {
                self.pending = Pending::Idle;
                return Step::Done(Err(StorageError::NoFreeFrame));
            },
            Some(v) => v,
        };
        let dirty = self.descriptors.get(v).is_dirty();
        let held = self.bound[v.0];
        let ghost mid = self@;
        let ghost start = idle(old(self)@);
        match held {
            Some(old_key) if dirty => {
                match self.write_of(v.0, old_key) {
                    Ok(request) => {
                        self.pending = Pending::WriteBack { victim: v, key, fresh };
                        assert(took_victim(
                            taken(start),
                            self@,
                            Pending::WriteBack { victim: v, key, fresh },
                        ));
                        Step::Disk(request)
                    },
                    Err(e) => {
                        self.give_up(Some(v));
                        Step::Done(Err(e))
                    },
                }
            },
            _ => {
                let step = self.ready(v, key, fresh);
                proof {
                    assert(victim_ready(mid, self.disk(), v.0, key, fresh, self@, step@));
                    assert(victim_ready(taken(start), self.disk(), v.0, key, fresh, self@, step@));
                }
                step
            },
        }
    }

    /// Pins the page `p_id` of the table `table_name` for the caller, and
    /// brings it into a frame first where it is in none.
    ///
    /// A resident page is pinned once more and its frame leaves the
    /// candidates for eviction; the disk is not asked. Any other page takes
    /// the frame of the first candidate: that frame's page is written back
    /// where it is dirty, then the page is read. The step that comes back
    /// is a disk request, or the pinned frame, or the reason why there is
    /// none: `CatalogMiss` for a table that the catalog lacks, `NoFreeFrame`
    /// where every frame is held, `Protocol` where another operation waits
    /// for the disk.
    #[verifier::rlimit(50)]
    pub fn fetch_buffer(&mut self, p_id: PageID, table_name: &str) -> (r: Step)
        requires
            old(self).wf(),
        ensures
            final(self).wf(),
            final(self).disk() == old(self).disk(),
            fetched(
                old(self)@,
                old(self).disk(),
                old(self).spec_key(p_id, table_name@),
                final(self)@,
                r@,
            ),
    {
        if !self.is_idle() {
            return Step::Done(Err(StorageError::Protocol));
        }
        let key = match self.key_of(p_id, table_name) {
            None => {
                return Step::Done(Err(StorageError::CatalogMiss));
            },
            Some(key) => key,
        };
        match self.lookup(key) {
            Some(d_id) => {
                let ghost frames = self@.frames;
                if !self.descriptors.get(d_id).below_limit() {
                    return Step::Done(Err(StorageError::PinOverflow));
                }
                let descriptor = self.descriptors.get_mut(d_id);
                descriptor.pin();
                let frame = descriptor.buffer_pool_id();
                self.replacer.pin(d_id);
                proof {
                    let f = d_id.0 as int;
                    let before = old(self)@.candidates;
                    let after = self@.candidates;
                    assert(self@.frames =~= frames.update(
                        f,
                        FrameView { pin_count: frames[f].pin_count + 1, ..frames[f] },
                    ));
                    assert forall|k: Key| resident(self@.frames, k) == resident(frames, k) by {
                        if resident(self@.frames, k) {
                            let g = choose|g: int| holds(self@.frames, g, k);
                            assert(holds(frames, g, k));
                        }
                        if resident(frames, k) {
                            let g = choose|g: int| holds(frames, g, k);
                            assert(holds(self@.frames, g, k));
                        }
                    }
                    assert forall|k: Key| #[trigger] self.page_table@.contains_key(k) implies holds(
                        self@.frames,
                        self.page_table@[k].0 as int,
                        k,
                    ) by {
                        assert(holds(frames, self.page_table@[k].0 as int, k));
                    }
                    self.replacer.lemma_wf();
                    assert forall|x: usize| after.contains(x) <==> before.contains(x) && x
                        != d_id.0 by {
                        assert(after.to_set().contains(x) == after.contains(x));
                        assert(before.to_set().contains(x) == before.contains(x));
                    }
                    assert forall|i: int| 0 <= i < after.len() implies (#[trigger] after[i])
                        < frames.len() by {
                        assert(after.contains(after[i]));
                        let j = choose|j: int| 0 <= j < before.len() && before[j] == after[i];
                        assert(before[j] < frames.len());
                    }
                    assert(frames_inv(self@.frames, self.tables()));
                    assert(candidates_inv(self@.frames, after, None));
                }
                Step::Done(Ok(Outcome::Buffer(frame)))
            },
            None => {
                if p_id.0 > usize::MAX / PAGE_SIZE {
                    return Step::Done(Err(StorageError::Io));
                }
                self.load_page_from_storage_to_buffer_pool(key, false)
            },
        }
    }

    /// The frame that holds the page `p_id` of the table `table_name` and
    /// the number of pins on it, or `None` where the page is in no frame.
    pub fn residency(&self, p_id: PageID, table_name: &str) -> (r: Option<(BufferPoolID, usize)>)
        requires
            self.wf(),
        ensures
            match r {
                Some((frame, pins)) => self.spec_key(p_id, table_name@) matches Some(key) && holds(
                    self@.frames,
                    frame.0 as int,
                    key,
                ) && pins == self@.frames[frame.0 as int].pin_count,
                None => self.spec_key(p_id, table_name@) matches Some(key) ==> !resident(
                    self@.frames,
                    key,
                ),
            },
    {
        match self.key_of(p_id, table_name) {
            None => None,
            Some(key) => match self.lookup(key) {
                None => None,
                Some(d_id) => {
                    let d = self.descriptors.get(d_id);
                    Some((d.buffer_pool_id(), d.pins()))
                },
            },
        }
    }

    /// Gives back one pin on the page `p_id` of the table `table_name`.
    /// When the last pin is gone, the page's frame becomes a candidate for
    /// eviction. For a page that is in no frame nothing happens.
    #[verifier::rlimit(50)]
    pub fn unpin_buffer(&mut self, p_id: PageID, table_name: &str) -> (r: Result<(), StorageError>)
        requires
            old(self).wf(),
            old(self).spec_key(p_id, table_name@) matches Some(key) ==> (resident(
                old(self)@.frames,
                key,
            ) ==> old(self)@.frames[frame_of(old(self)@.frames, key)].pin_count > 0),
        ensures
            r is Ok,
            final(self).wf(),
            final(self).disk() == old(self).disk(),
            unpinned(old(self)@, old(self).spec_key(p_id, table_name@), final(self)@),
    {
        let key = match self.key_of(p_id, table_name) {
            None => {
                return Ok(());
            },
            Some(key) => key,
        };
        let descriptor_id = match self.lookup(key) {
            None => {
                return Ok(());
            },
            Some(descriptor_id) => descriptor_id,
        };
        let ghost frames = self@.frames;
        let ghost f = descriptor_id.0 as int;
        let descriptor = self.descriptors.get_mut(descriptor_id);
        descriptor.unpin();
        let free = !descriptor.pinned();
        proof {
            assert(self@.frames =~= frames.update(
                f,
                FrameView { pin_count: (frames[f].pin_count - 1) as nat, ..frames[f] },
            ));
            assert forall|k: Key| resident(self@.frames, k) == resident(frames, k) by {
                if resident(self@.frames, k) {
                    let g = choose|g: int| holds(self@.frames, g, k);
                    assert(holds(frames, g, k));
                }
                if resident(frames, k) {
                    let g = choose|g: int| holds(frames, g, k);
                    assert(holds(self@.frames, g, k));
                }
            }
            assert forall|k: Key| #[trigger] self.page_table@.contains_key(k) implies holds(
                self@.frames,
                self.page_table@[k].0 as int,
                k,
            ) by {
                assert(holds(frames, self.page_table@[k].0 as int, k));
            }
            assert(frames_inv(self@.frames, self.tables()));
            assert(in_flight(self@.pending) != Some(f));
            assert(!self@.candidates.contains(descriptor_id.0));
        }
        if free {
            proof {
                self.replacer.lemma_wf();
                crate::storage::replacer::lemma_room_left(
                    self@.candidates,
                    self@.frames.len(),
                    descriptor_id.0,
                );
            }
            self.replacer.unpin(descriptor_id);
            proof {
                let before = old(self)@.candidates;
                let after = self@.candidates;
                self.replacer.lemma_wf();
                assert forall|x: usize| after.contains(x) <==> before.contains(x) || x
                    == descriptor_id.0 by {
                    assert(after.to_set().contains(x) == after.contains(x));
                    assert(before.to_set().contains(x) == before.contains(x));
                }
                assert forall|i: int| 0 <= i < after.len() implies (#[trigger] after[i])
                    < frames.len() by {
                    assert(after.contains(after[i]));
                    if after[i] != descriptor_id.0 {
                        let j = choose|j: int| 0 <= j < before.len() && before[j] == after[i];
                        assert(before[j] < frames.len());
                    }
                }
            }
        }
        proof {
            assert(candidates_inv(self@.frames, self@.candidates, in_flight(self@.pending)));
            assert(pending_inv(self@, self.tables())) by {
                match self@.pending {
                    Pending::AllocateWrite { key } => {},
                    Pending::WriteBack { victim, key, fresh } => {},
                    Pending::Load { victim, key } => {},
                    _ => {},
                }
            }
        }
        Ok(())
    }

    /// Appends an empty page to the file of the table `table_name` and
    /// brings it into a frame, pinned for the caller. The first step asks
    /// for the length of the file; `resume` goes on from there.
    pub fn new_buffer(&mut self, table_name: &str) -> (r: Step)
        requires
            old(self).wf(),
        ensures
            final(self).wf(),
            final(self).disk() == old(self).disk(),
            allocation_begun(
                old(self)@,
                old(self).disk(),
                old(self).disk().catalog().spec_table_id(table_name@),
                final(self)@,
                r@,
            ),
    {
        if !self.is_idle() {
            return Step::Done(Err(StorageError::Protocol));
        }
        let table = match self.disk_manager.get_catalog().table_id(table_name) {
            None => {
                return Step::Done(Err(StorageError::CatalogMiss));
            },
            Some(table) => table,
        };
        let name = self.disk_manager.get_catalog().schema_at(table).table.name.as_str();
        let path = self.disk_manager.path(name);
        self.pending = Pending::Allocate { table };
        Step::Disk(DiskRequest::Length { path })
    }

    /// Writes the page `p_id` of the table `table_name` to the disk, where
    /// it is in a frame. Its pins and its dirty bit stay as they are.
    pub fn flush_buffer(&mut self, p_id: PageID, table_name: &str) -> (r: Step)
        requires
            old(self).wf(),
        ensures
            final(self).wf(),
            final(self).disk() == old(self).disk(),
            flush_begun(
                old(self)@,
                old(self).disk(),
                old(self).spec_key(p_id, table_name@),
                final(self)@,
                r@,
            ),
    {
        if !self.is_idle() {
            return Step::Done(Err(StorageError::Protocol));
        }
        let key = match self.key_of(p_id, table_name) {
            None => {
                return Step::Done(Ok(Outcome::Flushed));
            },
            Some(key) => key,
        };
        match self.lookup(key) {
            None => Step::Done(Ok(Outcome::Flushed)),
            Some(descriptor_id) => {
                let frame = self.descriptors.get(descriptor_id).buffer_pool_id();
                match self.write_of(frame.0, key) {
                    Ok(request) => {
                        self.pending = Pending::Flush;
                        Step::Disk(request)
                    },
                    Err(e) => Step::Done(Err(e)),
                }
            },
        }
    }

    /// Goes on with `flush_all` from the frame `start`.
    fn flush_from(&mut self, start: usize) -> (r: Step)
        requires
            old(self).wf(),
            in_flight(old(self)@.pending) is None,
            start <= old(self)@.frames.len(),
        ensures
            final(self).wf(),
            final(self).disk() == old(self).disk(),
            flushed_from(old(self)@, old(self).disk(), start as int, final(self)@, r@),
    {
        let n = self.buffer_pool.size();
        let mut i: usize = start;
        while i < n
            invariant
                *self == *old(self),
                self.wf(),
                in_flight(self@.pending) is None,
                n == self@.frames.len(),
                start <= i <= n,
                next_dirty(self@.frames, start as int) == next_dirty(self@.frames, i as int),
            decreases n - i,
        {
            let dirty = self.descriptors.get(DescriptorID(i)).is_dirty();
            match self.bound[i] {
                Some(key) if dirty => {
                    match self.write_of(i, key) {
                        Ok(request) => {
                            self.pending = Pending::FlushAll { next: i + 1 };
                            return Step::Disk(request);
                        },
                        Err(e) => {
                            self.pending = Pending::Idle;
                            return Step::Done(Err(e));
                        },
                    }
                },
                _ => {},
            }
            i += 1;
        }
        self.pending = Pending::Idle;
        Step::Done(Ok(Outcome::Flushed))
    }

    /// Writes the page of every dirty frame to the disk, in ascending order
    /// of the frames. The dirty bits stay as they are.
    pub fn flush_all(&mut self) -> (r: Step)
        requires
            old(self).wf(),
        ensures
            final(self).wf(),
            final(self).disk() == old(self).disk(),
            flush_all_begun(old(self)@, old(self).disk(), final(self)@, r@),
    {
        if !self.is_idle() {
            return Step::Done(Err(StorageError::Protocol));
        }
        self.flush_from(0)
    }

    /// Tells the number of the last page of the table `table_name`. The
    /// first step asks for the length of the table's file.
    pub fn last_page_id(&mut self, table_name: &str) -> (r: Step)
        requires
            old(self).wf(),
        ensures
            final(self).wf(),
            final(self).disk() == old(self).disk(),
            last_page_begun(old(self)@, old(self).disk(), table_name@, final(self)@, r@),
    {
        if !self.is_idle() {
            return Step::Done(Err(StorageError::Protocol));
        }
        let path = self.disk_manager.path(table_name);
        self.pending = Pending::LastPage;
        Step::Disk(DiskRequest::Length { path })
    }

    /// The frames whose pages were changed since they were last written,
    /// in ascending order.
    pub fn dirty_buffers(&self) -> (r: Vec<BufferPoolID>)
        requires
            self.wf(),
        ensures
            r@ == dirty_frames(self@.frames),
    {
        let mut v: Vec<BufferPoolID> = Vec::new();
        let n = self.buffer_pool.size();
        let mut i: usize = 0;
        while i < n
            invariant
                self.wf(),
                n == self@.frames.len(),
                i <= n,
                v@ == dirty_frames(self@.frames.take(i as int)),
            decreases n - i,
        {
            let d = self.descriptors.get(DescriptorID(i));
            proof {
                assert(self@.frames.take(i + 1).drop_last() =~= self@.frames.take(i as int));
            }
            if d.is_dirty() {
                v.push(d.buffer_pool_id());
            }
            i += 1;
        }
        assert(self@.frames.take(i as int) =~= self@.frames);
        v
    }

    /// Gives up the operation under way after a reply that is no answer to
    /// its request, or that reports a failure.
    fn refuse(&mut self, failed: bool) -> (r: Step)
        requires
            old(self).wf(),
        ensures
            final(self).wf(),
            final(self).disk() == old(self).disk(),
            gave_up(old(self)@, final(self)@),
            r@ == StepView::Done(
                Err(
                    if failed {
                        StorageError::Io
                    } else {
                        StorageError::Protocol
                    },
                ),
            ),
    {
        let victim = match self.pending {
            Pending::WriteBack { victim, .. } => Some(victim),
            Pending::Load { victim, .. } => Some(victim),
            _ => None,
        };
        self.give_up(victim);
        if failed {
            Step::Done(Err(StorageError::Io))
        } else {
            Step::Done(Err(StorageError::Protocol))
        }
    }

    /// Goes on with the operation under way, given the disk's reply to the
    /// request that the manager handed out last.
    ///
    /// A frame takes another page only here, and only once the disk has
    /// written the page that the frame held, where that page was dirty. A
    /// reply that reports a failure, or that is no answer to the request,
    /// ends the operation: no frame, descriptor or page table entry has
    /// changed, and the frame that was to give way is a candidate again.
    #[verifier::rlimit(50)]
    pub fn resume(&mut self, reply: DiskReply) -> (r: Step)
        requires
            old(self).wf(),
        ensures
            final(self).wf(),
            final(self).disk() == old(self).disk(),
            resumed(old(self)@, old(self).disk(), reply@, final(self)@, r@),
    {
        let pending = self.pending;
        match pending {
            Pending::Idle => Step::Done(Err(StorageError::Protocol)),
            Pending::LastPage => match reply {
                DiskReply::Length(n) => {
                    self.pending = Pending::Idle;
                    Step::Done(Ok(Outcome::LastPage(self.disk_manager.last_page_id(n))))
                },
                DiskReply::Failed => self.refuse(true),
                _ => self.refuse(false),
            },
            Pending::Allocate { table } => match reply {
                DiskReply::Length(n) => {
                    let page = self.disk_manager.allocate_page(n);
                    let key = Key::new(page.id, table);
                    proof {
                        assert(PAGE_SIZE * (n as int / PAGE_SIZE as int) <= n) by (nonlinear_arith)
                            requires
                                n >= 0,
                                PAGE_SIZE == 4096,
                        ;
                    }
                    if self.lookup(key).is_some() {
                        self.pending = Pending::Idle;
                        return Step::Done(Err(StorageError::Protocol));
                    }
                    let name = self.disk_manager.get_catalog().schema_at(table).table.name.as_str();
                    match self.disk_manager.write(&page, name) {
                        Ok((offset, data)) => {
                            let path = self.disk_manager.path(name);
                            self.pending = Pending::AllocateWrite { key };
                            Step::Disk(DiskRequest::Write { path, offset, data })
                        },
                        Err(e) => {
                            self.pending = Pending::Idle;
                            Step::Done(Err(e))
                        },
                    }
                },
                DiskReply::Failed => self.refuse(true),
                _ => self.refuse(false),
            },
            Pending::AllocateWrite { key } => match reply {
                DiskReply::Written => self.load_page_from_storage_to_buffer_pool(key, true),
                DiskReply::Failed => self.refuse(true),
                _ => self.refuse(false),
            },
            Pending::WriteBack { victim, key, fresh } => match reply {
                DiskReply::Written => self.ready(victim, key, fresh),
                DiskReply::Failed => self.refuse(true),
                _ => self.refuse(false),
            },
            Pending::Load { victim, key } => match reply {
                DiskReply::Data(data) => {
                    let name = self.disk_manager.get_catalog().schema_at(
                        key.table,
                    ).table.name.as_str();
                    match self.disk_manager.read(key.page_id, name, data.as_slice()) {
                        Ok(page) => {
                            self.load_page_to_buffer_pool(victim, key, page);
                            proof {
                                let v0 = victim.0;
                                assert(old(self)@.candidates.to_set().remove(v0) =~= old(
                                    self,
                                )@.candidates.to_set());
                            }
                            Step::Done(Ok(Outcome::Buffer(BufferPoolID(victim.0))))
                        },
                        Err(e) => {
                            self.give_up(Some(victim));
                            Step::Done(Err(e))
                        },
                    }
                },
                DiskReply::Failed => self.refuse(true),
                _ => self.refuse(false),
            },
            Pending::Flush => match reply {
                DiskReply::Written => {
                    self.pending = Pending::Idle;
                    Step::Done(Ok(Outcome::Flushed))
                },
                DiskReply::Failed => self.refuse(true),
                _ => self.refuse(false),
            },
            Pending::FlushAll { next } => match reply {
                DiskReply::Written => self.flush_from(next),
                DiskReply::Failed => self.refuse(true),
                _ => self.refuse(false),
            },
        }
    }
}

/// In frames that have their invariant, the frame that holds a page is
/// the only one that does.
pub proof fn lemma_frame_of(frames: Seq<FrameView>, tables: nat, f: int, key: Key)
    requires
        frames_inv(frames, tables),
        holds(frames, f, key),
    ensures
        resident(frames, key),
        frame_of(frames, key) == f,
{
    let g = frame_of(frames, key);
    assert(holds(frames, g, key));
    if g != f {
        assert(frames[f].key != frames[g].key);
    }
}

impl BufferPoolManager<LruReplacer> {
    /// A manager of `pool_size` frames, as `new` makes it, or `None`
    /// where `pool_size` is 0: a pool without frames is refused.
    pub fn try_new(pool_size: usize, base_path: String, catalog: Catalog) -> (r: Option<Self>)
        ensures
            r is Some <==> pool_size > 0,
            r matches Some(manager) ==> {
                &&& manager.wf()
                &&& manager.disk().catalog() == catalog
                &&& manager.disk().base_path() == base_path@
                &&& manager@.pending is Idle
                &&& manager@.candidates == Seq::new(pool_size as nat, |i: int| i as usize)
                &&& manager@.frames.len() == pool_size
                &&& forall|f: int|
                    0 <= f < pool_size ==> (#[trigger] manager@.frames[f]) == (FrameView {
                        page: PageView { id: 0, tuple_count: 0, tuples: Seq::empty() },
                        key: None,
                        pin_count: 0,
                        dirty: false,
                    })
            },
    {
        if pool_size == 0 {
            None
        } else {
            Some(Self::new(pool_size, base_path, catalog))
        }
    }

    /// A manager of `pool_size` frames for the tables of `catalog`, whose
    /// files lie in `base_path`. Every frame is empty, unpinned and clean,
    /// and a candidate for eviction, the first frame first.
    pub fn new(pool_size: usize, base_path: String, catalog: Catalog) -> (r: Self)
        requires
            pool_size > 0,
        ensures
            r.wf(),
            r.disk().catalog() == catalog,
            r.disk().base_path() == base_path@,
            r@.pending is Idle,
            r@.candidates == Seq::new(pool_size as nat, |i: int| i as usize),
            r@.frames.len() == pool_size,
            forall|f: int|
                0 <= f < pool_size ==> (#[trigger] r@.frames[f]) == (FrameView {
                    page: PageView { id: 0, tuple_count: 0, tuples: Seq::empty() },
                    key: None,
                    pin_count: 0,
                    dirty: false,
                }),
    {
        let mut replacer = LruReplacer::new(pool_size);
        let disk_manager = DiskManager::new(base_path, catalog);
        let buffer_pool = BufferPool::new(pool_size);
        let page_table = HashTable::new(pool_size);
        let descriptors = Descriptors::new(pool_size);
        let mut bound: Vec<Option<Key>> = Vec::new();
        let mut i: usize = 0;
        while i < pool_size
            invariant
                i <= pool_size,
                replacer.wf(),
                replacer.capacity() == pool_size,
                replacer.candidates() == Seq::new(i as nat, |j: int| j as usize),
                descriptors.wf(),
                descriptors.items@.len() == pool_size,
                bound@.len() == i,
                forall|j: int| 0 <= j < i ==> (#[trigger] bound@[j]) is None,
            decreases pool_size - i,
        {
            let ghost before = replacer.candidates();
            let id = descriptors.get(DescriptorID(i)).id();
            replacer.unpin(id);
            bound.push(None);
            proof {
                assert(!before.contains(i)) by {
                    if before.contains(i) {
                        let j = choose|j: int| 0 <= j < before.len() && before[j] == i;
                        assert(before[j] == j);
                    }
                }
                assert(replacer.candidates() =~= Seq::new((i + 1) as nat, |j: int| j as usize));
            }
            i += 1;
        }
        let r = Self {
            replacer,
            disk_manager,
            buffer_pool,
            page_table,
            descriptors,
            bound,
            pending: Pending::Idle,
        };
        proof {
            let n = pool_size as int;
            assert forall|key: Key| !resident(r@.frames, key) by {
                if resident(r@.frames, key) {
                    let f = choose|f: int| holds(r@.frames, f, key);
                    assert(r.bound@[f] is None);
                }
            }
            assert forall|f: int| 0 <= f < n implies (#[trigger] r@.frames[f]).pin_count == 0
                && r@.candidates.contains(f as usize) by {
                assert(r@.candidates[f] == f as usize);
            }
            assert(r@.candidates.no_duplicates());
        }
        r
    }
}

} // verus!
