//! What the buffer pool manager and its driver say to each other, and the
//! manager's state as mathematical values.
//!
//! The manager decides; its driver performs the disk requests that the
//! manager hands out, and hands back what the disk replied.

use std::collections::hash_map::DefaultHasher;
use std::hash::Hasher;
use vstd::prelude::*;
use crate::storage::buffer_pool::BufferPoolID;
use crate::storage::endian::{be_bytes_of_u64, be_bytes_u64};
use crate::storage::descriptors::DescriptorID;
use crate::storage::disk_manager::{page_count, DiskManager};
use crate::storage::hash_table::{default_hash, ShardKey};
use crate::storage::page::{PageID, PageView, PAGE_SIZE};
use crate::storage::replacer::Policy;
use crate::storage::StorageError;

verus! {

/// The key of a page in the page table: the index of its table's schema in
/// the catalog, and the page's number.
#[derive(Clone, Copy, Debug, PartialEq, Eq, Structural)]
pub struct Key {
    pub page_id: PageID,
    pub table: usize,
}

impl Key {
    /// The key of the page `page_id` of the table with the index `table`.
    pub fn new(page_id: PageID, table: usize) -> (r: Self)
        ensures
            r == (Key { page_id, table }),
    {
        Self { page_id, table }
    }
}

impl View for Key {
    type V = Key;

    open spec fn view(&self) -> Key {
        *self
    }
}

impl ShardKey for Key {
    /// The hash of the table's index and the page's number, each as
    /// eight bytes.
    open spec fn spec_shard_hash(&self) -> u64 {
        default_hash(seq![be_bytes_u64(self.table as u64), be_bytes_u64(self.page_id.0 as u64)])
    }

    proof fn lemma_shard_hash(a: Self, b: Self) {
    }

    fn shard_hash(&self) -> (h: u64) {
        let table = be_bytes_of_u64(self.table as u64);
        let page = be_bytes_of_u64(self.page_id.0 as u64);
        let mut hasher = DefaultHasher::new();
        hasher.write(table.as_slice());
        hasher.write(page.as_slice());
        assert(hasher@ =~= seq![
            be_bytes_u64(self.table as u64),
            be_bytes_u64(self.page_id.0 as u64),
        ]);
        hasher.finish()
    }

    fn same(&self, other: &Self) -> (r: bool) {
        let r = self.page_id.0 == other.page_id.0 && self.table == other.table;
        proof {
            if r {
                assert(self.page_id == other.page_id);
            }
        }
        r
    }
}

/// What the manager asks of the disk.
#[derive(Debug)]
pub enum DiskRequest {
    /// The length of the file at `path`, in bytes; a file that is not
    /// there yet is created empty.
    Length { path: String },
    /// The `length` bytes at `offset` of the file at `path`.
    Read { path: String, offset: usize, length: usize },
    /// To write `data` at `offset` of the file at `path`.
    Write { path: String, offset: usize, data: Vec<u8> },
}

/// A disk request, as mathematical values.
pub enum RequestView {
    Length { path: Seq<char> },
    Read { path: Seq<char>, offset: nat, length: nat },
    Write { path: Seq<char>, offset: nat, data: Seq<u8> },
}

impl View for DiskRequest {
    type V = RequestView;

    open spec fn view(&self) -> RequestView {
        match self {
            DiskRequest::Length { path } => RequestView::Length { path: path@ },
            DiskRequest::Read { path, offset, length } => RequestView::Read {
                path: path@,
                offset: *offset as nat,
                length: *length as nat,
            },
            DiskRequest::Write { path, offset, data } => RequestView::Write {
                path: path@,
                offset: *offset as nat,
                data: data@,
            },
        }
    }
}

/// What the disk replied to a request.
#[derive(Debug)]
pub enum DiskReply {
    /// The file's length.
    Length(usize),
    /// The bytes read; fewer than were asked for where the file ends
    /// before.
    Data(Vec<u8>),
    /// The bytes were written.
    Written,
    /// The request failed.
    Failed,
}

/// A disk reply, as mathematical values.
pub enum ReplyView {
    Length(nat),
    Data(Seq<u8>),
    Written,
    Failed,
}

impl View for DiskReply {
    type V = ReplyView;

    open spec fn view(&self) -> ReplyView {
        match self {
            DiskReply::Length(n) => ReplyView::Length(*n as nat),
            DiskReply::Data(data) => ReplyView::Data(data@),
            DiskReply::Written => ReplyView::Written,
            DiskReply::Failed => ReplyView::Failed,
        }
    }
}

/// What an operation of the manager gives when it is done.
#[derive(Clone, Copy, Debug, PartialEq, Eq, Structural)]
pub enum Outcome {
    /// The frame that holds the page, pinned for the caller.
    Buffer(BufferPoolID),
    /// What was to be written is written.
    Flushed,
    /// The number of the table's last page, if it has one.
    LastPage(Option<PageID>),
}

/// Where an operation of the manager stands: it needs the disk, or it is
/// done.
#[derive(Debug)]
pub enum Step {
    /// The driver is to perform the request and to hand the reply to
    /// `resume`.
    Disk(DiskRequest),
    /// The operation is done, with this result.
    Done(Result<Outcome, StorageError>),
}

/// A step, as mathematical values.
pub enum StepView {
    Disk(RequestView),
    Done(Result<Outcome, StorageError>),
}

impl View for Step {
    type V = StepView;

    open spec fn view(&self) -> StepView {
        match self {
            Step::Disk(request) => StepView::Disk(request@),
            Step::Done(result) => StepView::Done(*result),
        }
    }
}

/// What the manager waits for.
#[derive(Clone, Copy, Debug)]
pub enum Pending {
    /// Nothing: no operation is under way.
    Idle,
    /// The length of a table's file, to tell the table's last page.
    LastPage,
    /// The length of the file of the table with the index `table`, to
    /// append a page to it.
    Allocate { table: usize },
    /// The empty page `key` to be written at the end of its table's file.
    AllocateWrite { key: Key },
    /// The page of the frame `victim` to be written back, before the frame
    /// takes the page `key`; `fresh` where that page was just allocated.
    WriteBack { victim: DescriptorID, key: Key, fresh: bool },
    /// The bytes of the page `key`, which the frame `victim` is to take.
    Load { victim: DescriptorID, key: Key },
    /// A page to be written by `flush_buffer`.
    Flush,
    /// A page to be written by `flush_all`, which then goes on with the
    /// frame `next`.
    FlushAll { next: usize },
}

/// The frame that an operation under way has taken out of the replacer to
/// give it another page.
pub open spec fn in_flight(pending: Pending) -> Option<int> {
    match pending {
        Pending::WriteBack { victim, .. } => Some(victim.0 as int),
        Pending::Load { victim, .. } => Some(victim.0 as int),
        _ => None,
    }
}

/// One frame with its descriptor, as mathematical values.
pub struct FrameView {
    /// The page in the frame.
    pub page: PageView,
    /// The key of that page, or `None` where the frame has held no page
    /// yet.
    pub key: Option<Key>,
    /// The number of users that hold the frame.
    pub pin_count: nat,
    /// Whether the page was changed since it was last written.
    pub dirty: bool,
}

/// The manager's state, as mathematical values.
pub struct PoolView {
    /// The frames, by index.
    pub frames: Seq<FrameView>,
    /// The frames that may be evicted, the next victim first.
    pub candidates: Seq<usize>,
    /// How the replacer orders the candidates.
    pub policy: Policy,
    /// What the manager waits for.
    pub pending: Pending,
}

/// Whether the frame `f` holds the page `key`.
pub open spec fn holds(frames: Seq<FrameView>, f: int, key: Key) -> bool {
    0 <= f < frames.len() && frames[f].key == Some(key)
}

/// Whether some frame holds the page `key`.
pub open spec fn resident(frames: Seq<FrameView>, key: Key) -> bool {
    exists|f: int| holds(frames, f, key)
}

/// The frame that holds the page `key`.
pub open spec fn frame_of(frames: Seq<FrameView>, key: Key) -> int {
    choose|f: int| holds(frames, f, key)
}

/// The key of the page `p_id` of the table `table_name`, or `None` where
/// the catalog lacks the table.
pub open spec fn page_key(disk: DiskManager, p_id: PageID, table_name: Seq<char>) -> Option<Key> {
    match disk.catalog().spec_table_id(table_name) {
        Some(t) => Some(Key { page_id: p_id, table: t as usize }),
        None => None,
    }
}

/// Whether a key names a page that a file can hold: a table of the
/// catalog, and an offset within the machine's numbers.
pub open spec fn key_in_range(key: Key, tables: nat) -> bool {
    key.table < tables && PAGE_SIZE * key.page_id.0 <= usize::MAX
}

/// What holds of the frames: no page is in two frames, each resident
/// page is a page of a table of the catalog at an offset within the
/// machine's numbers, and each frame's page carries its key's number.
pub open spec fn frames_inv(frames: Seq<FrameView>, tables: nat) -> bool {
    let n = frames.len() as int;
    &&& n > 0
    &&& forall|f: int, g: int|
        0 <= f < n && 0 <= g < n && f != g && (#[trigger] frames[f]).key is Some ==> frames[f].key
            != (#[trigger] frames[g]).key
    &&& forall|f: int|
        0 <= f < n ==> ((#[trigger] frames[f]).key matches Some(key) ==> key_in_range(key, tables)
            && frames[f].page.id == key.page_id.0)
}

/// What holds of the candidates: they are frames, none of them twice, and
/// a frame is a candidate exactly when nobody holds it. The frame `flight`,
/// which is about to take another page, is held by nobody and is no
/// candidate.
pub open spec fn candidates_inv(frames: Seq<FrameView>, candidates: Seq<usize>, flight: Option<int>) -> bool {
    let n = frames.len() as int;
    &&& candidates.no_duplicates()
    &&& forall|i: int| 0 <= i < candidates.len() ==> (#[trigger] candidates[i]) < n
    &&& forall|f: int|
        0 <= f < n && flight != Some(f) ==> ((#[trigger] frames[f]).pin_count == 0
            <==> candidates.contains(f as usize))
    &&& flight matches Some(v) ==> 0 <= v < n && frames[v].pin_count == 0 && !candidates.contains(
        v as usize,
    )
}

/// What holds of the manager's state between any two of its steps.
pub open spec fn pool_inv(pool: PoolView, tables: nat) -> bool {
    &&& frames_inv(pool.frames, tables)
    &&& candidates_inv(pool.frames, pool.candidates, in_flight(pool.pending))
    &&& pending_inv(pool, tables)
}

/// What holds of the operation under way.
pub open spec fn pending_inv(pool: PoolView, tables: nat) -> bool {
    match pool.pending {
        Pending::Allocate { table } => table < tables,
        Pending::AllocateWrite { key } => key_in_range(key, tables) && !resident(pool.frames, key),
        Pending::WriteBack { victim, key, fresh } => key_in_range(key, tables) && !resident(
            pool.frames,
            key,
        ) && pool.frames[victim.0 as int].key is Some,
        Pending::Load { victim, key } => key_in_range(key, tables) && !resident(pool.frames, key),
        Pending::FlushAll { next } => next <= pool.frames.len(),
        _ => true,
    }
}

/// The name of the table with the index `table`.
pub open spec fn table_name(disk: DiskManager, table: usize) -> Seq<char> {
    disk.catalog().spec_schemas()[table as int].table.name@
}

/// The path of the file of the table with the index `table`.
pub open spec fn table_path(disk: DiskManager, table: usize) -> Seq<char> {
    disk.spec_path(table_name(disk, table))
}

/// The request for the bytes of the page `key`.
pub open spec fn read_request(disk: DiskManager, key: Key) -> RequestView {
    RequestView::Read {
        path: table_path(disk, key.table),
        offset: (PAGE_SIZE * key.page_id.0) as nat,
        length: PAGE_SIZE as nat,
    }
}

/// What it takes to write the page of a frame that holds the page `key`:
/// the request that writes the page's image at the page's offset in its
/// table's file, or why the page cannot be written.
pub open spec fn write_request(disk: DiskManager, key: Key, page: PageView) -> Result<
    RequestView,
    StorageError,
> {
    match disk.write_outcome(table_name(disk, key.table), page) {
        Ok((offset, image)) => Ok(
            RequestView::Write { path: table_path(disk, key.table), offset: offset as nat, data: image },
        ),
        Err(e) => Err(e),
    }
}

/// An empty page with the number of `key`.
pub open spec fn empty_page(key: Key) -> PageView {
    PageView { id: key.page_id.0 as nat, tuple_count: 0, tuples: Seq::empty() }
}

/// The state `pool` with nothing under way.
pub open spec fn idle(pool: PoolView) -> PoolView {
    PoolView { pending: Pending::Idle, ..pool }
}

/// The state `pool` once the first candidate was taken out as the victim.
pub open spec fn taken(pool: PoolView) -> PoolView {
    PoolView { candidates: pool.candidates.drop_first(), ..pool }
}

/// The manager waits for `pending`; nothing else has changed.
pub open spec fn took_victim(pre: PoolView, post: PoolView, pending: Pending) -> bool {
    post == PoolView { pending, ..pre }
}

/// The operation under way was given up: nothing is under way, the frame
/// that was to take another page is unpinned into the candidates again,
/// and no frame has changed.
pub open spec fn gave_up(pre: PoolView, post: PoolView) -> bool {
    &&& post.frames == pre.frames
    &&& post.policy == pre.policy
    &&& post.pending is Idle
    &&& match in_flight(pre.pending) {
        Some(v) => post.candidates == (pre.policy.unpinned)(
            pre.candidates,
            pre.frames.len(),
            v as usize,
        ) && post.candidates.to_set() == pre.candidates.to_set().insert(v as usize),
        None => post.candidates == pre.candidates,
    }
}

/// The frame `v` has taken `page` as the page `key`: it holds it clean and
/// pinned once; no other frame has changed, and nothing is under way.
pub open spec fn loaded(pre: PoolView, post: PoolView, v: usize, key: Key, page: PageView) -> bool {
    post == PoolView {
        frames: pre.frames.update(
            v as int,
            FrameView { page, key: Some(key), pin_count: 1, dirty: false },
        ),
        pending: Pending::Idle,
        ..pre
    }
}

/// What happens once the frame `v` is free to take the page `key`: a
/// freshly allocated page is put in the frame, empty; any other page is
/// asked of the disk.
pub open spec fn victim_ready(
    pre: PoolView,
    disk: DiskManager,
    v: usize,
    key: Key,
    fresh: bool,
    post: PoolView,
    step: StepView,
) -> bool {
    if fresh {
        loaded(pre, post, v, key, empty_page(key)) && step == StepView::Done(
            Ok(Outcome::Buffer(BufferPoolID(v))),
        )
    } else {
        took_victim(pre, post, Pending::Load { victim: DescriptorID(v), key })
            && step == StepView::Disk(read_request(disk, key))
    }
}

/// What happens when the page `key`, which is in no frame, needs one: with
/// no candidate the operation fails; else the first candidate is taken out
/// as the victim. A dirty victim's page is first written back, and the
/// frame stays as it is until the disk has replied; a page that cannot be
/// written stays, and its frame is unpinned into the candidates again.
pub open spec fn load_begun(
    pre: PoolView,
    disk: DiskManager,
    key: Key,
    fresh: bool,
    post: PoolView,
    step: StepView,
) -> bool {
    if pre.candidates.len() == 0 {
        post == idle(pre) && step == StepView::Done(Err(StorageError::NoFreeFrame))
    } else {
        let v = pre.candidates[0];
        let frame = pre.frames[v as int];
        if frame.dirty && frame.key is Some {
            match write_request(disk, frame.key->Some_0, frame.page) {
                Ok(request) => took_victim(
                    taken(pre),
                    post,
                    Pending::WriteBack { victim: DescriptorID(v), key, fresh },
                ) && step == StepView::Disk(request),
                Err(e) => gave_up(
                    PoolView {
                        pending: Pending::WriteBack { victim: DescriptorID(v), key, fresh },
                        ..taken(pre)
                    },
                    post,
                ) && step == StepView::Done(Err(e)),
            }
        } else {
            victim_ready(taken(pre), disk, v, key, fresh, post, step)
        }
    }
}

/// What `fetch_buffer` does for the page `key` (`None` where the catalog
/// lacks the table): a resident page is pinned once more and its frame is
/// pinned out of the candidates; any other page needs a frame.
pub open spec fn fetched(
    pre: PoolView,
    disk: DiskManager,
    key: Option<Key>,
    post: PoolView,
    step: StepView,
) -> bool {
    if !(pre.pending is Idle) {
        post == pre && step == StepView::Done(Err(StorageError::Protocol))
    } else {
        match key {
            None => post == pre && step == StepView::Done(Err(StorageError::CatalogMiss)),
            Some(key) => if resident(pre.frames, key) {
                let f = frame_of(pre.frames, key);
                let frame = pre.frames[f];
                if frame.pin_count >= usize::MAX {
                    post == pre && step == StepView::Done(Err(StorageError::PinOverflow))
                } else {
                    &&& post == PoolView {
                        frames: pre.frames.update(
                            f,
                            FrameView { pin_count: frame.pin_count + 1, ..frame },
                        ),
                        candidates: (pre.policy.pinned)(pre.candidates, f as usize),
                        ..pre
                    }
                    &&& post.candidates.to_set() == pre.candidates.to_set().remove(f as usize)
                    &&& step == StepView::Done(Ok(Outcome::Buffer(BufferPoolID(f as usize))))
                }
            } else if PAGE_SIZE * key.page_id.0 > usize::MAX {
                post == pre && step == StepView::Done(Err(StorageError::Io))
            } else {
                load_begun(pre, disk, key, false, post, step)
            },
        }
    }
}

/// The first frame from `start` on that is dirty and holds a page, or the
/// number of frames where there is none.
pub open spec fn next_dirty(frames: Seq<FrameView>, start: int) -> int
    decreases frames.len() - start,
{
    if start >= frames.len() {
        frames.len() as int
    } else if frames[start].dirty && frames[start].key is Some {
        start
    } else {
        next_dirty(frames, start + 1)
    }
}

/// What `flush_all` does from the frame `start` on: it asks the disk to
/// write the next dirty frame's page, or is done where there is none.
pub open spec fn flushed_from(
    pre: PoolView,
    disk: DiskManager,
    start: int,
    post: PoolView,
    step: StepView,
) -> bool {
    let f = next_dirty(pre.frames, start);
    if f >= pre.frames.len() {
        post == idle(pre) && step == StepView::Done(Ok(Outcome::Flushed))
    } else {
        match write_request(disk, pre.frames[f].key->Some_0, pre.frames[f].page) {
            Ok(request) => post == (PoolView {
                pending: Pending::FlushAll { next: (f + 1) as usize },
                ..pre
            }) && step == StepView::Disk(request),
            Err(e) => post == idle(pre) && step == StepView::Done(Err(e)),
        }
    }
}

/// The number of the last page of a file of `file_len` bytes.
pub open spec fn last_page(file_len: nat) -> Option<PageID> {
    if page_count(file_len) == 0 {
        None
    } else {
        Some(PageID((page_count(file_len) - 1) as usize))
    }
}

/// What `resume` does with the disk's reply to the request that the
/// manager handed out last.
pub open spec fn resumed(
    pre: PoolView,
    disk: DiskManager,
    reply: ReplyView,
    post: PoolView,
    step: StepView,
) -> bool {
    match (pre.pending, reply) {
        (Pending::Idle, _) => post == pre && step == StepView::Done(Err(StorageError::Protocol)),
        (Pending::LastPage, ReplyView::Length(n)) => post == idle(pre) && step == StepView::Done(
            Ok(Outcome::LastPage(last_page(n))),
        ),
        (Pending::Allocate { table }, ReplyView::Length(n)) => {
            let key = Key { page_id: PageID(page_count(n) as usize), table };
            if resident(pre.frames, key) {
                post == idle(pre) && step == StepView::Done(Err(StorageError::Protocol))
            } else {
                match write_request(disk, key, empty_page(key)) {
                    Ok(request) => post == (PoolView {
                        pending: Pending::AllocateWrite { key },
                        ..pre
                    }) && step == StepView::Disk(request),
                    Err(e) => post == idle(pre) && step == StepView::Done(Err(e)),
                }
            }
        },
        (Pending::AllocateWrite { key }, ReplyView::Written) => load_begun(
            idle(pre),
            disk,
            key,
            true,
            post,
            step,
        ),
        (Pending::WriteBack { victim, key, fresh }, ReplyView::Written) => victim_ready(
            pre,
            disk,
            victim.0,
            key,
            fresh,
            post,
            step,
        ),
        (Pending::Load { victim, key }, ReplyView::Data(data)) => match disk.read_outcome(
            table_name(disk, key.table),
            data,
        ) {
            Ok(tuples) => loaded(
                pre,
                post,
                victim.0,
                key,
                PageView { id: key.page_id.0 as nat, tuple_count: tuples.len() as u32, tuples },
            ) && step == StepView::Done(Ok(Outcome::Buffer(BufferPoolID(victim.0)))),
            Err(e) => gave_up(pre, post) && step == StepView::Done(Err(e)),
        },
        (Pending::Flush, ReplyView::Written) => post == idle(pre) && step == StepView::Done(
            Ok(Outcome::Flushed),
        ),
        (Pending::FlushAll { next }, ReplyView::Written) => flushed_from(
            pre,
            disk,
            next as int,
            post,
            step,
        ),
        (_, ReplyView::Failed) => gave_up(pre, post) && step == StepView::Done(
            Err(StorageError::Io),
        ),
        (_, _) => gave_up(pre, post) && step == StepView::Done(Err(StorageError::Protocol)),
    }
}

/// What `unpin_buffer` does for the page `key` (`None` where the catalog
/// lacks the table): a resident page loses one pin, and its frame becomes
/// a candidate when the last pin is gone; for any other page nothing
/// changes.
pub open spec fn unpinned(pre: PoolView, key: Option<Key>, post: PoolView) -> bool {
    match key {
        Some(key) => if resident(pre.frames, key) {
            let f = frame_of(pre.frames, key);
            let frame = pre.frames[f];
            &&& post.frames == pre.frames.update(
                f,
                FrameView { pin_count: (frame.pin_count - 1) as nat, ..frame },
            )
            &&& post.pending == pre.pending
            &&& post.policy == pre.policy
            &&& if frame.pin_count == 1 {
                post.candidates == (pre.policy.unpinned)(
                    pre.candidates,
                    pre.frames.len(),
                    f as usize,
                ) && post.candidates.to_set() == pre.candidates.to_set().insert(f as usize)
            } else {
                post.candidates == pre.candidates
            }
        } else {
            post == pre
        },
        None => post == pre,
    }
}

/// What `new_buffer` does first for the table with the index `table`
/// (`None` where the catalog lacks the table): it asks for the length of
/// the table's file.
pub open spec fn allocation_begun(
    pre: PoolView,
    disk: DiskManager,
    table: Option<int>,
    post: PoolView,
    step: StepView,
) -> bool {
    if !(pre.pending is Idle) {
        post == pre && step == StepView::Done(Err(StorageError::Protocol))
    } else {
        match table {
            None => post == pre && step == StepView::Done(Err(StorageError::CatalogMiss)),
            Some(t) => post == (PoolView { pending: Pending::Allocate { table: t as usize }, ..pre })
                && step == StepView::Disk(
                RequestView::Length { path: table_path(disk, t as usize) },
            ),
        }
    }
}

/// What `flush_buffer` does for the page `key` (`None` where the catalog
/// lacks the table): it asks the disk to write a resident page, whatever
/// its dirty bit says; for any other page it is done at once. No frame
/// changes.
pub open spec fn flush_begun(
    pre: PoolView,
    disk: DiskManager,
    key: Option<Key>,
    post: PoolView,
    step: StepView,
) -> bool {
    if !(pre.pending is Idle) {
        post == pre && step == StepView::Done(Err(StorageError::Protocol))
    } else if key is Some && resident(pre.frames, key->Some_0) {
        match write_request(
            disk,
            key->Some_0,
            pre.frames[frame_of(pre.frames, key->Some_0)].page,
        ) {
            Ok(request) => post == (PoolView { pending: Pending::Flush, ..pre })
                && step == StepView::Disk(request),
            Err(e) => post == pre && step == StepView::Done(Err(e)),
        }
    } else {
        post == pre && step == StepView::Done(Ok(Outcome::Flushed))
    }
}

/// What `flush_all` does first.
pub open spec fn flush_all_begun(pre: PoolView, disk: DiskManager, post: PoolView, step: StepView) -> bool {
    if !(pre.pending is Idle) {
        post == pre && step == StepView::Done(Err(StorageError::Protocol))
    } else {
        flushed_from(pre, disk, 0, post, step)
    }
}

/// What `last_page_id` does first for the table `table_name`: it asks for
/// the length of the table's file.
pub open spec fn last_page_begun(
    pre: PoolView,
    disk: DiskManager,
    table_name: Seq<char>,
    post: PoolView,
    step: StepView,
) -> bool {
    if !(pre.pending is Idle) {
        post == pre && step == StepView::Done(Err(StorageError::Protocol))
    } else {
        post == (PoolView { pending: Pending::LastPage, ..pre }) && step == StepView::Disk(
            RequestView::Length { path: disk.spec_path(table_name) },
        )
    }
}

/// The frames that are dirty, in ascending order.
pub open spec fn dirty_frames(frames: Seq<FrameView>) -> Seq<BufferPoolID>
    decreases frames.len(),
{
    if frames.len() == 0 {
        Seq::empty()
    } else if frames.last().dirty {
        dirty_frames(frames.drop_last()).push(BufferPoolID((frames.len() - 1) as usize))
    } else {
        dirty_frames(frames.drop_last())
    }
}

} // verus!
