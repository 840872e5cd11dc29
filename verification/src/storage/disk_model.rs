//! A disk that does what it is asked, as mathematical values, and what
//! follows for the pages that the manager writes to it and reads from it.

use vstd::prelude::*;
use crate::storage::descriptors::DescriptorID;
use crate::storage::disk_manager::DiskManager;
use crate::storage::page::{lemma_page_round_trip, page_image, stored_tuples, PageView, PAGE_SIZE};
use crate::storage::protocol::{
    flush_begun, frame_of, key_in_range, load_begun, read_request, resident, resumed, table_name,
    table_path, write_request, Key, Outcome, Pending, PoolView, ReplyView, RequestView, StepView,
};
use crate::storage::buffer_pool::BufferPoolID;
use crate::storage::tuple::TupleView;
use crate::storage::StorageError;

verus! {

/// The bytes of the file at `path`; a file that is not there is empty.
pub open spec fn file_at(files: Map<Seq<char>, Seq<u8>>, path: Seq<char>) -> Seq<u8> {
    if files.contains_key(path) {
        files[path]
    } else {
        Seq::empty()
    }
}

/// The file `file` with `data` written at `offset`, which lies within the
/// file or at its end.
pub open spec fn overwritten(file: Seq<u8>, offset: int, data: Seq<u8>) -> Seq<u8> {
    if offset + data.len() <= file.len() {
        file.take(offset) + data + file.skip(offset + data.len())
    } else {
        file.take(offset) + data
    }
}

/// What a disk with the given files replies to a request: a read beyond
/// the end of the file fails, and so does a write beyond it or beyond the
/// machine's numbers.
pub open spec fn reply_of(files: Map<Seq<char>, Seq<u8>>, request: RequestView) -> ReplyView {
    match request {
        RequestView::Length { path } => ReplyView::Length(file_at(files, path).len()),
        RequestView::Read { path, offset, length } => if offset + length <= file_at(files, path).len() {
            ReplyView::Data(file_at(files, path).subrange(offset as int, (offset + length) as int))
        } else {
            ReplyView::Failed
        },
        RequestView::Write { path, offset, data } => if writable(file_at(files, path), offset, data) {
            ReplyView::Written
        } else {
            ReplyView::Failed
        },
    }
}

/// Whether `data` can be written at `offset` of `file`: the offset lies
/// within the file or at its end, and the file stays within the machine's
/// numbers.
pub open spec fn writable(file: Seq<u8>, offset: nat, data: Seq<u8>) -> bool {
    offset <= file.len() && offset + data.len() <= usize::MAX
}

/// The files of a disk after a request.
pub open spec fn files_after(files: Map<Seq<char>, Seq<u8>>, request: RequestView) -> Map<
    Seq<char>,
    Seq<u8>,
> {
    match request {
        RequestView::Write { path, offset, data } => if writable(file_at(files, path), offset, data) {
            files.insert(path, overwritten(file_at(files, path), offset as int, data))
        } else {
            files
        },
        _ => files,
    }
}

/// What was written is what is read at the same place.
pub proof fn lemma_read_after_write(
    files: Map<Seq<char>, Seq<u8>>,
    path: Seq<char>,
    offset: nat,
    data: Seq<u8>,
)
    requires
        writable(file_at(files, path), offset, data),
    ensures
        reply_of(
            files_after(files, RequestView::Write { path, offset, data }),
            RequestView::Read { path, offset, length: data.len() },
        ) == ReplyView::Data(data),
{
    let file = file_at(files, path);
    let after = overwritten(file, offset as int, data);
    assert(after.subrange(offset as int, (offset + data.len()) as int) =~= data);
}

/// The request that writes a page writes the page's image, 4096 bytes, at
/// the page's offset in its table's file; and what is read there
/// afterwards is that image, which holds the page's tuples as they are
/// stored.
pub proof fn lemma_written_page_reads_back(
    disk: DiskManager,
    files: Map<Seq<char>, Seq<u8>>,
    key: Key,
    page: PageView,
    request: RequestView,
)
    requires
        key_in_range(key, disk.catalog().spec_schemas().len()),
        write_request(disk, key, page) == Ok::<RequestView, StorageError>(request),
        reply_of(files, request) is Written,
        disk.catalog().spec_table_id(table_name(disk, key.table)) == Some(key.table as int),
        page.id == key.page_id.0,
    ensures
        ({
            let table = disk.catalog().spec_schemas()[key.table as int].table;
            &&& request == RequestView::Write {
                path: table_path(disk, key.table),
                offset: (PAGE_SIZE * key.page_id.0) as nat,
                data: page_image(table, page.tuples),
            }
            &&& reply_of(files_after(files, request), read_request(disk, key)) == ReplyView::Data(
                page_image(table, page.tuples),
            )
            &&& disk.read_outcome(table_name(disk, key.table), page_image(table, page.tuples)) == Ok::<
                Seq<TupleView>,
                StorageError,
            >(stored_tuples(table.columns@, page.tuples))
        }),
{
    let table = disk.catalog().spec_schemas()[key.table as int].table;
    lemma_page_round_trip(table, page.tuples);
    lemma_read_after_write(
        files,
        table_path(disk, key.table),
        (PAGE_SIZE * key.page_id.0) as nat,
        page_image(table, page.tuples),
    );
}

/// A flushed page is on the disk as it is in its frame at the time of the
/// flush: `flush_buffer` of a resident page asks the disk to write the
/// page's image at the page's offset, and once the disk has done so, what
/// is read there is the frame's page. The frame, its pins and its dirty
/// bit stay as they are.
pub proof fn lemma_flushed_page_is_on_disk(
    pre: PoolView,
    disk: DiskManager,
    files: Map<Seq<char>, Seq<u8>>,
    key: Key,
    post: PoolView,
    request: RequestView,
)
    requires
        key_in_range(key, disk.catalog().spec_schemas().len()),
        disk.catalog().spec_table_id(table_name(disk, key.table)) == Some(key.table as int),
        resident(pre.frames, key),
        pre.frames[frame_of(pre.frames, key)].page.id == key.page_id.0,
        flush_begun(pre, disk, Some(key), post, StepView::Disk(request)),
        reply_of(files, request) is Written,
    ensures
        post.frames == pre.frames,
        post.candidates == pre.candidates,
        ({
            let table = disk.catalog().spec_schemas()[key.table as int].table;
            let page = pre.frames[frame_of(pre.frames, key)].page;
            &&& reply_of(files_after(files, request), read_request(disk, key)) == ReplyView::Data(
                page_image(table, page.tuples),
            )
            &&& disk.read_outcome(table_name(disk, key.table), page_image(table, page.tuples)) == Ok::<
                Seq<TupleView>,
                StorageError,
            >(stored_tuples(table.columns@, page.tuples))
        }),
{
    let page = pre.frames[frame_of(pre.frames, key)].page;
    lemma_written_page_reads_back(disk, files, key, page, request);
}

/// A dirty page is written before its frame is given away: when a page
/// needs a frame and the victim is dirty, the manager asks the disk to
/// write the victim's page and changes no frame.
pub proof fn lemma_dirty_victim_is_written_first(
    pre: PoolView,
    disk: DiskManager,
    key: Key,
    fresh: bool,
    post: PoolView,
    step: StepView,
)
    requires
        load_begun(pre, disk, key, fresh, post, step),
        pre.candidates.len() > 0,
        pre.frames[pre.candidates[0] as int].dirty,
        pre.frames[pre.candidates[0] as int].key is Some,
    ensures
        post.frames == pre.frames,
        ({
            let v = pre.candidates[0];
            let victim = pre.frames[v as int];
            match write_request(disk, victim.key->Some_0, victim.page) {
                Ok(request) => step == StepView::Disk(request) && post.pending == (Pending::WriteBack {
                    victim: DescriptorID(v),
                    key,
                    fresh,
                }),
                Err(e) => step == StepView::Done(Err(e)) && post.pending is Idle,
            }
        }),
{
}

/// While the manager waits for a dirty victim to be written, only the
/// reply that the page is written lets a frame change; after any other
/// reply every frame is as it was, the victim's page and dirty bit
/// included.
pub proof fn lemma_frames_wait_for_the_write(
    pre: PoolView,
    disk: DiskManager,
    reply: ReplyView,
    post: PoolView,
    step: StepView,
)
    requires
        resumed(pre, disk, reply, post, step),
        pre.pending is WriteBack,
        !(reply is Written),
    ensures
        post.frames == pre.frames,
        step is Done,
        step->Done_0 is Err,
{
}

/// A page that was written back comes back as it was: once the disk has
/// written the page of a frame, the manager that then reads the page gets
/// the page's tuples as they are stored, in a frame that is pinned once
/// and clean.
pub proof fn lemma_evicted_page_comes_back(
    disk: DiskManager,
    files: Map<Seq<char>, Seq<u8>>,
    key: Key,
    page: PageView,
    request: RequestView,
    pre: PoolView,
    victim: DescriptorID,
    post: PoolView,
    step: StepView,
)
    requires
        key_in_range(key, disk.catalog().spec_schemas().len()),
        disk.catalog().spec_table_id(table_name(disk, key.table)) == Some(key.table as int),
        page.id == key.page_id.0,
        write_request(disk, key, page) == Ok::<RequestView, StorageError>(request),
        reply_of(files, request) is Written,
        pre.pending == (Pending::Load { victim, key }),
        victim.0 < pre.frames.len(),
        resumed(
            pre,
            disk,
            reply_of(files_after(files, request), read_request(disk, key)),
            post,
            step,
        ),
    ensures
        step == StepView::Done(Ok(Outcome::Buffer(BufferPoolID(victim.0)))),
        post.frames[victim.0 as int].key == Some(key),
        post.frames[victim.0 as int].pin_count == 1,
        !post.frames[victim.0 as int].dirty,
        post.frames[victim.0 as int].page == (PageView {
            id: page.id,
            tuple_count: page.tuple_count,
            tuples: stored_tuples(
                disk.catalog().spec_schemas()[key.table as int].table.columns@,
                page.tuples,
            ),
        }),
{
    lemma_written_page_reads_back(disk, files, key, page, request);
}

} // verus!
