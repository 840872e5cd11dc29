//! What the frames and the disk hold together: the contents of the tables'
//! pages, whether a page is in a frame or only in its file.

use vstd::prelude::*;
use crate::catalog::Table;
use crate::storage::disk_manager::{page_count, DiskManager};
use crate::storage::disk_model::{file_at, files_after, overwritten, reply_of, writable};
use crate::storage::page::{
    lemma_page_round_trip, page_fits, page_image, stored_tuples, PageView, PAGE_SIZE,
};

use crate::storage::protocol::{
    empty_page, fetched, frame_of, frames_inv, gave_up, holds, idle, in_flight, key_in_range,
    load_begun, read_request, resident, resumed, table_name, table_path, taken, unpinned,
    victim_ready, write_request, FrameView, Key, Outcome, Pending, PoolView, ReplyView,
    RequestView, StepView,
};
use crate::storage::tuple::{column_names, stored_tuple, TupleView};
use crate::storage::StorageError;

verus! {

/// The table with the index `t`.
pub open spec fn table_at(disk: DiskManager, t: usize) -> Table {
    disk.catalog().spec_schemas()[t as int].table
}

/// The number of tables.
pub open spec fn table_count(disk: DiskManager) -> nat {
    disk.catalog().spec_schemas().len()
}

/// Whether each table of the catalog is found by its own name, that is,
/// no two tables share a name.
pub open spec fn names_unique(disk: DiskManager) -> bool {
    forall|t: usize|
        t < table_count(disk) ==> disk.catalog().spec_table_id(#[trigger] table_name(disk, t))
            == Some(t as int)
}

/// The bytes of the file of the table with the index `t`.
pub open spec fn table_file(disk: DiskManager, files: Map<Seq<char>, Seq<u8>>, t: usize) -> Seq<u8> {
    file_at(files, table_path(disk, t))
}

/// Whether the page `key` lies within its table's file.
pub open spec fn in_file(disk: DiskManager, files: Map<Seq<char>, Seq<u8>>, key: Key) -> bool {
    key.table < table_count(disk) && key.page_id.0 < page_count(
        table_file(disk, files, key.table).len(),
    )
}

/// The bytes of the page `key` in its table's file.
pub open spec fn on_disk(disk: DiskManager, files: Map<Seq<char>, Seq<u8>>, key: Key) -> Seq<u8> {
    table_file(disk, files, key.table).subrange(
        PAGE_SIZE * key.page_id.0,
        PAGE_SIZE * key.page_id.0 + PAGE_SIZE,
    )
}

/// Whether each of the tuples has exactly the table's columns as its
/// attributes.
pub open spec fn whole_tuples(table: Table, tuples: Seq<TupleView>) -> bool {
    forall|i: int|
        0 <= i < tuples.len() ==> (#[trigger] tuples[i]).attributes.dom() == column_names(
            table.columns@,
        )
}

/// Whether the tuples make a page of the table that reads back as it was
/// written: they fit the columns and the page, and have no attributes but
/// the table's columns.
pub open spec fn page_ok(table: Table, tuples: Seq<TupleView>) -> bool {
    &&& tuples.len() <= u32::MAX
    &&& page_fits(table, tuples.len() as u32, tuples)
    &&& whole_tuples(table, tuples)
}

/// Whether every table's file is a whole number of pages long, within the
/// machine's numbers.
pub open spec fn files_ok(disk: DiskManager, files: Map<Seq<char>, Seq<u8>>) -> bool {
    forall|t: usize|
        t < table_count(disk) ==> (#[trigger] table_file(disk, files, t)).len() % PAGE_SIZE as nat
            == 0 && table_file(disk, files, t).len() <= usize::MAX
}

/// Whether the page of the frame `f` is on the disk as it is in the frame
/// for all that the manager knows: the frame is clean, or the manager has
/// written its page and waits for the page that the frame is to take.
pub open spec fn synced(pool: PoolView, f: int) -> bool {
    !pool.frames[f].dirty || (pool.pending matches Pending::Load { victim, .. } && victim.0 == f)
}

/// Whether the frame `f` holds what `content` says of its page, and the
/// disk too where the frame is in step with the disk.
pub open spec fn frame_coherent(
    pool: PoolView,
    disk: DiskManager,
    files: Map<Seq<char>, Seq<u8>>,
    content: spec_fn(Key) -> Seq<TupleView>,
    f: int,
) -> bool {
    pool.frames[f].key matches Some(key) ==> {
        &&& in_file(disk, files, key)
        &&& pool.frames[f].page.tuples == content(key)
        &&& pool.frames[f].page.tuple_count == content(key).len()
        &&& synced(pool, f) ==> on_disk(disk, files, key) == page_image(
            table_at(disk, key.table),
            content(key),
        )
    }
}

/// Whether what `content` says of the page `key` is a page of its table,
/// and is on the disk where the page is in no frame.
pub open spec fn page_coherent(
    pool: PoolView,
    disk: DiskManager,
    files: Map<Seq<char>, Seq<u8>>,
    content: spec_fn(Key) -> Seq<TupleView>,
    key: Key,
) -> bool {
    in_file(disk, files, key) ==> {
        &&& page_ok(table_at(disk, key.table), content(key))
        &&& !resident(pool.frames, key) ==> on_disk(disk, files, key) == page_image(
            table_at(disk, key.table),
            content(key),
        )
    }
}

/// Whether the frames and the files together hold the pages that
/// `content` lists: each page of each file has a content; a frame holds
/// the content of its page; and the file holds it too, unless the page is
/// in a dirty frame.
pub open spec fn coherent(
    pool: PoolView,
    disk: DiskManager,
    files: Map<Seq<char>, Seq<u8>>,
    content: spec_fn(Key) -> Seq<TupleView>,
) -> bool {
    &&& names_unique(disk)
    &&& files_ok(disk, files)
    &&& frames_inv(pool.frames, table_count(disk))
    &&& forall|f: int|
        0 <= f < pool.frames.len() ==> #[trigger] frame_coherent(pool, disk, files, content, f)
    &&& forall|key: Key| #[trigger] page_coherent(pool, disk, files, content, key)
}

/// The tuples of the first `pages` pages of the table with the index `t`,
/// page after page.
pub open spec fn table_rows(content: spec_fn(Key) -> Seq<TupleView>, t: usize, pages: nat) -> Seq<
    TupleView,
>
    decreases pages,
{
    if pages == 0 {
        Seq::empty()
    } else {
        table_rows(content, t, (pages - 1) as nat) + content(
            Key { page_id: crate::storage::page::PageID((pages - 1) as usize), table: t },
        )
    }
}

/// Two tables of a catalog without repeated names have different files.
pub proof fn lemma_paths_differ(disk: DiskManager, a: usize, b: usize)
    requires
        names_unique(disk),
        a < table_count(disk),
        b < table_count(disk),
        a != b,
    ensures
        table_path(disk, a) != table_path(disk, b),
{
    let prefix = disk.base_path() + "/"@;
    let x = table_name(disk, a);
    let y = table_name(disk, b);
    if table_path(disk, a) == table_path(disk, b) {
        assert((prefix + x).len() == (prefix + y).len());
        assert forall|i: int| 0 <= i < x.len() implies x[i] == y[i] by {
            assert((prefix + x)[prefix.len() + i] == x[i]);
            assert((prefix + y)[prefix.len() + i] == y[i]);
        }
        assert(x =~= y);
        assert(disk.catalog().spec_table_id(table_name(disk, a)) == Some(a as int));
        assert(disk.catalog().spec_table_id(table_name(disk, b)) == Some(b as int));
    }
}

/// What a write of one page does to a file of whole pages: the page
/// written holds the data; every other page holds what it held; and the
/// file grows by one page where the page written is the first after its
/// end.
pub proof fn lemma_page_written(file: Seq<u8>, p: nat, data: Seq<u8>, q: nat)
    requires
        file.len() % PAGE_SIZE as nat == 0,
        p <= page_count(file.len()),
        data.len() == PAGE_SIZE,
    ensures
        ({
            let after = overwritten(file, PAGE_SIZE * p, data);
            &&& after.len() % PAGE_SIZE as nat == 0
            &&& page_count(after.len()) == if p == page_count(file.len()) {
                p + 1
            } else {
                page_count(file.len())
            }
            &&& q < page_count(after.len()) ==> after.subrange(
                PAGE_SIZE * q,
                PAGE_SIZE * q + PAGE_SIZE,
            ) == if q == p {
                data
            } else {
                file.subrange(PAGE_SIZE * q, PAGE_SIZE * q + PAGE_SIZE)
            }
        }),
{
    let after = overwritten(file, PAGE_SIZE * p, data);
    let m = page_count(file.len());
    assert(file.len() == PAGE_SIZE * m);
    if q < page_count(after.len()) {
        if q == p {
            assert(after.subrange(PAGE_SIZE * q, PAGE_SIZE * q + PAGE_SIZE) =~= data);
        } else {
            assert(after.subrange(PAGE_SIZE * q, PAGE_SIZE * q + PAGE_SIZE) =~= file.subrange(
                PAGE_SIZE * q,
                PAGE_SIZE * q + PAGE_SIZE,
            ));
        }
    }
}

/// The content `content` with `tuples` as the content of the page `key`.
pub open spec fn with_page(content: spec_fn(Key) -> Seq<TupleView>, key: Key, tuples: Seq<TupleView>) -> spec_fn(
    Key,
) -> Seq<TupleView> {
    |k: Key|
        if k == key {
            tuples
        } else {
            content(k)
        }
}

/// Whether the frames `post` hold the pages that the frames `pre` hold,
/// with the same tuples; a frame may have become dirty, and pins may have
/// changed.
pub open spec fn same_pages(pre: Seq<FrameView>, post: Seq<FrameView>) -> bool {
    &&& post.len() == pre.len()
    &&& forall|f: int|
        0 <= f < pre.len() ==> (#[trigger] post[f]).key == pre[f].key && post[f].page == pre[f].page
            && (pre[f].dirty ==> post[f].dirty)
}

/// Frames that hold the same pages hold the same pages as residents.
pub proof fn lemma_same_pages_resident(pre: Seq<FrameView>, post: Seq<FrameView>, key: Key)
    requires
        same_pages(pre, post),
    ensures
        resident(post, key) == resident(pre, key),
{
    if resident(post, key) {
        let f = choose|f: int| holds(post, f, key);
        assert(holds(pre, f, key));
    }
    if resident(pre, key) {
        let f = choose|f: int| holds(pre, f, key);
        assert(post[f].key == pre[f].key);
        assert(holds(post, f, key));
    }
}

/// Pins, dirty bits that are set, and what the manager waits for do not
/// change what the frames and the files hold together, as long as no
/// frame counts as in step with the disk that did not before.
pub proof fn lemma_coherent_same_pages(
    pre: PoolView,
    post: PoolView,
    disk: DiskManager,
    files: Map<Seq<char>, Seq<u8>>,
    content: spec_fn(Key) -> Seq<TupleView>,
)
    requires
        coherent(pre, disk, files, content),
        same_pages(pre.frames, post.frames),
        forall|f: int| 0 <= f < pre.frames.len() && synced(post, f) ==> synced(pre, f),
    ensures
        coherent(post, disk, files, content),
{
    assert forall|f: int| 0 <= f < post.frames.len() implies #[trigger] frame_coherent(
        post,
        disk,
        files,
        content,
        f,
    ) by {
        assert(frame_coherent(pre, disk, files, content, f));
        assert(post.frames[f].key == pre.frames[f].key);
    }
    assert forall|key: Key| #[trigger] page_coherent(post, disk, files, content, key) by {
        assert(page_coherent(pre, disk, files, content, key));
        lemma_same_pages_resident(pre.frames, post.frames, key);
    }
    assert(frames_inv(post.frames, table_count(disk))) by {
        assert forall|f: int, g: int|
            0 <= f < post.frames.len() && 0 <= g < post.frames.len() && f != g && (
            #[trigger] post.frames[f]).key is Some implies post.frames[f].key != (
        #[trigger] post.frames[g]).key by {
            assert(pre.frames[f].key != pre.frames[g].key);
        }
        assert forall|f: int| 0 <= f < post.frames.len() implies ((
        #[trigger] post.frames[f]).key matches Some(key) ==> key_in_range(key, table_count(disk))
            && post.frames[f].page.id == key.page_id.0) by {
            assert(pre.frames[f].key == post.frames[f].key);
        }
    }
}

/// What the write of a page of a table's file does to the pages of all
/// files: the page written holds the data, and every other page of every
/// table holds what it held. The file grows by the page where the page is
/// the first after its end.
#[verifier::rlimit(50)]
pub proof fn lemma_write_keeps_other_pages(
    disk: DiskManager,
    files: Map<Seq<char>, Seq<u8>>,
    key: Key,
    data: Seq<u8>,
    other: Key,
)
    requires
        names_unique(disk),
        files_ok(disk, files),
        key.table < table_count(disk),
        key.page_id.0 <= page_count(table_file(disk, files, key.table).len()),
        PAGE_SIZE * key.page_id.0 + PAGE_SIZE <= usize::MAX,
        data.len() == PAGE_SIZE,
        other.table < table_count(disk),
    ensures
        ({
            let request = RequestView::Write {
                path: table_path(disk, key.table),
                offset: (PAGE_SIZE * key.page_id.0) as nat,
                data,
            };
            let after = files_after(files, request);
            &&& reply_of(files, request) is Written
            &&& files_ok(disk, after)
            &&& in_file(disk, after, other) == (in_file(disk, files, other) || other == key)
            &&& in_file(disk, after, other) ==> on_disk(disk, after, other) == if other == key {
                data
            } else {
                on_disk(disk, files, other)
            }
        }),
{
    let path = table_path(disk, key.table);
    let request = RequestView::Write { path, offset: (PAGE_SIZE * key.page_id.0) as nat, data };
    let after = files_after(files, request);
    let file = table_file(disk, files, key.table);
    assert(file.len() % PAGE_SIZE as nat == 0);
    assert(file.len() == PAGE_SIZE * page_count(file.len()));
    assert(writable(file, (PAGE_SIZE * key.page_id.0) as nat, data));
    assert forall|t: usize| t < table_count(disk) implies (#[trigger] table_file(disk, after, t)).len()
        % PAGE_SIZE as nat == 0 && table_file(disk, after, t).len() <= usize::MAX by {
        assert(table_file(disk, files, t).len() % PAGE_SIZE as nat == 0);
        if t == key.table {
            lemma_page_written(file, key.page_id.0 as nat, data, 0);
        } else {
            lemma_paths_differ(disk, t, key.table);
        }
    }
    if other.table == key.table {
        lemma_page_written(file, key.page_id.0 as nat, data, other.page_id.0 as nat);
        if other.page_id.0 == key.page_id.0 {
            assert(other.page_id == key.page_id);
            assert(other == key);
        }
    } else {
        lemma_paths_differ(disk, other.table, key.table);
    }
}

/// The image of a page that fits is one page long.
pub proof fn lemma_image_len(table: Table, tuples: Seq<TupleView>)
    requires
        page_ok(table, tuples),
    ensures
        page_image(table, tuples).len() == PAGE_SIZE,
{
    lemma_page_round_trip(table, tuples);
}

/// The request that writes a page that is in a frame succeeds on a disk
/// that holds the page's file, and writes what the frame holds.
pub proof fn lemma_write_of_frame(
    pool: PoolView,
    disk: DiskManager,
    files: Map<Seq<char>, Seq<u8>>,
    content: spec_fn(Key) -> Seq<TupleView>,
    v: int,
)
    requires
        coherent(pool, disk, files, content),
        0 <= v < pool.frames.len(),
        pool.frames[v].key is Some,
    ensures
        ({
            let key = pool.frames[v].key->Some_0;
            &&& in_file(disk, files, key)
            &&& PAGE_SIZE * key.page_id.0 + PAGE_SIZE <= usize::MAX
            &&& write_request(disk, key, pool.frames[v].page) == Ok::<RequestView, StorageError>(
                RequestView::Write {
                    path: table_path(disk, key.table),
                    offset: (PAGE_SIZE * key.page_id.0) as nat,
                    data: page_image(table_at(disk, key.table), content(key)),
                },
            )
            &&& page_image(table_at(disk, key.table), content(key)).len() == PAGE_SIZE
        }),
{
    let key = pool.frames[v].key->Some_0;
    assert(frame_coherent(pool, disk, files, content, v));
    assert(page_coherent(pool, disk, files, content, key));
    assert(disk.catalog().spec_table_id(table_name(disk, key.table)) == Some(key.table as int));
    lemma_image_len(table_at(disk, key.table), content(key));
    let file = table_file(disk, files, key.table);
    assert(file.len() % PAGE_SIZE as nat == 0);
    assert(file.len() == PAGE_SIZE * page_count(file.len()));
}

/// Writing back the page of a frame changes nothing of what the frames
/// and the files hold together: afterwards the file holds the frame's
/// page, and every other page is where it was.
#[verifier::rlimit(50)]
pub proof fn lemma_coherent_after_write_back(
    pre: PoolView,
    post: PoolView,
    disk: DiskManager,
    files: Map<Seq<char>, Seq<u8>>,
    content: spec_fn(Key) -> Seq<TupleView>,
    v: int,
    request: RequestView,
)
    requires
        coherent(pre, disk, files, content),
        0 <= v < pre.frames.len(),
        pre.frames[v].key is Some,
        write_request(disk, pre.frames[v].key->Some_0, pre.frames[v].page) == Ok::<
            RequestView,
            StorageError,
        >(request),
        same_pages(pre.frames, post.frames),
        forall|f: int| 0 <= f < pre.frames.len() && synced(post, f) ==> synced(pre, f) || f == v,
    ensures
        reply_of(files, request) is Written,
        coherent(post, disk, files_after(files, request), content),
        forall|k: Key| in_file(disk, files_after(files, request), k) == in_file(disk, files, k),
{
    let old = pre.frames[v].key->Some_0;
    let after = files_after(files, request);
    let image = page_image(table_at(disk, old.table), content(old));
    lemma_write_of_frame(pre, disk, files, content, v);
    lemma_write_keeps_other_pages(disk, files, old, image, old);
    assert forall|k: Key| in_file(disk, after, k) == in_file(disk, files, k) by {
        if k.table < table_count(disk) {
            lemma_write_keeps_other_pages(disk, files, old, image, k);
        }
    }
    assert forall|f: int| 0 <= f < post.frames.len() implies #[trigger] frame_coherent(
        post,
        disk,
        after,
        content,
        f,
    ) by {
        assert(frame_coherent(pre, disk, files, content, f));
        assert(post.frames[f].key == pre.frames[f].key);
        if post.frames[f].key is Some {
            let k = post.frames[f].key->Some_0;
            lemma_write_keeps_other_pages(disk, files, old, image, k);
            if f != v && k == old {
                assert(pre.frames[v].key != pre.frames[f].key);
            }
        }
    }
    assert forall|key: Key| #[trigger] page_coherent(post, disk, after, content, key) by {
        assert(page_coherent(pre, disk, files, content, key));
        lemma_same_pages_resident(pre.frames, post.frames, key);
        if key.table < table_count(disk) {
            lemma_write_keeps_other_pages(disk, files, old, image, key);
        }
    }
    assert(frames_inv(post.frames, table_count(disk))) by {
        assert forall|f: int, g: int|
            0 <= f < post.frames.len() && 0 <= g < post.frames.len() && f != g && (
            #[trigger] post.frames[f]).key is Some implies post.frames[f].key != (
        #[trigger] post.frames[g]).key by {
            assert(pre.frames[f].key != pre.frames[g].key);
        }
        assert forall|f: int| 0 <= f < post.frames.len() implies ((
        #[trigger] post.frames[f]).key matches Some(key) ==> key_in_range(key, table_count(disk))
            && post.frames[f].page.id == key.page_id.0) by {
            assert(pre.frames[f].key == post.frames[f].key);
        }
    }
}

/// A frame that takes a page of a file holds what the file holds, and the
/// page that it held is in its file: nothing changes of what the frames
/// and the files hold together.
#[verifier::rlimit(50)]
pub proof fn lemma_coherent_after_load(
    pre: PoolView,
    post: PoolView,
    disk: DiskManager,
    files: Map<Seq<char>, Seq<u8>>,
    content: spec_fn(Key) -> Seq<TupleView>,
    v: int,
    key: Key,
)
    requires
        coherent(pre, disk, files, content),
        0 <= v < pre.frames.len(),
        in_file(disk, files, key),
        key_in_range(key, table_count(disk)),
        !resident(pre.frames, key),
        pre.frames[v].key matches Some(old) ==> on_disk(disk, files, old) == page_image(
            table_at(disk, old.table),
            content(old),
        ),
        post.frames == pre.frames.update(
            v,
            FrameView {
                page: PageView {
                    id: key.page_id.0 as nat,
                    tuple_count: content(key).len() as u32,
                    tuples: content(key),
                },
                key: Some(key),
                pin_count: 1,
                dirty: false,
            },
        ),
        post.pending is Idle,
    ensures
        coherent(post, disk, files, content),
        holds(post.frames, v, key),
{
    assert(page_coherent(pre, disk, files, content, key));
    assert forall|f: int| 0 <= f < post.frames.len() implies #[trigger] frame_coherent(
        post,
        disk,
        files,
        content,
        f,
    ) by {
        if f != v {
            assert(frame_coherent(pre, disk, files, content, f));
        }
    }
    assert forall|k: Key| #[trigger] page_coherent(post, disk, files, content, k) by {
        assert(page_coherent(pre, disk, files, content, k));
        if in_file(disk, files, k) && !resident(post.frames, k) {
            if resident(pre.frames, k) {
                let f = choose|f: int| holds(pre.frames, f, k);
                if f != v {
                    assert(holds(post.frames, f, k));
                }
            }
        }
    }
    assert(frames_inv(post.frames, table_count(disk))) by {
        assert forall|f: int, g: int|
            0 <= f < post.frames.len() && 0 <= g < post.frames.len() && f != g && (
            #[trigger] post.frames[f]).key is Some implies post.frames[f].key != (
        #[trigger] post.frames[g]).key by {
            if f == v {
                if post.frames[g].key == Some(key) {
                    assert(holds(pre.frames, g, key));
                }
            } else if g == v {
                if post.frames[f].key == Some(key) {
                    assert(holds(pre.frames, f, key));
                }
            } else {
                assert(pre.frames[f].key != pre.frames[g].key);
            }
        }
        assert forall|f: int| 0 <= f < post.frames.len() implies ((
        #[trigger] post.frames[f]).key matches Some(k) ==> key_in_range(k, table_count(disk))
            && post.frames[f].page.id == k.page_id.0) by {
            if f != v {
                assert(pre.frames[f].key == post.frames[f].key);
            }
        }
    }
}

/// Appending an empty page to a table's file adds that page, empty, to
/// what the frames and the files hold together, and changes nothing else.
#[verifier::rlimit(50)]
pub proof fn lemma_coherent_after_extension(
    pre: PoolView,
    post: PoolView,
    disk: DiskManager,
    files: Map<Seq<char>, Seq<u8>>,
    content: spec_fn(Key) -> Seq<TupleView>,
    key: Key,
)
    requires
        coherent(pre, disk, files, content),
        key.table < table_count(disk),
        key.page_id.0 == page_count(table_file(disk, files, key.table).len()),
        PAGE_SIZE * key.page_id.0 + PAGE_SIZE <= usize::MAX,
        same_pages(pre.frames, post.frames),
        forall|f: int| 0 <= f < pre.frames.len() && synced(post, f) ==> synced(pre, f),
    ensures
        ({
            let table = table_at(disk, key.table);
            let request = RequestView::Write {
                path: table_path(disk, key.table),
                offset: (PAGE_SIZE * key.page_id.0) as nat,
                data: page_image(table, Seq::empty()),
            };
            let after = files_after(files, request);
            let grown = with_page(content, key, Seq::empty());
            &&& reply_of(files, request) is Written
            &&& coherent(post, disk, after, grown)
            &&& !resident(post.frames, key)
            &&& forall|k: Key| in_file(disk, after, k) == (in_file(disk, files, k) || k == key)
        }),
{
    let table = table_at(disk, key.table);
    let image = page_image(table, Seq::<TupleView>::empty());
    let request = RequestView::Write {
        path: table_path(disk, key.table),
        offset: (PAGE_SIZE * key.page_id.0) as nat,
        data: image,
    };
    let after = files_after(files, request);
    let grown = with_page(content, key, Seq::empty());
    assert(page_ok(table, Seq::<TupleView>::empty())) by {
        assert(0 * table.spec_tuple_size() == 0);
    }
    lemma_image_len(table, Seq::empty());
    lemma_write_keeps_other_pages(disk, files, key, image, key);
    assert forall|k: Key| in_file(disk, after, k) == (in_file(disk, files, k) || k == key) by {
        if k.table < table_count(disk) {
            lemma_write_keeps_other_pages(disk, files, key, image, k);
        }
    }
    assert(!resident(pre.frames, key)) by {
        if resident(pre.frames, key) {
            let f = choose|f: int| holds(pre.frames, f, key);
            assert(frame_coherent(pre, disk, files, content, f));
        }
    }
    lemma_same_pages_resident(pre.frames, post.frames, key);
    assert forall|f: int| 0 <= f < post.frames.len() implies #[trigger] frame_coherent(
        post,
        disk,
        after,
        grown,
        f,
    ) by {
        assert(frame_coherent(pre, disk, files, content, f));
        assert(post.frames[f].key == pre.frames[f].key);
        if post.frames[f].key is Some {
            let k = post.frames[f].key->Some_0;
            lemma_write_keeps_other_pages(disk, files, key, image, k);
            assert(k != key);
        }
    }
    assert forall|k: Key| #[trigger] page_coherent(post, disk, after, grown, k) by {
        assert(page_coherent(pre, disk, files, content, k));
        lemma_same_pages_resident(pre.frames, post.frames, k);
        if k.table < table_count(disk) {
            lemma_write_keeps_other_pages(disk, files, key, image, k);
        }
    }
    assert(frames_inv(post.frames, table_count(disk))) by {
        assert forall|f: int, g: int|
            0 <= f < post.frames.len() && 0 <= g < post.frames.len() && f != g && (
            #[trigger] post.frames[f]).key is Some implies post.frames[f].key != (
        #[trigger] post.frames[g]).key by {
            assert(pre.frames[f].key != pre.frames[g].key);
        }
        assert forall|f: int| 0 <= f < post.frames.len() implies ((
        #[trigger] post.frames[f]).key matches Some(k) ==> key_in_range(k, table_count(disk))
            && post.frames[f].page.id == k.page_id.0) by {
            assert(pre.frames[f].key == post.frames[f].key);
        }
    }
}

/// A tuple appended to a page in a frame is appended to the page's
/// content; nothing else changes of what the frames and the files hold
/// together.
#[verifier::rlimit(50)]
pub proof fn lemma_coherent_after_append(
    pre: PoolView,
    post: PoolView,
    disk: DiskManager,
    files: Map<Seq<char>, Seq<u8>>,
    content: spec_fn(Key) -> Seq<TupleView>,
    f: int,
    key: Key,
    tuple: TupleView,
)
    requires
        coherent(pre, disk, files, content),
        holds(pre.frames, f, key),
        pre.pending is Idle,
        post.pending is Idle,
        crate::storage::tuple::body_fits(table_at(disk, key.table).columns@, tuple.attributes),
        tuple.attributes.dom() == column_names(table_at(disk, key.table).columns@),
        crate::storage::page::tuples_fit_in_page(
            (content(key).len() + 1) as nat,
            table_at(disk, key.table).spec_tuple_size(),
        ),
        post.frames == pre.frames.update(
            f,
            FrameView {
                page: PageView {
                    tuple_count: (pre.frames[f].page.tuple_count + 1) as u32,
                    tuples: pre.frames[f].page.tuples.push(tuple),
                    ..pre.frames[f].page
                },
                dirty: true,
                ..pre.frames[f]
            },
        ),
    ensures
        coherent(post, disk, files, with_page(content, key, content(key).push(tuple))),
{
    let table = table_at(disk, key.table);
    let grown = with_page(content, key, content(key).push(tuple));
    let more = content(key).push(tuple);
    assert(frame_coherent(pre, disk, files, content, f));
    assert(page_coherent(pre, disk, files, content, key));
    assert(page_ok(table, more)) by {
        assert(more.len() * table.spec_tuple_size() <= PAGE_SIZE) by (nonlinear_arith)
            requires
                crate::storage::page::tuples_fit_in_page(more.len(), table.spec_tuple_size()),
        ;
        assert(more.len() <= PAGE_SIZE) by (nonlinear_arith)
            requires
                more.len() * table.spec_tuple_size() <= PAGE_SIZE,
                table.spec_tuple_size() >= 8,
        ;
        assert forall|i: int| 0 <= i < more.len() implies crate::storage::tuple::body_fits(
            table.columns@,
            #[trigger] more[i].attributes,
        ) by {
            if i < content(key).len() {
                assert(more[i] == content(key)[i]);
            }
        }
        assert forall|i: int| 0 <= i < more.len() implies (#[trigger] more[i]).attributes.dom()
            == column_names(table.columns@) by {
            if i < content(key).len() {
                assert(more[i] == content(key)[i]);
            }
        }
    }
    assert forall|g: int| 0 <= g < post.frames.len() implies #[trigger] frame_coherent(
        post,
        disk,
        files,
        grown,
        g,
    ) by {
        assert(frame_coherent(pre, disk, files, content, g));
        if g != f && pre.frames[g].key == Some(key) {
            assert(pre.frames[f].key != pre.frames[g].key);
        }
    }
    assert forall|k: Key| #[trigger] page_coherent(post, disk, files, grown, k) by {
        assert(page_coherent(pre, disk, files, content, k));
        if k == key {
            assert(holds(post.frames, f, key));
        } else {
            if resident(pre.frames, k) {
                let g = choose|g: int| holds(pre.frames, g, k);
                assert(holds(post.frames, g, k));
            }
            if resident(post.frames, k) {
                let g = choose|g: int| holds(post.frames, g, k);
                assert(holds(pre.frames, g, k));
            }
        }
    }
    assert(frames_inv(post.frames, table_count(disk))) by {
        assert forall|a: int, b: int|
            0 <= a < post.frames.len() && 0 <= b < post.frames.len() && a != b && (
            #[trigger] post.frames[a]).key is Some implies post.frames[a].key != (
        #[trigger] post.frames[b]).key by {
            assert(pre.frames[a].key != pre.frames[b].key);
        }
        assert forall|a: int| 0 <= a < post.frames.len() implies ((
        #[trigger] post.frames[a]).key matches Some(k) ==> key_in_range(k, table_count(disk))
            && post.frames[a].page.id == k.page_id.0) by {
            assert(pre.frames[a].key == post.frames[a].key);
        }
    }
}

/// Tuples that have no attributes but the table's columns are stored as
/// they are.
pub proof fn lemma_whole_tuples_stored(table: Table, tuples: Seq<TupleView>)
    requires
        whole_tuples(table, tuples),
    ensures
        stored_tuples(table.columns@, tuples) == tuples,
{
    assert forall|i: int| 0 <= i < tuples.len() implies stored_tuple(table.columns@, tuples[i])
        == tuples[i] by {
        assert(tuples[i].attributes.dom() == column_names(table.columns@));
        assert(tuples[i].attributes.restrict(column_names(table.columns@)) =~= tuples[i].attributes);
    }
    assert(stored_tuples(table.columns@, tuples) =~= tuples);
}

/// Whether the candidates and the frame that is about to take another
/// page are frames of the pool.
pub open spec fn bounded(pool: PoolView) -> bool {
    &&& pool.frames.len() <= usize::MAX
    &&& forall|c: usize| #[trigger] pool.candidates.contains(c) ==> c < pool.frames.len()
    &&& in_flight(pool.pending) matches Some(v) ==> 0 <= v < pool.frames.len()
}

/// The request whose reply the manager waits for, while it appends a page
/// or brings a page into a frame.
pub open spec fn awaited(pool: PoolView, disk: DiskManager) -> Option<RequestView> {
    match pool.pending {
        Pending::Allocate { table } => Some(RequestView::Length { path: table_path(disk, table) }),
        Pending::AllocateWrite { key } => match write_request(disk, key, empty_page(key)) {
            Ok(request) => Some(request),
            Err(_) => None,
        },
        Pending::WriteBack { victim, .. } => match pool.frames[victim.0 as int].key {
            Some(old) => match write_request(disk, old, pool.frames[victim.0 as int].page) {
                Ok(request) => Some(request),
                Err(_) => None,
            },
            None => None,
        },
        Pending::Load { key, .. } => Some(read_request(disk, key)),
        _ => None,
    }
}

/// Whether the operation under way fits the files: a page that is to be
/// appended is the first after the end of its file, and a page that is to
/// come into a frame is in its file and in no frame.
pub open spec fn pending_fits(
    pool: PoolView,
    disk: DiskManager,
    files: Map<Seq<char>, Seq<u8>>,
    content: spec_fn(Key) -> Seq<TupleView>,
) -> bool {
    match pool.pending {
        Pending::Allocate { table } => table < table_count(disk),
        Pending::AllocateWrite { key } => key.table < table_count(disk) && key.page_id.0
            == page_count(table_file(disk, files, key.table).len()),
        Pending::WriteBack { victim, key, fresh } => in_file(disk, files, key) && !resident(
            pool.frames,
            key,
        ) && key_in_range(key, table_count(disk)) && pool.frames[victim.0 as int].key is Some && (fresh
            ==> content(key) == Seq::<TupleView>::empty()),
        Pending::Load { victim, key } => in_file(disk, files, key) && !resident(pool.frames, key)
            && key_in_range(key, table_count(disk)),
        _ => true,
    }
}

/// Whether the manager's state, the files and `content` fit together.
pub open spec fn steady(
    pool: PoolView,
    disk: DiskManager,
    files: Map<Seq<char>, Seq<u8>>,
    content: spec_fn(Key) -> Seq<TupleView>,
) -> bool {
    &&& coherent(pool, disk, files, content)
    &&& bounded(pool)
    &&& pending_fits(pool, disk, files, content)
}

/// The page that the operation under way brings into a frame.
pub open spec fn target(pending: Pending) -> Option<Key> {
    match pending {
        Pending::AllocateWrite { key } => Some(key),
        Pending::WriteBack { key, .. } => Some(key),
        Pending::Load { key, .. } => Some(key),
        _ => None,
    }
}

/// Whether the manager, where it asks the disk again, still brings the
/// page `key` into a frame, freshly appended or not.
pub open spec fn still_loading(post: PoolView, key: Key, fresh: bool, step: StepView) -> bool {
    step is Disk ==> match post.pending {
        Pending::WriteBack { key: k, fresh: f, .. } => k == key && f == fresh,
        Pending::Load { key: k, .. } => k == key && !fresh,
        _ => false,
    }
}

/// What a step of the manager that is done with a frame says: the frame
/// holds the page, pinned, with the page's content.
pub open spec fn handed_out(
    post: PoolView,
    content: spec_fn(Key) -> Seq<TupleView>,
    key: Key,
    step: StepView,
) -> bool {
    step matches StepView::Done(Ok(outcome)) ==> {
        &&& outcome matches Outcome::Buffer(frame)
        &&& holds(post.frames, frame.0 as int, key)
        &&& post.frames[frame.0 as int].pin_count > 0
        &&& post.pending is Idle
    }
}

/// A page that is in a frame is in its file, and no page but those of
/// the files is in a frame.
pub proof fn lemma_resident_in_file(
    pool: PoolView,
    disk: DiskManager,
    files: Map<Seq<char>, Seq<u8>>,
    content: spec_fn(Key) -> Seq<TupleView>,
    key: Key,
)
    requires
        coherent(pool, disk, files, content),
        resident(pool.frames, key),
    ensures
        in_file(disk, files, key),
{
    let f = choose|f: int| holds(pool.frames, f, key);
    assert(frame_coherent(pool, disk, files, content, f));
}

/// What is a candidate after the first candidate was taken out was a
/// candidate before.
pub proof fn lemma_taken_bounded(pool: PoolView)
    requires
        bounded(pool),
        pool.candidates.len() > 0,
    ensures
        forall|c: usize| #[trigger] taken(pool).candidates.contains(c) ==> c < pool.frames.len(),
        pool.candidates[0] < pool.frames.len(),
{
    assert(pool.candidates.contains(pool.candidates[0]));
    assert forall|c: usize| #[trigger] taken(pool).candidates.contains(c) implies c
        < pool.frames.len() by {
        let rest = taken(pool).candidates;
        let i = choose|i: int| 0 <= i < rest.len() && rest[i] == c;
        assert(pool.candidates[i + 1] == c);
        assert(pool.candidates.contains(c));
    }
}

/// Taking a victim and going on to bring the page `key` into its frame
/// keeps the state, the files and the content together.
#[verifier::rlimit(50)]
pub proof fn lemma_load_begun_steady(
    pre: PoolView,
    disk: DiskManager,
    files: Map<Seq<char>, Seq<u8>>,
    content: spec_fn(Key) -> Seq<TupleView>,
    key: Key,
    fresh: bool,
    post: PoolView,
    step: StepView,
)
    requires
        coherent(pre, disk, files, content),
        bounded(pre),
        pre.pending is Idle,
        in_file(disk, files, key),
        key_in_range(key, table_count(disk)),
        !resident(pre.frames, key),
        fresh ==> content(key) == Seq::<TupleView>::empty(),
        load_begun(pre, disk, key, fresh, post, step),
    ensures
        steady(post, disk, files, content),
        step matches StepView::Disk(request) ==> awaited(post, disk) == Some(request),
        handed_out(post, content, key, step),
        still_loading(post, key, fresh, step),
{
    if pre.candidates.len() == 0 {
    } else {
        let v = pre.candidates[0];
        lemma_taken_bounded(pre);
        let frame = pre.frames[v as int];
        let rest = taken(pre);
        lemma_coherent_same_pages(pre, rest, disk, files, content);
        if frame.dirty && frame.key is Some {
            lemma_write_of_frame(pre, disk, files, content, v as int);
            lemma_coherent_same_pages(pre, post, disk, files, content);
            assert forall|c: usize| #[trigger] post.candidates.contains(c) implies c
                < post.frames.len() by {
                if post.candidates != rest.candidates {
                    assert(post.candidates.to_set().contains(c));
                    if c != v {
                        assert(rest.candidates.to_set().contains(c));
                        assert(rest.candidates.contains(c));
                    }
                }
            }
        } else {
            assert(frame_coherent(pre, disk, files, content, v as int));
            lemma_victim_ready_steady(rest, disk, files, content, v, key, fresh, post, step);
        }
    }
}

/// Once the victim's page is on the disk or was never changed, giving its
/// frame to the page `key` keeps the state, the files and the content
/// together.
#[verifier::rlimit(50)]
pub proof fn lemma_victim_ready_steady(
    pre: PoolView,
    disk: DiskManager,
    files: Map<Seq<char>, Seq<u8>>,
    content: spec_fn(Key) -> Seq<TupleView>,
    v: usize,
    key: Key,
    fresh: bool,
    post: PoolView,
    step: StepView,
)
    requires
        coherent(pre, disk, files, content),
        forall|c: usize| #[trigger] pre.candidates.contains(c) ==> c < pre.frames.len(),
        v < pre.frames.len(),
        pre.frames.len() <= usize::MAX,
        in_file(disk, files, key),
        key_in_range(key, table_count(disk)),
        !resident(pre.frames, key),
        fresh ==> content(key) == Seq::<TupleView>::empty(),
        pre.frames[v as int].key matches Some(old) ==> on_disk(disk, files, old) == page_image(
            table_at(disk, old.table),
            content(old),
        ),
        victim_ready(pre, disk, v, key, fresh, post, step),
    ensures
        steady(post, disk, files, content),
        step matches StepView::Disk(request) ==> awaited(post, disk) == Some(request),
        handed_out(post, content, key, step),
        still_loading(post, key, fresh, step),
{
    if fresh {
        lemma_coherent_after_load(pre, post, disk, files, content, v as int, key);
    } else {
        assert forall|f: int| 0 <= f < pre.frames.len() implies #[trigger] frame_coherent(
            post,
            disk,
            files,
            content,
            f,
        ) by {
            assert(frame_coherent(pre, disk, files, content, f));
        }
        assert forall|k: Key| #[trigger] page_coherent(post, disk, files, content, k) by {
            assert(page_coherent(pre, disk, files, content, k));
        }
    }
}

/// The content after the reply to the request that the manager waits
/// for: a page that was appended is there, empty.
pub open spec fn content_after(
    pre: PoolView,
    reply: ReplyView,
    content: spec_fn(Key) -> Seq<TupleView>,
) -> spec_fn(Key) -> Seq<TupleView> {
    match pre.pending {
        Pending::AllocateWrite { key } => if reply is Written {
            with_page(content, key, Seq::empty())
        } else {
            content
        },
        _ => content,
    }
}

/// Giving up keeps the state, the files and the content together.
pub proof fn lemma_gave_up_steady(
    pre: PoolView,
    post: PoolView,
    disk: DiskManager,
    files: Map<Seq<char>, Seq<u8>>,
    content: spec_fn(Key) -> Seq<TupleView>,
)
    requires
        coherent(pre, disk, files, content),
        bounded(pre),
        gave_up(pre, post),
    ensures
        steady(post, disk, files, content),
{
    lemma_coherent_same_pages(pre, post, disk, files, content);
    assert forall|c: usize| #[trigger] post.candidates.contains(c) implies c < post.frames.len() by {
        assert(post.candidates.to_set().contains(c));
        if in_flight(pre.pending) is Some && c == in_flight(pre.pending)->Some_0 as usize {
        } else {
            assert(pre.candidates.to_set().contains(c));
            assert(pre.candidates.contains(c));
        }
    }
}

/// What a step of `resume` keeps and gives on a disk that does what it is
/// asked: the state, the files and the content stay together, a page that
/// was appended is there, and the next request or the frame handed out is
/// the one that the operation under way calls for.
pub open spec fn resumed_steady(
    pre: PoolView,
    disk: DiskManager,
    files: Map<Seq<char>, Seq<u8>>,
    content: spec_fn(Key) -> Seq<TupleView>,
    request: RequestView,
    post: PoolView,
    step: StepView,
) -> bool {
    &&& steady(
        post,
        disk,
        files_after(files, request),
        content_after(pre, reply_of(files, request), content),
    )
    &&& step matches StepView::Disk(next) ==> awaited(post, disk) == Some(next)
    &&& target(pre.pending) matches Some(key) ==> handed_out(
        post,
        content_after(pre, reply_of(files, request), content),
        key,
        step,
    )
    &&& pre.pending is Allocate ==> !(step matches StepView::Done(Ok(_)))
    &&& pre.pending matches Pending::Allocate { table } ==> (step is Disk ==> post.pending
        == Pending::AllocateWrite {
        key: Key {
            page_id: crate::storage::page::PageID(
                page_count(table_file(disk, files, table).len()) as usize,
            ),
            table,
        },
    })
    &&& pre.pending matches Pending::AllocateWrite { key } ==> still_loading(post, key, true, step)
    &&& pre.pending matches Pending::WriteBack { key, fresh, .. } ==> still_loading(
        post,
        key,
        fresh,
        step,
    )
    &&& pre.pending is Load ==> !(step is Disk)
    &&& forall|k: Key|
        in_file(disk, files_after(files, request), k) == (in_file(disk, files, k) || (
        pre.pending matches Pending::AllocateWrite { key } && reply_of(files, request) is Written
            && k == key))
}

/// A step of `resume` while the manager waits for the length of the file
/// that it is to extend.
#[verifier::rlimit(50)]
pub proof fn lemma_resumed_allocate(
    pre: PoolView,
    disk: DiskManager,
    files: Map<Seq<char>, Seq<u8>>,
    content: spec_fn(Key) -> Seq<TupleView>,
    request: RequestView,
    post: PoolView,
    step: StepView,
)
    requires
        steady(pre, disk, files, content),
        pre.pending is Allocate,
        awaited(pre, disk) == Some(request),
        resumed(pre, disk, reply_of(files, request), post, step),
    ensures
        resumed_steady(pre, disk, files, content, request, post, step),
{
    let table = pre.pending->Allocate_table;
    let file = table_file(disk, files, table);
    let n = file.len();
    let key = Key { page_id: crate::storage::page::PageID(page_count(n) as usize), table };
    assert(file.len() % PAGE_SIZE as nat == 0 && file.len() <= usize::MAX);
    assert(n == PAGE_SIZE * page_count(n));
    if resident(pre.frames, key) {
        lemma_resident_in_file(pre, disk, files, content, key);
    }
    assert(disk.catalog().spec_table_id(table_name(disk, table)) == Some(table as int));
    assert(page_ok(table_at(disk, table), Seq::<TupleView>::empty())) by {
        assert(0 * table_at(disk, table).spec_tuple_size() == 0);
    }
    lemma_coherent_same_pages(pre, post, disk, files, content);
}

/// A step of `resume` while the manager waits for the empty page to be
/// written at the end of its file.
#[verifier::rlimit(50)]
pub proof fn lemma_resumed_allocate_write(
    pre: PoolView,
    disk: DiskManager,
    files: Map<Seq<char>, Seq<u8>>,
    content: spec_fn(Key) -> Seq<TupleView>,
    request: RequestView,
    post: PoolView,
    step: StepView,
)
    requires
        steady(pre, disk, files, content),
        pre.pending is AllocateWrite,
        awaited(pre, disk) == Some(request),
        resumed(pre, disk, reply_of(files, request), post, step),
    ensures
        resumed_steady(pre, disk, files, content, request, post, step),
{
    let key = pre.pending->AllocateWrite_key;
    let reply = reply_of(files, request);
    let after = files_after(files, request);
    let table = table_at(disk, key.table);
    assert(disk.catalog().spec_table_id(table_name(disk, key.table)) == Some(key.table as int));
    assert(page_ok(table, Seq::<TupleView>::empty())) by {
        assert(0 * table.spec_tuple_size() == 0);
    }
    lemma_image_len(table, Seq::empty());
    if reply is Written {
        let grown = with_page(content, key, Seq::empty());
        let mid = idle(pre);
        lemma_coherent_after_extension(pre, mid, disk, files, content, key);
        assert(bounded(mid));
        lemma_load_begun_steady(mid, disk, after, grown, key, true, post, step);
    } else {
        lemma_gave_up_steady(pre, post, disk, files, content);
    }
}

/// A step of `resume` while the manager waits for the victim's page to be
/// written back.
#[verifier::rlimit(50)]
pub proof fn lemma_resumed_write_back(
    pre: PoolView,
    disk: DiskManager,
    files: Map<Seq<char>, Seq<u8>>,
    content: spec_fn(Key) -> Seq<TupleView>,
    request: RequestView,
    post: PoolView,
    step: StepView,
)
    requires
        steady(pre, disk, files, content),
        pre.pending is WriteBack,
        awaited(pre, disk) == Some(request),
        resumed(pre, disk, reply_of(files, request), post, step),
    ensures
        resumed_steady(pre, disk, files, content, request, post, step),
{
    let victim = pre.pending->WriteBack_victim;
    let key = pre.pending->WriteBack_key;
    let fresh = pre.pending->WriteBack_fresh;
    let after = files_after(files, request);
    let v = victim.0 as int;
    let mid = PoolView { pending: Pending::Load { victim, key }, ..pre };
    lemma_coherent_after_write_back(pre, mid, disk, files, content, v, request);
    assert(frame_coherent(mid, disk, after, content, v));
    assert(coherent(pre, disk, after, content)) by {
        lemma_coherent_same_pages(mid, pre, disk, after, content);
    }
    lemma_victim_ready_steady(pre, disk, after, content, victim.0, key, fresh, post, step);
}

/// A step of `resume` while the manager waits for the bytes of the page
/// that a frame is to take.
#[verifier::rlimit(50)]
pub proof fn lemma_resumed_load(
    pre: PoolView,
    disk: DiskManager,
    files: Map<Seq<char>, Seq<u8>>,
    content: spec_fn(Key) -> Seq<TupleView>,
    request: RequestView,
    post: PoolView,
    step: StepView,
)
    requires
        steady(pre, disk, files, content),
        pre.pending is Load,
        awaited(pre, disk) == Some(request),
        resumed(pre, disk, reply_of(files, request), post, step),
    ensures
        resumed_steady(pre, disk, files, content, request, post, step),
{
    let victim = pre.pending->Load_victim;
    let key = pre.pending->Load_key;
    let reply = reply_of(files, request);
    let v = victim.0 as int;
    let table = table_at(disk, key.table);
    let file = table_file(disk, files, key.table);
    assert(file.len() % PAGE_SIZE as nat == 0);
    assert(file.len() == PAGE_SIZE * page_count(file.len()));
    assert(page_coherent(pre, disk, files, content, key));
    assert(reply == ReplyView::Data(on_disk(disk, files, key)));
    assert(disk.catalog().spec_table_id(table_name(disk, key.table)) == Some(key.table as int));
    lemma_page_round_trip(table, content(key));
    lemma_whole_tuples_stored(table, content(key));
    assert(frame_coherent(pre, disk, files, content, v));
    lemma_coherent_after_load(pre, post, disk, files, content, v, key);
}

/// A step of `resume` on a disk that does what it is asked keeps the
/// state, the files and the content together, while the manager appends a
/// page or brings a page into a frame. A page that was appended is there
/// afterwards, empty; no other page's content changes. Where the manager
/// asks the disk again, it waits for that request; where it is done, the
/// frame that it hands out holds the page, pinned.
pub proof fn lemma_resumed_steady(
    pre: PoolView,
    disk: DiskManager,
    files: Map<Seq<char>, Seq<u8>>,
    content: spec_fn(Key) -> Seq<TupleView>,
    request: RequestView,
    post: PoolView,
    step: StepView,
)
    requires
        steady(pre, disk, files, content),
        awaited(pre, disk) == Some(request),
        resumed(pre, disk, reply_of(files, request), post, step),
    ensures
        resumed_steady(pre, disk, files, content, request, post, step),
{
    match pre.pending {
        Pending::Allocate { .. } => {
            lemma_resumed_allocate(pre, disk, files, content, request, post, step);
        },
        Pending::AllocateWrite { .. } => {
            lemma_resumed_allocate_write(pre, disk, files, content, request, post, step);
        },
        Pending::WriteBack { .. } => {
            lemma_resumed_write_back(pre, disk, files, content, request, post, step);
        },
        Pending::Load { .. } => {
            lemma_resumed_load(pre, disk, files, content, request, post, step);
        },
        _ => {},
    }
}

/// A step of `fetch_buffer` for a page of a file keeps the state, the
/// files and the content together. Where the manager asks the disk, it
/// waits for that request; where it is done, the frame that it hands out
/// holds the page, pinned.
#[verifier::rlimit(50)]
pub proof fn lemma_fetched_steady(
    pre: PoolView,
    disk: DiskManager,
    files: Map<Seq<char>, Seq<u8>>,
    content: spec_fn(Key) -> Seq<TupleView>,
    key: Key,
    post: PoolView,
    step: StepView,
)
    requires
        steady(pre, disk, files, content),
        pre.pending is Idle,
        in_file(disk, files, key),
        fetched(pre, disk, Some(key), post, step),
    ensures
        steady(post, disk, files, content),
        step matches StepView::Disk(request) ==> awaited(post, disk) == Some(request),
        handed_out(post, content, key, step),
        still_loading(post, key, false, step),
{
    let file = table_file(disk, files, key.table);
    assert(file.len() % PAGE_SIZE as nat == 0 && file.len() <= usize::MAX);
    assert(file.len() == PAGE_SIZE * page_count(file.len()));
    if resident(pre.frames, key) {
        let f = frame_of(pre.frames, key);
        assert(holds(pre.frames, f, key));
        if pre.frames[f].pin_count >= usize::MAX {
        } else {
            assert(holds(post.frames, f, key));
            lemma_coherent_same_pages(pre, post, disk, files, content);
            assert forall|c: usize| #[trigger] post.candidates.contains(c) implies c
                < post.frames.len() by {
                assert(post.candidates.to_set().contains(c));
                assert(pre.candidates.to_set().contains(c));
                assert(pre.candidates.contains(c));
            }
        }
    } else {
        lemma_load_begun_steady(pre, disk, files, content, key, false, post, step);
    }
}

/// A step of `unpin_buffer` keeps the state, the files and the content
/// together.
#[verifier::rlimit(50)]
pub proof fn lemma_unpinned_steady(
    pre: PoolView,
    disk: DiskManager,
    files: Map<Seq<char>, Seq<u8>>,
    content: spec_fn(Key) -> Seq<TupleView>,
    key: Key,
    post: PoolView,
)
    requires
        steady(pre, disk, files, content),
        pre.pending is Idle,
        unpinned(pre, Some(key), post),
    ensures
        steady(post, disk, files, content),
        post.pending is Idle,
{
    if resident(pre.frames, key) {
        let f = frame_of(pre.frames, key);
        assert(holds(pre.frames, f, key));
        lemma_coherent_same_pages(pre, post, disk, files, content);
        assert forall|c: usize| #[trigger] post.candidates.contains(c) implies c
            < post.frames.len() by {
            if pre.frames[f].pin_count == 1 {
                assert(post.candidates.to_set().contains(c));
                if c != f as usize {
                    assert(pre.candidates.to_set().contains(c));
                    assert(pre.candidates.contains(c));
                }
            }
        }
    }
}

} // verus!
