//! Whole operations of the executor on a disk that does what it is asked:
//! what an insert does to the rows of its table, and what a scan gives.

use vstd::prelude::*;
use crate::catalog::AttributeView;
use crate::executor::{
    exec_proceeded, exec_resumed, followed, insert_begun, live_rows, page_scanned, scan_begun,
    tuple_put, waiting, ExecView, ProgressView, Stage,
};
use crate::storage::coherence::{
    awaited, bounded, content_after, files_ok, frame_coherent, handed_out, in_file,
    lemma_coherent_after_append, lemma_coherent_same_pages, lemma_fetched_steady,
    lemma_resumed_steady, lemma_unpinned_steady, names_unique, page_coherent, steady,
    still_loading, table_at, table_count, table_file, table_rows, with_page,
};
use crate::storage::disk_manager::{page_count, DiskManager};
use crate::storage::disk_model::{files_after, reply_of};
use crate::storage::page::{tuples_fit_in_page, PageID, PageView, PAGE_SIZE};
use crate::storage::protocol::{
    allocation_begun, fetched, holds, last_page_begun, page_key, resumed, table_name, table_path,
    FrameView, Key, Outcome, Pending, PoolView, RequestView, StepView,
};
use crate::storage::tuple::{body_fits, column_names, TupleView};

verus! {

/// One step of the driver: it performs the request on the files and hands
/// back the reply, or lets the executor go on where nothing was asked.
pub open spec fn driven(
    pre: ExecView,
    disk: DiskManager,
    files: Map<Seq<char>, Seq<u8>>,
    progress: ProgressView,
    post: ExecView,
    files_post: Map<Seq<char>, Seq<u8>>,
    next: ProgressView,
) -> bool {
    match progress {
        ProgressView::Disk(request) => exec_resumed(pre, disk, reply_of(files, request), post, next)
            && files_post == files_after(files, request),
        ProgressView::Continue => exec_proceeded(pre, disk, post, next) && files_post == files,
        _ => false,
    }
}

/// `n` steps of the driver.
pub open spec fn driven_to(
    pre: ExecView,
    disk: DiskManager,
    files: Map<Seq<char>, Seq<u8>>,
    progress: ProgressView,
    post: ExecView,
    files_post: Map<Seq<char>, Seq<u8>>,
    last: ProgressView,
    n: nat,
) -> bool
    decreases n,
{
    if n == 0 {
        post == pre && files_post == files && last == progress
    } else {
        exists|mid: ExecView, files_mid: Map<Seq<char>, Seq<u8>>, next: ProgressView|
            driven(pre, disk, files, progress, mid, files_mid, next) && driven_to(
                mid,
                disk,
                files_mid,
                next,
                post,
                files_post,
                last,
                (n - 1) as nat,
            )
    }
}

/// The number of pages of the file of the table with the index `t`.
pub open spec fn pages_of(disk: DiskManager, files: Map<Seq<char>, Seq<u8>>, t: usize) -> nat {
    page_count(table_file(disk, files, t).len())
}

/// The rows of the table with the index `t`: the tuples of its pages,
/// page after page.
pub open spec fn rows_of(
    disk: DiskManager,
    files: Map<Seq<char>, Seq<u8>>,
    content: spec_fn(Key) -> Seq<TupleView>,
    t: usize,
) -> Seq<TupleView> {
    table_rows(content, t, pages_of(disk, files, t))
}

/// The rows of the first pages of a table depend only on the contents of
/// those pages.
pub proof fn lemma_table_rows_agree(
    a: spec_fn(Key) -> Seq<TupleView>,
    b: spec_fn(Key) -> Seq<TupleView>,
    t: usize,
    pages: nat,
)
    requires
        pages <= usize::MAX,
        forall|p: usize| p < pages ==> a(Key { page_id: PageID(p), table: t }) == b(
            Key { page_id: PageID(p), table: t },
        ),
    ensures
        table_rows(a, t, pages) == table_rows(b, t, pages),
    decreases pages,
{
    if pages > 0 {
        lemma_table_rows_agree(a, b, t, (pages - 1) as nat);
        let p = (pages - 1) as usize;
        assert(a(Key { page_id: PageID(p), table: t }) == b(Key { page_id: PageID(p), table: t }));
    }
}

/// The live rows of tuples in a row are the live rows of the first, then
/// those of the second.
pub proof fn lemma_live_rows_add(a: Seq<TupleView>, b: Seq<TupleView>)
    ensures
        live_rows(a + b) == live_rows(a) + live_rows(b),
    decreases b.len(),
{
    if b.len() == 0 {
        assert(a + b =~= a);
        assert(live_rows(a) + live_rows(b) =~= live_rows(a));
    } else {
        lemma_live_rows_add(a, b.drop_last());
        assert((a + b).drop_last() =~= a + b.drop_last());
        assert((a + b).last() == b.last());
        if b.last().deleted == 0 {
            assert(live_rows(a + b) =~= live_rows(a) + live_rows(b));
        }
    }
}

/// Whether the manager brings the page `key` into a frame for a fetch,
/// and `request` is what it waits for.
pub open spec fn fetching(pool: PoolView, disk: DiskManager, key: Key, request: RequestView) -> bool {
    &&& awaited(pool, disk) == Some(request)
    &&& match pool.pending {
        Pending::WriteBack { key: k, fresh, .. } => k == key && !fresh,
        Pending::Load { key: k, .. } => k == key,
        _ => false,
    }
}

/// What holds while a scan of the table with the index `t` is under way:
/// the rows gathered so far are the live rows of the pages before the
/// page that is next, and the rows handed out in the end are the live
/// rows of the table.
pub open spec fn scanning(
    e: ExecView,
    disk: DiskManager,
    files: Map<Seq<char>, Seq<u8>>,
    progress: ProgressView,
    content: spec_fn(Key) -> Seq<TupleView>,
    t: usize,
) -> bool {
    let pages = pages_of(disk, files, t);
    match progress {
        ProgressView::Failed(_) => true,
        ProgressView::Rows(rows) => {
            &&& steady(e.pool, disk, files, content)
            &&& e.stage is Idle
            &&& e.pool.pending is Idle
            &&& rows == live_rows(rows_of(disk, files, content, t))
        },
        ProgressView::Disk(request) => {
            &&& steady(e.pool, disk, files, content)
            &&& t < table_count(disk)
            &&& e.table == table_name(disk, t)
            &&& match e.stage {
                Stage::ScanFind => e.pool.pending is LastPage && request == RequestView::Length {
                    path: table_path(disk, t),
                } && e.rows == Seq::<Map<Seq<char>, AttributeView>>::empty(),
                Stage::ScanFetching { number, last } => fetching(
                    e.pool,
                    disk,
                    Key { page_id: PageID(number), table: t },
                    request,
                ) && last + 1 == pages && number <= last && e.rows == live_rows(
                    table_rows(content, t, number as nat),
                ),
                _ => false,
            }
        },
        ProgressView::Continue => {
            &&& steady(e.pool, disk, files, content)
            &&& t < table_count(disk)
            &&& e.table == table_name(disk, t)
            &&& e.pool.pending is Idle
            &&& match e.stage {
                Stage::ScanFetch { number, last } => last + 1 == pages && number <= last && e.rows
                    == live_rows(table_rows(content, t, number as nat)),
                _ => false,
            }
        },
        _ => false,
    }
}

/// The reply to the question for a file's length leaves the manager at
/// rest, with the number of the file's last page.
pub proof fn lemma_last_page_told(
    pre: PoolView,
    disk: DiskManager,
    files: Map<Seq<char>, Seq<u8>>,
    content: spec_fn(Key) -> Seq<TupleView>,
    t: usize,
    post: PoolView,
    step: StepView,
)
    requires
        steady(pre, disk, files, content),
        pre.pending is LastPage,
        t < table_count(disk),
        resumed(
            pre,
            disk,
            reply_of(files, RequestView::Length { path: table_path(disk, t) }),
            post,
            step,
        ),
    ensures
        steady(post, disk, files, content),
        post.pending is Idle,
        step == StepView::Done(
            Ok(
                Outcome::LastPage(
                    if pages_of(disk, files, t) == 0 {
                        None
                    } else {
                        Some(PageID((pages_of(disk, files, t) - 1) as usize))
                    },
                ),
            ),
        ),
        pages_of(disk, files, t) <= usize::MAX,
{
    lemma_coherent_same_pages(pre, post, disk, files, content);
    let file = table_file(disk, files, t);
    assert(file.len() % PAGE_SIZE as nat == 0 && file.len() <= usize::MAX);
}

/// What a scan does with a frame that holds the page that is next keeps
/// what holds while a scan is under way.
#[verifier::rlimit(50)]
pub proof fn lemma_page_scanned(
    e: ExecView,
    disk: DiskManager,
    files: Map<Seq<char>, Seq<u8>>,
    content: spec_fn(Key) -> Seq<TupleView>,
    t: usize,
    f: usize,
    number: usize,
    last: usize,
    post: ExecView,
    progress: ProgressView,
)
    requires
        steady(e.pool, disk, files, content),
        e.pool.pending is Idle,
        t < table_count(disk),
        e.table == table_name(disk, t),
        holds(e.pool.frames, f as int, Key { page_id: PageID(number), table: t }),
        e.pool.frames[f as int].pin_count > 0,
        last + 1 == pages_of(disk, files, t),
        number <= last,
        e.rows == live_rows(table_rows(content, t, number as nat)),
        page_scanned(e, disk, f, number, last, post, progress),
    ensures
        scanning(post, disk, files, progress, content, t),
{
    let key = Key { page_id: PageID(number), table: t };
    assert(disk.catalog().spec_table_id(table_name(disk, t)) == Some(t as int));
    assert(page_key(disk, PageID(number), e.table) == Some(key));
    assert(frame_coherent(e.pool, disk, files, content, f as int));
    lemma_unpinned_steady(e.pool, disk, files, content, key, post.pool);
    let rows = e.rows + live_rows(content(key));
    lemma_live_rows_add(table_rows(content, t, number as nat), content(key));
    assert(table_rows(content, t, (number + 1) as nat) == table_rows(content, t, number as nat)
        + content(key));
}

/// What the executor does with a step of the manager while it fetches the
/// page that is next keeps what holds while a scan is under way.
#[verifier::rlimit(50)]
pub proof fn lemma_scan_followed(
    e: ExecView,
    disk: DiskManager,
    files: Map<Seq<char>, Seq<u8>>,
    content: spec_fn(Key) -> Seq<TupleView>,
    t: usize,
    number: usize,
    last: usize,
    step: StepView,
    post: ExecView,
    progress: ProgressView,
)
    requires
        steady(e.pool, disk, files, content),
        t < table_count(disk),
        e.table == table_name(disk, t),
        e.stage == (Stage::ScanFetching { number, last }),
        last + 1 == pages_of(disk, files, t),
        number <= last,
        e.rows == live_rows(table_rows(content, t, number as nat)),
        step matches StepView::Disk(request) ==> awaited(e.pool, disk) == Some(request),
        handed_out(e.pool, content, Key { page_id: PageID(number), table: t }, step),
        still_loading(e.pool, Key { page_id: PageID(number), table: t }, false, step),
        followed(e, disk, step, post, progress),
    ensures
        scanning(post, disk, files, progress, content, t),
{
    match step {
        StepView::Disk(request) => {},
        StepView::Done(Err(_)) => {},
        StepView::Done(Ok(outcome)) => {
            let frame = outcome->Buffer_0;
            lemma_page_scanned(e, disk, files, content, t, frame.0, number, last, post, progress);
        },
    }
}

/// A step of the driver keeps what holds while a scan is under way, and
/// the files as they are.
#[verifier::rlimit(50)]
pub proof fn lemma_scan_step(
    e: ExecView,
    disk: DiskManager,
    files: Map<Seq<char>, Seq<u8>>,
    progress: ProgressView,
    content: spec_fn(Key) -> Seq<TupleView>,
    t: usize,
    post: ExecView,
    files_post: Map<Seq<char>, Seq<u8>>,
    next: ProgressView,
)
    requires
        scanning(e, disk, files, progress, content, t),
        driven(e, disk, files, progress, post, files_post, next),
    ensures
        scanning(post, disk, files_post, next, content, t),
        progress is Disk || progress is Continue,
        forall|t2: usize|
            t2 < table_count(disk) ==> #[trigger] pages_of(disk, files_post, t2) == pages_of(
                disk,
                files,
                t2,
            ),
{
    match progress {
        ProgressView::Disk(request) => {
            let reply = reply_of(files, request);
            let (mid, step) = choose|mid: PoolView, step: StepView|
                resumed(e.pool, disk, reply, mid, step) && followed(
                    ExecView { pool: mid, ..e },
                    disk,
                    step,
                    post,
                    next,
                );
            match e.stage {
                Stage::ScanFind => {
                    lemma_last_page_told(e.pool, disk, files, content, t, mid, step);
                    assert(table_rows(content, t, 0) == Seq::<TupleView>::empty());
                    assert(live_rows(Seq::<TupleView>::empty()) == Seq::<
                        Map<Seq<char>, AttributeView>,
                    >::empty());
                },
                Stage::ScanFetching { number, last } => {
                    let key = Key { page_id: PageID(number), table: t };
                    lemma_resumed_steady(e.pool, disk, files, content, request, mid, step);
                    assert(content_after(e.pool, reply, content) == content);
                    assert forall|t2: usize| t2 < table_count(disk) implies #[trigger] pages_of(
                        disk,
                        files_post,
                        t2,
                    ) == pages_of(disk, files, t2) by {
                        lemma_pages_kept(disk, files, files_post, t2);
                    }
                    lemma_scan_followed(
                        ExecView { pool: mid, ..e },
                        disk,
                        files_post,
                        content,
                        t,
                        number,
                        last,
                        step,
                        post,
                        next,
                    );
                },
                _ => {},
            }
        },
        ProgressView::Continue => {
            let number = e.stage->ScanFetch_number;
            let last = e.stage->ScanFetch_last;
            let key = Key { page_id: PageID(number), table: t };
            assert(disk.catalog().spec_table_id(table_name(disk, t)) == Some(t as int));
            let (mid, step) = choose|mid: PoolView, step: StepView|
                fetched(e.pool, disk, page_key(disk, PageID(number), e.table), mid, step)
                    && followed(
                    ExecView { pool: mid, stage: waiting(e.stage), ..e },
                    disk,
                    step,
                    post,
                    next,
                );
            lemma_fetched_steady(e.pool, disk, files, content, key, mid, step);
            lemma_scan_followed(
                ExecView { pool: mid, stage: waiting(e.stage), ..e },
                disk,
                files,
                content,
                t,
                number,
                last,
                step,
                post,
                next,
            );
        },
        _ => {},
    }
}

/// Files in which the same pages lie have as many pages for each table.
pub proof fn lemma_pages_kept(
    disk: DiskManager,
    files: Map<Seq<char>, Seq<u8>>,
    after: Map<Seq<char>, Seq<u8>>,
    t: usize,
)
    requires
        t < table_count(disk),
        files_ok(disk, files),
        files_ok(disk, after),
        forall|k: Key| in_file(disk, after, k) == in_file(disk, files, k),
    ensures
        pages_of(disk, after, t) == pages_of(disk, files, t),
{
    let a = pages_of(disk, files, t);
    let b = pages_of(disk, after, t);
    assert(table_file(disk, files, t).len() <= usize::MAX);
    assert(table_file(disk, after, t).len() <= usize::MAX);
    if a < b {
        let k = Key { page_id: PageID(a as usize), table: t };
        assert(in_file(disk, after, k));
        assert(!in_file(disk, files, k));
    }
    if b < a {
        let k = Key { page_id: PageID(b as usize), table: t };
        assert(in_file(disk, files, k));
        assert(!in_file(disk, after, k));
    }
}

/// A scan that begins in a steady state is under way as `scanning` says.
#[verifier::rlimit(50)]
pub proof fn lemma_scan_begins(
    e: ExecView,
    disk: DiskManager,
    files: Map<Seq<char>, Seq<u8>>,
    content: spec_fn(Key) -> Seq<TupleView>,
    name: Seq<char>,
    t: usize,
    post: ExecView,
    progress: ProgressView,
)
    requires
        steady(e.pool, disk, files, content),
        e.stage is Idle,
        e.pool.pending is Idle,
        disk.catalog().spec_table_id(name) == Some(t as int),
        scan_begun(e, disk, name, post, progress),
    ensures
        scanning(post, disk, files, progress, content, t),
{
    crate::catalog::lemma_table_index(disk.catalog().spec_schemas(), name);
    let step = choose|step: StepView|
        last_page_begun(e.pool, disk, name, post.pool, step) && followed(
            ExecView {
                pool: post.pool,
                stage: Stage::ScanFind,
                table: name,
                tuple: None,
                rows: Seq::empty(),
            },
            disk,
            step,
            post,
            progress,
        );
    lemma_coherent_same_pages(e.pool, post.pool, disk, files, content);
}

/// The steps of the driver keep what holds while a scan is under way, and
/// the number of pages of every file.
pub proof fn lemma_scan_run(
    e: ExecView,
    disk: DiskManager,
    files: Map<Seq<char>, Seq<u8>>,
    progress: ProgressView,
    content: spec_fn(Key) -> Seq<TupleView>,
    t: usize,
    post: ExecView,
    files_post: Map<Seq<char>, Seq<u8>>,
    last: ProgressView,
    n: nat,
)
    requires
        scanning(e, disk, files, progress, content, t),
        driven_to(e, disk, files, progress, post, files_post, last, n),
    ensures
        scanning(post, disk, files_post, last, content, t),
        forall|t2: usize|
            t2 < table_count(disk) ==> #[trigger] pages_of(disk, files_post, t2) == pages_of(
                disk,
                files,
                t2,
            ),
    decreases n,
{
    if n > 0 {
        let (mid, files_mid, next) = choose|
            mid: ExecView,
            files_mid: Map<Seq<char>, Seq<u8>>,
            next: ProgressView,
        |
            driven(e, disk, files, progress, mid, files_mid, next) && driven_to(
                mid,
                disk,
                files_mid,
                next,
                post,
                files_post,
                last,
                (n - 1) as nat,
            );
        lemma_scan_step(e, disk, files, progress, content, t, mid, files_mid, next);
        lemma_scan_run(mid, disk, files_mid, next, content, t, post, files_post, last, (n - 1) as nat);
        assert forall|t2: usize| t2 < table_count(disk) implies #[trigger] pages_of(
            disk,
            files_post,
            t2,
        ) == pages_of(disk, files, t2) by {
            assert(pages_of(disk, files_mid, t2) == pages_of(disk, files, t2));
        }
    }
}

/// A scan gives the rows of its table, in the table's order: on a disk
/// that does what it is asked, a scan that starts where the frames and
/// the files hold `content` together and that runs to its end hands out
/// the attributes of the table's tuples that are not deleted, page after
/// page, and within a page in the order of the tuples. It changes no
/// page's content and no file's length.
pub proof fn lemma_scan_gives_rows(
    e: ExecView,
    disk: DiskManager,
    files: Map<Seq<char>, Seq<u8>>,
    content: spec_fn(Key) -> Seq<TupleView>,
    name: Seq<char>,
    t: usize,
    first: ExecView,
    progress: ProgressView,
    post: ExecView,
    files_post: Map<Seq<char>, Seq<u8>>,
    rows: Seq<Map<Seq<char>, AttributeView>>,
    n: nat,
)
    requires
        steady(e.pool, disk, files, content),
        e.stage is Idle,
        e.pool.pending is Idle,
        disk.catalog().spec_table_id(name) == Some(t as int),
        scan_begun(e, disk, name, first, progress),
        driven_to(first, disk, files, progress, post, files_post, ProgressView::Rows(rows), n),
    ensures
        rows == live_rows(rows_of(disk, files, content, t)),
        steady(post.pool, disk, files_post, content),
        post.stage is Idle,
        post.pool.pending is Idle,
        forall|t2: usize|
            t2 < table_count(disk) ==> #[trigger] rows_of(disk, files_post, content, t2) == rows_of(
                disk,
                files,
                content,
                t2,
            ),
{
    crate::catalog::lemma_table_index(disk.catalog().spec_schemas(), name);
    lemma_scan_begins(e, disk, files, content, name, t, first, progress);
    lemma_scan_run(
        first,
        disk,
        files,
        progress,
        content,
        t,
        post,
        files_post,
        ProgressView::Rows(rows),
        n,
    );
    assert forall|t2: usize| t2 < table_count(disk) implies #[trigger] rows_of(
        disk,
        files_post,
        content,
        t2,
    ) == rows_of(disk, files, content, t2) by {
        assert(pages_of(disk, files_post, t2) == pages_of(disk, files, t2));
    }
}

/// Whether a tuple can be a row of the table: it has a value that fits
/// for each column and no other attribute, and a page has room for it.
pub open spec fn row_ok(disk: DiskManager, t: usize, tuple: TupleView) -> bool {
    &&& body_fits(table_at(disk, t).columns@, tuple.attributes)
    &&& tuple.attributes.dom() == column_names(table_at(disk, t).columns@)
    &&& tuples_fit_in_page(1, table_at(disk, t).spec_tuple_size())
}

/// Whether the rows of every table but `t` are those that `others` lists.
pub open spec fn others_kept(
    disk: DiskManager,
    files: Map<Seq<char>, Seq<u8>>,
    content: spec_fn(Key) -> Seq<TupleView>,
    t: usize,
    others: spec_fn(usize) -> Seq<TupleView>,
) -> bool {
    forall|t2: usize|
        t2 < table_count(disk) && t2 != t ==> #[trigger] rows_of(disk, files, content, t2) == others(
            t2,
        )
}

/// What holds while the insert of `tuple` into the table with the index
/// `t` is under way: until the end the table has the rows `base` that it
/// had, and in the end it has them and then the tuple. The rows of the
/// other tables stay.
pub open spec fn inserting(
    e: ExecView,
    disk: DiskManager,
    files: Map<Seq<char>, Seq<u8>>,
    progress: ProgressView,
    content: spec_fn(Key) -> Seq<TupleView>,
    t: usize,
    tuple: TupleView,
    base: Seq<TupleView>,
    others: spec_fn(usize) -> Seq<TupleView>,
) -> bool {
    let pages = pages_of(disk, files, t);
    let under_way = {
        &&& steady(e.pool, disk, files, content)
        &&& t < table_count(disk)
        &&& e.table == table_name(disk, t)
        &&& e.tuple == Some(tuple)
        &&& row_ok(disk, t, tuple)
        &&& rows_of(disk, files, content, t) == base
        &&& others_kept(disk, files, content, t, others)
    };
    match progress {
        ProgressView::Failed(_) => true,
        ProgressView::Inserted => {
            &&& steady(e.pool, disk, files, content)
            &&& e.stage is Idle
            &&& e.pool.pending is Idle
            &&& rows_of(disk, files, content, t) == base.push(tuple)
            &&& others_kept(disk, files, content, t, others)
        },
        ProgressView::Disk(request) => under_way && match e.stage {
            Stage::InsertFind => e.pool.pending is LastPage && request == RequestView::Length {
                path: table_path(disk, t),
            },
            Stage::InsertFetching { page } => fetching(
                e.pool,
                disk,
                Key { page_id: page, table: t },
                request,
            ) && page.0 + 1 == pages,
            Stage::InsertAllocating => awaited(e.pool, disk) == Some(request) && match e.pool.pending {
                Pending::Allocate { table } => table == t,
                Pending::AllocateWrite { key } => key.table == t,
                Pending::WriteBack { key, fresh, .. } => fresh && key.table == t && key.page_id.0 + 1
                    == pages,
                _ => false,
            },
            _ => false,
        },
        ProgressView::Continue => under_way && e.pool.pending is Idle && match e.stage {
            Stage::InsertFetch { page } => page.0 + 1 == pages,
            Stage::InsertAllocate => true,
            _ => false,
        },
        _ => false,
    }
}

/// The rows of a table whose last page gets one tuple more are the rows
/// that it had and then the tuple; the rows of the other tables stay.
pub proof fn lemma_rows_after_append(
    disk: DiskManager,
    files: Map<Seq<char>, Seq<u8>>,
    content: spec_fn(Key) -> Seq<TupleView>,
    key: Key,
    tuple: TupleView,
    t2: usize,
)
    requires
        key.page_id.0 + 1 == pages_of(disk, files, key.table),
        pages_of(disk, files, t2) <= usize::MAX,
    ensures
        rows_of(disk, files, with_page(content, key, content(key).push(tuple)), t2) == if t2
            == key.table {
            rows_of(disk, files, content, t2).push(tuple)
        } else {
            rows_of(disk, files, content, t2)
        },
{
    let grown = with_page(content, key, content(key).push(tuple));
    let pages = pages_of(disk, files, t2);
    if t2 == key.table {
        lemma_table_rows_agree(grown, content, t2, (pages - 1) as nat);
        let last = Key { page_id: PageID((pages - 1) as usize), table: t2 };
        assert(last.page_id == key.page_id);
        assert(last == key);
        assert(table_rows(grown, t2, pages) =~= table_rows(content, t2, pages).push(tuple));
    } else {
        lemma_table_rows_agree(grown, content, t2, pages);
    }
}

/// The rows of a table that gets an empty page more are the rows that it
/// had; the rows of the other tables stay.
pub proof fn lemma_rows_after_extension(
    disk: DiskManager,
    files: Map<Seq<char>, Seq<u8>>,
    after: Map<Seq<char>, Seq<u8>>,
    content: spec_fn(Key) -> Seq<TupleView>,
    key: Key,
    t2: usize,
)
    requires
        key.table < table_count(disk),
        t2 < table_count(disk),
        files_ok(disk, files),
        files_ok(disk, after),
        key.page_id.0 == pages_of(disk, files, key.table),
        forall|k: Key| in_file(disk, after, k) == (in_file(disk, files, k) || k == key),
    ensures
        rows_of(disk, after, with_page(content, key, Seq::empty()), t2) == rows_of(
            disk,
            files,
            content,
            t2,
        ),
        pages_of(disk, after, t2) == if t2 == key.table {
            pages_of(disk, files, t2) + 1
        } else {
            pages_of(disk, files, t2)
        },
{
    let grown = with_page(content, key, Seq::empty());
    let a = pages_of(disk, files, t2);
    let b = pages_of(disk, after, t2);
    assert(table_file(disk, files, t2).len() <= usize::MAX);
    assert(table_file(disk, after, t2).len() <= usize::MAX);
    if t2 == key.table {
        assert(in_file(disk, after, key));
        if b > a + 1 {
            let k = Key { page_id: PageID((a + 1) as usize), table: t2 };
            assert(in_file(disk, after, k));
            assert(!in_file(disk, files, k));
            assert(k.page_id != key.page_id);
        }
        assert(b == a + 1);
        lemma_table_rows_agree(grown, content, t2, a);
        let last = Key { page_id: PageID(a as usize), table: t2 };
        assert(last.page_id == key.page_id);
        assert(last == key);
        assert(table_rows(grown, t2, b) =~= table_rows(content, t2, a));
    } else {
        if a < b {
            let k = Key { page_id: PageID(a as usize), table: t2 };
            assert(in_file(disk, after, k));
            assert(!in_file(disk, files, k));
        }
        if b < a {
            let k = Key { page_id: PageID(b as usize), table: t2 };
            assert(in_file(disk, files, k));
            assert(!in_file(disk, after, k));
        }
        lemma_table_rows_agree(grown, content, t2, a);
    }
}

/// What insert does with the frame that holds the table's last page keeps
/// what holds while an insert is under way.
#[verifier::rlimit(50)]
pub proof fn lemma_tuple_put(
    e: ExecView,
    disk: DiskManager,
    files: Map<Seq<char>, Seq<u8>>,
    content: spec_fn(Key) -> Seq<TupleView>,
    t: usize,
    tuple: TupleView,
    base: Seq<TupleView>,
    others: spec_fn(usize) -> Seq<TupleView>,
    f: usize,
    key: Key,
    grow: bool,
    post: ExecView,
    progress: ProgressView,
)
    requires
        steady(e.pool, disk, files, content),
        e.pool.pending is Idle,
        t < table_count(disk),
        e.table == table_name(disk, t),
        e.tuple == Some(tuple),
        row_ok(disk, t, tuple),
        rows_of(disk, files, content, t) == base,
        others_kept(disk, files, content, t, others),
        key.table == t,
        key.page_id.0 + 1 == pages_of(disk, files, t),
        holds(e.pool.frames, f as int, key),
        e.pool.frames[f as int].pin_count > 0,
        tuple_put(e, disk, f, key.page_id, grow, post, progress),
    ensures
        exists|grown: spec_fn(Key) -> Seq<TupleView>|
            inserting(post, disk, files, progress, grown, t, tuple, base, others),
{
    assert(disk.catalog().spec_table_id(table_name(disk, t)) == Some(t as int));
    assert(page_key(disk, key.page_id, e.table) == Some(key));
    let frame = e.pool.frames[f as int];
    let size = table_at(disk, t).spec_tuple_size();
    assert(frame_coherent(e.pool, disk, files, content, f as int));
    if tuples_fit_in_page((frame.page.tuple_count + 1) as nat, size) {
        let added = PageView {
            tuple_count: (frame.page.tuple_count + 1) as u32,
            tuples: frame.page.tuples.push(tuple),
            ..frame.page
        };
        let dirtied = PoolView {
            frames: e.pool.frames.update(f as int, FrameView { page: added, dirty: true, ..frame }),
            ..e.pool
        };
        let grown = with_page(content, key, content(key).push(tuple));
        lemma_coherent_after_append(e.pool, dirtied, disk, files, content, f as int, key, tuple);
        assert(bounded(dirtied));
        lemma_unpinned_steady(dirtied, disk, files, grown, key, post.pool);
        assert forall|t2: usize| t2 < table_count(disk) implies rows_of(disk, files, grown, t2)
            == if t2 == t {
            base.push(tuple)
        } else {
            others(t2)
        } by {
            assert(table_file(disk, files, t2).len() <= usize::MAX);
            lemma_rows_after_append(disk, files, content, key, tuple, t2);
        }
        assert(inserting(post, disk, files, progress, grown, t, tuple, base, others));
    } else {
        lemma_unpinned_steady(e.pool, disk, files, content, key, post.pool);
        assert(inserting(post, disk, files, progress, content, t, tuple, base, others));
    }
}

/// What the executor does with a step of the manager while it brings the
/// table's last page into a frame keeps what holds while an insert is
/// under way.
#[verifier::rlimit(50)]
pub proof fn lemma_insert_followed(
    e: ExecView,
    disk: DiskManager,
    files: Map<Seq<char>, Seq<u8>>,
    content: spec_fn(Key) -> Seq<TupleView>,
    t: usize,
    tuple: TupleView,
    base: Seq<TupleView>,
    others: spec_fn(usize) -> Seq<TupleView>,
    key: Key,
    fresh: bool,
    step: StepView,
    post: ExecView,
    progress: ProgressView,
)
    requires
        steady(e.pool, disk, files, content),
        t < table_count(disk),
        e.table == table_name(disk, t),
        e.tuple == Some(tuple),
        row_ok(disk, t, tuple),
        rows_of(disk, files, content, t) == base,
        others_kept(disk, files, content, t, others),
        key.table == t,
        key.page_id.0 + 1 == pages_of(disk, files, t),
        if fresh {
            e.stage is InsertAllocating
        } else {
            e.stage == (Stage::InsertFetching { page: key.page_id })
        },
        step matches StepView::Disk(request) ==> awaited(e.pool, disk) == Some(request),
        handed_out(e.pool, content, key, step),
        still_loading(e.pool, key, fresh, step),
        followed(e, disk, step, post, progress),
    ensures
        exists|grown: spec_fn(Key) -> Seq<TupleView>|
            inserting(post, disk, files, progress, grown, t, tuple, base, others),
{
    match step {
        StepView::Disk(request) => {
            assert(inserting(post, disk, files, progress, content, t, tuple, base, others));
        },
        StepView::Done(Err(_)) => {
            assert(inserting(post, disk, files, progress, content, t, tuple, base, others));
        },
        StepView::Done(Ok(outcome)) => {
            let frame = outcome->Buffer_0;
            assert(holds(e.pool.frames, frame.0 as int, key));
            assert(e.pool.frames[frame.0 as int].page.id == key.page_id.0);
            assert(PageID(e.pool.frames[frame.0 as int].page.id as usize) == key.page_id);
            lemma_tuple_put(
                e,
                disk,
                files,
                content,
                t,
                tuple,
                base,
                others,
                frame.0,
                key,
                !fresh,
                post,
                progress,
            );
        },
    }
}

/// A step of the driver keeps what holds while an insert is under way.
#[verifier::rlimit(50)]
pub proof fn lemma_insert_step(
    e: ExecView,
    disk: DiskManager,
    files: Map<Seq<char>, Seq<u8>>,
    progress: ProgressView,
    content: spec_fn(Key) -> Seq<TupleView>,
    t: usize,
    tuple: TupleView,
    base: Seq<TupleView>,
    others: spec_fn(usize) -> Seq<TupleView>,
    post: ExecView,
    files_post: Map<Seq<char>, Seq<u8>>,
    next: ProgressView,
)
    requires
        inserting(e, disk, files, progress, content, t, tuple, base, others),
        driven(e, disk, files, progress, post, files_post, next),
    ensures
        exists|grown: spec_fn(Key) -> Seq<TupleView>|
            inserting(post, disk, files_post, next, grown, t, tuple, base, others),
{
    assert(disk.catalog().spec_table_id(table_name(disk, t)) == Some(t as int));
    match progress {
        ProgressView::Disk(request) => {
            let reply = reply_of(files, request);
            let (mid, step) = choose|mid: PoolView, step: StepView|
                resumed(e.pool, disk, reply, mid, step) && followed(
                    ExecView { pool: mid, ..e },
                    disk,
                    step,
                    post,
                    next,
                );
            let em = ExecView { pool: mid, ..e };
            match e.stage {
                Stage::InsertFind => {
                    lemma_last_page_told(e.pool, disk, files, content, t, mid, step);
                    assert(inserting(post, disk, files_post, next, content, t, tuple, base, others));
                },
                Stage::InsertFetching { page } => {
                    let key = Key { page_id: page, table: t };
                    lemma_resumed_steady(e.pool, disk, files, content, request, mid, step);
                    assert(content_after(e.pool, reply, content) == content);
                    assert forall|t2: usize| t2 < table_count(disk) implies #[trigger] pages_of(
                        disk,
                        files_post,
                        t2,
                    ) == pages_of(disk, files, t2) by {
                        lemma_pages_kept(disk, files, files_post, t2);
                    }
                    assert(others_kept(disk, files_post, content, t, others)) by {
                        assert forall|t2: usize|
                            t2 < table_count(disk) && t2 != t implies #[trigger] rows_of(
                            disk,
                            files_post,
                            content,
                            t2,
                        ) == others(t2) by {
                            assert(pages_of(disk, files_post, t2) == pages_of(disk, files, t2));
                            assert(rows_of(disk, files, content, t2) == others(t2));
                        }
                    }
                    assert(pages_of(disk, files_post, t) == pages_of(disk, files, t));
                    lemma_insert_followed(
                        em,
                        disk,
                        files_post,
                        content,
                        t,
                        tuple,
                        base,
                        others,
                        key,
                        false,
                        step,
                        post,
                        next,
                    );
                },
                Stage::InsertAllocating => {
                    lemma_resumed_steady(e.pool, disk, files, content, request, mid, step);
                    let grown = content_after(e.pool, reply, content);
                    match e.pool.pending {
                        Pending::Allocate { table } => {
                            assert(files_post == files);
                            assert(inserting(
                                post,
                                disk,
                                files_post,
                                next,
                                content,
                                t,
                                tuple,
                                base,
                                others,
                            ));
                        },
                        Pending::AllocateWrite { key } => {
                            if reply is Written {
                                assert forall|t2: usize|
                                    t2 < table_count(disk) implies #[trigger] rows_of(
                                    disk,
                                    files_post,
                                    grown,
                                    t2,
                                ) == rows_of(disk, files, content, t2) && pages_of(
                                    disk,
                                    files_post,
                                    t2,
                                ) == if t2 == t {
                                    pages_of(disk, files, t2) + 1
                                } else {
                                    pages_of(disk, files, t2)
                                } by {
                                    lemma_rows_after_extension(
                                        disk,
                                        files,
                                        files_post,
                                        content,
                                        key,
                                        t2,
                                    );
                                }
                                assert(rows_of(disk, files_post, grown, t) == base);
                                assert(others_kept(disk, files_post, grown, t, others)) by {
                                    assert forall|t2: usize|
                                        t2 < table_count(disk) && t2 != t implies #[trigger] rows_of(
                                        disk,
                                        files_post,
                                        grown,
                                        t2,
                                    ) == others(t2) by {
                                        assert(rows_of(disk, files, content, t2) == others(t2));
                                    }
                                }
                                lemma_insert_followed(
                                    em,
                                    disk,
                                    files_post,
                                    grown,
                                    t,
                                    tuple,
                                    base,
                                    others,
                                    key,
                                    true,
                                    step,
                                    post,
                                    next,
                                );
                            } else {
                                assert(inserting(
                                    post,
                                    disk,
                                    files_post,
                                    next,
                                    content,
                                    t,
                                    tuple,
                                    base,
                                    others,
                                ));
                            }
                        },
                        Pending::WriteBack { key, .. } => {
                            assert forall|t2: usize|
                                t2 < table_count(disk) implies #[trigger] pages_of(
                                disk,
                                files_post,
                                t2,
                            ) == pages_of(disk, files, t2) by {
                                lemma_pages_kept(disk, files, files_post, t2);
                            }
                            assert(others_kept(disk, files_post, content, t, others)) by {
                                assert forall|t2: usize|
                                    t2 < table_count(disk) && t2 != t implies #[trigger] rows_of(
                                    disk,
                                    files_post,
                                    content,
                                    t2,
                                ) == others(t2) by {
                                    assert(pages_of(disk, files_post, t2) == pages_of(
                                        disk,
                                        files,
                                        t2,
                                    ));
                                    assert(rows_of(disk, files, content, t2) == others(t2));
                                }
                            }
                            assert(pages_of(disk, files_post, t) == pages_of(disk, files, t));
                            lemma_insert_followed(
                                em,
                                disk,
                                files_post,
                                content,
                                t,
                                tuple,
                                base,
                                others,
                                key,
                                true,
                                step,
                                post,
                                next,
                            );
                        },
                        _ => {},
                    }
                },
                _ => {},
            }
        },
        ProgressView::Continue => {
            match e.stage {
                Stage::InsertFetch { page } => {
                    let key = Key { page_id: page, table: t };
                    let (mid, step) = choose|mid: PoolView, step: StepView|
                        fetched(e.pool, disk, page_key(disk, page, e.table), mid, step)
                            && followed(
                            ExecView { pool: mid, stage: waiting(e.stage), ..e },
                            disk,
                            step,
                            post,
                            next,
                        );
                    lemma_fetched_steady(e.pool, disk, files, content, key, mid, step);
                    lemma_insert_followed(
                        ExecView { pool: mid, stage: waiting(e.stage), ..e },
                        disk,
                        files,
                        content,
                        t,
                        tuple,
                        base,
                        others,
                        key,
                        false,
                        step,
                        post,
                        next,
                    );
                },
                Stage::InsertAllocate => {
                    let (mid, step) = choose|mid: PoolView, step: StepView|
                        allocation_begun(
                            e.pool,
                            disk,
                            disk.catalog().spec_table_id(e.table),
                            mid,
                            step,
                        ) && followed(
                            ExecView { pool: mid, stage: waiting(e.stage), ..e },
                            disk,
                            step,
                            post,
                            next,
                        );
                    lemma_coherent_same_pages(e.pool, mid, disk, files, content);
                    assert(inserting(post, disk, files_post, next, content, t, tuple, base, others));
                },
                _ => {},
            }
        },
        _ => {},
    }
}

/// An insert that begins in a steady state is under way as `inserting`
/// says.
#[verifier::rlimit(50)]
pub proof fn lemma_insert_begins(
    e: ExecView,
    disk: DiskManager,
    files: Map<Seq<char>, Seq<u8>>,
    content: spec_fn(Key) -> Seq<TupleView>,
    attributes: Map<Seq<char>, AttributeView>,
    name: Seq<char>,
    t: usize,
    post: ExecView,
    progress: ProgressView,
)
    requires
        steady(e.pool, disk, files, content),
        e.stage is Idle,
        e.pool.pending is Idle,
        disk.catalog().spec_table_id(name) == Some(t as int),
        attributes.dom() == column_names(table_at(disk, t).columns@),
        insert_begun(e, disk, attributes, name, post, progress),
    ensures
        inserting(
            post,
            disk,
            files,
            progress,
            content,
            t,
            TupleView { deleted: 0, attributes },
            rows_of(disk, files, content, t),
            |t2: usize| rows_of(disk, files, content, t2),
        ),
{
    crate::catalog::lemma_table_index(disk.catalog().spec_schemas(), name);
    let table = table_at(disk, t);
    if body_fits(table.columns@, attributes) && tuples_fit_in_page(1, table.spec_tuple_size()) {
        let tuple = TupleView { deleted: 0, attributes };
        let step = choose|step: StepView|
            last_page_begun(e.pool, disk, name, post.pool, step) && followed(
                ExecView {
                    pool: post.pool,
                    stage: Stage::InsertFind,
                    table: name,
                    tuple: Some(tuple),
                    rows: Seq::empty(),
                },
                disk,
                step,
                post,
                progress,
            );
        lemma_coherent_same_pages(e.pool, post.pool, disk, files, content);
    }
}

/// The steps of the driver keep what holds while an insert is under way.
pub proof fn lemma_insert_run(
    e: ExecView,
    disk: DiskManager,
    files: Map<Seq<char>, Seq<u8>>,
    progress: ProgressView,
    content: spec_fn(Key) -> Seq<TupleView>,
    t: usize,
    tuple: TupleView,
    base: Seq<TupleView>,
    others: spec_fn(usize) -> Seq<TupleView>,
    post: ExecView,
    files_post: Map<Seq<char>, Seq<u8>>,
    last: ProgressView,
    n: nat,
)
    requires
        inserting(e, disk, files, progress, content, t, tuple, base, others),
        driven_to(e, disk, files, progress, post, files_post, last, n),
    ensures
        exists|grown: spec_fn(Key) -> Seq<TupleView>|
            inserting(post, disk, files_post, last, grown, t, tuple, base, others),
    decreases n,
{
    if n > 0 {
        let (mid, files_mid, next) = choose|
            mid: ExecView,
            files_mid: Map<Seq<char>, Seq<u8>>,
            next: ProgressView,
        |
            driven(e, disk, files, progress, mid, files_mid, next) && driven_to(
                mid,
                disk,
                files_mid,
                next,
                post,
                files_post,
                last,
                (n - 1) as nat,
            );
        lemma_insert_step(
            e,
            disk,
            files,
            progress,
            content,
            t,
            tuple,
            base,
            others,
            mid,
            files_mid,
            next,
        );
        let grown = choose|grown: spec_fn(Key) -> Seq<TupleView>|
            inserting(mid, disk, files_mid, next, grown, t, tuple, base, others);
        lemma_insert_run(
            mid,
            disk,
            files_mid,
            next,
            grown,
            t,
            tuple,
            base,
            others,
            post,
            files_post,
            last,
            (n - 1) as nat,
        );
    }
}

/// An insert appends its tuple to the rows of its table: on a disk that
/// does what it is asked, an insert that starts where the frames and the
/// files hold `content` together and that runs to its end leaves the
/// frames and the files holding a content in which the table has the rows
/// that it had and then a tuple with the given attributes, not deleted,
/// and every other table the rows that it had. The attributes are those
/// of the table's columns and no others.
pub proof fn lemma_insert_appends_row(
    e: ExecView,
    disk: DiskManager,
    files: Map<Seq<char>, Seq<u8>>,
    content: spec_fn(Key) -> Seq<TupleView>,
    attributes: Map<Seq<char>, AttributeView>,
    name: Seq<char>,
    t: usize,
    first: ExecView,
    progress: ProgressView,
    post: ExecView,
    files_post: Map<Seq<char>, Seq<u8>>,
    n: nat,
)
    requires
        steady(e.pool, disk, files, content),
        e.stage is Idle,
        e.pool.pending is Idle,
        disk.catalog().spec_table_id(name) == Some(t as int),
        attributes.dom() == column_names(table_at(disk, t).columns@),
        insert_begun(e, disk, attributes, name, first, progress),
        driven_to(first, disk, files, progress, post, files_post, ProgressView::Inserted, n),
    ensures
        post.stage is Idle,
        post.pool.pending is Idle,
        exists|grown: spec_fn(Key) -> Seq<TupleView>|
            {
                &&& steady(post.pool, disk, files_post, grown)
                &&& rows_of(disk, files_post, grown, t) == rows_of(disk, files, content, t).push(
                    TupleView { deleted: 0, attributes },
                )
                &&& forall|t2: usize|
                    t2 < table_count(disk) && t2 != t ==> #[trigger] rows_of(
                        disk,
                        files_post,
                        grown,
                        t2,
                    ) == rows_of(disk, files, content, t2)
            },
{
    let tuple = TupleView { deleted: 0, attributes };
    let base = rows_of(disk, files, content, t);
    let others = |t2: usize| rows_of(disk, files, content, t2);
    lemma_insert_begins(e, disk, files, content, attributes, name, t, first, progress);
    lemma_insert_run(
        first,
        disk,
        files,
        progress,
        content,
        t,
        tuple,
        base,
        others,
        post,
        files_post,
        ProgressView::Inserted,
        n,
    );
    let grown = choose|grown: spec_fn(Key) -> Seq<TupleView>|
        inserting(post, disk, files_post, ProgressView::Inserted, grown, t, tuple, base, others);
    assert forall|t2: usize| t2 < table_count(disk) && t2 != t implies #[trigger] rows_of(
        disk,
        files_post,
        grown,
        t2,
    ) == rows_of(disk, files, content, t2) by {
        assert(rows_of(disk, files_post, grown, t2) == others(t2));
    }
}

/// The content of files that hold no page.
pub open spec fn no_content() -> spec_fn(Key) -> Seq<TupleView> {
    |k: Key| Seq::<TupleView>::empty()
}

/// A pool whose frames have held no page yet and a disk without files
/// hold no page together: that state is steady, and every table is
/// without rows.
pub proof fn lemma_fresh_pool_steady(pool: PoolView, disk: DiskManager)
    requires
        names_unique(disk),
        pool.pending is Idle,
        0 < pool.frames.len() <= usize::MAX,
        forall|f: int| 0 <= f < pool.frames.len() ==> (#[trigger] pool.frames[f]).key is None,
        forall|c: usize| #[trigger] pool.candidates.contains(c) ==> c < pool.frames.len(),
    ensures
        steady(pool, disk, Map::empty(), no_content()),
        forall|t: usize|
            t < table_count(disk) ==> #[trigger] pages_of(disk, Map::empty(), t) == 0 && rows_of(
                disk,
                Map::empty(),
                no_content(),
                t,
            ) == Seq::<TupleView>::empty(),
{
    let files = Map::<Seq<char>, Seq<u8>>::empty();
    let content = no_content();
    assert forall|t: usize| t < table_count(disk) implies (#[trigger] table_file(disk, files, t)).len()
        == 0 by {}
    assert forall|f: int| 0 <= f < pool.frames.len() implies #[trigger] frame_coherent(
        pool,
        disk,
        files,
        content,
        f,
    ) by {
        assert(pool.frames[f].key is None);
    }
    assert forall|key: Key| #[trigger] page_coherent(pool, disk, files, content, key) by {
        if key.table < table_count(disk) {
            assert(table_file(disk, files, key.table).len() == 0);
        }
    }
    assert forall|t: usize| t < table_count(disk) implies #[trigger] pages_of(disk, files, t) == 0
        && rows_of(disk, files, content, t) == Seq::<TupleView>::empty() by {
        assert(table_file(disk, files, t).len() == 0);
    }
}

/// Whether an insert of a tuple with the given attributes into the table
/// `name` takes the executor and the files from `pre` and `files` to
/// `post` and `files_post`, on a disk that does what it is asked.
pub open spec fn insert_done(
    pre: ExecView,
    disk: DiskManager,
    files: Map<Seq<char>, Seq<u8>>,
    attributes: Map<Seq<char>, AttributeView>,
    name: Seq<char>,
    post: ExecView,
    files_post: Map<Seq<char>, Seq<u8>>,
) -> bool {
    exists|first: ExecView, progress: ProgressView, n: nat|
        insert_begun(pre, disk, attributes, name, first, progress) && driven_to(
            first,
            disk,
            files,
            progress,
            post,
            files_post,
            ProgressView::Inserted,
            n,
        )
}

/// Whether inserts of tuples with the given attributes, one after the
/// other, into the table `name` take the executor and the files from
/// `pre` and `files` to `post` and `files_post`.
pub open spec fn inserts_done(
    pre: ExecView,
    disk: DiskManager,
    files: Map<Seq<char>, Seq<u8>>,
    rows: Seq<Map<Seq<char>, AttributeView>>,
    name: Seq<char>,
    post: ExecView,
    files_post: Map<Seq<char>, Seq<u8>>,
) -> bool
    decreases rows.len(),
{
    if rows.len() == 0 {
        post == pre && files_post == files
    } else {
        exists|mid: ExecView, files_mid: Map<Seq<char>, Seq<u8>>|
            inserts_done(pre, disk, files, rows.drop_last(), name, mid, files_mid) && insert_done(
                mid,
                disk,
                files_mid,
                rows.last(),
                name,
                post,
                files_post,
            )
    }
}

/// Whether a scan of the table `name` that starts from `pre` and `files`
/// hands out `rows`, on a disk that does what it is asked.
pub open spec fn scan_done(
    pre: ExecView,
    disk: DiskManager,
    files: Map<Seq<char>, Seq<u8>>,
    name: Seq<char>,
    rows: Seq<Map<Seq<char>, AttributeView>>,
) -> bool {
    exists|
        first: ExecView,
        progress: ProgressView,
        post: ExecView,
        files_post: Map<Seq<char>, Seq<u8>>,
        n: nat,
    |
        scan_begun(pre, disk, name, first, progress) && driven_to(
            first,
            disk,
            files,
            progress,
            post,
            files_post,
            ProgressView::Rows(rows),
            n,
        )
}

/// The tuples, not deleted, with the given attributes.
pub open spec fn tuples_of(rows: Seq<Map<Seq<char>, AttributeView>>) -> Seq<TupleView> {
    Seq::new(rows.len(), |i: int| TupleView { deleted: 0, attributes: rows[i] })
}

/// The live rows of tuples that are not deleted are their attributes.
pub proof fn lemma_live_rows_of_tuples(rows: Seq<Map<Seq<char>, AttributeView>>)
    ensures
        live_rows(tuples_of(rows)) == rows,
    decreases rows.len(),
{
    if rows.len() > 0 {
        lemma_live_rows_of_tuples(rows.drop_last());
        assert(tuples_of(rows).drop_last() =~= tuples_of(rows.drop_last()));
        assert(live_rows(tuples_of(rows)) =~= rows);
    } else {
        assert(live_rows(tuples_of(rows)) =~= rows);
    }
}

/// Inserts, one after the other, append their tuples to the rows of their
/// table in the order of the inserts, and leave the executor at rest in a
/// steady state.
#[verifier::rlimit(50)]
pub proof fn lemma_inserts_append_rows(
    e: ExecView,
    disk: DiskManager,
    files: Map<Seq<char>, Seq<u8>>,
    content: spec_fn(Key) -> Seq<TupleView>,
    rows: Seq<Map<Seq<char>, AttributeView>>,
    name: Seq<char>,
    t: usize,
    post: ExecView,
    files_post: Map<Seq<char>, Seq<u8>>,
)
    requires
        steady(e.pool, disk, files, content),
        e.stage is Idle,
        e.pool.pending is Idle,
        disk.catalog().spec_table_id(name) == Some(t as int),
        forall|i: int|
            0 <= i < rows.len() ==> (#[trigger] rows[i]).dom() == column_names(
                table_at(disk, t).columns@,
            ),
        inserts_done(e, disk, files, rows, name, post, files_post),
    ensures
        post.stage is Idle,
        post.pool.pending is Idle,
        exists|grown: spec_fn(Key) -> Seq<TupleView>|
            steady(post.pool, disk, files_post, grown) && rows_of(disk, files_post, grown, t)
                == rows_of(disk, files, content, t) + tuples_of(rows),
    decreases rows.len(),
{
    let base = rows_of(disk, files, content, t);
    if rows.len() == 0 {
        assert(base + tuples_of(rows) =~= base);
        assert(steady(post.pool, disk, files_post, content) && rows_of(
            disk,
            files_post,
            content,
            t,
        ) == base + tuples_of(rows));
    } else {
        let (mid, files_mid) = choose|mid: ExecView, files_mid: Map<Seq<char>, Seq<u8>>|
            inserts_done(e, disk, files, rows.drop_last(), name, mid, files_mid) && insert_done(
                mid,
                disk,
                files_mid,
                rows.last(),
                name,
                post,
                files_post,
            );
        assert forall|i: int| 0 <= i < rows.drop_last().len() implies (
        #[trigger] rows.drop_last()[i]).dom() == column_names(table_at(disk, t).columns@) by {
            assert(rows.drop_last()[i] == rows[i]);
        }
        lemma_inserts_append_rows(
            e,
            disk,
            files,
            content,
            rows.drop_last(),
            name,
            t,
            mid,
            files_mid,
        );
        let before = choose|grown: spec_fn(Key) -> Seq<TupleView>|
            steady(mid.pool, disk, files_mid, grown) && rows_of(disk, files_mid, grown, t) == base
                + tuples_of(rows.drop_last());
        let (first, progress, n) = choose|first: ExecView, progress: ProgressView, n: nat|
            insert_begun(mid, disk, rows.last(), name, first, progress) && driven_to(
                first,
                disk,
                files_mid,
                progress,
                post,
                files_post,
                ProgressView::Inserted,
                n,
            );
        assert(rows.last() == rows[rows.len() - 1]);
        lemma_insert_appends_row(
            mid,
            disk,
            files_mid,
            before,
            rows.last(),
            name,
            t,
            first,
            progress,
            post,
            files_post,
            n,
        );
        let tuple = TupleView { deleted: 0, attributes: rows.last() };
        let grown = choose|grown: spec_fn(Key) -> Seq<TupleView>|
            {
                &&& steady(post.pool, disk, files_post, grown)
                &&& rows_of(disk, files_post, grown, t) == rows_of(disk, files_mid, before, t).push(
                    tuple,
                )
                &&& forall|t2: usize|
                    t2 < table_count(disk) && t2 != t ==> #[trigger] rows_of(
                        disk,
                        files_post,
                        grown,
                        t2,
                    ) == rows_of(disk, files_mid, before, t2)
            };
        assert((base + tuples_of(rows.drop_last())).push(tuple) =~= base + tuples_of(rows));
        assert(steady(post.pool, disk, files_post, grown) && rows_of(disk, files_post, grown, t)
            == base + tuples_of(rows));
    }
}

/// The order of a scan is the order of the inserts: on a disk that does
/// what it is asked, a scan of a table after inserts into it hands out the
/// rows that the table had, and then the rows inserted, in the order in
/// which they were inserted. The rows inserted have the table's columns
/// as their attributes, and no others.
pub proof fn lemma_scan_order_is_insert_order(
    e: ExecView,
    disk: DiskManager,
    files: Map<Seq<char>, Seq<u8>>,
    content: spec_fn(Key) -> Seq<TupleView>,
    rows: Seq<Map<Seq<char>, AttributeView>>,
    name: Seq<char>,
    t: usize,
    mid: ExecView,
    files_mid: Map<Seq<char>, Seq<u8>>,
    scanned: Seq<Map<Seq<char>, AttributeView>>,
)
    requires
        steady(e.pool, disk, files, content),
        e.stage is Idle,
        e.pool.pending is Idle,
        disk.catalog().spec_table_id(name) == Some(t as int),
        forall|i: int|
            0 <= i < rows.len() ==> (#[trigger] rows[i]).dom() == column_names(
                table_at(disk, t).columns@,
            ),
        inserts_done(e, disk, files, rows, name, mid, files_mid),
        scan_done(mid, disk, files_mid, name, scanned),
    ensures
        scanned == live_rows(rows_of(disk, files, content, t)) + rows,
{
    lemma_inserts_append_rows(e, disk, files, content, rows, name, t, mid, files_mid);
    let grown = choose|grown: spec_fn(Key) -> Seq<TupleView>|
        steady(mid.pool, disk, files_mid, grown) && rows_of(disk, files_mid, grown, t) == rows_of(
            disk,
            files,
            content,
            t,
        ) + tuples_of(rows);
    let (first, progress, post, files_post, n) = choose|
        first: ExecView,
        progress: ProgressView,
        post: ExecView,
        files_post: Map<Seq<char>, Seq<u8>>,
        n: nat,
    |
        scan_begun(mid, disk, name, first, progress) && driven_to(
            first,
            disk,
            files_mid,
            progress,
            post,
            files_post,
            ProgressView::Rows(scanned),
            n,
        );
    lemma_scan_gives_rows(
        mid,
        disk,
        files_mid,
        grown,
        name,
        t,
        first,
        progress,
        post,
        files_post,
        scanned,
        n,
    );
    lemma_live_rows_add(rows_of(disk, files, content, t), tuples_of(rows));
    lemma_live_rows_of_tuples(rows);
}

} // verus!
