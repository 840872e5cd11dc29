//! The executor: insert and scan, built on the buffer pool manager.
//!
//! Like the manager, the executor decides and its driver works: an
//! operation hands out disk requests, and goes on when the driver hands
//! back the reply (`resume`) or, where it asked for nothing, at once
//! (`proceed`).

use vstd::prelude::*;
use crate::catalog::AttributeView;
use crate::storage::buffer_pool::BufferPoolID;
use crate::storage::buffer_pool_manager::BufferPoolManager;
use crate::storage::disk_manager::DiskManager;
use crate::storage::page::{tuples_fit_in_page, PageID, PageView};
use crate::storage::protocol::{
    allocation_begun, fetched, flush_all_begun, holds, last_page_begun, page_key, resumed, unpinned,
    DiskReply, DiskRequest, FrameView, Outcome, PoolView, ReplyView, RequestView, Step, StepView,
};
use crate::storage::replacer::Replacer;
use crate::storage::tuple::{body_fits, Attributes, Tuple, TupleView};
use crate::storage::StorageError;

verus! {

/// Where an operation of the executor stands.
#[derive(Clone, Copy, Debug)]
pub enum Stage {
    /// No operation is under way.
    Idle,
    /// Insert waits for the number of the table's last page.
    InsertFind,
    /// Insert is about to fetch the table's last page.
    InsertFetch { page: PageID },
    /// Insert waits for the table's last page.
    InsertFetching { page: PageID },
    /// Insert is about to append a page to the table.
    InsertAllocate,
    /// Insert waits for the appended page.
    InsertAllocating,
    /// Scan waits for the number of the table's last page.
    ScanFind,
    /// Scan is about to fetch the page `number`; `last` is the last one.
    ScanFetch { number: usize, last: usize },
    /// Scan waits for the page `number`.
    ScanFetching { number: usize, last: usize },
    /// The flush of all dirty pages waits for the disk.
    Flushing,
}

/// What the executor hands to its driver.
#[derive(Debug)]
pub enum Progress {
    /// The driver is to perform the request and to call `resume` with the
    /// reply.
    Disk(DiskRequest),
    /// The driver is to call `proceed`.
    Continue,
    /// The tuple is in its table.
    Inserted,
    /// The attributes of the table's tuples, in the table's order.
    Rows(Vec<Attributes>),
    /// Every dirty page is written.
    Flushed,
    /// The operation failed; none is under way any more.
    Failed(StorageError),
}

/// What the executor hands to its driver, as mathematical values.
pub enum ProgressView {
    Disk(RequestView),
    Continue,
    Inserted,
    Rows(Seq<Map<Seq<char>, AttributeView>>),
    Flushed,
    Failed(StorageError),
}

/// The views of the given attribute lists.
pub open spec fn rows_view(rows: Seq<Attributes>) -> Seq<Map<Seq<char>, AttributeView>> {
    Seq::new(rows.len(), |i: int| rows[i]@)
}

impl View for Progress {
    type V = ProgressView;

    open spec fn view(&self) -> ProgressView {
        match self {
            Progress::Disk(request) => ProgressView::Disk(request@),
            Progress::Continue => ProgressView::Continue,
            Progress::Inserted => ProgressView::Inserted,
            Progress::Rows(rows) => ProgressView::Rows(rows_view(rows@)),
            Progress::Flushed => ProgressView::Flushed,
            Progress::Failed(e) => ProgressView::Failed(*e),
        }
    }
}

/// The executor's state, as mathematical values.
pub struct ExecView {
    /// The state of the buffer pool manager.
    pub pool: PoolView,
    /// Where the operation under way stands.
    pub stage: Stage,
    /// The table of the operation under way.
    pub table: Seq<char>,
    /// The tuple that insert is to store.
    pub tuple: Option<TupleView>,
    /// The rows that scan has gathered.
    pub rows: Seq<Map<Seq<char>, AttributeView>>,
}

/// The state `pre` with no operation under way.
pub open spec fn at_rest(pre: ExecView) -> ExecView {
    ExecView { stage: Stage::Idle, tuple: None, rows: Seq::empty(), ..pre }
}

/// The attributes of the tuples that are not deleted, in order.
pub open spec fn live_rows(tuples: Seq<TupleView>) -> Seq<Map<Seq<char>, AttributeView>>
    decreases tuples.len(),
{
    if tuples.len() == 0 {
        Seq::empty()
    } else if tuples.last().deleted == 0 {
        live_rows(tuples.drop_last()).push(tuples.last().attributes)
    } else {
        live_rows(tuples.drop_last())
    }
}

/// The stage in which an operation waits for the disk after the step that
/// the stage `stage` takes.
pub open spec fn waiting(stage: Stage) -> Stage {
    match stage {
        Stage::InsertFetch { page } => Stage::InsertFetching { page },
        Stage::InsertAllocate => Stage::InsertAllocating,
        Stage::ScanFetch { number, last } => Stage::ScanFetching { number, last },
        other => other,
    }
}

/// What `insert` does first: it checks the table and the tuple, and asks
/// for the number of the table's last page.
pub open spec fn insert_begun(
    pre: ExecView,
    disk: DiskManager,
    attributes: Map<Seq<char>, AttributeView>,
    table_name: Seq<char>,
    post: ExecView,
    progress: ProgressView,
) -> bool {
    if !(pre.stage is Idle) || !(pre.pool.pending is Idle) {
        post == pre && progress == ProgressView::Failed(StorageError::Protocol)
    } else {
        match disk.table_of(table_name) {
            None => post == pre && progress == ProgressView::Failed(StorageError::CatalogMiss),
            Some(table) => if !body_fits(table.columns@, attributes) {
                post == pre && progress == ProgressView::Failed(StorageError::InvalidTuple)
            } else if !tuples_fit_in_page(1, table.spec_tuple_size()) {
                post == pre && progress == ProgressView::Failed(StorageError::InvalidPage)
            } else {
                exists|step: StepView|
                    last_page_begun(pre.pool, disk, table_name, post.pool, step) && followed(
                        ExecView {
                            pool: post.pool,
                            stage: Stage::InsertFind,
                            table: table_name,
                            tuple: Some(TupleView { deleted: 0, attributes }),
                            rows: Seq::empty(),
                        },
                        disk,
                        step,
                        post,
                        progress,
                    )
            },
        }
    }
}

/// What `scan` does first: it checks the table, and asks for the number of
/// the table's last page.
pub open spec fn scan_begun(
    pre: ExecView,
    disk: DiskManager,
    table_name: Seq<char>,
    post: ExecView,
    progress: ProgressView,
) -> bool {
    if !(pre.stage is Idle) || !(pre.pool.pending is Idle) {
        post == pre && progress == ProgressView::Failed(StorageError::Protocol)
    } else if disk.table_of(table_name) is None {
        post == pre && progress == ProgressView::Failed(StorageError::CatalogMiss)
    } else {
        exists|step: StepView|
            last_page_begun(pre.pool, disk, table_name, post.pool, step) && followed(
                ExecView {
                    pool: post.pool,
                    stage: Stage::ScanFind,
                    table: table_name,
                    tuple: None,
                    rows: Seq::empty(),
                },
                disk,
                step,
                post,
                progress,
            )
    }
}

/// What `all_flush` does first.
pub open spec fn flush_begun(
    pre: ExecView,
    disk: DiskManager,
    post: ExecView,
    progress: ProgressView,
) -> bool {
    if !(pre.stage is Idle) || !(pre.pool.pending is Idle) {
        post == pre && progress == ProgressView::Failed(StorageError::Protocol)
    } else {
        exists|step: StepView|
            flush_all_begun(pre.pool, disk, post.pool, step) && followed(
                ExecView { pool: post.pool, stage: Stage::Flushing, ..at_rest(pre) },
                disk,
                step,
                post,
                progress,
            )
    }
}

/// What the executor does with the tuple to insert once the frame `f`
/// holds the page `page` of the table, pinned for the executor: where the
/// tuple fits, it is appended to the page, the frame is marked dirty and
/// the pin is given back. Where it does not fit, the pin is given back,
/// and insert goes on to append a page to the table (`grow`) or fails.
pub open spec fn tuple_put(
    pre: ExecView,
    disk: DiskManager,
    f: usize,
    page: PageID,
    grow: bool,
    post: ExecView,
    progress: ProgressView,
) -> bool {
    let key = page_key(disk, page, pre.table);
    if key is Some && pre.tuple is Some && holds(pre.pool.frames, f as int, key->Some_0)
        && pre.pool.frames[f as int].pin_count > 0 {
        let frame = pre.pool.frames[f as int];
        let size = disk.table_of(pre.table)->Some_0.spec_tuple_size();
        if tuples_fit_in_page((frame.page.tuple_count + 1) as nat, size) {
            let added = PageView {
                tuple_count: (frame.page.tuple_count + 1) as u32,
                tuples: frame.page.tuples.push(pre.tuple->Some_0),
                ..frame.page
            };
            let dirtied = PoolView {
                frames: pre.pool.frames.update(
                    f as int,
                    FrameView { page: added, dirty: true, ..frame },
                ),
                ..pre.pool
            };
            &&& unpinned(dirtied, key, post.pool)
            &&& post == ExecView { pool: post.pool, ..at_rest(pre) }
            &&& progress == ProgressView::Inserted
        } else if grow {
            &&& unpinned(pre.pool, key, post.pool)
            &&& post == ExecView { pool: post.pool, stage: Stage::InsertAllocate, ..pre }
            &&& progress == ProgressView::Continue
        } else {
            &&& unpinned(pre.pool, key, post.pool)
            &&& post == ExecView { pool: post.pool, ..at_rest(pre) }
            &&& progress == ProgressView::Failed(StorageError::InvalidPage)
        }
    } else {
        post == at_rest(pre) && progress == ProgressView::Failed(StorageError::Protocol)
    }
}

/// What scan does once the frame `f` holds the page `page` of the table,
/// pinned for the executor: it gathers the attributes of the page's
/// tuples that are not deleted, gives back the pin, and goes on to the
/// next page or, after the last page, hands out the rows.
pub open spec fn page_scanned(
    pre: ExecView,
    disk: DiskManager,
    f: usize,
    page: usize,
    last: usize,
    post: ExecView,
    progress: ProgressView,
) -> bool {
    let key = page_key(disk, PageID(page), pre.table);
    if key is Some && holds(pre.pool.frames, f as int, key->Some_0) && pre.pool.frames[f as int].pin_count
        > 0 {
        let rows = pre.rows + live_rows(pre.pool.frames[f as int].page.tuples);
        &&& unpinned(pre.pool, key, post.pool)
        &&& if page >= last {
            post == ExecView { pool: post.pool, ..at_rest(pre) } && progress == ProgressView::Rows(
                rows,
            )
        } else {
            post == ExecView {
                pool: post.pool,
                stage: Stage::ScanFetch { number: (page + 1) as usize, last },
                rows,
                ..pre
            } && progress == ProgressView::Continue
        }
    } else {
        post == at_rest(pre) && progress == ProgressView::Failed(StorageError::Protocol)
    }
}

/// What the executor does with a step of the manager, in the stage
/// `pre.stage`: a disk request is handed on; a failure ends the operation;
/// a result takes the operation to its next stage.
pub open spec fn followed(
    pre: ExecView,
    disk: DiskManager,
    step: StepView,
    post: ExecView,
    progress: ProgressView,
) -> bool {
    match step {
        StepView::Disk(request) => post == pre && progress == ProgressView::Disk(request),
        StepView::Done(Err(e)) => post == at_rest(pre) && progress == ProgressView::Failed(e),
        StepView::Done(Ok(outcome)) => match (pre.stage, outcome) {
            (Stage::InsertFind, Outcome::LastPage(None)) => post == ExecView {
                stage: Stage::InsertAllocate,
                ..pre
            } && progress == ProgressView::Continue,
            (Stage::InsertFind, Outcome::LastPage(Some(page))) => post == ExecView {
                stage: Stage::InsertFetch { page },
                ..pre
            } && progress == ProgressView::Continue,
            (Stage::InsertFetching { page }, Outcome::Buffer(frame)) => tuple_put(
                pre,
                disk,
                frame.0,
                page,
                true,
                post,
                progress,
            ),
            (Stage::InsertAllocating, Outcome::Buffer(frame)) => if frame.0
                < pre.pool.frames.len() {
                tuple_put(
                    pre,
                    disk,
                    frame.0,
                    PageID(pre.pool.frames[frame.0 as int].page.id as usize),
                    false,
                    post,
                    progress,
                )
            } else {
                post == at_rest(pre) && progress == ProgressView::Failed(StorageError::Protocol)
            },
            (Stage::ScanFind, Outcome::LastPage(None)) => post == at_rest(pre) && progress
                == ProgressView::Rows(Seq::empty()),
            (Stage::ScanFind, Outcome::LastPage(Some(last))) => post == ExecView {
                stage: Stage::ScanFetch { number: 0, last: last.0 },
                ..pre
            } && progress == ProgressView::Continue,
            (Stage::ScanFetching { number, last }, Outcome::Buffer(frame)) => page_scanned(
                pre,
                disk,
                frame.0,
                number,
                last,
                post,
                progress,
            ),
            (Stage::Flushing, Outcome::Flushed) => post == at_rest(pre) && progress
                == ProgressView::Flushed,
            _ => post == at_rest(pre) && progress == ProgressView::Failed(StorageError::Protocol),
        },
    }
}

/// What `resume` does with the disk's reply: the manager goes on with it,
/// and the executor follows the manager's step. In a stage that waits for
/// no reply the operation is given up.
pub open spec fn exec_resumed(
    pre: ExecView,
    disk: DiskManager,
    reply: ReplyView,
    post: ExecView,
    progress: ProgressView,
) -> bool {
    match pre.stage {
        Stage::InsertFind | Stage::InsertFetching { .. } | Stage::InsertAllocating | Stage::ScanFind | Stage::ScanFetching { .. } | Stage::Flushing => exists|
            mid: PoolView,
            step: StepView,
        |
            resumed(pre.pool, disk, reply, mid, step) && followed(
                ExecView { pool: mid, ..pre },
                disk,
                step,
                post,
                progress,
            ),
        _ => post == at_rest(pre) && progress == ProgressView::Failed(StorageError::Protocol),
    }
}

/// What `proceed` does: the step that the stage is about to take.
pub open spec fn exec_proceeded(
    pre: ExecView,
    disk: DiskManager,
    post: ExecView,
    progress: ProgressView,
) -> bool {
    match pre.stage {
        Stage::InsertFetch { page } => exists|mid: PoolView, step: StepView|
            fetched(pre.pool, disk, page_key(disk, page, pre.table), mid, step) && followed(
                ExecView { pool: mid, stage: waiting(pre.stage), ..pre },
                disk,
                step,
                post,
                progress,
            ),
        Stage::InsertAllocate => exists|mid: PoolView, step: StepView|
            allocation_begun(pre.pool, disk, disk.catalog().spec_table_id(pre.table), mid, step)
                && followed(
                ExecView { pool: mid, stage: waiting(pre.stage), ..pre },
                disk,
                step,
                post,
                progress,
            ),
        Stage::ScanFetch { number, last } => exists|mid: PoolView, step: StepView|
            fetched(pre.pool, disk, page_key(disk, PageID(number), pre.table), mid, step) && followed(
                ExecView { pool: mid, stage: waiting(pre.stage), ..pre },
                disk,
                step,
                post,
                progress,
            ),
        _ => post == at_rest(pre) && progress == ProgressView::Failed(StorageError::Protocol),
    }
}

/// The executor, over a buffer pool manager with the victim selector `T`.
pub struct Executor<T> where T: Replacer {
    buffer_pool_manager: BufferPoolManager<T>,
    stage: Stage,
    table: String,
    tuple: Option<Tuple>,
    records: Vec<Attributes>,
}

impl<T: Replacer> View for Executor<T> {
    type V = ExecView;

    closed spec fn view(&self) -> ExecView {
        ExecView {
            pool: self.buffer_pool_manager@,
            stage: self.stage,
            table: self.table@,
            tuple: match self.tuple {
                Some(tuple) => Some(tuple@),
                None => None,
            },
            rows: rows_view(self.records@),
        }
    }
}

impl<T: Replacer> Executor<T> {
    /// The buffer pool manager.
    pub closed spec fn manager(&self) -> BufferPoolManager<T> {
        self.buffer_pool_manager
    }

    /// The disk manager, which knows the catalog and the files' paths.
    pub open spec fn disk(&self) -> DiskManager {
        self.manager().disk()
    }

    /// Whether the executor is consistent: its manager is.
    pub open spec fn wf(&self) -> bool {
        self.manager().wf() && self@.pool == self.manager()@
    }

    /// An executor over the given manager, with no operation under way.
    pub fn new(buffer_pool_manager: BufferPoolManager<T>) -> (r: Self)
        requires
            buffer_pool_manager.wf(),
        ensures
            r.wf(),
            r.manager() == buffer_pool_manager,
            r@ == (ExecView {
                pool: buffer_pool_manager@,
                stage: Stage::Idle,
                table: Seq::empty(),
                tuple: None,
                rows: Seq::empty(),
            }),
    {
        let r = Self {
            buffer_pool_manager,
            stage: Stage::Idle,
            table: String::new(),
            tuple: None,
            records: Vec::new(),
        };
        assert(r@.rows =~= Seq::empty());
        r
    }

    /// The buffer pool manager.
    pub fn buffer_pool_manager(&self) -> (r: &BufferPoolManager<T>)
        ensures
            *r == self.manager(),
    {
        &self.buffer_pool_manager
    }

    /// Ends the operation under way.
    fn rest(&mut self)
        ensures
            final(self)@ == at_rest(old(self)@),
            final(self).manager() == old(self).manager(),
    {
        self.stage = Stage::Idle;
        self.tuple = None;
        self.records = Vec::new();
        assert(self@.rows =~= Seq::empty());
    }

    /// Gives up the operation under way as out of order.
    fn out_of_order(&mut self) -> (r: Progress)
        ensures
            final(self)@ == at_rest(old(self)@),
            final(self).manager() == old(self).manager(),
            r@ == ProgressView::Failed(StorageError::Protocol),
    {
        self.rest();
        Progress::Failed(StorageError::Protocol)
    }

    /// Stores the tuple to insert in the page `page` of the table, which
    /// the frame `f` holds.
    #[verifier::rlimit(50)]
    fn put_tuple(&mut self, f: BufferPoolID, page: PageID, grow: bool) -> (r: Progress)
        requires
            old(self).wf(),
            f.0 < old(self)@.pool.frames.len(),
        ensures
            final(self).wf(),
            final(self).disk() == old(self).disk(),
            tuple_put(old(self)@, old(self).disk(), f.0, page, grow, final(self)@, r@),
    {
        let ghost pre = self@;
        let ghost disk = self.disk();
        let ghost key = page_key(disk, page, pre.table);
        proof {
            if key is Some && holds(pre.pool.frames, f.0 as int, key->Some_0) {
                crate::storage::buffer_pool_manager::lemma_frame_of(
                    pre.pool.frames,
                    self.buffer_pool_manager.tables(),
                    f.0 as int,
                    key->Some_0,
                );
            }
        }
        let held = match self.buffer_pool_manager.residency(page, self.table.as_str()) {
            Some((frame, pins)) => frame.0 == f.0 && pins > 0,
            None => false,
        };
        if !held || self.tuple.is_none() {
            return self.out_of_order();
        }
        let fits = match self.buffer_pool_manager.catalog().get_schema_by_table_name(
            self.table.as_str(),
        ) {
            Some(schema) => self.buffer_pool_manager.buffer(f).page.can_add_tuple(schema),
            None => false,
        };
        let ghost frame = pre.pool.frames[f.0 as int];
        if fits {
            let tuple = self.tuple.take().unwrap();
            let ghost before = self.buffer_pool_manager;
            let ghost size = disk.table_of(pre.table)->Some_0.spec_tuple_size();
            proof {
                assert(frame.page.tuple_count < u32::MAX) by (nonlinear_arith)
                    requires
                        tuples_fit_in_page((frame.page.tuple_count + 1) as nat, size),
                        size >= 8,
                ;
            }
            let buffer = self.buffer_pool_manager.buffer_mut(f);
            buffer.page.add_tuple(tuple);
            let ghost changed = *buffer;
            proof {
                self.buffer_pool_manager.lemma_with_buffer(&before, f, changed);
            }
            let _ = self.buffer_pool_manager.mark_dirty(f);
            let ghost marked = self.buffer_pool_manager@;
            let _ = self.buffer_pool_manager.unpin_buffer(page, self.table.as_str());
            self.stage = Stage::Idle;
            self.records = Vec::new();
            proof {
                assert(self@.rows =~= Seq::empty());
                let added = PageView {
                    tuple_count: (frame.page.tuple_count + 1) as u32,
                    tuples: frame.page.tuples.push(pre.tuple->Some_0),
                    ..frame.page
                };
                assert(changed.page@ == added);
                let dirtied = PoolView {
                    frames: pre.pool.frames.update(
                        f.0 as int,
                        FrameView { page: added, dirty: true, ..frame },
                    ),
                    ..pre.pool
                };
                assert(marked.frames =~= dirtied.frames);
                assert(marked == dirtied);
                assert(unpinned(dirtied, key, self@.pool));
                assert(self@ == ExecView { pool: self@.pool, ..at_rest(pre) });
            }
            Progress::Inserted
        } else {
            let _ = self.buffer_pool_manager.unpin_buffer(page, self.table.as_str());
            if grow {
                self.stage = Stage::InsertAllocate;
                Progress::Continue
            } else {
                self.rest();
                Progress::Failed(StorageError::InvalidPage)
            }
        }
    }

    /// Gathers the rows of the page `page` of the table, which the frame
    /// `f` holds.
    #[verifier::rlimit(50)]
    fn scanned(&mut self, f: BufferPoolID, page: usize, last: usize) -> (r: Progress)
        requires
            old(self).wf(),
            f.0 < old(self)@.pool.frames.len(),
        ensures
            final(self).wf(),
            final(self).disk() == old(self).disk(),
            page_scanned(old(self)@, old(self).disk(), f.0, page, last, final(self)@, r@),
    {
        let ghost pre = self@;
        let ghost disk = self.disk();
        let ghost key = page_key(disk, PageID(page), pre.table);
        proof {
            if key is Some && holds(pre.pool.frames, f.0 as int, key->Some_0) {
                crate::storage::buffer_pool_manager::lemma_frame_of(
                    pre.pool.frames,
                    self.buffer_pool_manager.tables(),
                    f.0 as int,
                    key->Some_0,
                );
            }
        }
        let held = match self.buffer_pool_manager.residency(PageID(page), self.table.as_str()) {
            Some((frame, pins)) => frame.0 == f.0 && pins > 0,
            None => false,
        };
        if !held {
            return self.out_of_order();
        }
        let buffer = self.buffer_pool_manager.buffer(f);
        let ghost tuples = pre.pool.frames[f.0 as int].page.tuples;
        let n = buffer.page.body.len();
        let mut i: usize = 0;
        while i < n
            invariant
                i <= n,
                n == buffer.page.body@.len(),
                tuples == buffer.page@.tuples,
                self.buffer_pool_manager == old(self).buffer_pool_manager,
                self.stage == old(self).stage,
                self.table == old(self).table,
                self.tuple == old(self).tuple,
                rows_view(self.records@) == pre.rows + live_rows(tuples.take(i as int)),
            decreases n - i,
        {
            let tuple = &buffer.page.body[i];
            proof {
                assert(tuples.take(i + 1).drop_last() =~= tuples.take(i as int));
                assert(tuples.take(i + 1).last() == tuple@);
            }
            if tuple.header.deleted == 0 {
                let ghost before = self.records@;
                self.records.push(tuple.body.attributes.clone());
                assert(rows_view(self.records@) =~= rows_view(before).push(tuple@.attributes));
            }
            i += 1;
        }
        proof {
            assert(tuples.take(i as int) =~= tuples);
        }
        let _ = self.buffer_pool_manager.unpin_buffer(PageID(page), self.table.as_str());
        if page >= last {
            let mut rows: Vec<Attributes> = Vec::new();
            core::mem::swap(&mut rows, &mut self.records);
            self.stage = Stage::Idle;
            self.tuple = None;
            assert(self@.rows =~= Seq::empty());
            Progress::Rows(rows)
        } else {
            self.stage = Stage::ScanFetch { number: page + 1, last };
            Progress::Continue
        }
    }

    /// Follows a step of the manager.
    #[verifier::rlimit(50)]
    fn follow(&mut self, step: Step) -> (r: Progress)
        requires
            old(self).wf(),
        ensures
            final(self).wf(),
            final(self).disk() == old(self).disk(),
            followed(old(self)@, old(self).disk(), step@, final(self)@, r@),
    {
        let outcome = match step {
            Step::Disk(request) => {
                return Progress::Disk(request);
            },
            Step::Done(Err(e)) => {
                self.rest();
                return Progress::Failed(e);
            },
            Step::Done(Ok(outcome)) => outcome,
        };
        let stage = self.stage;
        match (stage, outcome) {
            (Stage::InsertFind, Outcome::LastPage(None)) => {
                self.stage = Stage::InsertAllocate;
                Progress::Continue
            },
            (Stage::InsertFind, Outcome::LastPage(Some(page))) => {
                self.stage = Stage::InsertFetch { page };
                Progress::Continue
            },
            (Stage::InsertFetching { page }, Outcome::Buffer(frame)) => {
                if frame.0 < self.buffer_pool_manager.pool_size() {
                    self.put_tuple(frame, page, true)
                } else {
                    self.out_of_order()
                }
            },
            (Stage::InsertAllocating, Outcome::Buffer(frame)) => {
                if frame.0 < self.buffer_pool_manager.pool_size() {
                    let page = self.buffer_pool_manager.buffer(frame).page.id;
                    assert(page == PageID(old(self)@.pool.frames[frame.0 as int].page.id as usize));
                    self.put_tuple(frame, page, false)
                } else {
                    self.out_of_order()
                }
            },
            (Stage::ScanFind, Outcome::LastPage(None)) => {
                self.rest();
                let rows: Vec<Attributes> = Vec::new();
                assert(rows_view(rows@) =~= Seq::empty());
                Progress::Rows(rows)
            },
            (Stage::ScanFind, Outcome::LastPage(Some(last))) => {
                self.stage = Stage::ScanFetch { number: 0, last: last.0 };
                Progress::Continue
            },
            (Stage::ScanFetching { number, last }, Outcome::Buffer(frame)) => {
                if frame.0 < self.buffer_pool_manager.pool_size() {
                    self.scanned(frame, number, last)
                } else {
                    self.out_of_order()
                }
            },
            (Stage::Flushing, Outcome::Flushed) => {
                self.rest();
                Progress::Flushed
            },
            _ => self.out_of_order(),
        }
    }

    /// Stores a tuple with the given attributes in the table `table_name`:
    /// in the table's last page where it fits there, else in a page that
    /// is appended to the table. The tuple must have, for each column of
    /// the table, a value of the column's type, a text of 255 bytes at
    /// most.
    pub fn insert(&mut self, attributes: &Attributes, table_name: &str) -> (r: Progress)
        requires
            old(self).wf(),
        ensures
            final(self).wf(),
            final(self).disk() == old(self).disk(),
            insert_begun(old(self)@, old(self).disk(), attributes@, table_name@, final(self)@, r@),
    {
        if !self.is_idle() {
            return Progress::Failed(StorageError::Protocol);
        }
        let mut tuple = Tuple::new();
        tuple.body.attributes = attributes.clone();
        let error = match self.buffer_pool_manager.catalog().get_schema_by_table_name(table_name) {
            None => Some(StorageError::CatalogMiss),
            Some(schema) => {
                if tuple.body.raw(&schema.table.columns).is_err() {
                    Some(StorageError::InvalidTuple)
                } else if schema.table.tuple_size_within(
                    crate::storage::page::PAGE_SIZE - crate::storage::page::PAGE_HEADER_SIZE,
                ).is_none() {
                    Some(StorageError::InvalidPage)
                } else {
                    None
                }
            },
        };
        if let Some(e) = error {
            return Progress::Failed(e);
        }
        self.table = table_name.to_owned();
        self.tuple = Some(tuple);
        self.records = Vec::new();
        self.stage = Stage::InsertFind;
        assert(self@.rows =~= Seq::empty());
        let step = self.buffer_pool_manager.last_page_id(table_name);
        self.follow(step)
    }

    /// Gathers the attributes of all tuples of the table `table_name` that
    /// are not deleted: page by page in ascending order, and within a page
    /// in the order of insertion.
    pub fn scan(&mut self, table_name: &str) -> (r: Progress)
        requires
            old(self).wf(),
        ensures
            final(self).wf(),
            final(self).disk() == old(self).disk(),
            scan_begun(old(self)@, old(self).disk(), table_name@, final(self)@, r@),
    {
        if !self.is_idle() {
            return Progress::Failed(StorageError::Protocol);
        }
        if !self.buffer_pool_manager.catalog().exist_table(table_name) {
            return Progress::Failed(StorageError::CatalogMiss);
        }
        self.table = table_name.to_owned();
        self.tuple = None;
        self.records = Vec::new();
        self.stage = Stage::ScanFind;
        assert(self@.rows =~= Seq::empty());
        let step = self.buffer_pool_manager.last_page_id(table_name);
        self.follow(step)
    }

    /// Writes the page of every dirty frame to the disk.
    pub fn all_flush(&mut self) -> (r: Progress)
        requires
            old(self).wf(),
        ensures
            final(self).wf(),
            final(self).disk() == old(self).disk(),
            flush_begun(old(self)@, old(self).disk(), final(self)@, r@),
    {
        if !self.is_idle() {
            return Progress::Failed(StorageError::Protocol);
        }
        self.rest();
        self.stage = Stage::Flushing;
        let step = self.buffer_pool_manager.flush_all();
        self.follow(step)
    }

    /// Whether no operation is under way.
    pub fn is_idle(&self) -> (r: bool)
        requires
            self.wf(),
        ensures
            r == (self@.stage is Idle && self@.pool.pending is Idle),
    {
        let idle = match self.stage {
            Stage::Idle => true,
            _ => false,
        };
        idle && self.buffer_pool_manager.is_idle()
    }

    /// Goes on with the operation under way, given the disk's reply to the
    /// request that the executor handed out last.
    pub fn resume(&mut self, reply: DiskReply) -> (r: Progress)
        requires
            old(self).wf(),
        ensures
            final(self).wf(),
            final(self).disk() == old(self).disk(),
            exec_resumed(old(self)@, old(self).disk(), reply@, final(self)@, r@),
    {
        match self.stage {
            Stage::InsertFind | Stage::InsertFetching { .. } | Stage::InsertAllocating | Stage::ScanFind | Stage::ScanFetching { .. } | Stage::Flushing => {
                let step = self.buffer_pool_manager.resume(reply);
                self.follow(step)
            },
            _ => self.out_of_order(),
        }
    }

    /// Goes on with the operation under way after a step that asked
    /// nothing of the disk.
    pub fn proceed(&mut self) -> (r: Progress)
        requires
            old(self).wf(),
        ensures
            final(self).wf(),
            final(self).disk() == old(self).disk(),
            exec_proceeded(old(self)@, old(self).disk(), final(self)@, r@),
    {
        let stage = self.stage;
        match stage {
            Stage::InsertFetch { page } => {
                self.stage = Stage::InsertFetching { page };
                let step = self.buffer_pool_manager.fetch_buffer(page, self.table.as_str());
                self.follow(step)
            },
            Stage::InsertAllocate => {
                self.stage = Stage::InsertAllocating;
                let step = self.buffer_pool_manager.new_buffer(self.table.as_str());
                self.follow(step)
            },
            Stage::ScanFetch { number, last } => {
                self.stage = Stage::ScanFetching { number, last };
                let step = self.buffer_pool_manager.fetch_buffer(PageID(number), self.table.as_str());
                self.follow(step)
            },
            _ => self.out_of_order(),
        }
    }
}

} // verus!
