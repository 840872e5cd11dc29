use std::collections::HashMap;

use aqua_db::catalog::{AttributeType, Catalog, Column, Schema, Table};
use aqua_db::executor::{Executor, Progress};
use aqua_db::storage::buffer_pool::BufferPoolID;
use aqua_db::storage::buffer_pool_manager::BufferPoolManager;
use aqua_db::storage::disk_manager::DiskManager;
use aqua_db::storage::page::{PageID, PAGE_SIZE};
use aqua_db::storage::protocol::{DiskReply, DiskRequest, Outcome, Step};
use aqua_db::storage::replacer::LruReplacer;
use aqua_db::storage::tuple::{Attributes, Tuple};
use aqua_db::storage::StorageError;

/// A disk in memory: the files by path.
struct MemDisk {
    files: HashMap<String, Vec<u8>>,
    writes: Vec<(String, usize)>,
    fail_writes: bool,
}

impl MemDisk {
    fn new() -> Self {
        MemDisk { files: HashMap::new(), writes: Vec::new(), fail_writes: false }
    }

    fn perform(&mut self, request: DiskRequest) -> DiskReply {
        match request {
            DiskRequest::Length { path } => DiskReply::Length(self.files.entry(path).or_default().len()),
            DiskRequest::Read { path, offset, length } => match self.files.get(&path) {
                Some(file) if offset + length <= file.len() => {
                    DiskReply::Data(file[offset..offset + length].to_vec())
                }
                _ => DiskReply::Failed,
            },
            DiskRequest::Write { path, offset, data } => {
                if self.fail_writes {
                    return DiskReply::Failed;
                }
                let file = self.files.entry(path.clone()).or_default();
                if offset > file.len() {
                    return DiskReply::Failed;
                }
                if file.len() < offset + data.len() {
                    file.resize(offset + data.len(), 0);
                }
                file[offset..offset + data.len()].copy_from_slice(&data);
                self.writes.push((path, offset));
                DiskReply::Written
            }
        }
    }
}

fn drive(
    manager: &mut BufferPoolManager<LruReplacer>,
    disk: &mut MemDisk,
    first: Step,
) -> Result<Outcome, StorageError> {
    let mut step = first;
    loop {
        match step {
            Step::Disk(request) => step = manager.resume(disk.perform(request)),
            Step::Done(result) => return result,
        }
    }
}

fn buffer_of(result: Result<Outcome, StorageError>) -> BufferPoolID {
    match result.unwrap() {
        Outcome::Buffer(id) => id,
        other => panic!("expected a buffer, but {:?}", other),
    }
}

fn run(executor: &mut Executor<LruReplacer>, disk: &mut MemDisk, first: Progress) -> Progress {
    let mut progress = first;
    loop {
        match progress {
            Progress::Disk(request) => progress = executor.resume(disk.perform(request)),
            Progress::Continue => progress = executor.proceed(),
            other => return other,
        }
    }
}

fn catalog_for(table_name: &str) -> Catalog {
    Catalog::new(vec![Schema {
        table: Table {
            name: table_name.to_string(),
            columns: vec![
                Column { types: "int".to_string(), name: "column_int".to_string() },
                Column { types: "text".to_string(), name: "column_text".to_string() },
            ],
        },
    }])
}

fn sample_tuple(number: i32, text: &str) -> Tuple {
    let mut tuple = Tuple::new();
    tuple.add_attribute("column_int", AttributeType::Int(number));
    tuple.add_attribute("column_text", AttributeType::Text(text.to_string()));
    tuple
}

fn sample_attributes(number: i32, text: &str) -> Attributes {
    let mut attributes = Attributes::new();
    attributes.insert("column_int".to_string(), AttributeType::Int(number));
    attributes.insert("column_text".to_string(), AttributeType::Text(text.to_string()));
    attributes
}

fn rows_of(progress: Progress) -> Vec<Attributes> {
    match progress {
        Progress::Rows(rows) => rows,
        other => panic!("expected rows, but {:?}", other),
    }
}

#[test]
fn buffer_pool_manager_write_and_flush() {
    let mut disk = MemDisk::new();
    let catalog = catalog_for("buffer_pool_test");
    let mut manager = BufferPoolManager::new(1, "data".to_string(), catalog);

    let table_name = "buffer_pool_test";

    let page_id = {
        let step = manager.new_buffer(table_name);
        let frame = buffer_of(drive(&mut manager, &mut disk, step));
        let buffer = manager.buffer_mut(frame);
        buffer.page.add_tuple(sample_tuple(888, "test"));
        let page_id = buffer.page.id;
        manager.unpin_buffer(page_id, table_name).unwrap();
        page_id
    };

    let step = manager.flush_buffer(page_id, table_name);
    assert_eq!(drive(&mut manager, &mut disk, step), Ok(Outcome::Flushed));

    let step = manager.fetch_buffer(page_id, table_name);
    let frame = buffer_of(drive(&mut manager, &mut disk, step));
    let buffer = manager.buffer(frame);

    assert_eq!(buffer.page.header.tuple_count, 1);
}

#[test]
fn buffer_pool_manager_victim() {
    let mut disk = MemDisk::new();
    let catalog = catalog_for("buffer_pool_test");
    let mut manager = BufferPoolManager::new(1, "data".to_string(), catalog);

    let table_name = "buffer_pool_test";

    let page_id = {
        let step = manager.new_buffer(table_name);
        let frame = buffer_of(drive(&mut manager, &mut disk, step));
        let buffer = manager.buffer_mut(frame);
        buffer.page.add_tuple(sample_tuple(888, "test"));
        let page_id = buffer.page.id;
        manager.unpin_buffer(page_id, table_name).unwrap();
        manager.mark_dirty(frame).unwrap();
        page_id
    };

    // without an explicit flush, the victim is written when the next page needs its frame
    {
        let step = manager.new_buffer(table_name);
        let frame = buffer_of(drive(&mut manager, &mut disk, step));
        let id = manager.buffer(frame).page.id;
        manager.unpin_buffer(id, table_name).unwrap();
    }

    let step = manager.fetch_buffer(page_id, table_name);
    let frame = buffer_of(drive(&mut manager, &mut disk, step));
    let buffer = manager.buffer(frame);

    assert_eq!(buffer.page.header.tuple_count, 1);
    match buffer.page.body[0].body.attributes.get("column_int").unwrap() {
        AttributeType::Int(v) => assert_eq!(*v, 888),
        _ => panic!("expected int, but"),
    }
}

#[test]
fn executor_insert_scan() {
    let mut disk = MemDisk::new();
    let catalog = catalog_for("executor_test");
    let table_name = "executor_test";
    let b_manager = BufferPoolManager::new(1, "data".to_string(), catalog);
    let mut executor = Executor::new(b_manager);

    let mut attributes = Attributes::new();
    attributes.insert("column_int".to_string(), AttributeType::Int(12));
    attributes.insert("column_text".to_string(), AttributeType::Text("executor".to_string()));

    let first = executor.insert(&attributes, table_name);
    assert!(matches!(run(&mut executor, &mut disk, first), Progress::Inserted));

    let first = executor.scan(table_name);
    let records = rows_of(run(&mut executor, &mut disk, first));

    assert_eq!(records.len(), 1);

    assert_eq!(records[0].get("column_int"), Some(&AttributeType::Int(12)));
    assert_eq!(
        records[0].get("column_text"),
        Some(&AttributeType::Text("executor".to_string()))
    );
}

#[test]
fn disk_read_write() {
    let mut disk = MemDisk::new();
    let c = catalog_for("table1");

    let manager = DiskManager::new("data".to_string(), c);
    let path = manager.path("table1");
    assert_eq!(path, "data/table1");

    let mut page = manager.allocate_page(0);
    let (offset, image) = manager.write(&page, "table1").unwrap();
    assert!(matches!(
        disk.perform(DiskRequest::Write { path: path.clone(), offset, data: image }),
        DiskReply::Written
    ));

    page.add_tuple(sample_tuple(999, "text"));

    let (offset, image) = manager.write(&page, "table1").unwrap();
    assert_eq!(offset, 0);
    assert_eq!(image.len(), PAGE_SIZE);
    assert!(matches!(
        disk.perform(DiskRequest::Write { path: path.clone(), offset, data: image }),
        DiskReply::Written
    ));

    let data = match disk.perform(DiskRequest::Read { path, offset: 0, length: PAGE_SIZE }) {
        DiskReply::Data(data) => data,
        other => panic!("expected data, but {:?}", other),
    };
    let page = manager.read(page.id, "table1", &data).unwrap();

    assert_eq!(1, page.header.tuple_count);
    let tuple = &page.body[0];

    match tuple.body.attributes.get("column_int").unwrap() {
        AttributeType::Int(v) => assert_eq!(999, *v),
        _ => panic!("strange column_int"),
    }

    match tuple.body.attributes.get("column_text").unwrap() {
        AttributeType::Text(v) => assert_eq!(v, "text"),
        _ => panic!("strange column_text"),
    }
}

#[test]
fn last_page_id_of_empty_and_allocated_file() {
    let mut disk = MemDisk::new();
    let mut manager = BufferPoolManager::new(2, "data".to_string(), catalog_for("t"));

    let step = manager.last_page_id("t");
    assert_eq!(drive(&mut manager, &mut disk, step), Ok(Outcome::LastPage(None)));

    let step = manager.new_buffer("t");
    let frame = buffer_of(drive(&mut manager, &mut disk, step));
    assert_eq!(manager.buffer(frame).page.id, PageID(0));
    assert_eq!(disk.files["data/t"].len(), PAGE_SIZE);

    let step = manager.last_page_id("t");
    assert_eq!(drive(&mut manager, &mut disk, step), Ok(Outcome::LastPage(Some(PageID(0)))));

    let disk_manager = DiskManager::new("data".to_string(), catalog_for("t"));
    assert_eq!(disk_manager.last_page_id(0), None);
    assert_eq!(disk_manager.last_page_id(4095), None);
    assert_eq!(disk_manager.last_page_id(4096), Some(PageID(0)));
    assert_eq!(disk_manager.last_page_id(3 * 4096), Some(PageID(2)));
    assert_eq!(disk_manager.allocate_page(2 * 4096).id, PageID(2));
}

#[test]
fn cross_page_write_keeps_insertion_order() {
    let mut disk = MemDisk::new();
    let manager = BufferPoolManager::new(1, "data".to_string(), catalog_for("t"));
    let mut executor = Executor::new(manager);

    for k in 0..15 {
        let first = executor.insert(&sample_attributes(k, "x"), "t");
        assert!(matches!(run(&mut executor, &mut disk, first), Progress::Inserted));
    }
    // fifteen tuples of 268 bytes fill the page; the file has not grown
    assert_eq!(disk.files["data/t"].len(), PAGE_SIZE);

    let first = executor.insert(&sample_attributes(15, "x"), "t");
    assert!(matches!(run(&mut executor, &mut disk, first), Progress::Inserted));
    assert_eq!(disk.files["data/t"].len(), 2 * PAGE_SIZE);
    let disk_manager = DiskManager::new("data".to_string(), catalog_for("t"));
    assert_eq!(disk_manager.last_page_id(disk.files["data/t"].len()), Some(PageID(1)));

    let first = executor.scan("t");
    let rows = rows_of(run(&mut executor, &mut disk, first));
    assert_eq!(rows.len(), 16);
    for (k, row) in rows.iter().enumerate() {
        assert_eq!(row.get("column_int"), Some(&AttributeType::Int(k as i32)));
        assert_eq!(row.get("column_text"), Some(&AttributeType::Text("x".to_string())));
    }
}

#[test]
fn empty_scan_gives_no_rows() {
    let mut disk = MemDisk::new();
    let manager = BufferPoolManager::new(1, "data".to_string(), catalog_for("t"));
    let mut executor = Executor::new(manager);

    let first = executor.scan("t");
    let rows = rows_of(run(&mut executor, &mut disk, first));
    assert_eq!(rows.len(), 0);
}

#[test]
fn flush_all_makes_a_restart_see_the_rows() {
    let mut disk = MemDisk::new();
    let manager = BufferPoolManager::new(4, "data".to_string(), catalog_for("t"));
    let mut executor = Executor::new(manager);

    for k in 0..3 {
        let first = executor.insert(&sample_attributes(k, "kept"), "t");
        assert!(matches!(run(&mut executor, &mut disk, first), Progress::Inserted));
    }
    assert_eq!(executor.buffer_pool_manager().dirty_buffers(), vec![BufferPoolID(0)]);

    let first = executor.all_flush();
    assert!(matches!(run(&mut executor, &mut disk, first), Progress::Flushed));
    // the dirty bits stay as they are
    assert_eq!(executor.buffer_pool_manager().dirty_buffers(), vec![BufferPoolID(0)]);

    let manager = BufferPoolManager::new(4, "data".to_string(), catalog_for("t"));
    let mut executor = Executor::new(manager);
    let first = executor.scan("t");
    let rows = rows_of(run(&mut executor, &mut disk, first));
    assert_eq!(rows.len(), 3);
    assert_eq!(rows[2].get("column_int"), Some(&AttributeType::Int(2)));
}

#[test]
fn text_of_255_bytes_is_stored_and_256_is_rejected() {
    let mut disk = MemDisk::new();
    let manager = BufferPoolManager::new(1, "data".to_string(), catalog_for("t"));
    let mut executor = Executor::new(manager);

    let long = "y".repeat(255);
    let first = executor.insert(&sample_attributes(1, ""), "t");
    assert!(matches!(run(&mut executor, &mut disk, first), Progress::Inserted));
    let first = executor.insert(&sample_attributes(2, &long), "t");
    assert!(matches!(run(&mut executor, &mut disk, first), Progress::Inserted));

    let too_long = "y".repeat(256);
    let first = executor.insert(&sample_attributes(3, &too_long), "t");
    assert!(matches!(
        run(&mut executor, &mut disk, first),
        Progress::Failed(StorageError::InvalidTuple)
    ));

    let first = executor.scan("t");
    let rows = rows_of(run(&mut executor, &mut disk, first));
    assert_eq!(rows.len(), 2);
    assert_eq!(rows[0].get("column_text"), Some(&AttributeType::Text(String::new())));
    assert_eq!(rows[1].get("column_text"), Some(&AttributeType::Text(long)));
}

#[test]
fn every_frame_pinned_gives_no_free_frame() {
    let mut disk = MemDisk::new();
    let mut manager = BufferPoolManager::new(1, "data".to_string(), catalog_for("t"));

    let step = manager.new_buffer("t");
    let frame = buffer_of(drive(&mut manager, &mut disk, step));
    assert_eq!(manager.residency(PageID(0), "t"), Some((frame, 1)));

    let step = manager.new_buffer("t");
    assert_eq!(drive(&mut manager, &mut disk, step), Err(StorageError::NoFreeFrame));
    // the page that is held is still there, with its pin
    assert_eq!(manager.residency(PageID(0), "t"), Some((frame, 1)));
    assert!(manager.is_idle());
}

#[test]
fn hit_pins_again_and_does_no_disk_work() {
    let mut disk = MemDisk::new();
    let mut manager = BufferPoolManager::new(2, "data".to_string(), catalog_for("t"));

    let step = manager.new_buffer("t");
    let frame = buffer_of(drive(&mut manager, &mut disk, step));

    match manager.fetch_buffer(PageID(0), "t") {
        Step::Done(Ok(Outcome::Buffer(id))) => assert_eq!(id, frame),
        other => panic!("expected a hit, but {:?}", other),
    }
    assert_eq!(manager.residency(PageID(0), "t"), Some((frame, 2)));
    manager.unpin_buffer(PageID(0), "t").unwrap();
    manager.unpin_buffer(PageID(0), "t").unwrap();
    assert_eq!(manager.residency(PageID(0), "t"), Some((frame, 0)));
    // a page that is in no frame is not unpinned
    manager.unpin_buffer(PageID(7), "t").unwrap();
    assert_eq!(manager.residency(PageID(7), "t"), None);
}

#[test]
fn victim_is_the_least_recently_unpinned_frame() {
    let mut disk = MemDisk::new();
    let mut manager = BufferPoolManager::new(2, "data".to_string(), catalog_for("t"));

    for _ in 0..3 {
        let step = manager.new_buffer("t");
        let frame = buffer_of(drive(&mut manager, &mut disk, step));
        let id = manager.buffer(frame).page.id;
        manager.unpin_buffer(id, "t").unwrap();
    }
    // pages 1 and 2 are in the frames; page 0 gave way to page 2
    assert_eq!(manager.residency(PageID(0), "t"), None);
    let (frame_of_1, _) = manager.residency(PageID(1), "t").unwrap();
    let (frame_of_2, _) = manager.residency(PageID(2), "t").unwrap();
    assert_ne!(frame_of_1, frame_of_2);

    // page 1 is used again, so page 2 is the next to give way
    let step = manager.fetch_buffer(PageID(1), "t");
    buffer_of(drive(&mut manager, &mut disk, step));
    manager.unpin_buffer(PageID(1), "t").unwrap();
    let step = manager.fetch_buffer(PageID(0), "t");
    let frame = buffer_of(drive(&mut manager, &mut disk, step));
    assert_eq!(frame, frame_of_2);
    assert_eq!(manager.residency(PageID(2), "t"), None);
    assert_eq!(manager.residency(PageID(1), "t"), Some((frame_of_1, 0)));
}

#[test]
fn dirty_victim_is_written_before_its_frame_is_taken() {
    let mut disk = MemDisk::new();
    let mut manager = BufferPoolManager::new(1, "data".to_string(), catalog_for("t"));

    let step = manager.new_buffer("t");
    let frame = buffer_of(drive(&mut manager, &mut disk, step));
    manager.buffer_mut(frame).page.add_tuple(sample_tuple(5, "five"));
    manager.mark_dirty(frame).unwrap();
    manager.unpin_buffer(PageID(0), "t").unwrap();
    disk.writes.clear();

    // the new page is appended, then the victim is written, and only then read or replaced
    let mut step = manager.new_buffer("t");
    let mut seen = Vec::new();
    loop {
        match step {
            Step::Disk(request) => {
                if let DiskRequest::Write { offset, .. } = &request {
                    // while the disk writes page 0, the frame still holds page 0
                    if *offset == 0 {
                        assert!(manager.residency(PageID(0), "t").is_some());
                        assert_eq!(manager.buffer(frame).page.header.tuple_count, 1);
                    }
                    seen.push(*offset);
                }
                step = manager.resume(disk.perform(request));
            }
            Step::Done(result) => {
                assert_eq!(result, Ok(Outcome::Buffer(frame)));
                break;
            }
        }
    }
    assert_eq!(seen, vec![PAGE_SIZE, 0]);
    assert_eq!(manager.residency(PageID(0), "t"), None);
    assert_eq!(manager.buffer(frame).page.id, PageID(1));
    assert_eq!(manager.buffer(frame).page.header.tuple_count, 0);
}

#[test]
fn failed_write_back_leaves_the_victim_in_place() {
    let mut disk = MemDisk::new();
    let mut manager = BufferPoolManager::new(1, "data".to_string(), catalog_for("t"));

    for _ in 0..2 {
        let step = manager.new_buffer("t");
        let frame = buffer_of(drive(&mut manager, &mut disk, step));
        let id = manager.buffer(frame).page.id;
        manager.buffer_mut(frame).page.add_tuple(sample_tuple(1, "one"));
        manager.mark_dirty(frame).unwrap();
        manager.unpin_buffer(id, "t").unwrap();
    }
    // page 1 is in the frame and dirty; the disk now refuses to write
    disk.fail_writes = true;
    let step = manager.fetch_buffer(PageID(0), "t");
    assert_eq!(drive(&mut manager, &mut disk, step), Err(StorageError::Io));
    assert_eq!(manager.residency(PageID(1), "t"), Some((BufferPoolID(0), 0)));
    assert_eq!(manager.dirty_buffers(), vec![BufferPoolID(0)]);
    assert!(manager.is_idle());

    // once the disk works again, the page gives way and comes back
    disk.fail_writes = false;
    let step = manager.fetch_buffer(PageID(0), "t");
    let frame = buffer_of(drive(&mut manager, &mut disk, step));
    assert_eq!(manager.buffer(frame).page.header.tuple_count, 1);
}

#[test]
fn errors_of_the_manager() {
    let mut disk = MemDisk::new();
    let mut manager = BufferPoolManager::new(1, "data".to_string(), catalog_for("t"));

    let step = manager.fetch_buffer(PageID(0), "unknown");
    assert_eq!(drive(&mut manager, &mut disk, step), Err(StorageError::CatalogMiss));
    let step = manager.new_buffer("unknown");
    assert_eq!(drive(&mut manager, &mut disk, step), Err(StorageError::CatalogMiss));

    // a page beyond the end of the file cannot be read
    let step = manager.fetch_buffer(PageID(3), "t");
    assert_eq!(drive(&mut manager, &mut disk, step), Err(StorageError::Io));
    assert!(manager.is_idle());

    // a reply without a request, and a call while a request is open
    assert!(matches!(
        manager.resume(DiskReply::Written),
        Step::Done(Err(StorageError::Protocol))
    ));
    let open = manager.last_page_id("t");
    assert!(matches!(open, Step::Disk(DiskRequest::Length { .. })));
    assert!(matches!(manager.flush_all(), Step::Done(Err(StorageError::Protocol))));
    assert!(matches!(manager.resume(DiskReply::Written), Step::Done(Err(StorageError::Protocol))));
    assert!(manager.is_idle());

    // a file that holds no page image
    disk.files.insert("data/t".to_string(), vec![0xff; PAGE_SIZE]);
    let step = manager.fetch_buffer(PageID(0), "t");
    assert_eq!(drive(&mut manager, &mut disk, step), Err(StorageError::InvalidImage));
    assert!(manager.is_idle());
}

#[test]
fn errors_of_the_executor() {
    let mut disk = MemDisk::new();
    let manager = BufferPoolManager::new(1, "data".to_string(), catalog_for("t"));
    let mut executor = Executor::new(manager);

    assert!(matches!(
        executor.insert(&sample_attributes(1, "a"), "unknown"),
        Progress::Failed(StorageError::CatalogMiss)
    ));
    assert!(matches!(executor.scan("unknown"), Progress::Failed(StorageError::CatalogMiss)));

    let mut missing = Attributes::new();
    missing.insert("column_int".to_string(), AttributeType::Int(1));
    assert!(matches!(
        executor.insert(&missing, "t"),
        Progress::Failed(StorageError::InvalidTuple)
    ));
    let mut swapped = Attributes::new();
    swapped.insert("column_int".to_string(), AttributeType::Text("1".to_string()));
    swapped.insert("column_text".to_string(), AttributeType::Int(1));
    assert!(matches!(
        executor.insert(&swapped, "t"),
        Progress::Failed(StorageError::InvalidTuple)
    ));
    assert!(matches!(executor.proceed(), Progress::Failed(StorageError::Protocol)));
    assert!(matches!(
        executor.resume(DiskReply::Written),
        Progress::Failed(StorageError::Protocol)
    ));

    // nothing was written
    assert!(disk.files.is_empty());
    let first = executor.scan("t");
    assert_eq!(rows_of(run(&mut executor, &mut disk, first)).len(), 0);
}

#[test]
fn scan_skips_deleted_tuples() {
    let mut disk = MemDisk::new();
    let mut manager = BufferPoolManager::new(1, "data".to_string(), catalog_for("t"));

    let step = manager.new_buffer("t");
    let frame = buffer_of(drive(&mut manager, &mut disk, step));
    let mut gone = sample_tuple(1, "gone");
    gone.header.deleted = 1;
    manager.buffer_mut(frame).page.add_tuple(gone);
    manager.buffer_mut(frame).page.add_tuple(sample_tuple(2, "here"));
    manager.mark_dirty(frame).unwrap();
    manager.unpin_buffer(PageID(0), "t").unwrap();

    let mut executor = Executor::new(manager);
    let first = executor.scan("t");
    let rows = rows_of(run(&mut executor, &mut disk, first));
    assert_eq!(rows.len(), 1);
    assert_eq!(rows[0].get("column_int"), Some(&AttributeType::Int(2)));
}

#[test]
fn pool_without_frames_is_refused() {
    assert!(BufferPoolManager::try_new(0, "data".to_string(), catalog_for("t")).is_none());
    let manager = BufferPoolManager::try_new(3, "data".to_string(), catalog_for("t")).unwrap();
    assert_eq!(manager.pool_size(), 3);
    assert!(manager.is_idle());
    assert!(manager.dirty_buffers().is_empty());
}

#[test]
fn flush_buffer_writes_a_resident_page_and_keeps_its_state() {
    let mut disk = MemDisk::new();
    let mut manager = BufferPoolManager::new(2, "data".to_string(), catalog_for("t"));

    let step = manager.new_buffer("t");
    let frame = buffer_of(drive(&mut manager, &mut disk, step));
    manager.buffer_mut(frame).page.add_tuple(sample_tuple(9, "nine"));
    manager.mark_dirty(frame).unwrap();
    disk.writes.clear();

    let step = manager.flush_buffer(PageID(0), "t");
    assert_eq!(drive(&mut manager, &mut disk, step), Ok(Outcome::Flushed));
    assert_eq!(disk.writes, vec![("data/t".to_string(), 0)]);
    // what is on the disk is what the frame holds
    let schema_owner = catalog_for("t");
    let schema = schema_owner.get_schema_by_table_name("t").unwrap();
    assert_eq!(disk.files["data/t"], manager.buffer(frame).page.raw(schema).unwrap());
    // pins and dirty bit are as they were
    assert_eq!(manager.residency(PageID(0), "t"), Some((frame, 1)));
    assert_eq!(manager.dirty_buffers(), vec![frame]);

    // a page that is in no frame is not written
    let step = manager.flush_buffer(PageID(5), "t");
    assert!(matches!(step, Step::Done(Ok(Outcome::Flushed))));
    let step = manager.flush_buffer(PageID(0), "unknown");
    assert!(matches!(step, Step::Done(Ok(Outcome::Flushed))));
}
