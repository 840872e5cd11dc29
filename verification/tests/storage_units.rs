use aqua_db::catalog::{AttributeType, Catalog, Column, Schema, Table};
use aqua_db::storage::buffer_pool::{BufferPool, BufferPoolID};
use aqua_db::storage::descriptors::{Descriptor, DescriptorID};
use aqua_db::storage::hash_table::{Bucket, HashTable};
use aqua_db::storage::page::{Page, PageID, PAGE_SIZE};
use aqua_db::storage::replacer::{LruReplacer, Replacer};
use aqua_db::storage::tuple::Tuple;
use aqua_db::storage::StorageError;

const JSON: &str = r#"{
        "schemas": [
            {
                "table": {
                    "name": "table1",
                    "columns": [
                        {
                            "types": "int",
                            "name": "column_int"
                        },
                        {
                            "types": "text",
                            "name": "column_text"
                        }
                    ]
                }
            }
        ]
    }"#;

fn catalog_of(json: &str) -> Catalog {
    let value: serde_json::Value = serde_json::from_str(json).unwrap();
    let mut schemas = Vec::new();
    for schema in value["schemas"].as_array().unwrap() {
        let table = &schema["table"];
        let mut columns = Vec::new();
        for column in table["columns"].as_array().unwrap() {
            columns.push(Column {
                types: column["types"].as_str().unwrap().to_string(),
                name: column["name"].as_str().unwrap().to_string(),
            });
        }
        schemas.push(Schema {
            table: Table { name: table["name"].as_str().unwrap().to_string(), columns },
        });
    }
    Catalog::new(schemas)
}

#[test]
fn catalog_from_json() {
    let c = catalog_of(JSON);

    // assert table num
    assert_eq!(1, c.schemas().len());

    let schema = c.get_schema_by_table_name("table1").unwrap();

    assert_eq!("table1", schema.table.name);

    for column in &schema.table.columns {
        match column.types.as_str() {
            "int" => assert_eq!(column.name, "column_int"),
            "text" => assert_eq!(column.name, "column_text"),
            s => panic!("{} is undefined types", s),
        };
    }
}

#[test]
fn catalog_tuple_size() {
    let c = catalog_of(JSON);
    let schema = c.get_schema_by_table_name("table1").unwrap();
    let tuple_size = schema.table.tuple_size();

    assert_eq!(tuple_size, 268)
}

#[test]
fn page_serde() {
    let c = catalog_of(JSON);
    let schema = c.get_schema_by_table_name("table1").unwrap();

    let mut page = Page::default();
    let mut tuple = Tuple::new();
    tuple.add_attribute("column_int", AttributeType::Int(1));
    tuple.add_attribute("column_text", AttributeType::Text("text".to_string()));
    page.add_tuple(tuple);

    let page_raw = page.raw(schema).unwrap();

    assert_eq!(PAGE_SIZE, page_raw.len());

    let mut page = Page::default();
    page.fill(&page_raw, schema).unwrap();

    assert_eq!(1, page.header.tuple_count);
    for b in page.body {
        assert_eq!(0, b.header.deleted);
        match b.body.attributes.get("column_int").unwrap() {
            AttributeType::Int(v) => assert_eq!(*v, 1),
            _ => panic!("expected int, but"),
        }
        match b.body.attributes.get("column_text").unwrap() {
            AttributeType::Text(v) => assert_eq!(*v, "text"),
            _ => panic!("expected text, but"),
        }
    }
}

#[test]
fn buffer_pool_get_put() {
    let mut pool = BufferPool::new(1);
    let id = BufferPoolID(0);

    let page_id = PageID(100);
    let page = Page { id: page_id, ..Default::default() };

    pool.put(id, page);

    let buffer = pool.get(id);

    assert_eq!(buffer.page.id, page_id);
}

#[test]
fn pin_descriptor() {
    let mut d = Descriptor::new(DescriptorID(0), BufferPoolID(0));

    assert!(!d.pinned());

    d.pin();

    assert!(d.pinned());

    d.unpin();

    assert!(!d.pinned());
}

#[test]
fn bucket_test() {
    let mut bucket = Bucket::new();

    let key = "test_key";

    assert!(bucket.get(key).is_none());

    let value = "test_value";
    bucket.put(key, value);

    assert_eq!(value, bucket.get(key).unwrap());

    let value = "test_value1";
    bucket.put(key, value);

    assert_eq!(value, bucket.get(key).unwrap());

    bucket.remove(key);

    assert!(bucket.get(key).is_none());
}

#[test]
fn hash_table_1_size() {
    let mut table = HashTable::new(1);

    let key = "test_key";
    let value = "test_value";

    {
        let write_bucket = table.get_bucket_locker(key).unwrap();
        write_bucket.put(key, value);
    }
    {
        let read_bucket = table.get_bucket_locker(key).unwrap();
        assert_eq!(value, read_bucket.get(key).unwrap());
    }
    assert_eq!(Some(value), table.get(key));
}

#[test]
fn lru_replacer() {
    let mut replacer = LruReplacer::new(2);
    let id1 = DescriptorID(1);
    let id2 = DescriptorID(2);
    let id3 = DescriptorID(3);

    replacer.unpin(id1);
    replacer.unpin(id2);
    replacer.unpin(id3);

    assert_eq!(id2, replacer.victim().unwrap());
    assert_eq!(id3, replacer.victim().unwrap());
    assert!(replacer.victim().is_none());
}

#[test]
fn pinned_candidate_is_no_victim() {
    let mut replacer = LruReplacer::new(3);
    replacer.unpin(DescriptorID(0));
    replacer.unpin(DescriptorID(1));
    replacer.unpin(DescriptorID(2));
    // 0 is refreshed and 1 is pinned: 2 is the least recently unpinned candidate
    replacer.unpin(DescriptorID(0));
    replacer.pin(DescriptorID(1));
    assert_eq!(replacer.victim(), Some(DescriptorID(2)));
    assert_eq!(replacer.victim(), Some(DescriptorID(0)));
    assert_eq!(replacer.victim(), None);
    // a candidate that is not there is pinned without effect
    replacer.pin(DescriptorID(1));
    assert_eq!(replacer.victim(), None);
}

#[test]
fn tuple_image_is_header_then_columns() {
    let c = catalog_of(JSON);
    let schema = c.get_schema_by_table_name("table1").unwrap();
    let mut tuple = Tuple::new();
    tuple.add_attribute("column_text", AttributeType::Text("ab".to_string()));
    tuple.add_attribute("column_int", AttributeType::Int(-2));

    let raw = tuple.raw(&schema.table.columns).unwrap();
    assert_eq!(raw.len(), 268);
    assert_eq!(&raw[..8], &[0, 0, 0, 0, 0, 0, 0, 0]);
    assert_eq!(&raw[8..12], &[0xff, 0xff, 0xff, 0xfe]);
    assert_eq!(&raw[12..15], &[2, b'a', b'b']);
    assert!(raw[15..].iter().all(|b| *b == 0));

    let mut back = Tuple::new();
    back.fill(&raw, &schema.table.columns).unwrap();
    assert_eq!(back.header.deleted, 0);
    assert_eq!(back.body.attributes, tuple.body.attributes);
    assert_eq!(back.body.attributes.get("column_int"), Some(&AttributeType::Int(-2)));

    // a deletion flag is kept
    tuple.header.deleted = 1;
    let raw = tuple.raw(&schema.table.columns).unwrap();
    assert_eq!(raw[0], 1);
    back.fill(&raw, &schema.table.columns).unwrap();
    assert_eq!(back.header.deleted, 1);
}

#[test]
fn page_image_reads_back_and_writes_the_same_again() {
    let c = catalog_of(JSON);
    let schema = c.get_schema_by_table_name("table1").unwrap();
    let mut page = Page { id: PageID(3), ..Default::default() };
    for k in 0..15 {
        assert!(page.can_add_tuple(schema));
        let mut tuple = Tuple::new();
        tuple.add_attribute("column_int", AttributeType::Int(k));
        tuple.add_attribute("column_text", AttributeType::Text(format!("row {}", k)));
        page.add_tuple(tuple);
    }
    // (4096 - 32) / 268 = 15 tuples fill the page
    assert!(!page.can_add_tuple(schema));

    let image = page.raw(schema).unwrap();
    assert_eq!(image.len(), PAGE_SIZE);
    assert_eq!(&image[..4], &[0, 0, 0, 15]);
    assert!(image[4..32].iter().all(|b| *b == 0));
    assert!(image[32 + 15 * 268..].iter().all(|b| *b == 0));

    let mut back = Page { id: PageID(3), ..Default::default() };
    back.fill(&image, schema).unwrap();
    assert_eq!(back.header.tuple_count, 15);
    assert_eq!(back.id, PageID(3));
    for (k, tuple) in back.body.iter().enumerate() {
        assert_eq!(tuple.body.attributes.get("column_int"), Some(&AttributeType::Int(k as i32)));
    }
    assert_eq!(back.raw(schema).unwrap(), image);
}

#[test]
fn pages_and_tuples_that_do_not_fit_are_refused() {
    let c = catalog_of(JSON);
    let schema = c.get_schema_by_table_name("table1").unwrap();
    let good = |k: i32| {
        let mut tuple = Tuple::new();
        tuple.add_attribute("column_int", AttributeType::Int(k));
        tuple.add_attribute("column_text", AttributeType::Text("t".to_string()));
        tuple
    };

    // sixteen tuples are one too many
    let mut page = Page::default();
    for k in 0..16 {
        page.add_tuple(good(k));
    }
    assert_eq!(page.raw(schema), Err(StorageError::InvalidPage));

    // a header that counts wrongly
    let mut page = Page::default();
    page.add_tuple(good(1));
    page.header.tuple_count = 2;
    assert_eq!(page.raw(schema), Err(StorageError::InvalidPage));

    // a tuple without its text, and one with a text too long
    let mut page = Page::default();
    let mut tuple = Tuple::new();
    tuple.add_attribute("column_int", AttributeType::Int(1));
    page.add_tuple(tuple);
    assert_eq!(page.raw(schema), Err(StorageError::InvalidTuple));
    let mut tuple = Tuple::new();
    tuple.add_attribute("column_int", AttributeType::Int(1));
    tuple.add_attribute("column_text", AttributeType::Text("z".repeat(256)));
    assert_eq!(tuple.raw(&schema.table.columns), Err(StorageError::InvalidTuple));

    // images that are no pages: too short, too many tuples, text that is no UTF-8
    let mut page = Page::default();
    assert_eq!(page.fill(&[0; 100], schema), Err(StorageError::InvalidImage));
    let mut image = vec![0_u8; PAGE_SIZE];
    image[3] = 16;
    assert_eq!(page.fill(&image, schema), Err(StorageError::InvalidImage));
    let mut image = Page::default().raw(schema).unwrap();
    image[3] = 1;
    image[32 + 8 + 4] = 1;
    image[32 + 8 + 5] = 0xff;
    assert_eq!(page.fill(&image, schema), Err(StorageError::InvalidImage));
    assert_eq!(page.header.tuple_count, 0);
    // bytes after the declared length of a text do not count
    image[32 + 8 + 4] = 0;
    page.fill(&image, schema).unwrap();
    assert_eq!(
        page.body[0].body.attributes.get("column_text"),
        Some(&AttributeType::Text(String::new()))
    );
}

#[test]
fn catalog_finds_tables_by_name() {
    let c = catalog_of(JSON);
    assert!(c.exist_table("table1"));
    assert!(!c.exist_table("table2"));
    assert_eq!(c.table_id("table1"), Some(0));
    assert!(c.get_schema_by_table_name("table2").is_none());
    let copy = c.clone();
    assert_eq!(copy.schemas().len(), 1);
    assert_eq!(copy.get_schema_by_table_name("table1").unwrap().table.columns.len(), 2);

    // a column of an unknown type has no width
    let table = Table {
        name: "odd".to_string(),
        columns: vec![
            Column { types: "float".to_string(), name: "f".to_string() },
            Column { types: "int".to_string(), name: "i".to_string() },
        ],
    };
    assert_eq!(table.tuple_size(), 12);
    assert_eq!(table.tuple_size_within(11), None);
    assert_eq!(table.tuple_size_within(12), Some(12));
}

#[test]
fn hash_table_keeps_each_key_in_its_bucket() {
    let mut table = HashTable::new(3);
    assert!(table.same_bucket("a", "a"));
    for (i, key) in ["a", "b", "c", "d", "e", "f", "g"].iter().enumerate() {
        table.put(*key, i);
    }
    table.put("c", 30);
    table.remove("d");
    assert_eq!(table.get("a"), Some(0));
    assert_eq!(table.get("c"), Some(30));
    assert_eq!(table.get("d"), None);
    assert_eq!(table.get("g"), Some(6));
    assert_eq!(table.get("h"), None);
    let bucket = table.calculate_bucket(&"a");
    assert!(bucket < 3);
    assert_eq!(table.same_bucket("a", "b"), bucket == table.calculate_bucket(&"b"));
}

#[test]
fn descriptor_reset_clears_pins_and_dirt() {
    let mut d = Descriptor::new(DescriptorID(2), BufferPoolID(2));
    d.pin();
    d.pin();
    d.mark_dirty();
    assert!(d.is_dirty());
    assert_eq!(d.pins(), 2);
    d.reset();
    assert!(!d.pinned());
    assert!(!d.is_dirty());
    assert_eq!(d.id(), DescriptorID(2));
    assert_eq!(d.buffer_pool_id(), BufferPoolID(2));
    assert_eq!(DescriptorID::from_buf_pool_id(BufferPoolID(7)), DescriptorID(7));
    assert_eq!(PageID(3).offset(), 3 * PAGE_SIZE);
    assert_eq!(PageID(3).value(), 3);
}
