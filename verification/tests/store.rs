use dbgen::error::Span;
use dbgen::eval::{Expr, State};
use dbgen::s3::{FileInfo, Object, ObjectContent, Storage, StoreError};
use dbgen::table::Table;
use dbgen::value::Value;

fn sp() -> Span {
    Span { pos: 0 }
}

fn demo_tables() -> Vec<Table> {
    let orders = Table {
        name: "orders".to_owned(),
        columns: vec!["a".to_owned(), "b".to_owned()],
        row: vec![
            Expr::Constant(sp(), Value::Int(7)),
            Expr::Constant(sp(), Value::Text("x".to_owned())),
        ],
        derived: vec![(1, Expr::Constant(sp(), Value::Int(2)))],
    };
    let order_items = Table {
        name: "order_items".to_owned(),
        columns: vec!["c".to_owned()],
        row: vec![Expr::SubRowNum(sp())],
        derived: vec![],
    };
    vec![orders, order_items]
}

fn schema_object(name: &str, text: &str) -> Object {
    Object {
        name: name.to_owned(),
        size: text.len(),
        content: ObjectContent::Schema(text.to_owned()),
    }
}

fn demo_storage() -> Storage {
    // Deliberately out of name order: the catalog is sorted at build time.
    let objects = vec![
        schema_object("c.csv", "cc"),
        schema_object("a.csv", "aa"),
        schema_object("b.csv", "bb"),
        Object {
            name: "orders.dat".to_owned(),
            size: 0,
            content: ObjectContent::Data(
                FileInfo { table_index: 0, num_rows: 1 },
                State::new(42),
            ),
        },
    ];
    Storage::new(demo_tables(), false, "bucket".to_owned(), objects, 0)
}

#[test]
fn head_bucket_matches_only_the_configured_bucket() {
    let s = demo_storage();
    assert!(s.head_bucket("bucket").is_ok());
    assert_eq!(s.head_bucket("other").unwrap_err(), StoreError::NoSuchBucket);
}

#[test]
fn head_object_succeeds_iff_present() {
    let s = demo_storage();
    let head = s.head_object("bucket", "b.csv").unwrap();
    assert_eq!(head.content_length, 2);
    assert_eq!(head.content_type, "application/octet-stream");
    assert_eq!(head.last_modified, "Thu, 01 Jan 1970 00:00:00 GMT");
    match s.head_object("bucket", "z.csv") {
        Ok(_) => panic!("expected no such key"),
        Err(e) => assert_eq!(e, StoreError::NoSuchKey),
    }
    match s.head_object("nope", "b.csv") {
        Ok(_) => panic!("expected no such bucket"),
        Err(e) => assert_eq!(e, StoreError::NoSuchBucket),
    }
}

#[test]
fn get_object_returns_schema_payload() {
    let s = demo_storage();
    assert_eq!(s.get_object("bucket", "a.csv").unwrap(), b"aa".to_vec());
    assert_eq!(
        s.get_object("bucket", "missing").unwrap_err(),
        StoreError::NoSuchKey
    );
}

#[test]
fn get_object_regenerates_data_objects() {
    let s = demo_storage();
    let bytes = s.get_object("bucket", "orders.dat").unwrap();
    assert_eq!(bytes, b"a,b\n[\na=7,b=x]\n".to_vec());
}

#[test]
fn regeneration_is_idempotent() {
    let s = demo_storage();
    let first = s.get_object("bucket", "orders.dat").unwrap();
    let second = s.get_object("bucket", "orders.dat").unwrap();
    assert_eq!(first, second);
}

#[test]
fn list_buckets_reports_the_single_bucket() {
    let s = demo_storage();
    let b = s.list_buckets();
    assert_eq!(b.name, "bucket");
    assert_eq!(b.creation_date, "1970-01-01T00:00:00.000Z");
}

#[test]
fn list_objects_v2_truncates_at_max_keys() {
    let s = demo_storage();
    let out = s
        .list_objects_v2("bucket", None, Some(".csv"), None)
        .unwrap();
    // No object name starts with ".csv": prefix filters on the name start.
    assert_eq!(out.key_count, 0);

    let out = s.list_objects_v2("bucket", None, None, Some(2)).unwrap();
    let keys: Vec<&str> = out.contents.iter().map(|o| o.key.as_str()).collect();
    assert_eq!(keys, vec!["a.csv", "b.csv"]);
    assert_eq!(out.key_count, 2);
    assert!(out.is_truncated);
}

#[test]
fn list_objects_marker_is_exclusive_and_sorted() {
    let s = demo_storage();
    let out = s
        .list_objects("bucket", Some("a.csv"), None, None)
        .unwrap();
    let keys: Vec<&str> = out.contents.iter().map(|o| o.key.as_str()).collect();
    assert_eq!(keys, vec!["b.csv", "c.csv", "orders.dat"]);
    assert!(!out.is_truncated);
    assert!(out.next_marker.is_none());
}

#[test]
fn list_objects_next_marker_on_truncation() {
    let s = demo_storage();
    let out = s.list_objects("bucket", None, None, Some(2)).unwrap();
    let keys: Vec<&str> = out.contents.iter().map(|o| o.key.as_str()).collect();
    assert_eq!(keys, vec!["a.csv", "b.csv"]);
    assert!(out.is_truncated);
    assert_eq!(out.next_marker.unwrap(), "b.csv");
    let meta = &out.contents[0];
    assert_eq!(meta.storage_class, "STANDARD");
    assert_eq!(meta.last_modified, "1970-01-01T00:00:00.000Z");
}

#[test]
fn mutating_operations_are_not_supported() {
    let s = demo_storage();
    assert_eq!(s.put_object().unwrap_err(), StoreError::NotSupported);
    assert_eq!(s.copy_object().unwrap_err(), StoreError::NotSupported);
    assert_eq!(s.delete_object().unwrap_err(), StoreError::NotSupported);
    assert_eq!(s.delete_objects().unwrap_err(), StoreError::NotSupported);
    assert_eq!(s.create_bucket().unwrap_err(), StoreError::NotSupported);
    assert_eq!(s.delete_bucket().unwrap_err(), StoreError::NotSupported);
    assert_eq!(s.get_bucket_location().unwrap_err(), StoreError::NotSupported);
    assert_eq!(
        s.create_multipart_upload().unwrap_err(),
        StoreError::NotSupported
    );
    assert_eq!(
        s.complete_multipart_upload().unwrap_err(),
        StoreError::NotSupported
    );
    assert_eq!(s.upload_part().unwrap_err(), StoreError::NotSupported);
}

#[test]
fn bad_descriptor_is_an_internal_error() {
    let objects = vec![Object {
        name: "broken.dat".to_owned(),
        size: 0,
        content: ObjectContent::Data(
            FileInfo {
                table_index: 9,
                num_rows: 1,
            },
            State::new(0),
        ),
    }];
    let s = Storage::new(demo_tables(), false, "bucket".to_owned(), objects, 0);
    assert_eq!(
        s.get_object("bucket", "broken.dat").unwrap_err(),
        StoreError::Internal
    );
}
