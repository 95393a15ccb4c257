use dbruh::ColumnDefinition;
use dbruh::ColumnEntry;
use dbruh::DataType;
use dbruh::DataValue;
use dbruh::Database;
use dbruh::DbError;
use dbruh::NamedColumn;
use dbruh::RowOperation;
use dbruh::RowOperationType;
use dbruh::Segment;
use dbruh::SegmentRecord;
use dbruh::SegmentValue;
use dbruh::UpdateValue;

fn col(name: &str, t: DataType) -> NamedColumn {
    NamedColumn { column_name: name.to_string(), definition: ColumnDefinition { data_type: t } }
}

fn upd(col: &str, val: DataValue, ts: u64) -> RowOperation {
    RowOperation {
        op_type: RowOperationType::RowOperation(UpdateValue {
            column_name: col.to_string(),
            data_value: val,
        }),
        timestamp: ts,
    }
}

fn users_db(memtable_size: i32) -> Database {
    let mut db = Database::new(60, memtable_size);
    let columns = vec![col("id", DataType::Integer), col("name", DataType::Text)];
    let pks = vec!["id".to_string()];
    db.create_table("users", columns, pks).unwrap();
    db
}

#[test]
fn read_after_write_without_flush() {
    let mut db = users_db(1_000_000);
    let key = vec![1u8];
    db.put("users", &key, &upd("id", DataValue::Integer(1), 1)).unwrap();
    let got = db.get("users", &key).unwrap().unwrap();
    assert!(got.present);
    assert_eq!(got.get_column(&"id".to_string()), Some(&DataValue::Integer(1)));
    assert!(got.get_column(&"name".to_string()).is_none());
}

#[test]
fn read_after_write_with_flush_between() {
    let mut db = users_db(1_000_000);
    let key = vec![1u8];
    db.put("users", &key, &upd("id", DataValue::Integer(1), 1)).unwrap();
    db.flush("users").unwrap();
    let got = db.get("users", &key).unwrap().unwrap();
    assert!(got.present);
    assert_eq!(got.get_column(&"id".to_string()), Some(&DataValue::Integer(1)));
    let (mem_size, segment_count) = db.stats("users").unwrap();
    assert_eq!(mem_size, 0);
    assert_eq!(segment_count, 1);
}

#[test]
fn size_threshold_triggers_exactly_one_flush() {
    // each operation serializes to 8 + 2 ("id") + 4 = 14 bytes
    let mut db = users_db(56);
    for i in 0..4u8 {
        db.put("users", &vec![i], &upd("id", DataValue::Integer(i as i32), i as u64)).unwrap();
        let (_, segment_count) = db.stats("users").unwrap();
        let expected = if i == 3 { 1 } else { 0 };
        assert_eq!(segment_count, expected);
    }
    let (mem_size, segment_count) = db.stats("users").unwrap();
    assert_eq!(mem_size, 0);
    assert_eq!(segment_count, 1);
    for i in 0..4u8 {
        let got = db.get("users", &vec![i]).unwrap().unwrap();
        assert_eq!(got.get_column(&"id".to_string()), Some(&DataValue::Integer(i as i32)));
    }
}

#[test]
fn stats_reports_exact_estimate() {
    let mut db = users_db(1_000_000);
    db.put("users", &vec![1u8], &upd("id", DataValue::Integer(7), 1)).unwrap();
    let (mem_size, segment_count) = db.stats("users").unwrap();
    assert_eq!(mem_size, 14);
    assert_eq!(segment_count, 0);
}

#[test]
fn type_mismatch_is_rejected_and_appends_nothing() {
    let mut db = users_db(1_000_000);
    let key = vec![1u8];
    let r = db.put("users", &key, &upd("id", DataValue::Text("text".to_string()), 1));
    assert_eq!(r, Err(DbError::SchemaViolation));
    assert!(db.get("users", &key).unwrap().is_none());
    let (mem_size, _) = db.stats("users").unwrap();
    assert_eq!(mem_size, 0);
}

#[test]
fn unknown_column_is_rejected() {
    let mut db = users_db(1_000_000);
    let r = db.put("users", &vec![1u8], &upd("age", DataValue::Integer(30), 1));
    assert_eq!(r, Err(DbError::SchemaViolation));
}

#[test]
fn null_is_accepted_for_any_declared_type() {
    let mut db = users_db(1_000_000);
    let key = vec![1u8];
    db.put("users", &key, &upd("id", DataValue::Null, 1)).unwrap();
    let got = db.get("users", &key).unwrap().unwrap();
    assert_eq!(got.get_column(&"id".to_string()), Some(&DataValue::Null));
}

#[test]
fn unknown_table_is_reported() {
    let mut db = users_db(1_000_000);
    let key = vec![1u8];
    assert_eq!(db.put("ghosts", &key, &upd("id", DataValue::Integer(1), 1)), Err(DbError::TableNotFound));
    assert_eq!(db.get("ghosts", &key).err(), Some(DbError::TableNotFound));
    assert_eq!(db.delete("ghosts", &key, 1), Err(DbError::TableNotFound));
    assert_eq!(db.flush("ghosts"), Err(DbError::TableNotFound));
    assert_eq!(db.stats("ghosts").err(), Some(DbError::TableNotFound));
}

#[test]
fn creating_a_table_twice_is_rejected() {
    let mut db = users_db(1_000_000);
    let r = db.create_table("users", vec![col("id", DataType::Integer)], vec!["id".to_string()]);
    assert_eq!(r.err(), Some(DbError::TableAlreadyExists));
}

#[test]
fn schema_with_stray_primary_key_is_rejected() {
    let mut db = Database::new(60, 1_000_000);
    let r = db.create_table("t", vec![col("a", DataType::Integer)], vec!["b".to_string()]);
    assert_eq!(r.err(), Some(DbError::SchemaViolation));
}

#[test]
fn schema_with_duplicate_column_is_rejected() {
    let mut db = Database::new(60, 1_000_000);
    let columns = vec![col("a", DataType::Integer), col("a", DataType::Text)];
    let r = db.create_table("t", columns, vec!["a".to_string()]);
    assert_eq!(r.err(), Some(DbError::SchemaViolation));
}

#[test]
fn tombstone_shadows_older_segments() {
    let mut db = users_db(1_000_000);
    let key = vec![1u8];
    db.put("users", &key, &upd("id", DataValue::Integer(1), 1)).unwrap();
    db.flush("users").unwrap();
    assert!(db.get("users", &key).unwrap().is_some());
    db.delete("users", &key, 2).unwrap();
    db.flush("users").unwrap();
    // the older segment still holds the row, but the newer tombstone wins
    let (_, segment_count) = db.stats("users").unwrap();
    assert_eq!(segment_count, 2);
    assert!(db.get("users", &key).unwrap().is_none());
}

#[test]
fn delete_then_later_update_resurrects() {
    let mut db = users_db(1_000_000);
    let key = vec![1u8];
    db.delete("users", &key, 1).unwrap();
    db.put("users", &key, &upd("id", DataValue::Integer(5), 2)).unwrap();
    let got = db.get("users", &key).unwrap().unwrap();
    assert!(got.present);
    assert_eq!(got.get_column(&"id".to_string()), Some(&DataValue::Integer(5)));
}

#[test]
fn interleaved_writers_to_distinct_keys_lose_nothing() {
    // two writers' puts interleaved over distinct keys, with flushes mixed in
    let mut db = users_db(100);
    let n: u8 = 10;
    for i in 0..n {
        let key_a = vec![0u8, i];
        let key_b = vec![1u8, i];
        db.put("users", &key_a, &upd("id", DataValue::Integer(i as i32), i as u64)).unwrap();
        db.put("users", &key_b, &upd("id", DataValue::Integer(100 + i as i32), i as u64)).unwrap();
    }
    for i in 0..n {
        let got_a = db.get("users", &vec![0u8, i]).unwrap().unwrap();
        assert_eq!(got_a.get_column(&"id".to_string()), Some(&DataValue::Integer(i as i32)));
        let got_b = db.get("users", &vec![1u8, i]).unwrap().unwrap();
        assert_eq!(got_b.get_column(&"id".to_string()), Some(&DataValue::Integer(100 + i as i32)));
    }
}

#[test]
fn memtable_shadows_segments() {
    let mut db = users_db(1_000_000);
    let key = vec![1u8];
    db.put("users", &key, &upd("id", DataValue::Integer(1), 1)).unwrap();
    db.flush("users").unwrap();
    db.put("users", &key, &upd("id", DataValue::Integer(2), 2)).unwrap();
    let got = db.get("users", &key).unwrap().unwrap();
    assert_eq!(got.get_column(&"id".to_string()), Some(&DataValue::Integer(2)));
}

#[test]
fn unsorted_segment_records_are_corrupt() {
    let records = vec![
        SegmentRecord { key: vec![2u8], value: SegmentValue::Tombstone },
        SegmentRecord { key: vec![1u8], value: SegmentValue::Tombstone },
    ];
    assert!(matches!(Segment::from_records(records), Err(DbError::CorruptSegment)));
}

#[test]
fn duplicate_segment_keys_are_corrupt() {
    let records = vec![
        SegmentRecord { key: vec![1u8], value: SegmentValue::Tombstone },
        SegmentRecord { key: vec![1u8], value: SegmentValue::Tombstone },
    ];
    assert!(matches!(Segment::from_records(records), Err(DbError::CorruptSegment)));
}

#[test]
fn repeated_column_in_segment_row_is_corrupt() {
    let entry = ColumnEntry { column_name: "a".to_string(), data_value: DataValue::Integer(1) };
    let entry2 = ColumnEntry { column_name: "a".to_string(), data_value: DataValue::Integer(2) };
    let records = vec![SegmentRecord {
        key: vec![1u8],
        value: SegmentValue::Row(vec![entry, entry2]),
    }];
    assert!(matches!(Segment::from_records(records), Err(DbError::CorruptSegment)));
}

#[test]
fn loaded_segment_serves_reads() {
    let mut db = users_db(1_000_000);
    let entry = ColumnEntry { column_name: "id".to_string(), data_value: DataValue::Integer(42) };
    let records = vec![SegmentRecord { key: vec![9u8], value: SegmentValue::Row(vec![entry]) }];
    let seg = Segment::from_records(records).unwrap();
    db.append_segment("users", seg).unwrap();
    let got = db.get("users", &vec![9u8]).unwrap().unwrap();
    assert_eq!(got.get_column(&"id".to_string()), Some(&DataValue::Integer(42)));
}

#[test]
fn merge_due_follows_the_interval() {
    let db = Database::new(60, 1_000_000);
    assert!(!db.merge_due(59));
    assert!(db.merge_due(60));
    let always = Database::new(0, 1_000_000);
    assert!(always.merge_due(0));
}

#[test]
fn multi_column_write_reads_back_whole_row() {
    let mut db = users_db(1_000_000);
    let key = vec![1u8];
    let updates = vec![
        UpdateValue { column_name: "id".to_string(), data_value: DataValue::Integer(1) },
        UpdateValue { column_name: "name".to_string(), data_value: DataValue::Text("ada".to_string()) },
    ];
    db.put_row("users", &key, &updates, 1).unwrap();
    let got = db.get("users", &key).unwrap().unwrap();
    assert_eq!(got.get_column(&"id".to_string()), Some(&DataValue::Integer(1)));
    assert_eq!(got.get_column(&"name".to_string()), Some(&DataValue::Text("ada".to_string())));
}

#[test]
fn multi_column_write_rejects_atomically() {
    let mut db = users_db(1_000_000);
    let key = vec![1u8];
    let updates = vec![
        UpdateValue { column_name: "id".to_string(), data_value: DataValue::Integer(1) },
        UpdateValue { column_name: "name".to_string(), data_value: DataValue::Boolean(true) },
    ];
    assert_eq!(db.put_row("users", &key, &updates, 1), Err(DbError::SchemaViolation));
    assert!(db.get("users", &key).unwrap().is_none());
    let (mem_size, _) = db.stats("users").unwrap();
    assert_eq!(mem_size, 0);
}
