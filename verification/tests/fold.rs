use dbruh::DataValue;
use dbruh::RowOperation;
use dbruh::RowOperationType;
use dbruh::UpdateValue;
use dbruh::fold_operations;

fn upd(col: &str, val: DataValue, ts: u64) -> RowOperation {
    RowOperation {
        op_type: RowOperationType::RowOperation(UpdateValue {
            column_name: col.to_string(),
            data_value: val,
        }),
        timestamp: ts,
    }
}

fn del(ts: u64) -> RowOperation {
    RowOperation { op_type: RowOperationType::Delete, timestamp: ts }
}

#[test]
fn fold_empty_log_is_absent() {
    let snap = fold_operations(&Vec::new());
    assert!(!snap.present);
    assert!(snap.get_column(&"a".to_string()).is_none());
}

#[test]
fn fold_determinism_over_permutations() {
    let ops1 = vec![
        upd("a", DataValue::Integer(1), 1),
        upd("b", DataValue::Integer(2), 2),
        del(3),
        upd("c", DataValue::Integer(3), 4),
    ];
    let ops2 = vec![
        upd("c", DataValue::Integer(3), 4),
        del(3),
        upd("a", DataValue::Integer(1), 1),
        upd("b", DataValue::Integer(2), 2),
    ];
    let s1 = fold_operations(&ops1);
    let s2 = fold_operations(&ops2);
    assert_eq!(s1.present, s2.present);
    assert!(s1.present);
    for col in ["a", "b", "c"] {
        let name = col.to_string();
        assert_eq!(s1.get_column(&name), s2.get_column(&name));
    }
    assert!(s1.get_column(&"a".to_string()).is_none());
    assert!(s1.get_column(&"b".to_string()).is_none());
    assert_eq!(s1.get_column(&"c".to_string()), Some(&DataValue::Integer(3)));
}

#[test]
fn resurrection_in_either_append_order() {
    let x = DataValue::Text("X".to_string());
    let first = vec![del(1), upd("A", x.clone(), 2)];
    let second = vec![upd("A", x.clone(), 2), del(1)];
    for ops in [first, second] {
        let snap = fold_operations(&ops);
        assert!(snap.present);
        assert_eq!(snap.get_column(&"A".to_string()), Some(&x));
        assert!(snap.get_column(&"B".to_string()).is_none());
    }
}

#[test]
fn equal_timestamps_later_append_wins() {
    let ops = vec![upd("a", DataValue::Integer(1), 5), upd("a", DataValue::Integer(2), 5)];
    let snap = fold_operations(&ops);
    assert_eq!(snap.get_column(&"a".to_string()), Some(&DataValue::Integer(2)));

    let ops_rev = vec![upd("a", DataValue::Integer(2), 5), upd("a", DataValue::Integer(1), 5)];
    let snap_rev = fold_operations(&ops_rev);
    assert_eq!(snap_rev.get_column(&"a".to_string()), Some(&DataValue::Integer(1)));
}

#[test]
fn delete_clears_every_column() {
    let ops = vec![
        upd("a", DataValue::Integer(1), 1),
        upd("b", DataValue::Boolean(true), 2),
        del(3),
    ];
    let snap = fold_operations(&ops);
    assert!(!snap.present);
    assert!(snap.get_column(&"a".to_string()).is_none());
    assert!(snap.get_column(&"b".to_string()).is_none());
}

#[test]
fn out_of_order_appends_fold_by_timestamp() {
    let ops = vec![upd("a", DataValue::Integer(9), 10), upd("a", DataValue::Integer(1), 2)];
    let snap = fold_operations(&ops);
    assert_eq!(snap.get_column(&"a".to_string()), Some(&DataValue::Integer(9)));
}

#[test]
fn delete_after_update_at_same_timestamp_wins_by_append_order() {
    let ops = vec![upd("a", DataValue::Integer(1), 7), del(7)];
    let snap = fold_operations(&ops);
    assert!(!snap.present);
    let ops2 = vec![del(7), upd("a", DataValue::Integer(1), 7)];
    let snap2 = fold_operations(&ops2);
    assert!(snap2.present);
    assert_eq!(snap2.get_column(&"a".to_string()), Some(&DataValue::Integer(1)));
}
