use vstd::prelude::*;
use crate::values::DataValue;

verus! {

/// A single column assignment carried by an update operation.
pub struct UpdateValue {
    pub column_name: String,
    pub data_value: DataValue,
}

impl Clone for UpdateValue {
    fn clone(&self) -> (r: Self)
        ensures
            r == *self,
    {
        UpdateValue { column_name: self.column_name.clone(), data_value: self.data_value.clone() }
    }
}

/// What one row mutation does: set one column, or delete the whole row.
pub enum RowOperationType {
    RowOperation(UpdateValue),
    Delete,
}

impl Clone for RowOperationType {
    fn clone(&self) -> (r: Self)
        ensures
            r == *self,
    {
        match self {
            RowOperationType::RowOperation(uv) => RowOperationType::RowOperation(uv.clone()),
            RowOperationType::Delete => RowOperationType::Delete,
        }
    }
}

/// One timestamped mutation of a row. Timestamps are the sole ordering key;
/// operations appended later break ties among equal timestamps.
pub struct RowOperation {
    pub op_type: RowOperationType,
    pub timestamp: u64,
}

impl Clone for RowOperation {
    fn clone(&self) -> (r: Self)
        ensures
            r == *self,
    {
        RowOperation { op_type: self.op_type.clone(), timestamp: self.timestamp }
    }
}

/// Places `x` after every element whose timestamp is at or below `x`'s, so
/// that an operation appended later wins a timestamp tie.
pub open spec fn insert_op(s: Seq<RowOperation>, x: RowOperation) -> Seq<RowOperation>
    decreases s.len(),
{
    if s.len() == 0 {
        seq![x]
    } else if s.last().timestamp <= x.timestamp {
        s.push(x)
    } else {
        insert_op(s.drop_last(), x).push(s.last())
    }
}

/// Stable sort of an operation log by timestamp, ascending: equal timestamps
/// keep their append order.
pub open spec fn sort_ops(s: Seq<RowOperation>) -> Seq<RowOperation>
    decreases s.len(),
{
    if s.len() == 0 {
        Seq::empty()
    } else {
        insert_op(sort_ops(s.drop_last()), s.last())
    }
}

/// Timestamps never decrease along the sequence.
pub open spec fn ops_sorted(s: Seq<RowOperation>) -> bool {
    forall|i: int, j: int| 0 <= i < j < s.len() ==> s[i].timestamp <= s[j].timestamp
}

/// No two operations of the sequence share a timestamp.
pub open spec fn distinct_timestamps(s: Seq<RowOperation>) -> bool {
    forall|i: int, j: int| 0 <= i < j < s.len() ==> s[i].timestamp != s[j].timestamp
}

/// The column assignments that folding an already-sorted log leaves behind:
/// a delete clears everything, an update sets its one column.
pub open spec fn fold_cols(s: Seq<RowOperation>) -> Map<Seq<char>, DataValue>
    decreases s.len(),
{
    if s.len() == 0 {
        Map::empty()
    } else {
        match s.last().op_type {
            RowOperationType::RowOperation(uv) => fold_cols(s.drop_last()).insert(
                uv.column_name@,
                uv.data_value,
            ),
            RowOperationType::Delete => Map::empty(),
        }
    }
}

/// Folding an already-sorted log leaves the row present exactly when the log
/// is non-empty and its last operation is an update.
pub open spec fn fold_present(s: Seq<RowOperation>) -> bool {
    s.len() > 0 && s.last().op_type is RowOperation
}

/// The canonical column assignments of a log in any append order.
pub open spec fn row_cols(ops: Seq<RowOperation>) -> Map<Seq<char>, DataValue> {
    fold_cols(sort_ops(ops))
}

/// Whether a log in any append order leaves the row present.
pub open spec fn row_present(ops: Seq<RowOperation>) -> bool {
    fold_present(sort_ops(ops))
}

/// Inserting at a position `p` that has every later element above `x`'s
/// timestamp and no earlier element above it is what `insert_op` does.
proof fn lemma_insert_op_at(s: Seq<RowOperation>, x: RowOperation, p: int)
    requires
        0 <= p <= s.len(),
        p == 0 || s[p - 1].timestamp <= x.timestamp,
        forall|k: int| p <= k < s.len() ==> s[k].timestamp > x.timestamp,
    ensures
        insert_op(s, x) == s.insert(p, x),
    decreases s.len(),
{
    if s.len() == 0 {
        assert(insert_op(s, x) =~= s.insert(p, x));
    } else if s.last().timestamp <= x.timestamp {
        assert(p == s.len());
        assert(insert_op(s, x) =~= s.insert(p, x));
    } else {
        assert(p < s.len());
        lemma_insert_op_at(s.drop_last(), x, p);
        assert(insert_op(s, x) == s.drop_last().insert(p, x).push(s.last()));
        assert(insert_op(s, x) =~= s.insert(p, x));
    }
}

/// `insert_op` keeps a timestamp-sorted sequence sorted.
proof fn lemma_insert_op_sorted(s: Seq<RowOperation>, x: RowOperation)
    requires
        ops_sorted(s),
    ensures
        ops_sorted(insert_op(s, x)),
        insert_op(s, x).len() == s.len() + 1,
    decreases s.len(),
{
    if s.len() == 0 {
    } else if s.last().timestamp <= x.timestamp {
    } else {
        assert(ops_sorted(s.drop_last()));
        lemma_insert_op_sorted(s.drop_last(), x);
        let t = insert_op(s.drop_last(), x);
        assert forall|i: int, j: int|
            0 <= i < j < t.push(s.last()).len() implies t.push(s.last())[i].timestamp <= t.push(
            s.last(),
        )[j].timestamp by {
            if j < t.len() {
            } else {
                // every element of t is either from s.drop_last() or is x,
                // and both are at or below s.last()'s timestamp
                broadcast use vstd::seq_lib::group_to_multiset_ensures;

                lemma_insert_op_multiset(s.drop_last(), x);
                assert(t.contains(t[i]));
                assert(t.to_multiset().contains(t[i]));
                if t[i] == x {
                } else {
                    assert(s.drop_last().to_multiset().insert(x).contains(t[i]));
                    assert(s.drop_last().to_multiset().contains(t[i]));
                    assert(s.drop_last().contains(t[i]));
                    let k = choose|k: int|
                        0 <= k < s.drop_last().len() && s.drop_last()[k] == t[i];
                    assert(s[k].timestamp <= s.last().timestamp);
                }
            }
        }
    }
}

/// `insert_op` adds exactly `x` to the sequence's contents.
proof fn lemma_insert_op_multiset(s: Seq<RowOperation>, x: RowOperation)
    ensures
        insert_op(s, x).to_multiset() == s.to_multiset().insert(x),
    decreases s.len(),
{
    broadcast use vstd::seq_lib::group_to_multiset_ensures;

    if s.len() == 0 {
        assert(insert_op(s, x) =~= Seq::empty().push(x));
        assert(insert_op(s, x).to_multiset() =~= s.to_multiset().insert(x));
    } else if s.last().timestamp <= x.timestamp {
    } else {
        lemma_insert_op_multiset(s.drop_last(), x);
        assert(s =~= s.drop_last().push(s.last()));
        assert(s.to_multiset() == s.drop_last().to_multiset().insert(s.last()));
        assert(insert_op(s, x).to_multiset() == insert_op(s.drop_last(), x).to_multiset().insert(
            s.last(),
        ));
        assert(insert_op(s, x).to_multiset() =~= s.to_multiset().insert(x));
    }
}

/// The sorted log is sorted and holds exactly the operations of the input.
pub proof fn lemma_sort_ops_ensures(s: Seq<RowOperation>)
    ensures
        ops_sorted(sort_ops(s)),
        sort_ops(s).to_multiset() == s.to_multiset(),
        sort_ops(s).len() == s.len(),
    decreases s.len(),
{
    broadcast use vstd::seq_lib::group_to_multiset_ensures;

    if s.len() == 0 {
        assert(sort_ops(s).to_multiset() =~= s.to_multiset());
    } else {
        lemma_sort_ops_ensures(s.drop_last());
        lemma_insert_op_sorted(sort_ops(s.drop_last()), s.last());
        lemma_insert_op_multiset(sort_ops(s.drop_last()), s.last());
        assert(s =~= s.drop_last().push(s.last()));
        assert(s.to_multiset() == s.drop_last().to_multiset().insert(s.last()));
    }
}

/// Two distinct positions holding the same operation put its count at two.
proof fn lemma_two_at_count(s: Seq<RowOperation>, i: int, j: int)
    requires
        0 <= i < j < s.len(),
        s[i] == s[j],
    ensures
        s.to_multiset().count(s[i]) >= 2,
    decreases s.len(),
{
    broadcast use vstd::seq_lib::group_to_multiset_ensures;

    assert(s =~= s.drop_last().push(s.last()));
    assert(s.to_multiset() == s.drop_last().to_multiset().insert(s.last()));
    if j == s.len() - 1 {
        assert(s.drop_last()[i] == s[i]);
        assert(s.drop_last().contains(s[i]));
        assert(s.drop_last().to_multiset().count(s[i]) >= 1);
    } else {
        assert(s.drop_last()[i] == s[i]);
        assert(s.drop_last()[j] == s[j]);
        lemma_two_at_count(s.drop_last(), i, j);
    }
}

/// A count of at least two yields two distinct positions.
proof fn lemma_count_two(s: Seq<RowOperation>, a: RowOperation)
    requires
        s.to_multiset().count(a) >= 2,
    ensures
        exists|i: int, j: int| 0 <= i < j < s.len() && s[i] == a && s[j] == a,
    decreases s.len(),
{
    broadcast use vstd::seq_lib::group_to_multiset_ensures;

    assert(s.to_multiset().contains(a));
    assert(s.contains(a));
    assert(s.len() > 0);
    assert(s =~= s.drop_last().push(s.last()));
    assert(s.to_multiset() == s.drop_last().to_multiset().insert(s.last()));
    if s.last() == a {
        assert(s.drop_last().to_multiset().count(a) >= 1);
        assert(s.drop_last().contains(a));
        let i = choose|i: int| 0 <= i < s.drop_last().len() && s.drop_last()[i] == a;
        assert(s[i] == a && s[s.len() - 1] == a && i < s.len() - 1);
    } else {
        assert(s.drop_last().to_multiset().count(a) >= 2);
        lemma_count_two(s.drop_last(), a);
        let (i, j) = choose|i: int, j: int|
            0 <= i < j < s.drop_last().len() && s.drop_last()[i] == a && s.drop_last()[j] == a;
        assert(s[i] == a && s[j] == a);
    }
}

/// Timestamp distinctness carries across any rearrangement of the same
/// operations.
pub proof fn lemma_distinct_transfer(s: Seq<RowOperation>, t: Seq<RowOperation>)
    requires
        s.to_multiset() == t.to_multiset(),
        distinct_timestamps(s),
    ensures
        distinct_timestamps(t),
{
    broadcast use vstd::seq_lib::group_to_multiset_ensures;

    assert forall|i: int, j: int|
        0 <= i < j < t.len() implies t[i].timestamp != t[j].timestamp by {
        if t[i].timestamp == t[j].timestamp {
            if t[i] == t[j] {
                lemma_two_at_count(t, i, j);
                lemma_count_two(s, t[i]);
                let (i2, j2) = choose|i2: int, j2: int|
                    0 <= i2 < j2 < s.len() && s[i2] == t[i] && s[j2] == t[i];
                assert(s[i2].timestamp == s[j2].timestamp);
                assert(false);
            } else {
                assert(t.contains(t[i]));
                assert(s.to_multiset().count(t[i]) > 0);
                assert(s.contains(t[i]));
                assert(t.contains(t[j]));
                assert(s.to_multiset().count(t[j]) > 0);
                assert(s.contains(t[j]));
                let i2 = choose|i2: int| 0 <= i2 < s.len() && s[i2] == t[i];
                let j2 = choose|j2: int| 0 <= j2 < s.len() && s[j2] == t[j];
                assert(i2 != j2);
                assert(s[i2].timestamp == s[j2].timestamp);
                assert(false);
            }
        }
    }
}

/// Two timestamp-sorted logs of the same operations with pairwise distinct
/// timestamps are the same sequence.
proof fn lemma_sorted_distinct_unique(x: Seq<RowOperation>, y: Seq<RowOperation>)
    requires
        ops_sorted(x),
        ops_sorted(y),
        x.to_multiset() == y.to_multiset(),
        distinct_timestamps(x),
    ensures
        x == y,
    decreases x.len(),
{
    broadcast use vstd::seq_lib::group_to_multiset_ensures;

    if x.len() == 0 {
        assert(y.to_multiset().len() == 0);
        assert(y.len() == 0);
        assert(x =~= y);
    } else {
        assert(y.to_multiset().len() == y.len());
        assert(y.len() == x.len());
        assert(y.contains(y[0]));
        assert(x.to_multiset().count(y[0]) > 0);
        assert(x.contains(y[0]));
        let i = choose|i: int| 0 <= i < x.len() && x[i] == y[0];
        assert(x.contains(x[0]));
        assert(y.to_multiset().count(x[0]) > 0);
        assert(y.contains(x[0]));
        let j = choose|j: int| 0 <= j < y.len() && y[j] == x[0];
        assert(x[0].timestamp <= x[i].timestamp);
        assert(y[0].timestamp <= y[j].timestamp);
        assert(x[0].timestamp == y[0].timestamp);
        if i != 0 {
            assert(x[0].timestamp != x[i].timestamp);
            assert(false);
        }
        assert(x[0] == y[0]);
        assert(x.remove(0) =~= x.drop_first());
        assert(y.remove(0) =~= y.drop_first());
        assert(x.drop_first().to_multiset() =~= x.to_multiset().remove(x[0]));
        assert(y.drop_first().to_multiset() =~= y.to_multiset().remove(y[0]));
        assert(ops_sorted(x.drop_first())) by {
            assert forall|a: int, b: int|
                0 <= a < b < x.drop_first().len() implies x.drop_first()[a].timestamp
                <= x.drop_first()[b].timestamp by {
                assert(x.drop_first()[a] == x[a + 1]);
                assert(x.drop_first()[b] == x[b + 1]);
            }
        }
        assert(ops_sorted(y.drop_first())) by {
            assert forall|a: int, b: int|
                0 <= a < b < y.drop_first().len() implies y.drop_first()[a].timestamp
                <= y.drop_first()[b].timestamp by {
                assert(y.drop_first()[a] == y[a + 1]);
                assert(y.drop_first()[b] == y[b + 1]);
            }
        }
        assert(distinct_timestamps(x.drop_first())) by {
            assert forall|a: int, b: int|
                0 <= a < b < x.drop_first().len() implies x.drop_first()[a].timestamp
                != x.drop_first()[b].timestamp by {
                assert(x.drop_first()[a] == x[a + 1]);
                assert(x.drop_first()[b] == x[b + 1]);
            }
        }
        lemma_sorted_distinct_unique(x.drop_first(), y.drop_first());
        assert(x =~= y) by {
            assert forall|k: int| 0 <= k < x.len() implies x[k] == y[k] by {
                if k > 0 {
                    assert(x.drop_first()[k - 1] == x[k]);
                    assert(y.drop_first()[k - 1] == y[k]);
                }
            }
        }
    }
}

/// Fold determinism: a row's operations, with pairwise distinct timestamps,
/// fold to the same snapshot and presence in whatever order they were
/// appended.
pub proof fn lemma_fold_deterministic(s1: Seq<RowOperation>, s2: Seq<RowOperation>)
    requires
        s1.to_multiset() == s2.to_multiset(),
        distinct_timestamps(s1),
    ensures
        row_cols(s1) == row_cols(s2),
        row_present(s1) == row_present(s2),
{
    lemma_sort_ops_ensures(s1);
    lemma_sort_ops_ensures(s2);
    lemma_distinct_transfer(s1, sort_ops(s1));
    assert(sort_ops(s1).to_multiset() == sort_ops(s2).to_multiset());
    lemma_sorted_distinct_unique(sort_ops(s1), sort_ops(s2));
}

/// An operation at or above every timestamp in the log sorts to its end.
pub proof fn lemma_latest_sorts_last(ops: Seq<RowOperation>, op: RowOperation)
    requires
        forall|i: int| 0 <= i < ops.len() ==> ops[i].timestamp <= op.timestamp,
    ensures
        sort_ops(ops.push(op)) == sort_ops(ops).push(op),
{
    broadcast use vstd::seq_lib::group_to_multiset_ensures;

    assert(ops.push(op).drop_last() =~= ops);
    assert(sort_ops(ops.push(op)) == insert_op(sort_ops(ops), op));
    lemma_sort_ops_ensures(ops);
    let t = sort_ops(ops);
    if t.len() == 0 {
        assert(insert_op(t, op) =~= t.push(op));
    } else {
        assert(t.contains(t[t.len() - 1]));
        assert(ops.to_multiset().count(t.last()) > 0);
        assert(ops.contains(t.last()));
        let i = choose|i: int| 0 <= i < ops.len() && ops[i] == t.last();
        assert(t.last().timestamp <= op.timestamp);
    }
}

/// Read-after-write at the fold: a write whose timestamp is at or above
/// everything in the log makes the row present with that column set, and
/// changes no other column.
pub proof fn lemma_latest_update_wins(ops: Seq<RowOperation>, uv: UpdateValue, ts: u64)
    requires
        forall|i: int| 0 <= i < ops.len() ==> ops[i].timestamp <= ts,
    ensures
        row_cols(
            ops.push(RowOperation { op_type: RowOperationType::RowOperation(uv), timestamp: ts }),
        ) == row_cols(ops).insert(uv.column_name@, uv.data_value),
        row_present(
            ops.push(RowOperation { op_type: RowOperationType::RowOperation(uv), timestamp: ts }),
        ),
{
    let op = RowOperation { op_type: RowOperationType::RowOperation(uv), timestamp: ts };
    lemma_latest_sorts_last(ops, op);
    assert(sort_ops(ops).push(op).drop_last() =~= sort_ops(ops));
    assert(sort_ops(ops).push(op).last() == op);
}

/// Stable insertion sort of an operation log by timestamp.
pub fn sort_operations(ops: &Vec<RowOperation>) -> (r: Vec<RowOperation>)
    ensures
        r@ == sort_ops(ops@),
{
    let mut out: Vec<RowOperation> = Vec::new();
    proof {
        assert(ops@.take(0) =~= Seq::<RowOperation>::empty());
    }
    let mut idx: usize = 0;
    while idx < ops.len()
        invariant
            idx <= ops.len(),
            out@ == sort_ops(ops@.take(idx as int)),
        decreases ops.len() - idx,
    {
        let op = ops[idx].clone();
        let ghost prev = out@;
        // walk back over the strictly-later timestamps to the stable slot
        let mut p: usize = out.len();
        while p > 0 && out[p - 1].timestamp > op.timestamp
            invariant
                p <= out.len(),
                out@ == prev,
                forall|k: int| p <= k < out@.len() ==> out@[k].timestamp > op.timestamp,
            decreases p,
        {
            p -= 1;
        }
        proof {
            lemma_insert_op_at(out@, op, p as int);
        }
        out.insert(p, op);
        proof {
            assert(ops@.take(idx + 1).drop_last() =~= ops@.take(idx as int));
            assert(ops@.take(idx + 1).last() == ops@[idx as int]);
        }
        idx += 1;
    }
    proof {
        assert(ops@.take(ops@.len() as int) =~= ops@);
    }
    out
}

} // verus!
