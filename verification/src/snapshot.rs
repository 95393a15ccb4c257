use vstd::prelude::*;
use crate::ops::RowOperation;
use crate::ops::RowOperationType;
use crate::ops::fold_cols;
use crate::ops::fold_present;
use crate::ops::row_cols;
use crate::ops::row_present;
use crate::ops::sort_operations;
use crate::values::DataValue;

verus! {

/// One column's materialized value in a row snapshot.
pub struct ColumnEntry {
    pub column_name: String,
    pub data_value: DataValue,
}

impl Clone for ColumnEntry {
    fn clone(&self) -> (r: Self)
        ensures
            r == *self,
    {
        ColumnEntry { column_name: self.column_name.clone(), data_value: self.data_value.clone() }
    }
}

/// The mapping that a list of column entries stands for; a later entry for
/// the same name would win, and well-formed snapshots list each name once.
pub open spec fn cols_map(s: Seq<ColumnEntry>) -> Map<Seq<char>, DataValue>
    decreases s.len(),
{
    if s.len() == 0 {
        Map::empty()
    } else {
        cols_map(s.drop_last()).insert(s.last().column_name@, s.last().data_value)
    }
}

/// Each column name occurs at most once.
pub open spec fn wf_cols(s: Seq<ColumnEntry>) -> bool {
    forall|i: int, j: int|
        0 <= i < j < s.len() ==> s[i].column_name@ != s[j].column_name@
}

/// A key of `cols_map` is exactly a name among the entries, and under
/// well-formedness each entry's value is what the map holds for its name.
pub proof fn lemma_cols_map_props(s: Seq<ColumnEntry>)
    ensures
        forall|n: Seq<char>|
            #[trigger] cols_map(s).contains_key(n) <==> exists|i: int|
                0 <= i < s.len() && s[i].column_name@ == n,
        wf_cols(s) ==> forall|i: int|
            0 <= i < s.len() ==> cols_map(s)[#[trigger] s[i].column_name@] == s[i].data_value,
    decreases s.len(),
{
    if s.len() == 0 {
    } else {
        lemma_cols_map_props(s.drop_last());
        assert forall|n: Seq<char>| #[trigger]
            cols_map(s).contains_key(n) implies exists|i: int|
            0 <= i < s.len() && s[i].column_name@ == n by {
            if n == s.last().column_name@ {
                assert(s[s.len() - 1].column_name@ == n);
            } else {
                let i = choose|i: int|
                    0 <= i < s.drop_last().len() && s.drop_last()[i].column_name@ == n;
                assert(s[i].column_name@ == n);
            }
        }
        assert forall|n: Seq<char>|
            (exists|i: int| 0 <= i < s.len() && s[i].column_name@ == n)
            implies #[trigger] cols_map(s).contains_key(n) by {
            let i = choose|i: int| 0 <= i < s.len() && s[i].column_name@ == n;
            if i < s.len() - 1 {
                assert(s.drop_last()[i].column_name@ == n);
            }
        }
        if wf_cols(s) {
            assert(wf_cols(s.drop_last()));
            assert forall|i: int|
                0 <= i < s.len()
                implies cols_map(s)[#[trigger] s[i].column_name@] == s[i].data_value by {
                if i < s.len() - 1 {
                    assert(s[i].column_name@ != s.last().column_name@);
                    assert(s.drop_last()[i].column_name@ == s[i].column_name@);
                }
            }
        }
    }
}

/// Removing an entry removes exactly its name from the mapping.
proof fn lemma_cols_map_remove(s: Seq<ColumnEntry>, i: int)
    requires
        wf_cols(s),
        0 <= i < s.len(),
    ensures
        cols_map(s.remove(i)) == cols_map(s).remove(s[i].column_name@),
        wf_cols(s.remove(i)),
    decreases s.len(),
{
    lemma_cols_map_props(s.drop_last());
    if i == s.len() - 1 {
        assert(s.remove(i) =~= s.drop_last());
        assert(!cols_map(s.drop_last()).contains_key(s.last().column_name@));
        assert(cols_map(s.drop_last()) =~= cols_map(s).remove(s[i].column_name@));
    } else {
        assert(wf_cols(s.drop_last()));
        lemma_cols_map_remove(s.drop_last(), i);
        assert(s.remove(i).drop_last() =~= s.drop_last().remove(i));
        assert(s.remove(i).last() == s.last());
        assert(cols_map(s.remove(i)) == cols_map(s.drop_last().remove(i)).insert(
            s.last().column_name@,
            s.last().data_value,
        ));
        assert(s[i].column_name@ != s.last().column_name@);
        assert(cols_map(s.drop_last()).remove(s[i].column_name@).insert(
            s.last().column_name@,
            s.last().data_value,
        ) =~= cols_map(s).remove(s[i].column_name@));
    }
    assert(wf_cols(s.remove(i))) by {
        assert forall|a: int, b: int| 0 <= a < b < s.remove(i).len() implies s.remove(
            i,
        )[a].column_name@ != s.remove(i)[b].column_name@ by {
            let a0 = if a < i { a } else { a + 1 };
            let b0 = if b < i { b } else { b + 1 };
            assert(s.remove(i)[a] == s[a0]);
            assert(s.remove(i)[b] == s[b0]);
        }
    }
}

/// The materialized current value of a row: its set columns and whether the
/// row exists at all. An absent row holds no columns.
pub struct RowSnapshot {
    pub columns: Vec<ColumnEntry>,
    pub present: bool,
}

impl Clone for RowSnapshot {
    fn clone(&self) -> (r: Self)
        ensures
            r.columns@ == self.columns@,
            r.present == self.present,
    {
        let mut columns: Vec<ColumnEntry> = Vec::new();
        proof {
            assert(self.columns@.take(0) =~= Seq::<ColumnEntry>::empty());
        }
        let mut i: usize = 0;
        while i < self.columns.len()
            invariant
                i <= self.columns.len(),
                columns@ == self.columns@.take(i as int),
            decreases self.columns.len() - i,
        {
            columns.push(self.columns[i].clone());
            proof {
                assert(self.columns@.take(i + 1).drop_last() =~= self.columns@.take(i as int));
            }
            i += 1;
        }
        proof {
            assert(self.columns@.take(self.columns@.len() as int) =~= self.columns@);
        }
        RowSnapshot { columns, present: self.present }
    }
}

impl RowSnapshot {
    /// The column-name-to-value mapping this snapshot holds.
    pub open spec fn as_map(self) -> Map<Seq<char>, DataValue> {
        cols_map(self.columns@)
    }

    /// Names are unique, and an absent row holds no columns.
    pub open spec fn wf(self) -> bool {
        &&& wf_cols(self.columns@)
        &&& !self.present ==> self.columns@.len() == 0
    }

    /// An empty snapshot of an absent row.
    pub fn empty() -> (r: Self)
        ensures
            r.wf(),
            r.as_map() == Map::<Seq<char>, DataValue>::empty(),
            !r.present,
    {
        RowSnapshot { columns: Vec::new(), present: false }
    }

    /// Sets one column, making the row present; any earlier value of the
    /// same column is replaced.
    pub fn set_col(&mut self, name: &String, value: &DataValue)
        requires
            old(self).wf(),
        ensures
            final(self).wf(),
            final(self).as_map() == old(self).as_map().insert(name@, *value),
            final(self).present,
    {
        let ghost s0 = self.columns@;
        let mut i: usize = 0;
        while i < self.columns.len()
            invariant
                i <= self.columns@.len(),
                self.columns@ == s0,
                self.present == old(self).present,
                s0 == old(self).columns@,
                wf_cols(s0),
                forall|k: int| 0 <= k < i ==> s0[k].column_name@ != name@,
            decreases self.columns@.len() - i,
        {
            if self.columns[i].column_name == *name {
                proof {
                    lemma_cols_map_remove(s0, i as int);
                }
                self.columns.remove(i);
                self.columns.push(ColumnEntry {
                    column_name: name.clone(),
                    data_value: value.clone(),
                });
                self.present = true;
                proof {
                    let t = s0.remove(i as int);
                    assert(self.columns@.drop_last() =~= t);
                    assert(self.as_map() == cols_map(t).insert(name@, *value));
                    assert(s0[i as int].column_name@ == name@);
                    assert(cols_map(s0).remove(name@).insert(name@, *value) =~= cols_map(
                        s0,
                    ).insert(name@, *value));
                    assert forall|a: int, b: int|
                        0 <= a < b < self.columns@.len() implies self.columns@[a].column_name@
                        != self.columns@[b].column_name@ by {
                        if b < self.columns@.len() - 1 {
                            assert(self.columns@[a] == t[a]);
                            assert(self.columns@[b] == t[b]);
                            let a0 = if a < i { a } else { a + 1 };
                            let b0 = if b < i { b } else { b + 1 };
                            assert(t[a] == s0[a0]);
                            assert(t[b] == s0[b0]);
                        } else {
                            assert(self.columns@[a] == t[a]);
                            let a0 = if a < i { a } else { a + 1 };
                            assert(t[a] == s0[a0]);
                            assert(s0[a0].column_name@ != s0[i as int].column_name@);
                        }
                    }
                }
                return ;
            }
            i += 1;
        }
        proof {
            lemma_cols_map_props(s0);
            assert(!cols_map(s0).contains_key(name@));
        }
        self.columns.push(ColumnEntry { column_name: name.clone(), data_value: value.clone() });
        self.present = true;
        proof {
            assert(self.columns@.drop_last() =~= s0);
            assert forall|a: int, b: int|
                0 <= a < b < self.columns@.len() implies self.columns@[a].column_name@
                != self.columns@[b].column_name@ by {
                if b == self.columns@.len() - 1 {
                    assert(s0[a].column_name@ != name@);
                }
            }
        }
    }

    /// Clears every column and marks the row absent.
    pub fn clear(&mut self)
        ensures
            final(self).wf(),
            final(self).as_map() == Map::<Seq<char>, DataValue>::empty(),
            !final(self).present,
    {
        self.columns = Vec::new();
        self.present = false;
    }

    /// The value this snapshot holds for the named column, if any.
    pub fn get_column(&self, name: &String) -> (r: Option<&DataValue>)
        requires
            self.wf(),
        ensures
            match r {
                Some(v) => self.as_map().contains_key(name@) && *v == self.as_map()[name@],
                None => !self.as_map().contains_key(name@),
            },
    {
        let mut i: usize = 0;
        while i < self.columns.len()
            invariant
                i <= self.columns@.len(),
                self.wf(),
                forall|k: int| 0 <= k < i ==> self.columns@[k].column_name@ != name@,
            decreases self.columns@.len() - i,
        {
            if self.columns[i].column_name == *name {
                proof {
                    lemma_cols_map_props(self.columns@);
                }
                return Some(&self.columns[i].data_value);
            }
            i += 1;
        }
        proof {
            lemma_cols_map_props(self.columns@);
        }
        None
    }
}

/// Copies a column entry list.
pub fn clone_cols(cols: &Vec<ColumnEntry>) -> (r: Vec<ColumnEntry>)
    ensures
        r@ == cols@,
{
    let mut out: Vec<ColumnEntry> = Vec::new();
    proof {
        assert(cols@.take(0) =~= Seq::<ColumnEntry>::empty());
    }
    let mut i: usize = 0;
    while i < cols.len()
        invariant
            i <= cols@.len(),
            out@ == cols@.take(i as int),
        decreases cols@.len() - i,
    {
        out.push(cols[i].clone());
        proof {
            assert(cols@.take(i + 1).drop_last() =~= cols@.take(i as int));
        }
        i += 1;
    }
    proof {
        assert(cols@.take(cols@.len() as int) =~= cols@);
    }
    out
}

/// Checks that a column list names each column once.
pub fn check_wf_cols(cols: &Vec<ColumnEntry>) -> (r: bool)
    ensures
        r == wf_cols(cols@),
{
    let mut i: usize = 0;
    while i < cols.len()
        invariant
            i <= cols@.len(),
            forall|a: int, b: int| 0 <= a < b < i ==> cols@[a].column_name@ != cols@[b].column_name@,
        decreases cols@.len() - i,
    {
        let mut j: usize = 0;
        while j < i
            invariant
                j <= i < cols@.len(),
                forall|a: int, b: int|
                    0 <= a < b < i ==> cols@[a].column_name@ != cols@[b].column_name@,
                forall|a: int| 0 <= a < j ==> cols@[a].column_name@ != cols@[i as int].column_name@,
            decreases i - j,
        {
            if cols[j].column_name == cols[i].column_name {
                return false;
            }
            j += 1;
        }
        i += 1;
    }
    true
}

/// Folds an operation log, in any append order, into the row snapshot the
/// engine serves: operations are sorted by timestamp (appends break ties)
/// and applied left to right over an initially absent row.
pub fn fold_operations(ops: &Vec<RowOperation>) -> (r: RowSnapshot)
    ensures
        r.wf(),
        r.as_map() == row_cols(ops@),
        r.present == row_present(ops@),
{
    let sorted = sort_operations(ops);
    let mut snap = RowSnapshot::empty();
    proof {
        assert(sorted@.take(0) =~= Seq::<RowOperation>::empty());
    }
    let mut i: usize = 0;
    while i < sorted.len()
        invariant
            i <= sorted@.len(),
            snap.wf(),
            snap.as_map() == fold_cols(sorted@.take(i as int)),
            snap.present == fold_present(sorted@.take(i as int)),
        decreases sorted@.len() - i,
    {
        proof {
            assert(sorted@.take(i + 1).drop_last() =~= sorted@.take(i as int));
            assert(sorted@.take(i + 1).last() == sorted@[i as int]);
        }
        match &sorted[i].op_type {
            RowOperationType::RowOperation(uv) => {
                snap.set_col(&uv.column_name, &uv.data_value);
            },
            RowOperationType::Delete => {
                snap.clear();
            },
        }
        i += 1;
    }
    proof {
        assert(sorted@.take(sorted@.len() as int) =~= sorted@);
    }
    snap
}

} // verus!
