use vstd::prelude::*;
use crate::errors::DbError;
use crate::memtable::MemEntry;
use crate::memtable::Memtable;
use crate::memtable::mem_map;
use crate::memtable::op_size;
use crate::memtable::sat64;
use crate::ops::RowOperation;
use crate::ops::RowOperationType;
use crate::ops::UpdateValue;
use crate::ops::row_cols;
use crate::ops::row_present;
use crate::segment::Segment;
use crate::segment::SegmentValue;
use crate::segment::SegmentStore;
use crate::segment::pairs_model;
use crate::segment::seg_map;
use crate::segment::store_lookup;
use crate::snapshot::RowSnapshot;
use crate::snapshot::clone_cols;
use crate::values::DataValue;
use crate::values::NamedColumn;
use crate::values::TableSchema;
use crate::values::lookup_col;

verus! {

/// One table bound to its staging memtable and its on-disk segments.
pub struct TableEntry {
    pub name: String,
    pub schema: TableSchema,
    pub memtable: Memtable,
    pub store: SegmentStore,
}

/// The table of the given name, read from the back of the list; well-formed
/// databases name each table once.
pub open spec fn tbl_lookup(s: Seq<TableEntry>, t: Seq<char>) -> Option<TableEntry>
    decreases s.len(),
{
    if s.len() == 0 {
        None
    } else if s.last().name@ == t {
        Some(s.last())
    } else {
        tbl_lookup(s.drop_last(), t)
    }
}

/// A name resolves exactly when some entry bears it, and under unique names
/// it resolves to that entry.
pub proof fn lemma_tbl_lookup_props(s: Seq<TableEntry>)
    ensures
        forall|t: Seq<char>|
            #[trigger] tbl_lookup(s, t) is Some <==> exists|i: int|
                0 <= i < s.len() && s[i].name@ == t,
        (forall|i: int, j: int| 0 <= i < j < s.len() ==> s[i].name@ != s[j].name@) ==> forall|
            i: int,
        |
            0 <= i < s.len() ==> tbl_lookup(s, (#[trigger] s[i]).name@) == Some(s[i]),
    decreases s.len(),
{
    if s.len() == 0 {
    } else {
        lemma_tbl_lookup_props(s.drop_last());
        assert forall|t: Seq<char>| #[trigger]
            tbl_lookup(s, t) is Some implies exists|i: int|
            0 <= i < s.len() && s[i].name@ == t by {
            if t == s.last().name@ {
                assert(s[s.len() - 1].name@ == t);
            } else {
                assert(tbl_lookup(s.drop_last(), t) is Some);
                let i = choose|i: int| 0 <= i < s.drop_last().len() && s.drop_last()[i].name@ == t;
                assert(s.drop_last()[i] == s[i]);
                assert(s[i].name@ == t);
            }
        }
        assert forall|t: Seq<char>|
            (exists|i: int| 0 <= i < s.len() && s[i].name@ == t)
            implies #[trigger] tbl_lookup(s, t) is Some by {
            let i = choose|i: int| 0 <= i < s.len() && s[i].name@ == t;
            if i < s.len() - 1 {
                assert(s.drop_last()[i].name@ == t);
                assert(exists|k: int| 0 <= k < s.drop_last().len() && s.drop_last()[k].name@ == t);
                assert(tbl_lookup(s.drop_last(), t) is Some);
            } else {
                assert(t == s.last().name@);
            }
        }
        if forall|i: int, j: int| 0 <= i < j < s.len() ==> s[i].name@ != s[j].name@ {
            assert forall|i: int, j: int|
                0 <= i < j < s.drop_last().len() implies s.drop_last()[i].name@
                != s.drop_last()[j].name@ by {
                assert(s[i].name@ != s[j].name@);
            }
            assert forall|i: int|
                0 <= i < s.len() implies tbl_lookup(s, (#[trigger] s[i]).name@) == Some(s[i]) by {
                if i < s.len() - 1 {
                    assert(s[i].name@ != s.last().name@);
                    assert(s.drop_last()[i] == s[i]);
                }
            }
        }
    }
}

/// Replacing the entry at `i` by one of the same name redirects exactly that
/// name.
proof fn lemma_tbl_lookup_update(s: Seq<TableEntry>, i: int, e: TableEntry)
    requires
        0 <= i < s.len(),
        forall|a: int, b: int| 0 <= a < b < s.len() ==> s[a].name@ != s[b].name@,
        e.name@ == s[i].name@,
    ensures
        forall|t: Seq<char>|
            #[trigger] tbl_lookup(s.update(i, e), t) == (if t == e.name@ {
                Some(e)
            } else {
                tbl_lookup(s, t)
            }),
    decreases s.len(),
{
    lemma_tbl_lookup_props(s.drop_last());
    if i == s.len() - 1 {
        assert forall|t: Seq<char>| #[trigger]
            tbl_lookup(s.update(i, e), t) == (if t == e.name@ {
                Some(e)
            } else {
                tbl_lookup(s, t)
            }) by {
            assert(s.update(i, e).drop_last() =~= s.drop_last());
            assert(s.update(i, e).last() == e);
        }
    } else {
        assert forall|a: int, b: int|
            0 <= a < b < s.drop_last().len() implies s.drop_last()[a].name@
            != s.drop_last()[b].name@ by {
            assert(s[a].name@ != s[b].name@);
        }
        lemma_tbl_lookup_update(s.drop_last(), i, e);
        assert forall|t: Seq<char>| #[trigger]
            tbl_lookup(s.update(i, e), t) == (if t == e.name@ {
                Some(e)
            } else {
                tbl_lookup(s, t)
            }) by {
            assert(s.update(i, e).drop_last() =~= s.drop_last().update(i, e));
            assert(s.update(i, e).last() == s.last());
            assert(e.name@ != s.last().name@);
            assert(tbl_lookup(s.drop_last().update(i, e), t) == (if t == e.name@ {
                Some(e)
            } else {
                tbl_lookup(s.drop_last(), t)
            }));
        }
    }
}

/// The segment contents that materializing a memtable produces: each staged
/// key folds to its snapshot, and an absent row becomes a tombstone.
pub open spec fn materialize(m: Map<Seq<u8>, Seq<RowOperation>>) -> Map<
    Seq<u8>,
    Option<Map<Seq<char>, DataValue>>,
> {
    Map::new(
        |k: Seq<u8>| m.contains_key(k),
        |k: Seq<u8>|
            if row_present(m[k]) {
                Some(row_cols(m[k]))
            } else {
                None
            },
    )
}

/// Drained pairs that fold each staged entry stand for exactly the
/// materialized memtable.
proof fn lemma_pairs_materialize(pairs: Seq<(Vec<u8>, RowSnapshot)>, entries: Seq<MemEntry>)
    requires
        pairs.len() == entries.len(),
        forall|i: int|
            0 <= i < pairs.len() ==> (#[trigger] pairs[i].0)@ == entries[i].key@ && pairs[i].1.as_map()
                == row_cols(entries[i].state.operations@) && pairs[i].1.present == row_present(
                entries[i].state.operations@,
            ),
    ensures
        pairs_model(pairs) == materialize(mem_map(entries)),
    decreases pairs.len(),
{
    if pairs.len() == 0 {
        assert(pairs_model(pairs) =~= materialize(mem_map(entries)));
    } else {
        assert forall|i: int|
            0 <= i < pairs.drop_last().len() implies (#[trigger] pairs.drop_last()[i].0)@
            == entries.drop_last()[i].key@ && pairs.drop_last()[i].1.as_map() == row_cols(
            entries.drop_last()[i].state.operations@,
        ) && pairs.drop_last()[i].1.present == row_present(
            entries.drop_last()[i].state.operations@,
        ) by {
            assert(pairs.drop_last()[i] == pairs[i]);
            assert(entries.drop_last()[i] == entries[i]);
        }
        lemma_pairs_materialize(pairs.drop_last(), entries.drop_last());
        assert(pairs[pairs.len() - 1].0@ == entries[entries.len() - 1].key@);
        assert(pairs_model(pairs) =~= materialize(mem_map(entries)));
    }
}

/// Whether one row operation is lawful under a table's schema: a delete
/// always is; an update must name a declared column and carry a value of its
/// type.
pub open spec fn op_valid(schema: TableSchema, op: RowOperation) -> bool {
    match op.op_type {
        RowOperationType::RowOperation(uv) => match lookup_col(schema.columns@, uv.column_name@) {
            Some(t) => uv.data_value.spec_matches_type(t),
            None => false,
        },
        RowOperationType::Delete => true,
    }
}

/// An embedded storage engine instance: its tables, each with a schema, a
/// memtable and a segment store, and its flush policy knobs.
pub struct Database {
    pub tables: Vec<TableEntry>,
    pub merge_interval: i32,
    pub memtable_size: i32,
}

impl Database {
    /// Table names are unique and every table's parts are well-formed.
    pub open spec fn wf(self) -> bool {
        &&& forall|i: int, j: int|
            0 <= i < j < self.tables@.len() ==> self.tables@[i].name@ != self.tables@[j].name@
        &&& forall|i: int|
            0 <= i < self.tables@.len() ==> (#[trigger] self.tables@[i]).memtable.wf()
                && self.tables@[i].store.wf() && self.tables@[i].schema.wf()
                && self.tables@[i].schema.table_name@ == self.tables@[i].name@
    }

    /// The memtable size at which a write triggers a flush; a threshold at
    /// or below zero flushes on every write.
    pub open spec fn threshold_of(self) -> nat {
        if self.memtable_size <= 0 {
            0
        } else {
            self.memtable_size as nat
        }
    }

    /// What reading key `k` of table `t` returns: the memtable shadows every
    /// segment, and among segments the newest hit wins; `None` is "not
    /// found", whether from a tombstone or from a key never written.
    pub open spec fn db_read(self, t: Seq<char>, k: Seq<u8>) -> Option<Map<Seq<char>, DataValue>> {
        match tbl_lookup(self.tables@, t) {
            Some(e) => {
                if e.memtable@.contains_key(k) {
                    if row_present(e.memtable@[k]) {
                        Some(row_cols(e.memtable@[k]))
                    } else {
                        None
                    }
                } else {
                    match store_lookup(e.store.segments@, k) {
                        Some(v) => v,
                        None => None,
                    }
                }
            },
            None => None,
        }
    }

    /// A fresh engine instance with no tables.
    pub fn new(merge_interval: i32, memtable_size: i32) -> (r: Self)
        ensures
            r.wf(),
            r.tables@.len() == 0,
            r.merge_interval == merge_interval,
            r.memtable_size == memtable_size,
    {
        Database { tables: Vec::new(), merge_interval, memtable_size }
    }

    /// The position of the named table, scanned to match `tbl_lookup`.
    fn find_table_index(&self, table_name: &str) -> (r: Option<usize>)
        ensures
            match r {
                Some(i) => i < self.tables@.len() && self.tables@[i as int].name@ == table_name@
                    && tbl_lookup(self.tables@, table_name@) == Some(self.tables@[i as int]),
                None => tbl_lookup(self.tables@, table_name@) is None,
            },
    {
        let tname: String = table_name.to_owned();
        proof {
            assert(self.tables@.take(self.tables@.len() as int) =~= self.tables@);
        }
        let mut i: usize = self.tables.len();
        while i > 0
            invariant
                i <= self.tables@.len(),
                tname@ == table_name@,
                tbl_lookup(self.tables@, table_name@) == tbl_lookup(
                    self.tables@.take(i as int),
                    table_name@,
                ),
            decreases i,
        {
            proof {
                assert(self.tables@.take(i as int).last() == self.tables@[i - 1]);
                assert(self.tables@.take(i as int).drop_last() =~= self.tables@.take(i - 1));
            }
            if self.tables[i - 1].name == tname {
                return Some(i - 1);
            }
            i -= 1;
        }
        proof {
            assert(self.tables@.take(0) =~= Seq::<TableEntry>::empty());
        }
        None
    }

    /// Registers a new table under its schema; the schema is validated and
    /// persisted by the caller once this returns it.
    pub fn create_table(
        &mut self,
        table_name: &str,
        columns: Vec<NamedColumn>,
        primary_key_columns: Vec<String>,
    ) -> (r: Result<TableSchema, DbError>)
        requires
            old(self).wf(),
        ensures
            final(self).wf(),
            r is Err ==> *final(self) == *old(self),
            (r == Err::<TableSchema, DbError>(DbError::TableAlreadyExists)) <==> tbl_lookup(
                old(self).tables@,
                table_name@,
            ) is Some,
            (r == Err::<TableSchema, DbError>(DbError::SchemaViolation)) <==> (tbl_lookup(
                old(self).tables@,
                table_name@,
            ) is None && !crate::values::schema_shape_wf(columns@, primary_key_columns@)),
            match r {
                Ok(schema) => {
                    &&& schema.table_name@ == table_name@
                    &&& schema.columns@ == columns@
                    &&& schema.primary_key_columns@ == primary_key_columns@
                    &&& schema.wf()
                    &&& final(self).tables@.len() == old(self).tables@.len() + 1
                    &&& final(self).tables@.drop_last() == old(self).tables@
                    &&& final(self).tables@.last().name@ == table_name@
                    &&& final(self).tables@.last().schema.table_name@ == table_name@
                    &&& final(self).tables@.last().schema.columns@ == columns@
                    &&& final(self).tables@.last().schema.primary_key_columns@
                        == primary_key_columns@
                    &&& final(self).tables@.last().memtable@ == Map::<
                        Seq<u8>,
                        Seq<RowOperation>,
                    >::empty()
                    &&& final(self).tables@.last().store.segments@.len() == 0
                    &&& final(self).merge_interval == old(self).merge_interval
                    &&& final(self).memtable_size == old(self).memtable_size
                },
                Err(e) => e == DbError::TableAlreadyExists || e == DbError::SchemaViolation,
            },
    {
        if let Some(_) = self.find_table_index(table_name) {
            return Err(DbError::TableAlreadyExists);
        }
        let schema = TableSchema {
            table_name: table_name.to_owned(),
            columns,
            primary_key_columns,
        };
        // a lawful schema declares each column once ...
        let mut i: usize = 0;
        while i < schema.columns.len()
            invariant
                i <= schema.columns@.len(),
                *self == *old(self),
                old(self).wf(),
                tbl_lookup(old(self).tables@, table_name@) is None,
                schema.columns@ == columns@,
                forall|a: int, b: int|
                    0 <= a < b < i ==> schema.columns@[a].column_name@
                        != schema.columns@[b].column_name@,
            decreases schema.columns@.len() - i,
        {
            let mut j: usize = 0;
            while j < i
                invariant
                    j <= i < schema.columns@.len(),
                    *self == *old(self),
                    old(self).wf(),
                    tbl_lookup(old(self).tables@, table_name@) is None,
                    schema.columns@ == columns@,
                    forall|a: int, b: int|
                        0 <= a < b < i ==> schema.columns@[a].column_name@
                            != schema.columns@[b].column_name@,
                    forall|a: int|
                        0 <= a < j ==> schema.columns@[a].column_name@
                            != schema.columns@[i as int].column_name@,
                decreases i - j,
            {
                if schema.columns[j].column_name == schema.columns[i].column_name {
                    return Err(DbError::SchemaViolation);
                }
                j += 1;
            }
            i += 1;
        }
        // ... and every primary-key column among its columns
        let mut k: usize = 0;
        while k < schema.primary_key_columns.len()
            invariant
                k <= schema.primary_key_columns@.len(),
                *self == *old(self),
                old(self).wf(),
                tbl_lookup(old(self).tables@, table_name@) is None,
                schema.columns@ == columns@,
                schema.primary_key_columns@ == primary_key_columns@,
                forall|a: int, b: int|
                    0 <= a < b < schema.columns@.len() ==> schema.columns@[a].column_name@
                        != schema.columns@[b].column_name@,
                forall|a: int|
                    0 <= a < k ==> lookup_col(
                        schema.columns@,
                        schema.primary_key_columns@[a]@,
                    ) is Some,
            decreases schema.primary_key_columns@.len() - k,
        {
            if schema.find_column_type(&schema.primary_key_columns[k]).is_none() {
                return Err(DbError::SchemaViolation);
            }
            k += 1;
        }
        let stored = schema.clone_schema();
        let name2: String = table_name.to_owned();
        let entry = TableEntry {
            name: name2,
            schema: stored,
            memtable: Memtable::new(),
            store: SegmentStore::new(),
        };
        let ghost e2 = entry;
        self.tables.push(entry);
        proof {
            assert(final(self).tables@.drop_last() =~= old(self).tables@);
            lemma_tbl_lookup_props(old(self).tables@);
            assert forall|i0: int, j0: int|
                0 <= i0 < j0 < final(self).tables@.len() implies final(self).tables@[i0].name@
                != final(self).tables@[j0].name@ by {
                if j0 == final(self).tables@.len() - 1 {
                    assert(final(self).tables@[i0] == old(self).tables@[i0]);
                    if old(self).tables@[i0].name@ == table_name@ {
                        assert(exists|x: int|
                            0 <= x < old(self).tables@.len() && old(self).tables@[x].name@
                                == table_name@);
                    }
                } else {
                    assert(final(self).tables@[i0] == old(self).tables@[i0]);
                    assert(final(self).tables@[j0] == old(self).tables@[j0]);
                }
            }
        }
        Ok(schema)
    }

    /// How the engine state after a write relates to the state before it:
    /// what is rejected and why, which table changed, how the key's log
    /// grew, and whether the write tripped the size threshold and flushed.
    pub open spec fn put_post(
        pre: Database,
        post: Database,
        t: Seq<char>,
        k: Seq<u8>,
        op: RowOperation,
        r: Result<(), DbError>,
    ) -> bool {
        &&& ((r == Err::<(), DbError>(DbError::TableNotFound)) <==> tbl_lookup(pre.tables@, t)
            is None)
        &&& post.merge_interval == pre.merge_interval
        &&& post.memtable_size == pre.memtable_size
        &&& match tbl_lookup(pre.tables@, t) {
            None => post == pre,
            Some(e0) => {
                &&& ((r == Err::<(), DbError>(DbError::SchemaViolation)) <==> !op_valid(
                    e0.schema,
                    op,
                ))
                &&& (!op_valid(e0.schema, op) ==> post == pre)
                &&& (op_valid(e0.schema, op) ==> {
                    let log2 = e0.memtable.spec_log_of(k).push(op);
                    let m2 = e0.memtable@.insert(k, log2);
                    let grew = sat64(e0.memtable.size_of() + op_size(op)) >= pre.threshold_of();
                    &&& r == Ok::<(), DbError>(())
                    &&& post.tables@.len() == pre.tables@.len()
                    &&& (forall|t2: Seq<char>|
                        t2 != t ==> #[trigger] tbl_lookup(post.tables@, t2) == tbl_lookup(
                            pre.tables@,
                            t2,
                        ))
                    &&& match tbl_lookup(post.tables@, t) {
                        None => false,
                        Some(e1) => {
                            &&& e1.name@ == e0.name@
                            &&& e1.schema == e0.schema
                            &&& (if grew {
                                &&& e1.memtable@ == Map::<Seq<u8>, Seq<RowOperation>>::empty()
                                &&& e1.store.segments@.len() == e0.store.segments@.len() + 1
                                &&& e1.store.segments@.drop_last() == e0.store.segments@
                                &&& seg_map(e1.store.segments@.last().records@) == materialize(m2)
                            } else {
                                &&& e1.memtable@ == m2
                                &&& e1.store.segments@ == e0.store.segments@
                            })
                        },
                    }
                })
            },
        }
    }

    /// Appends one operation to a key's log after validating it against the
    /// table's schema, and flushes the memtable into a new segment when the
    /// staged size reaches the threshold.
    pub fn put(&mut self, table_name: &str, primary_key: &Vec<u8>, row_op: &RowOperation) -> (r:
        Result<(), DbError>)
        requires
            old(self).wf(),
        ensures
            final(self).wf(),
            Database::put_post(*old(self), *final(self), table_name@, primary_key@, *row_op, r),
    {
        let idx = match self.find_table_index(table_name) {
            None => {
                return Err(DbError::TableNotFound);
            },
            Some(i) => i,
        };
        proof {
            assert(self.tables@[idx as int].memtable.wf());
            assert(self.tables@[idx as int].schema.wf());
        }
        match &row_op.op_type {
            RowOperationType::RowOperation(uv) => {
                match self.tables[idx].schema.find_column_type(&uv.column_name) {
                    None => {
                        return Err(DbError::SchemaViolation);
                    },
                    Some(t) => {
                        if !uv.data_value.matches_type(&t) {
                            return Err(DbError::SchemaViolation);
                        }
                    },
                }
            },
            RowOperationType::Delete => {},
        }
        let ghost pre = *self;
        let ghost e0 = self.tables@[idx as int];
        let mut e = self.tables.remove(idx);
        e.memtable.put(primary_key, row_op.clone());
        let est = e.memtable.size_estimate();
        let threshold: u64 = if self.memtable_size <= 0 {
            0
        } else {
            self.memtable_size as u64
        };
        if est >= threshold {
            let ghost m_pre = e.memtable;
            let pairs = e.memtable.drain();
            proof {
                m_pre.lemma_keys_unique();
                crate::memtable::lemma_mem_map_props(m_pre.entries@);
                assert forall|i: int|
                    0 <= i < pairs@.len() implies (#[trigger] pairs@[i].0)@
                    == m_pre.entries@[i].key@ && pairs@[i].1.as_map() == row_cols(
                    m_pre.entries@[i].state.operations@,
                ) && pairs@[i].1.present == row_present(m_pre.entries@[i].state.operations@) by {
                    assert(m_pre.entries@[i].key@ == pairs@[i].0@);
                    assert(m_pre@[m_pre.entries@[i].key@]
                        == m_pre.entries@[i].state.operations@);
                }
                lemma_pairs_materialize(pairs@, m_pre.entries@);
                assert forall|i: int|
                    0 <= i < pairs@.len() implies (#[trigger] pairs@[i].1).wf() by {
                    assert((pairs@[i].0)@ == m_pre.entries@[i].key@);
                }
            }
            e.store.write_segment(&pairs);
        }
        let ghost e2 = e;
        self.tables.insert(idx, e);
        proof {
            assert(self.tables@ =~= pre.tables@.update(idx as int, e2));
            lemma_tbl_lookup_update(pre.tables@, idx as int, e2);
            lemma_tbl_lookup_props(pre.tables@);
            assert(tbl_lookup(pre.tables@, table_name@) == Some(e0));
            assert(tbl_lookup(final(self).tables@, table_name@) == Some(e2));
            assert forall|i: int|
                0 <= i < final(self).tables@.len()
                implies (#[trigger] final(self).tables@[i]).memtable.wf()
                && final(self).tables@[i].store.wf() && final(self).tables@[i].schema.wf()
                && final(self).tables@[i].schema.table_name@ == final(self).tables@[i].name@ by {
                if i != idx as int {
                    assert(final(self).tables@[i] == pre.tables@[i]);
                }
            }
        }
        Ok(())
    }


    /// Writes one row's worth of column updates at one timestamp: every
    /// update is validated against the schema before any is appended, so a
    /// rejected write appends nothing.
    pub fn put_row(
        &mut self,
        table_name: &str,
        primary_key: &Vec<u8>,
        updates: &Vec<UpdateValue>,
        timestamp: u64,
    ) -> (r: Result<(), DbError>)
        requires
            old(self).wf(),
        ensures
            final(self).wf(),
            (r == Err::<(), DbError>(DbError::TableNotFound)) <==> tbl_lookup(
                old(self).tables@,
                table_name@,
            ) is None,
            r is Err ==> *final(self) == *old(self),
            match tbl_lookup(old(self).tables@, table_name@) {
                None => true,
                Some(e0) => {
                    &&& ((r is Ok) <==> (forall|i: int|
                        0 <= i < updates@.len() ==> op_valid(
                            e0.schema,
                            #[trigger] ops_of_updates(updates@, timestamp)[i],
                        )))
                    &&& ((r == Err::<(), DbError>(DbError::SchemaViolation)) <==> !(forall|i: int|
                        0 <= i < updates@.len() ==> op_valid(
                            e0.schema,
                            #[trigger] ops_of_updates(updates@, timestamp)[i],
                        )))
                    &&& (r is Ok ==> puts_post(
                        *old(self),
                        *final(self),
                        table_name@,
                        primary_key@,
                        ops_of_updates(updates@, timestamp),
                    ))
                },
            },
    {
        let idx = match self.find_table_index(table_name) {
            None => {
                return Err(DbError::TableNotFound);
            },
            Some(i) => i,
        };
        let ghost e0 = self.tables@[idx as int];
        let ghost all_ops = ops_of_updates(updates@, timestamp);
        let mut v: usize = 0;
        while v < updates.len()
            invariant
                v <= updates@.len(),
                *self == *old(self),
                old(self).wf(),
                idx < self.tables@.len(),
                e0 == self.tables@[idx as int],
                tbl_lookup(old(self).tables@, table_name@) == Some(e0),
                all_ops == ops_of_updates(updates@, timestamp),
                forall|a: int| 0 <= a < v ==> op_valid(e0.schema, #[trigger] all_ops[a]),
            decreases updates@.len() - v,
        {
            let uv = &updates[v];
            proof {
                assert(all_ops[v as int] == RowOperation {
                    op_type: RowOperationType::RowOperation(updates@[v as int]),
                    timestamp,
                });
            }
            match self.tables[idx].schema.find_column_type(&uv.column_name) {
                None => {
                    proof {
                        assert(!op_valid(e0.schema, all_ops[v as int]));
                    }
                    return Err(DbError::SchemaViolation);
                },
                Some(ty) => {
                    if !uv.data_value.matches_type(&ty) {
                        proof {
                            assert(!op_valid(e0.schema, all_ops[v as int]));
                        }
                        return Err(DbError::SchemaViolation);
                    }
                },
            }
            v += 1;
        }
        let ghost pre = *self;
        let mut w: usize = 0;
        proof {
            assert(all_ops.take(0) =~= Seq::<RowOperation>::empty());
        }
        while w < updates.len()
            invariant
                w <= updates@.len(),
                self.wf(),
                old(self).wf(),
                pre == *old(self),
                all_ops == ops_of_updates(updates@, timestamp),
                forall|a: int| 0 <= a < updates@.len() ==> op_valid(e0.schema, #[trigger] all_ops[a]),
                tbl_lookup(pre.tables@, table_name@) == Some(e0),
                puts_post(pre, *self, table_name@, primary_key@, all_ops.take(w as int)),
                tbl_lookup(self.tables@, table_name@) is Some,
                tbl_lookup(self.tables@, table_name@)->0.schema == e0.schema,
            decreases updates@.len() - w,
        {
            let ghost cur = *self;
            let op = RowOperation {
                op_type: RowOperationType::RowOperation(updates[w].clone()),
                timestamp,
            };
            proof {
                assert(op == all_ops[w as int]);
            }
            let res = self.put(table_name, primary_key, &op);
            proof {
                let e_cur = tbl_lookup(cur.tables@, table_name@)->0;
                assert(op_valid(e_cur.schema, op));
                assert(res == Ok::<(), DbError>(()));
                lemma_puts_post_snoc(
                    pre,
                    cur,
                    *self,
                    table_name@,
                    primary_key@,
                    all_ops.take(w as int),
                    op,
                );
                assert(all_ops.take(w + 1) =~= all_ops.take(w as int).push(op));
            }
            match res {
                Ok(()) => {},
                Err(e) => {
                    return Err(e);
                },
            }
            w += 1;
        }
        proof {
            assert(all_ops.take(all_ops.len() as int) =~= all_ops);
        }
        Ok(())
    }

    /// How the engine state after a manual flush relates to the state before
    /// it: the table's staged rows become one new segment, tombstones
    /// included, and its memtable is left empty.
    pub open spec fn flush_post(
        pre: Database,
        post: Database,
        t: Seq<char>,
        r: Result<(), DbError>,
    ) -> bool {
        &&& ((r == Err::<(), DbError>(DbError::TableNotFound)) <==> tbl_lookup(pre.tables@, t)
            is None)
        &&& post.merge_interval == pre.merge_interval
        &&& post.memtable_size == pre.memtable_size
        &&& match tbl_lookup(pre.tables@, t) {
            None => post == pre,
            Some(e0) => {
                &&& r == Ok::<(), DbError>(())
                &&& post.tables@.len() == pre.tables@.len()
                &&& (forall|t2: Seq<char>|
                    t2 != t ==> #[trigger] tbl_lookup(post.tables@, t2) == tbl_lookup(
                        pre.tables@,
                        t2,
                    ))
                &&& match tbl_lookup(post.tables@, t) {
                    None => false,
                    Some(e1) => {
                        &&& e1.name@ == e0.name@
                        &&& e1.schema == e0.schema
                        &&& e1.memtable@ == Map::<Seq<u8>, Seq<RowOperation>>::empty()
                        &&& e1.store.segments@.len() == e0.store.segments@.len() + 1
                        &&& e1.store.segments@.drop_last() == e0.store.segments@
                        &&& seg_map(e1.store.segments@.last().records@) == materialize(
                            e0.memtable@,
                        )
                    },
                }
            },
        }
    }

    /// Drains the table's memtable into one new immutable segment; the
    /// manual compaction trigger.
    pub fn flush(&mut self, table_name: &str) -> (r: Result<(), DbError>)
        requires
            old(self).wf(),
        ensures
            final(self).wf(),
            Database::flush_post(*old(self), *final(self), table_name@, r),
    {
        let idx = match self.find_table_index(table_name) {
            None => {
                return Err(DbError::TableNotFound);
            },
            Some(i) => i,
        };
        proof {
            assert(self.tables@[idx as int].memtable.wf());
        }
        let ghost pre = *self;
        let ghost e0 = self.tables@[idx as int];
        let mut e = self.tables.remove(idx);
        let ghost m_pre = e.memtable;
        let pairs = e.memtable.drain();
        proof {
            m_pre.lemma_keys_unique();
            crate::memtable::lemma_mem_map_props(m_pre.entries@);
            assert forall|i: int|
                0 <= i < pairs@.len() implies (#[trigger] pairs@[i].0)@
                == m_pre.entries@[i].key@ && pairs@[i].1.as_map() == row_cols(
                m_pre.entries@[i].state.operations@,
            ) && pairs@[i].1.present == row_present(m_pre.entries@[i].state.operations@) by {
                assert(m_pre.entries@[i].key@ == pairs@[i].0@);
                assert(m_pre@[m_pre.entries@[i].key@] == m_pre.entries@[i].state.operations@);
            }
            lemma_pairs_materialize(pairs@, m_pre.entries@);
            assert forall|i: int| 0 <= i < pairs@.len() implies (#[trigger] pairs@[i].1).wf() by {
                assert((pairs@[i].0)@ == m_pre.entries@[i].key@);
            }
        }
        e.store.write_segment(&pairs);
        let ghost e2 = e;
        self.tables.insert(idx, e);
        proof {
            assert(self.tables@ =~= pre.tables@.update(idx as int, e2));
            lemma_tbl_lookup_update(pre.tables@, idx as int, e2);
            lemma_tbl_lookup_props(pre.tables@);
            assert(tbl_lookup(pre.tables@, table_name@) == Some(e0));
            assert(tbl_lookup(final(self).tables@, table_name@) == Some(e2));
            assert forall|i: int|
                0 <= i < final(self).tables@.len()
                implies (#[trigger] final(self).tables@[i]).memtable.wf()
                && final(self).tables@[i].store.wf() && final(self).tables@[i].schema.wf()
                && final(self).tables@[i].schema.table_name@ == final(self).tables@[i].name@ by {
                if i != idx as int {
                    assert(final(self).tables@[i] == pre.tables@[i]);
                }
            }
        }
        Ok(())
    }

    /// Appends a delete operation for the key at the given timestamp.
    pub fn delete(&mut self, table_name: &str, primary_key: &Vec<u8>, timestamp: u64) -> (r:
        Result<(), DbError>)
        requires
            old(self).wf(),
        ensures
            final(self).wf(),
            Database::put_post(
                *old(self),
                *final(self),
                table_name@,
                primary_key@,
                RowOperation { op_type: RowOperationType::Delete, timestamp },
                r,
            ),
    {
        let op = RowOperation { op_type: RowOperationType::Delete, timestamp };
        self.put(table_name, primary_key, &op)
    }

    /// Reads the current row for the key: the memtable first, then segments
    /// newest to oldest; a tombstone at either layer reads as not found.
    pub fn get(&self, table_name: &str, primary_key: &Vec<u8>) -> (r: Result<
        Option<RowSnapshot>,
        DbError,
    >)
        requires
            self.wf(),
        ensures
            (r is Err) <==> tbl_lookup(self.tables@, table_name@) is None,
            (r == Err::<Option<RowSnapshot>, DbError>(DbError::TableNotFound)) <==> tbl_lookup(
                self.tables@,
                table_name@,
            ) is None,
            match r {
                Ok(found) => match found {
                    Some(snap) => snap.wf() && snap.present && self.db_read(
                        table_name@,
                        primary_key@,
                    ) == Some(snap.as_map()),
                    None => self.db_read(table_name@, primary_key@) is None,
                },
                Err(_) => true,
            },
    {
        let idx = match self.find_table_index(table_name) {
            None => {
                return Err(DbError::TableNotFound);
            },
            Some(i) => i,
        };
        proof {
            assert(self.tables@[idx as int].memtable.wf());
            assert(self.tables@[idx as int].store.wf());
        }
        let e = &self.tables[idx];
        match e.memtable.get(primary_key) {
            Some(snap) => {
                if snap.present {
                    Ok(Some(snap.clone()))
                } else {
                    Ok(None)
                }
            },
            None => {
                match e.store.lookup(primary_key) {
                    Some(SegmentValue::Row(cols)) => {
                        let copy = clone_cols(cols);
                        Ok(Some(RowSnapshot { columns: copy, present: true }))
                    },
                    Some(SegmentValue::Tombstone) => Ok(None),
                    None => Ok(None),
                }
            },
        }
    }

    /// The staged byte-size estimate and segment count of one table.
    pub fn stats(&self, table_name: &str) -> (r: Result<(u64, usize), DbError>)
        requires
            self.wf(),
        ensures
            (r is Err) <==> tbl_lookup(self.tables@, table_name@) is None,
            (r == Err::<(u64, usize), DbError>(DbError::TableNotFound)) <==> tbl_lookup(
                self.tables@,
                table_name@,
            ) is None,
            match r {
                Ok(pair) => match tbl_lookup(self.tables@, table_name@) {
                    Some(e0) => pair.0 as nat == sat64(e0.memtable.size_of()) && pair.1
                        == e0.store.segments@.len(),
                    None => false,
                },
                Err(_) => true,
            },
    {
        let idx = match self.find_table_index(table_name) {
            None => {
                return Err(DbError::TableNotFound);
            },
            Some(i) => i,
        };
        let e = &self.tables[idx];
        Ok((e.memtable.size_estimate(), e.store.segments.len()))
    }

    /// Whether a periodic merge is due after the given elapsed time; a
    /// non-positive interval makes every check due.
    pub fn merge_due(&self, elapsed: u64) -> (r: bool)
        ensures
            r == (self.merge_interval <= 0 || elapsed >= self.merge_interval as u64),
    {
        self.merge_interval <= 0 || elapsed >= self.merge_interval as u64
    }

    /// Installs a segment read back from disk as the table's newest; the
    /// caller obtains well-formed segments from `Segment::from_records`.
    pub fn append_segment(&mut self, table_name: &str, segment: Segment) -> (r: Result<
        (),
        DbError,
    >)
        requires
            old(self).wf(),
            segment.wf(),
        ensures
            final(self).wf(),
            (r == Err::<(), DbError>(DbError::TableNotFound)) <==> tbl_lookup(
                old(self).tables@,
                table_name@,
            ) is None,
            r is Err ==> *final(self) == *old(self),
            match tbl_lookup(old(self).tables@, table_name@) {
                None => true,
                Some(e0) => match tbl_lookup(final(self).tables@, table_name@) {
                    None => false,
                    Some(e1) => {
                        &&& e1.name@ == e0.name@
                        &&& e1.schema == e0.schema
                        &&& e1.memtable@ == e0.memtable@
                        &&& e1.store.segments@.len() == e0.store.segments@.len() + 1
                        &&& e1.store.segments@.drop_last() == e0.store.segments@
                        &&& e1.store.segments@.last() == segment
                        &&& (forall|t2: Seq<char>|
                            t2 != table_name@ ==> #[trigger] tbl_lookup(final(self).tables@, t2)
                                == tbl_lookup(old(self).tables@, t2))
                    },
                },
            },
    {
        let idx = match self.find_table_index(table_name) {
            None => {
                return Err(DbError::TableNotFound);
            },
            Some(i) => i,
        };
        let ghost pre = *self;
        let ghost e0 = self.tables@[idx as int];
        let mut e = self.tables.remove(idx);
        e.store.segments.push(segment);
        let ghost e2 = e;
        self.tables.insert(idx, e);
        proof {
            assert(self.tables@ =~= pre.tables@.update(idx as int, e2));
            lemma_tbl_lookup_update(pre.tables@, idx as int, e2);
            lemma_tbl_lookup_props(pre.tables@);
            assert(e2.store.segments@.drop_last() =~= e0.store.segments@);
            assert forall|i: int|
                0 <= i < e2.store.segments@.len()
                implies (#[trigger] e2.store.segments@[i]).wf() by {
                if i < e2.store.segments@.len() - 1 {
                    assert(e2.store.segments@[i] == e0.store.segments@[i]);
                }
            }
            assert forall|i: int|
                0 <= i < final(self).tables@.len()
                implies (#[trigger] final(self).tables@[i]).memtable.wf()
                && final(self).tables@[i].store.wf() && final(self).tables@[i].schema.wf()
                && final(self).tables@[i].schema.table_name@ == final(self).tables@[i].name@ by {
                if i != idx as int {
                    assert(final(self).tables@[i] == pre.tables@[i]);
                }
            }
        }
        Ok(())
    }
}


/// The row operations that one multi-column write stands for: one update
/// per column, all at the write's timestamp.
pub open spec fn ops_of_updates(updates: Seq<UpdateValue>, timestamp: u64) -> Seq<RowOperation> {
    updates.map_values(
        |uv: UpdateValue| RowOperation { op_type: RowOperationType::RowOperation(uv), timestamp },
    )
}

/// The chaining of accepted single writes: some sequence of intermediate
/// engine states joins the state before to the state after, one operation
/// at a time.
pub open spec fn puts_post(
    pre: Database,
    post: Database,
    t: Seq<char>,
    k: Seq<u8>,
    ops: Seq<RowOperation>,
) -> bool
    decreases ops.len(),
{
    if ops.len() == 0 {
        post == pre
    } else {
        exists|mid: Database|
            #[trigger] Database::put_post(pre, mid, t, k, ops.first(), Ok(())) && mid.wf()
                && puts_post(mid, post, t, k, ops.drop_first())
    }
}

/// Extends a chain of accepted writes by one more at its end.
proof fn lemma_puts_post_snoc(
    pre: Database,
    mid: Database,
    post: Database,
    t: Seq<char>,
    k: Seq<u8>,
    ops: Seq<RowOperation>,
    op: RowOperation,
)
    requires
        puts_post(pre, mid, t, k, ops),
        mid.wf(),
        post.wf(),
        Database::put_post(mid, post, t, k, op, Ok(())),
    ensures
        puts_post(pre, post, t, k, ops.push(op)),
    decreases ops.len(),
{
    if ops.len() == 0 {
        assert(mid == pre);
        assert(ops.push(op).first() == op);
        assert(ops.push(op).drop_first() =~= Seq::<RowOperation>::empty());
        assert(Database::put_post(pre, post, t, k, op, Ok(())));
        assert(puts_post(post, post, t, k, ops.push(op).drop_first()));
    } else {
        let mid1 = choose|mid1: Database|
            #[trigger] Database::put_post(pre, mid1, t, k, ops.first(), Ok(())) && mid1.wf()
                && puts_post(mid1, mid, t, k, ops.drop_first());
        lemma_puts_post_snoc(mid1, mid, post, t, k, ops.drop_first(), op);
        assert(ops.push(op).first() == ops.first());
        assert(ops.push(op).drop_first() =~= ops.drop_first().push(op));
        assert(Database::put_post(pre, mid1, t, k, ops.push(op).first(), Ok(())) && mid1.wf()
            && puts_post(mid1, post, t, k, ops.push(op).drop_first()));
    }
}

/// Whether a timestamp is at or above everything staged for the key of the
/// named table.
pub open spec fn log_dominated(pre: Database, t: Seq<char>, k: Seq<u8>, ts: u64) -> bool {
    match tbl_lookup(pre.tables@, t) {
        Some(e0) => forall|i: int|
            0 <= i < e0.memtable.spec_log_of(k).len() ==> e0.memtable.spec_log_of(k)[i].timestamp
                <= ts,
        None => false,
    }
}

/// Read-after-write: a write accepted at a timestamp at or above everything
/// staged for its key is what a read of that key then returns, with that
/// column set to the written value — whether or not the write tripped a
/// flush in between.
pub proof fn law_read_after_write(
    pre: Database,
    post: Database,
    t: Seq<char>,
    k: Seq<u8>,
    uv: UpdateValue,
    ts: u64,
)
    requires
        pre.wf(),
        Database::put_post(
            pre,
            post,
            t,
            k,
            RowOperation { op_type: RowOperationType::RowOperation(uv), timestamp: ts },
            Ok(()),
        ),
        log_dominated(pre, t, k, ts),
    ensures
        post.db_read(t, k) is Some,
        post.db_read(t, k)->0.contains_key(uv.column_name@),
        post.db_read(t, k)->0[uv.column_name@] == uv.data_value,
{
    let op = RowOperation { op_type: RowOperationType::RowOperation(uv), timestamp: ts };
    let e0 = tbl_lookup(pre.tables@, t)->0;
    let log = e0.memtable.spec_log_of(k);
    let log2 = log.push(op);
    let m2 = e0.memtable@.insert(k, log2);
    crate::ops::lemma_latest_update_wins(log, uv, ts);
    assert(row_present(log2));
    assert(row_cols(log2)[uv.column_name@] == uv.data_value);
    assert(row_cols(log2).contains_key(uv.column_name@));
    let e1 = tbl_lookup(post.tables@, t)->0;
    let grew = sat64(e0.memtable.size_of() + op_size(op)) >= pre.threshold_of();
    if grew {
        assert(!e1.memtable@.contains_key(k));
        let seg = e1.store.segments@.last();
        assert(seg_map(seg.records@) == materialize(m2));
        assert(materialize(m2).contains_key(k));
        assert(materialize(m2)[k] == Some(row_cols(log2)));
        assert(store_lookup(e1.store.segments@, k) == Some(Some(row_cols(log2))));
        assert(post.db_read(t, k) == Some(row_cols(log2)));
    } else {
        assert(e1.memtable@.contains_key(k));
        assert(e1.memtable@[k] == log2);
        assert(post.db_read(t, k) == Some(row_cols(log2)));
    }
}

/// Writes to distinct keys of one table are independent: a second write
/// under another key, flush or no flush, leaves what a read of the first
/// key returns unchanged.
pub proof fn law_distinct_keys_independent(
    pre: Database,
    mid: Database,
    post: Database,
    t: Seq<char>,
    k1: Seq<u8>,
    k2: Seq<u8>,
    op1: RowOperation,
    op2: RowOperation,
)
    requires
        pre.wf(),
        mid.wf(),
        k1 != k2,
        Database::put_post(pre, mid, t, k1, op1, Ok(())),
        Database::put_post(mid, post, t, k2, op2, Ok(())),
    ensures
        post.db_read(t, k1) == mid.db_read(t, k1),
{
    let e0 = tbl_lookup(pre.tables@, t)->0;
    let e1 = tbl_lookup(mid.tables@, t)->0;
    let e2 = tbl_lookup(post.tables@, t)->0;
    let log2 = e1.memtable.spec_log_of(k2).push(op2);
    let m2 = e1.memtable@.insert(k2, log2);
    let grew = sat64(e1.memtable.size_of() + op_size(op2)) >= mid.threshold_of();
    if grew {
        assert(!e2.memtable@.contains_key(k1));
        let seg = e2.store.segments@.last();
        assert(seg_map(seg.records@) == materialize(m2));
        if e1.memtable@.contains_key(k1) {
            assert(m2.contains_key(k1) && m2[k1] == e1.memtable@[k1]);
            assert(materialize(m2).contains_key(k1));
            assert(store_lookup(e2.store.segments@, k1) == Some(materialize(m2)[k1]));
            if row_present(e1.memtable@[k1]) {
                assert(post.db_read(t, k1) == Some(row_cols(e1.memtable@[k1])));
                assert(mid.db_read(t, k1) == Some(row_cols(e1.memtable@[k1])));
            } else {
                assert(post.db_read(t, k1) is None);
                assert(mid.db_read(t, k1) is None);
            }
        } else {
            assert(!m2.contains_key(k1));
            assert(!materialize(m2).contains_key(k1));
            assert(!seg_map(seg.records@).contains_key(k1));
            assert(e2.store.segments@.drop_last() == e1.store.segments@);
            assert(store_lookup(e2.store.segments@, k1) == store_lookup(
                e1.store.segments@,
                k1,
            ));
        }
    } else {
        assert(e2.memtable@ == m2);
        assert(m2.contains_key(k1) == e1.memtable@.contains_key(k1));
        if e1.memtable@.contains_key(k1) {
            assert(m2[k1] == e1.memtable@[k1]);
        }
        assert(e2.store.segments@ == e1.store.segments@);
    }
}

/// Tombstone shadowing: after flushing a key whose fold left the row
/// absent, a read of that key finds the tombstone in the new segment and
/// reports not found, whatever any older segment holds for the key.
pub proof fn law_tombstone_shadowing(pre: Database, post: Database, t: Seq<char>, k: Seq<u8>)
    requires
        pre.wf(),
        Database::flush_post(pre, post, t, Ok(())),
        tbl_lookup(pre.tables@, t) is Some,
        tbl_lookup(pre.tables@, t)->0.memtable@.contains_key(k),
        !row_present(tbl_lookup(pre.tables@, t)->0.memtable@[k]),
    ensures
        post.db_read(t, k) is None,
{
    let e0 = tbl_lookup(pre.tables@, t)->0;
    let e1 = tbl_lookup(post.tables@, t)->0;
    assert(!e1.memtable@.contains_key(k));
    let seg = e1.store.segments@.last();
    assert(seg_map(seg.records@) == materialize(e0.memtable@));
    assert(materialize(e0.memtable@).contains_key(k));
    assert(materialize(e0.memtable@)[k] is None);
    assert(store_lookup(e1.store.segments@, k) == Some(None::<Map<Seq<char>, DataValue>>));
}


} // verus!
