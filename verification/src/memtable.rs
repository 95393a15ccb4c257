use vstd::prelude::*;
use crate::ops::RowOperation;
use crate::ops::RowOperationType;
use crate::ops::row_cols;
use crate::ops::row_present;
use crate::order::key_eq;
use crate::order::key_lt;
use crate::order::key_clone;
use crate::order::lemma_lex_trichotomy;
use crate::order::lemma_lex_transitive;
use crate::order::lex_lt;
use crate::snapshot::RowSnapshot;
use crate::snapshot::fold_operations;
use crate::values::DataValue;

verus! {

/// One key's full staged history: its operation log and the memoized fold of
/// that log.
pub struct RowState {
    pub row_snapshot: RowSnapshot,
    pub operations: Vec<RowOperation>,
}

impl RowState {
    /// The memoized snapshot is exactly the fold of the operation log.
    pub open spec fn wf(self) -> bool {
        &&& self.row_snapshot.wf()
        &&& self.row_snapshot.as_map() == row_cols(self.operations@)
        &&& self.row_snapshot.present == row_present(self.operations@)
    }
}

/// One memtable slot: a primary key and the row state staged under it.
pub struct MemEntry {
    pub key: Vec<u8>,
    pub state: RowState,
}

/// The mapping from key bytes to staged operation log that an entry list
/// stands for.
pub open spec fn mem_map(s: Seq<MemEntry>) -> Map<Seq<u8>, Seq<RowOperation>>
    decreases s.len(),
{
    if s.len() == 0 {
        Map::empty()
    } else {
        mem_map(s.drop_last()).insert(s.last().key@, s.last().state.operations@)
    }
}

/// Entry keys are strictly ascending in lexicographic order.
pub open spec fn mem_sorted(s: Seq<MemEntry>) -> bool {
    forall|i: int, j: int| 0 <= i < j < s.len() ==> lex_lt(s[i].key@, s[j].key@)
}

/// A key of `mem_map` is exactly a key among the entries, and under sorted
/// (hence unique) keys each entry's log is what the map holds for its key.
pub proof fn lemma_mem_map_props(s: Seq<MemEntry>)
    ensures
        forall|n: Seq<u8>|
            #[trigger] mem_map(s).contains_key(n) <==> exists|i: int|
                0 <= i < s.len() && s[i].key@ == n,
        (forall|i: int, j: int| 0 <= i < j < s.len() ==> s[i].key@ != s[j].key@) ==> forall|i: int|
            0 <= i < s.len() ==> mem_map(s)[#[trigger] s[i].key@] == s[i].state.operations@,
    decreases s.len(),
{
    if s.len() == 0 {
    } else {
        lemma_mem_map_props(s.drop_last());
        assert forall|n: Seq<u8>| #[trigger]
            mem_map(s).contains_key(n) implies exists|i: int|
            0 <= i < s.len() && s[i].key@ == n by {
            if n == s.last().key@ {
                assert(s[s.len() - 1].key@ == n);
            } else {
                assert(mem_map(s.drop_last()).contains_key(n));
                let i = choose|i: int| 0 <= i < s.drop_last().len() && s.drop_last()[i].key@ == n;
                assert(s.drop_last()[i] == s[i]);
                assert(s[i].key@ == n);
            }
        }
        assert forall|n: Seq<u8>|
            (exists|i: int| 0 <= i < s.len() && s[i].key@ == n)
            implies #[trigger] mem_map(s).contains_key(n) by {
            let i = choose|i: int| 0 <= i < s.len() && s[i].key@ == n;
            if i < s.len() - 1 {
                assert(s.drop_last()[i].key@ == n);
                assert(exists|k: int| 0 <= k < s.drop_last().len() && s.drop_last()[k].key@ == n);
                assert(mem_map(s.drop_last()).contains_key(n));
            } else {
                assert(n == s.last().key@);
            }
        }
        if forall|i: int, j: int| 0 <= i < j < s.len() ==> s[i].key@ != s[j].key@ {
            assert forall|i: int, j: int|
                0 <= i < j < s.drop_last().len() implies s.drop_last()[i].key@
                != s.drop_last()[j].key@ by {
                assert(s[i].key@ != s[j].key@);
            }
            assert forall|i: int|
                0 <= i < s.len()
                implies mem_map(s)[#[trigger] s[i].key@] == s[i].state.operations@ by {
                if i < s.len() - 1 {
                    assert(s[i].key@ != s.last().key@);
                    assert(s.drop_last()[i].key@ == s[i].key@);
                }
            }
        }
    }
}

/// Inserting an entry under a fresh key adds exactly that key to the mapping.
proof fn lemma_mem_map_insert(s: Seq<MemEntry>, p: int, e: MemEntry)
    requires
        0 <= p <= s.len(),
        forall|i: int| 0 <= i < s.len() ==> s[i].key@ != e.key@,
    ensures
        mem_map(s.insert(p, e)) == mem_map(s).insert(e.key@, e.state.operations@),
    decreases s.len(),
{
    if p == s.len() {
        assert(s.insert(p, e) =~= s.push(e));
        assert(s.push(e).drop_last() =~= s);
    } else {
        assert forall|i: int| 0 <= i < s.drop_last().len() implies s.drop_last()[i].key@
            != e.key@ by {
            assert(s[i].key@ != e.key@);
        }
        lemma_mem_map_insert(s.drop_last(), p, e);
        assert(s.insert(p, e).drop_last() =~= s.drop_last().insert(p, e));
        assert(s.insert(p, e).last() == s.last());
        assert(s[s.len() - 1].key@ != e.key@);
        assert(mem_map(s.drop_last()).insert(e.key@, e.state.operations@).insert(
            s.last().key@,
            s.last().state.operations@,
        ) =~= mem_map(s).insert(e.key@, e.state.operations@));
    }
}

/// Replacing the entry at `i` with one under the same key replaces exactly
/// that key's log in the mapping.
proof fn lemma_mem_map_update(s: Seq<MemEntry>, i: int, e: MemEntry)
    requires
        0 <= i < s.len(),
        forall|a: int, b: int| 0 <= a < b < s.len() ==> s[a].key@ != s[b].key@,
        e.key@ == s[i].key@,
    ensures
        mem_map(s.update(i, e)) == mem_map(s).insert(e.key@, e.state.operations@),
    decreases s.len(),
{
    lemma_mem_map_props(s.drop_last());
    if i == s.len() - 1 {
        assert(s.update(i, e).drop_last() =~= s.drop_last());
        assert(s.update(i, e).last() == e);
        assert(!mem_map(s.drop_last()).contains_key(s.last().key@));
        assert(mem_map(s.drop_last()).insert(e.key@, e.state.operations@) =~= mem_map(s).insert(
            e.key@,
            e.state.operations@,
        ));
    } else {
        assert forall|a: int, b: int|
            0 <= a < b < s.drop_last().len() implies s.drop_last()[a].key@
            != s.drop_last()[b].key@ by {
            assert(s[a].key@ != s[b].key@);
        }
        lemma_mem_map_update(s.drop_last(), i, e);
        assert(s.update(i, e).drop_last() =~= s.drop_last().update(i, e));
        assert(s.update(i, e).last() == s.last());
        assert(e.key@ != s.last().key@);
        assert(mem_map(s.drop_last()).insert(e.key@, e.state.operations@).insert(
            s.last().key@,
            s.last().state.operations@,
        ) =~= mem_map(s).insert(e.key@, e.state.operations@));
    }
}

/// The approximate serialized size of one column value.
pub open spec fn value_size(v: DataValue) -> nat {
    match v {
        DataValue::Text(s) => s@.len(),
        DataValue::Integer(_) => 4,
        DataValue::Boolean(_) => 1,
        DataValue::Null => 1,
    }
}

/// The approximate serialized size of one row operation: an eight-byte
/// timestamp plus its payload.
pub open spec fn op_size(op: RowOperation) -> nat {
    8 + match op.op_type {
        RowOperationType::RowOperation(uv) => uv.column_name@.len() + value_size(uv.data_value),
        RowOperationType::Delete => 1nat,
    }
}

/// The approximate serialized size of a whole operation log.
pub open spec fn ops_size(s: Seq<RowOperation>) -> nat
    decreases s.len(),
{
    if s.len() == 0 {
        0
    } else {
        ops_size(s.drop_last()) + op_size(s.last())
    }
}

/// The approximate serialized size of everything a memtable stages.
pub open spec fn mem_size(s: Seq<MemEntry>) -> nat
    decreases s.len(),
{
    if s.len() == 0 {
        0
    } else {
        mem_size(s.drop_last()) + ops_size(s.last().state.operations@)
    }
}

/// Appending an operation grows a log's size by that operation's size.
proof fn lemma_ops_size_push(s: Seq<RowOperation>, op: RowOperation)
    ensures
        ops_size(s.push(op)) == ops_size(s) + op_size(op),
{
    assert(s.push(op).drop_last() =~= s);
}

/// Replacing one entry changes the total size by the difference of the two
/// logs' sizes.
proof fn lemma_mem_size_update(s: Seq<MemEntry>, i: int, e: MemEntry)
    requires
        0 <= i < s.len(),
    ensures
        mem_size(s.update(i, e)) + ops_size(s[i].state.operations@) == mem_size(s) + ops_size(
            e.state.operations@,
        ),
    decreases s.len(),
{
    if i == s.len() - 1 {
        assert(s.update(i, e).drop_last() =~= s.drop_last());
        assert(s.update(i, e).last() == e);
    } else {
        lemma_mem_size_update(s.drop_last(), i, e);
        assert(s.update(i, e).drop_last() =~= s.drop_last().update(i, e));
        assert(s.update(i, e).last() == s.last());
    }
}

/// Inserting an entry grows the total size by its log's size.
proof fn lemma_mem_size_insert(s: Seq<MemEntry>, p: int, e: MemEntry)
    requires
        0 <= p <= s.len(),
    ensures
        mem_size(s.insert(p, e)) == mem_size(s) + ops_size(e.state.operations@),
    decreases s.len(),
{
    if p == s.len() {
        assert(s.insert(p, e) =~= s.push(e));
        assert(s.push(e).drop_last() =~= s);
    } else {
        lemma_mem_size_insert(s.drop_last(), p, e);
        assert(s.insert(p, e).drop_last() =~= s.drop_last().insert(p, e));
        assert(s.insert(p, e).last() == s.last());
    }
}

/// A size sum clipped to what a machine word reports.
pub open spec fn sat64(n: nat) -> nat {
    if n > u64::MAX {
        u64::MAX as nat
    } else {
        n
    }
}

/// Adds with saturation at the top of the word.
fn sat_add(a: u64, b: u64) -> (r: u64)
    ensures
        r as nat == sat64(a as nat + b as nat),
{
    if b > u64::MAX - a {
        u64::MAX
    } else {
        a + b
    }
}

/// The in-memory staging structure of one table: an ordered mapping from
/// primary-key bytes to each key's staged row state.
pub struct Memtable {
    pub entries: Vec<MemEntry>,
}

impl Memtable {
    /// The mapping from key bytes to staged operation logs.
    pub open spec fn view(&self) -> Map<Seq<u8>, Seq<RowOperation>> {
        mem_map(self.entries@)
    }

    /// The approximate serialized size of everything staged here.
    pub open spec fn size_of(self) -> nat {
        mem_size(self.entries@)
    }

    /// Keys are strictly sorted and every staged row state is well-formed.
    pub open spec fn wf(self) -> bool {
        &&& mem_sorted(self.entries@)
        &&& forall|i: int| 0 <= i < self.entries@.len() ==> #[trigger] self.entries@[i].state.wf()
    }

    /// Distinct entries hold distinct keys.
    pub proof fn lemma_keys_unique(self)
        requires
            self.wf(),
        ensures
            forall|a: int, b: int|
                0 <= a < b < self.entries@.len() ==> self.entries@[a].key@
                    != self.entries@[b].key@,
    {
        assert forall|a: int, b: int|
            0 <= a < b < self.entries@.len() implies self.entries@[a].key@
            != self.entries@[b].key@ by {
            lemma_lex_trichotomy(self.entries@[a].key@, self.entries@[b].key@);
        }
    }

    /// An empty memtable.
    pub fn new() -> (r: Self)
        ensures
            r.wf(),
            r@ == Map::<Seq<u8>, Seq<RowOperation>>::empty(),
    {
        Memtable { entries: Vec::new() }
    }

    /// The staged operation log of `key`, if the memtable has the key.
    pub open spec fn spec_log_of(self, key: Seq<u8>) -> Seq<RowOperation> {
        if self@.contains_key(key) {
            self@[key]
        } else {
            Seq::empty()
        }
    }

    /// Appends one operation to the key's log, creating the row state if the
    /// key is new, and refreshes the memoized snapshot.
    pub fn put(&mut self, key: &Vec<u8>, op: RowOperation)
        requires
            old(self).wf(),
        ensures
            final(self).wf(),
            final(self)@ == old(self)@.insert(key@, old(self).spec_log_of(key@).push(op)),
            final(self).size_of() == old(self).size_of() + op_size(op),
    {
        proof {
            self.lemma_keys_unique();
            lemma_mem_map_props(self.entries@);
        }
        let ghost s0 = self.entries@;
        let mut p: usize = 0;
        while p < self.entries.len() && key_lt(&self.entries[p].key, key)
            invariant
                p <= self.entries@.len(),
                self.entries@ == s0,
                forall|k: int| 0 <= k < p ==> lex_lt(s0[k].key@, key@),
            decreases self.entries@.len() - p,
        {
            p += 1;
        }
        if p < self.entries.len() && key_eq(&self.entries[p].key, key) {
            // the key is staged already: extend its log and refold
            let mut e = self.entries.remove(p);
            e.state.operations.push(op);
            e.state.row_snapshot = fold_operations(&e.state.operations);
            let ghost e2 = e;
            self.entries.insert(p, e);
            proof {
                assert(self.entries@ =~= s0.update(p as int, e2));
                lemma_mem_map_update(s0, p as int, e2);
                lemma_mem_size_update(s0, p as int, e2);
                lemma_ops_size_push(s0[p as int].state.operations@, op);
                assert(e2.key@ == key@);
                assert(mem_map(s0)[s0[p as int].key@] == s0[p as int].state.operations@);
                assert(e2.state.operations@ == s0[p as int].state.operations@.push(op));
                assert(old(self).spec_log_of(key@) == s0[p as int].state.operations@);
                assert forall|a: int, b: int|
                    0 <= a < b < self.entries@.len() implies lex_lt(
                    self.entries@[a].key@,
                    self.entries@[b].key@,
                ) by {
                    assert(self.entries@[a].key@ == s0[a].key@);
                    assert(self.entries@[b].key@ == s0[b].key@);
                }
            }
        } else {
            // a fresh key: stage it at its sorted slot
            proof {
                if p < self.entries@.len() {
                    lemma_lex_trichotomy(s0[p as int].key@, key@);
                }
                assert forall|i: int| 0 <= i < s0.len() implies s0[i].key@ != key@ by {
                    if i < p {
                        lemma_lex_trichotomy(s0[i].key@, key@);
                    } else if i == p {
                    } else {
                        assert(lex_lt(s0[p as int].key@, s0[i].key@));
                        lemma_lex_transitive(key@, s0[p as int].key@, s0[i].key@);
                        lemma_lex_trichotomy(s0[i].key@, key@);
                    }
                }
                assert(!mem_map(s0).contains_key(key@));
                assert(old(self).spec_log_of(key@) =~= Seq::<RowOperation>::empty());
            }
            let mut ops: Vec<RowOperation> = Vec::new();
            ops.push(op);
            let snap = fold_operations(&ops);
            proof {
                assert(ops@ =~= Seq::<RowOperation>::empty().push(op));
            }
            let e = MemEntry { key: key_clone(key), state: RowState { row_snapshot: snap, operations: ops } };
            let ghost e2 = e;
            self.entries.insert(p, e);
            proof {
                lemma_mem_map_insert(s0, p as int, e2);
                lemma_mem_size_insert(s0, p as int, e2);
                assert(e2.state.operations@ =~= Seq::<RowOperation>::empty().push(op));
                assert(Seq::<RowOperation>::empty().push(op).drop_last() =~= Seq::<
                    RowOperation,
                >::empty());
                assert(Seq::<RowOperation>::empty().push(op).last() == op);
                assert(ops_size(Seq::<RowOperation>::empty()) == 0);
                assert(ops_size(Seq::<RowOperation>::empty().push(op)) == op_size(op));
                assert(ops_size(e2.state.operations@) == op_size(op));
                assert forall|a: int, b: int|
                    0 <= a < b < self.entries@.len() implies lex_lt(
                    self.entries@[a].key@,
                    self.entries@[b].key@,
                ) by {
                    let pi = p as int;
                    let a0 = if a < pi { a } else { a - 1 };
                    let b0 = if b < pi { b } else { b - 1 };
                    if a == pi {
                        // new entry below every later key
                        assert(self.entries@[b] == s0[b0]);
                        assert(lex_lt(s0[pi].key@, s0[b0].key@) || pi == b0);
                        if pi < b0 {
                            lemma_lex_transitive(key@, s0[pi].key@, s0[b0].key@);
                        }
                    } else if b == pi {
                        assert(self.entries@[a] == s0[a0]);
                    } else {
                        assert(self.entries@[a] == s0[a0]);
                        assert(self.entries@[b] == s0[b0]);
                        if a < pi && b > pi {
                            assert(a0 < b0 || a0 == b0);
                            if a0 == b0 {
                                assert(lex_lt(s0[a0].key@, key@));
                                assert(lex_lt(key@, s0[b0].key@) || !(lex_lt(s0[b0].key@, key@)));
                            }
                        }
                    }
                }
            }
        }
    }

    /// The memoized snapshot staged for `key`, if the memtable has it.
    pub fn get(&self, key: &Vec<u8>) -> (r: Option<&RowSnapshot>)
        requires
            self.wf(),
        ensures
            match r {
                Some(s) => self@.contains_key(key@) && s.wf() && s.as_map() == row_cols(
                    self@[key@],
                ) && s.present == row_present(self@[key@]),
                None => !self@.contains_key(key@),
            },
    {
        proof {
            self.lemma_keys_unique();
            lemma_mem_map_props(self.entries@);
        }
        let mut i: usize = 0;
        while i < self.entries.len()
            invariant
                i <= self.entries@.len(),
                self.wf(),
                forall|k: int| 0 <= k < i ==> self.entries@[k].key@ != key@,
            decreases self.entries@.len() - i,
        {
            if key_eq(&self.entries[i].key, key) {
                proof {
                    self.lemma_keys_unique();
                    lemma_mem_map_props(self.entries@);
                    assert(self.entries@[i as int].key@ == key@);
                    assert(self@.contains_key(key@));
                    assert(self@[key@] == self.entries@[i as int].state.operations@);
                    assert(self.entries@[i as int].state.wf());
                }
                return Some(&self.entries[i].state.row_snapshot);
            }
            i += 1;
        }
        proof {
            lemma_mem_map_props(self.entries@);
        }
        None
    }

    /// The approximate byte size of everything staged, clipped at the top of
    /// a machine word.
    pub fn size_estimate(&self) -> (r: u64)
        ensures
            r as nat == sat64(self.size_of()),
    {
        let mut acc: u64 = 0;
        proof {
            assert(self.entries@.take(0) =~= Seq::<MemEntry>::empty());
        }
        let mut i: usize = 0;
        while i < self.entries.len()
            invariant
                i <= self.entries@.len(),
                acc as nat == sat64(mem_size(self.entries@.take(i as int))),
            decreases self.entries@.len() - i,
        {
            let ops = &self.entries[i].state.operations;
            let mut inner: u64 = 0;
            proof {
                assert(ops@.take(0) =~= Seq::<RowOperation>::empty());
            }
            let mut j: usize = 0;
            while j < ops.len()
                invariant
                    j <= ops@.len(),
                    inner as nat == sat64(ops_size(ops@.take(j as int))),
                decreases ops@.len() - j,
            {
                let sz: u64 = match &ops[j].op_type {
                    RowOperationType::RowOperation(uv) => {
                        let name_len: usize = uv.column_name.as_str().unicode_len();
                        let val_len: u64 = match &uv.data_value {
                            DataValue::Text(s) => s.as_str().unicode_len() as u64,
                            DataValue::Integer(_) => 4,
                            DataValue::Boolean(_) => 1,
                            DataValue::Null => 1,
                        };
                        sat_add(sat_add(8, name_len as u64), val_len)
                    },
                    RowOperationType::Delete => 9,
                };
                proof {
                    assert(sz as nat == sat64(op_size(ops@[j as int])));
                    assert(ops@.take(j + 1).drop_last() =~= ops@.take(j as int));
                    assert(ops@.take(j + 1).last() == ops@[j as int]);
                }
                inner = sat_add(inner, sz);
                j += 1;
            }
            proof {
                assert(ops@.take(ops@.len() as int) =~= ops@);
                assert(self.entries@.take(i + 1).drop_last() =~= self.entries@.take(i as int));
                assert(self.entries@.take(i + 1).last() == self.entries@[i as int]);
            }
            acc = sat_add(acc, inner);
            i += 1;
        }
        proof {
            assert(self.entries@.take(self.entries@.len() as int) =~= self.entries@);
        }
        acc
    }

    /// Removes and returns everything staged, as key-sorted pairs of key and
    /// folded snapshot; the memtable is empty afterwards.
    pub fn drain(&mut self) -> (r: Vec<(Vec<u8>, RowSnapshot)>)
        requires
            old(self).wf(),
        ensures
            final(self).wf(),
            final(self)@ == Map::<Seq<u8>, Seq<RowOperation>>::empty(),
            r@.len() == old(self).entries@.len(),
            forall|i: int|
                0 <= i < r@.len() ==> (#[trigger] r@[i].0)@ == old(self).entries@[i].key@
                    && r@[i].1.wf() && r@[i].1.as_map() == row_cols(old(self)@[r@[i].0@])
                    && r@[i].1.present == row_present(old(self)@[r@[i].0@]),
            forall|i: int, j: int|
                0 <= i < j < r@.len() ==> lex_lt((#[trigger] r@[i].0)@, (#[trigger] r@[j].0)@),
    {
        proof {
            self.lemma_keys_unique();
            lemma_mem_map_props(self.entries@);
        }
        let mut out: Vec<(Vec<u8>, RowSnapshot)> = Vec::new();
        let mut i: usize = 0;
        while i < self.entries.len()
            invariant
                i <= self.entries@.len(),
                self.wf(),
                self.entries@ == old(self).entries@,
                out@.len() == i,
                forall|k: int|
                    0 <= k < i ==> (#[trigger] out@[k].0)@ == self.entries@[k].key@
                        && out@[k].1.wf() && out@[k].1.as_map() == row_cols(
                        self.entries@[k].state.operations@,
                    ) && out@[k].1.present == row_present(self.entries@[k].state.operations@),
            decreases self.entries@.len() - i,
        {
            let e = &self.entries[i];
            proof {
                assert(self.entries@[i as int].state.wf());
            }
            let k2 = key_clone(&e.key);
            let s2 = e.state.row_snapshot.clone();
            out.push((k2, s2));
            proof {
                assert(out@[i as int].0@ == self.entries@[i as int].key@);
                assert(out@[i as int].1.wf());
                assert(out@[i as int].1.as_map() == row_cols(
                    self.entries@[i as int].state.operations@,
                ));
            }
            i += 1;
        }
        self.entries = Vec::new();
        proof {
            lemma_mem_map_props(old(self).entries@);
            assert forall|k: int| 0 <= k < out@.len() implies old(self)@.contains_key(
                (#[trigger] out@[k].0)@,
            ) && old(self)@[out@[k].0@] == old(self).entries@[k].state.operations@ by {
                assert(old(self).entries@[k].key@ == out@[k].0@);
            }
        }
        out
    }
}

} // verus!
