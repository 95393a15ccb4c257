use vstd::prelude::*;
use crate::errors::DbError;
use crate::order::key_eq;
use crate::order::key_lt;
use crate::order::key_clone;
use crate::order::lemma_lex_trichotomy;
use crate::order::lemma_lex_transitive;
use crate::order::lex_lt;
use crate::snapshot::ColumnEntry;
use crate::snapshot::RowSnapshot;
use crate::snapshot::check_wf_cols;
use crate::snapshot::cols_map;
use crate::snapshot::wf_cols;
use crate::values::DataValue;

verus! {

/// What a segment holds for one key: the materialized row, or a tombstone
/// recording that the key was deleted as of this segment's flush.
pub enum SegmentValue {
    Row(Vec<ColumnEntry>),
    Tombstone,
}

/// A tombstone stands for "no row"; a stored row stands for its column
/// mapping.
pub open spec fn seg_value_model(v: SegmentValue) -> Option<Map<Seq<char>, DataValue>> {
    match v {
        SegmentValue::Row(cols) => Some(cols_map(cols@)),
        SegmentValue::Tombstone => None,
    }
}

/// A stored row lists each column once.
pub open spec fn seg_value_wf(v: SegmentValue) -> bool {
    match v {
        SegmentValue::Row(cols) => wf_cols(cols@),
        SegmentValue::Tombstone => true,
    }
}

/// One record of a segment: a primary key and what the segment holds for it.
pub struct SegmentRecord {
    pub key: Vec<u8>,
    pub value: SegmentValue,
}

/// The mapping from key bytes to row-or-tombstone that a record list stands
/// for.
pub open spec fn seg_map(s: Seq<SegmentRecord>) -> Map<Seq<u8>, Option<Map<Seq<char>, DataValue>>>
    decreases s.len(),
{
    if s.len() == 0 {
        Map::empty()
    } else {
        seg_map(s.drop_last()).insert(s.last().key@, seg_value_model(s.last().value))
    }
}

/// A key of `seg_map` is exactly a key among the records, and under unique
/// keys each record's value is what the map holds for its key.
pub proof fn lemma_seg_map_props(s: Seq<SegmentRecord>)
    ensures
        forall|n: Seq<u8>|
            #[trigger] seg_map(s).contains_key(n) <==> exists|i: int|
                0 <= i < s.len() && s[i].key@ == n,
        (forall|i: int, j: int| 0 <= i < j < s.len() ==> s[i].key@ != s[j].key@) ==> forall|i: int|
            0 <= i < s.len() ==> seg_map(s)[#[trigger] s[i].key@] == seg_value_model(s[i].value),
    decreases s.len(),
{
    if s.len() == 0 {
    } else {
        lemma_seg_map_props(s.drop_last());
        assert forall|n: Seq<u8>| #[trigger]
            seg_map(s).contains_key(n) implies exists|i: int|
            0 <= i < s.len() && s[i].key@ == n by {
            if n == s.last().key@ {
                assert(s[s.len() - 1].key@ == n);
            } else {
                assert(seg_map(s.drop_last()).contains_key(n));
                let i = choose|i: int| 0 <= i < s.drop_last().len() && s.drop_last()[i].key@ == n;
                assert(s.drop_last()[i] == s[i]);
                assert(s[i].key@ == n);
            }
        }
        assert forall|n: Seq<u8>|
            (exists|i: int| 0 <= i < s.len() && s[i].key@ == n)
            implies #[trigger] seg_map(s).contains_key(n) by {
            let i = choose|i: int| 0 <= i < s.len() && s[i].key@ == n;
            if i < s.len() - 1 {
                assert(s.drop_last()[i].key@ == n);
                assert(exists|k: int| 0 <= k < s.drop_last().len() && s.drop_last()[k].key@ == n);
                assert(seg_map(s.drop_last()).contains_key(n));
            } else {
                assert(n == s.last().key@);
            }
        }
        if forall|i: int, j: int| 0 <= i < j < s.len() ==> s[i].key@ != s[j].key@ {
            assert forall|i: int, j: int|
                0 <= i < j < s.drop_last().len() implies s.drop_last()[i].key@
                != s.drop_last()[j].key@ by {
                assert(s[i].key@ != s[j].key@);
            }
            assert forall|i: int|
                0 <= i < s.len()
                implies seg_map(s)[#[trigger] s[i].key@] == seg_value_model(s[i].value) by {
                if i < s.len() - 1 {
                    assert(s[i].key@ != s.last().key@);
                    assert(s.drop_last()[i].key@ == s[i].key@);
                }
            }
        }
    }
}

/// An immutable, key-sorted snapshot produced by one flush.
pub struct Segment {
    pub records: Vec<SegmentRecord>,
}

impl Segment {
    /// The mapping from key bytes to row-or-tombstone this segment holds.
    pub open spec fn view(&self) -> Map<Seq<u8>, Option<Map<Seq<char>, DataValue>>> {
        seg_map(self.records@)
    }

    /// Keys are strictly sorted and every stored row is well-formed.
    pub open spec fn wf(self) -> bool {
        &&& forall|i: int, j: int|
            0 <= i < j < self.records@.len() ==> lex_lt(
                self.records@[i].key@,
                self.records@[j].key@,
            )
        &&& forall|i: int| 0 <= i < self.records@.len() ==> seg_value_wf(
                #[trigger] self.records@[i].value,
            )
    }

    /// Distinct records hold distinct keys.
    pub proof fn lemma_keys_unique(self)
        requires
            self.wf(),
        ensures
            forall|a: int, b: int|
                0 <= a < b < self.records@.len() ==> self.records@[a].key@
                    != self.records@[b].key@,
    {
        assert forall|a: int, b: int|
            0 <= a < b < self.records@.len() implies self.records@[a].key@
            != self.records@[b].key@ by {
            lemma_lex_trichotomy(self.records@[a].key@, self.records@[b].key@);
        }
    }

    /// Rebuilds a segment from records read back from disk, rejecting data
    /// whose keys are not strictly sorted or whose rows repeat a column.
    pub fn from_records(records: Vec<SegmentRecord>) -> (r: Result<Segment, DbError>)
        ensures
            match r {
                Ok(seg) => seg.wf() && seg.records@ == records@,
                Err(e) => e == DbError::CorruptSegment && !(Segment { records }).wf(),
            },
    {
        let mut i: usize = 0;
        while i < records.len()
            invariant
                i <= records@.len(),
                forall|k: int|
                    0 <= k < i && k + 1 < records@.len() ==> lex_lt(
                        (#[trigger] records@[k]).key@,
                        records@[k + 1].key@,
                    ),
                forall|k: int| 0 <= k < i ==> seg_value_wf(#[trigger] records@[k].value),
            decreases records@.len() - i,
        {
            if i + 1 < records.len() {
                if !key_lt(&records[i].key, &records[i + 1].key) {
                    return Err(DbError::CorruptSegment);
                }
            }
            match &records[i].value {
                SegmentValue::Row(cols) => {
                    if !check_wf_cols(cols) {
                        return Err(DbError::CorruptSegment);
                    }
                },
                SegmentValue::Tombstone => {},
            }
            i += 1;
        }
        proof {
            lemma_adjacent_sorted(records@);
        }
        Ok(Segment { records })
    }

    /// What this segment holds for the key, if the key is in it.
    pub fn find(&self, key: &Vec<u8>) -> (r: Option<&SegmentValue>)
        requires
            self.wf(),
        ensures
            match r {
                Some(v) => self@.contains_key(key@) && self@[key@] == seg_value_model(*v)
                    && seg_value_wf(*v),
                None => !self@.contains_key(key@),
            },
    {
        proof {
            self.lemma_keys_unique();
            lemma_seg_map_props(self.records@);
        }
        let mut i: usize = 0;
        while i < self.records.len()
            invariant
                i <= self.records@.len(),
                self.wf(),
                forall|k: int| 0 <= k < i ==> self.records@[k].key@ != key@,
            decreases self.records@.len() - i,
        {
            if key_eq(&self.records[i].key, key) {
                proof {
                    self.lemma_keys_unique();
                    lemma_seg_map_props(self.records@);
                    assert(self.records@[i as int].key@ == key@);
                    assert(seg_value_wf(self.records@[i as int].value));
                }
                return Some(&self.records[i].value);
            }
            i += 1;
        }
        proof {
            lemma_seg_map_props(self.records@);
        }
        None
    }
}

/// Records whose every adjacent pair is ordered are ordered as a whole.
proof fn lemma_adjacent_sorted(s: Seq<SegmentRecord>)
    requires
        forall|k: int| 0 <= k && k + 1 < s.len() ==> lex_lt((#[trigger] s[k]).key@, s[k + 1].key@),
    ensures
        forall|i: int, j: int| 0 <= i < j < s.len() ==> lex_lt(s[i].key@, s[j].key@),
{
    assert forall|i: int, j: int| 0 <= i < j < s.len() implies lex_lt(s[i].key@, s[j].key@) by {
        lemma_lex_chain(s, i, j);
    }
}

proof fn lemma_lex_chain(s: Seq<SegmentRecord>, i: int, j: int)
    requires
        forall|k: int| 0 <= k && k + 1 < s.len() ==> lex_lt((#[trigger] s[k]).key@, s[k + 1].key@),
        0 <= i < j < s.len(),
    ensures
        lex_lt(s[i].key@, s[j].key@),
    decreases j - i,
{
    if i + 1 == j {
    } else {
        lemma_lex_chain(s, i, j - 1);
        lemma_lex_transitive(s[i].key@, s[j - 1].key@, s[j].key@);
    }
}

/// The key-to-row-or-tombstone mapping that drained memtable pairs stand
/// for: an absent row becomes a tombstone, never an omission.
pub open spec fn pairs_model(s: Seq<(Vec<u8>, RowSnapshot)>) -> Map<
    Seq<u8>,
    Option<Map<Seq<char>, DataValue>>,
>
    decreases s.len(),
{
    if s.len() == 0 {
        Map::empty()
    } else {
        pairs_model(s.drop_last()).insert(
            s.last().0@,
            if s.last().1.present {
                Some(s.last().1.as_map())
            } else {
                None
            },
        )
    }
}

/// What a lookup across a list of segments, newest first, returns: the first
/// segment that knows the key decides, and a tombstone in a newer segment
/// shadows every older one.
pub open spec fn store_lookup(segs: Seq<Segment>, k: Seq<u8>) -> Option<
    Option<Map<Seq<char>, DataValue>>,
>
    decreases segs.len(),
{
    if segs.len() == 0 {
        None
    } else if seg_map(segs.last().records@).contains_key(k) {
        Some(seg_map(segs.last().records@)[k])
    } else {
        store_lookup(segs.drop_last(), k)
    }
}

/// A key flushed with a tombstone into the newest segment reads as deleted,
/// whatever any older segment holds for it.
pub proof fn lemma_tombstone_shadows(segs: Seq<Segment>, seg: Segment, k: Seq<u8>)
    requires
        seg_map(seg.records@).contains_key(k),
        seg_map(seg.records@)[k] is None,
    ensures
        store_lookup(segs.push(seg), k) == Some(None::<Map<Seq<char>, DataValue>>),
{
    assert(segs.push(seg).last() == seg);
}

/// The ordered list of segments of one table, oldest first; lookups walk it
/// newest first.
pub struct SegmentStore {
    pub segments: Vec<Segment>,
}

impl SegmentStore {
    /// Every segment is well-formed.
    pub open spec fn wf(self) -> bool {
        forall|i: int| 0 <= i < self.segments@.len() ==> (#[trigger] self.segments@[i]).wf()
    }

    /// A store with no segments.
    pub fn new() -> (r: Self)
        ensures
            r.wf(),
            r.segments@.len() == 0,
    {
        SegmentStore { segments: Vec::new() }
    }

    /// Writes one new immutable segment from key-sorted drained pairs and
    /// appends it as the newest; absent rows become tombstones.
    pub fn write_segment(&mut self, pairs: &Vec<(Vec<u8>, RowSnapshot)>)
        requires
            old(self).wf(),
            forall|i: int, j: int|
                0 <= i < j < pairs@.len() ==> lex_lt(
                    (#[trigger] pairs@[i].0)@,
                    (#[trigger] pairs@[j].0)@,
                ),
            forall|i: int| 0 <= i < pairs@.len() ==> (#[trigger] pairs@[i].1).wf(),
        ensures
            final(self).wf(),
            final(self).segments@.len() == old(self).segments@.len() + 1,
            final(self).segments@.drop_last() == old(self).segments@,
            final(self).segments@.last()@ == pairs_model(pairs@),
    {
        let mut records: Vec<SegmentRecord> = Vec::new();
        proof {
            assert(pairs@.take(0) =~= Seq::<(Vec<u8>, RowSnapshot)>::empty());
        }
        let mut i: usize = 0;
        while i < pairs.len()
            invariant
                i <= pairs@.len(),
                forall|a: int, b: int|
                    0 <= a < b < pairs@.len() ==> lex_lt(
                        (#[trigger] pairs@[a].0)@,
                        (#[trigger] pairs@[b].0)@,
                    ),
                forall|a: int| 0 <= a < pairs@.len() ==> (#[trigger] pairs@[a].1).wf(),
                records@.len() == i,
                seg_map(records@) == pairs_model(pairs@.take(i as int)),
                forall|a: int|
                    0 <= a < i ==> (#[trigger] records@[a]).key@ == pairs@[a].0@ && seg_value_wf(
                        records@[a].value,
                    ),
            decreases pairs@.len() - i,
        {
            let pair = &pairs[i];
            let value = if pair.1.present {
                let snap = pair.1.clone();
                SegmentValue::Row(snap.columns)
            } else {
                SegmentValue::Tombstone
            };
            proof {
                assert(pairs@[i as int].1.wf());
                assert(seg_value_model(value) == (if pairs@[i as int].1.present {
                    Some(pairs@[i as int].1.as_map())
                } else {
                    None::<Map<Seq<char>, DataValue>>
                }));
            }
            let rec = SegmentRecord { key: key_clone(&pair.0), value };
            let ghost r0 = records@;
            let ghost rec0 = rec;
            records.push(rec);
            proof {
                assert(records@.drop_last() =~= r0);
                assert(records@.last() == rec0);
                assert(rec0.key@ == pairs@[i as int].0@);
                assert(pairs@.take(i + 1).drop_last() =~= pairs@.take(i as int));
                assert(pairs@.take(i + 1).last() == pairs@[i as int]);
                assert(seg_map(records@) == pairs_model(pairs@.take(i + 1)));
            }
            i += 1;
        }
        proof {
            assert(pairs@.take(pairs@.len() as int) =~= pairs@);
        }
        let seg = Segment { records };
        self.segments.push(seg);
        proof {
            assert(final(self).segments@.drop_last() =~= old(self).segments@);
        }
    }

    /// Scans segments newest to oldest and returns the first value found for
    /// the key: a newer row or tombstone shadows every older one.
    pub fn lookup(&self, key: &Vec<u8>) -> (r: Option<&SegmentValue>)
        requires
            self.wf(),
        ensures
            match r {
                Some(v) => store_lookup(self.segments@, key@) == Some(seg_value_model(*v))
                    && seg_value_wf(*v),
                None => store_lookup(self.segments@, key@) is None,
            },
    {
        proof {
            assert(self.segments@.take(self.segments@.len() as int) =~= self.segments@);
        }
        let mut s: usize = self.segments.len();
        while s > 0
            invariant
                s <= self.segments@.len(),
                self.wf(),
                store_lookup(self.segments@, key@) == store_lookup(
                    self.segments@.take(s as int),
                    key@,
                ),
            decreases s,
        {
            proof {
                assert(self.segments@.take(s as int).last() == self.segments@[s - 1]);
                assert(self.segments@.take(s as int).drop_last() =~= self.segments@.take(s - 1));
                assert(self.segments@[s - 1].wf());
            }
            let found = self.segments[s - 1].find(key);
            match found {
                Some(v) => {
                    return Some(v);
                },
                None => {},
            }
            s -= 1;
        }
        proof {
            assert(self.segments@.take(0) =~= Seq::<Segment>::empty());
        }
        None
    }
}

} // verus!
