//! The sorted, versioned in-memory key-value table.
//!
//! The table is an ordered sequence of key entries, strictly ascending by
//! key with no duplicates. Each entry carries the full, append-only
//! history of its key's versions: a version is either a value or a
//! tombstone, and only the latest version is visible to lookups.

use vstd::prelude::*;

use crate::kv;
use crate::kv::{lex_lt, Error, Key, Value};

verus! {

/// The mathematical model of one key entry: the key's bytes, and its
/// chronological version history. `Some(bytes)` is a stored value,
/// `None` a tombstone.
pub type EntryModel = (Seq<u8>, Seq<Option<Seq<u8>>>);

/// The mathematical model of the whole table.
pub type TableModel = Seq<EntryModel>;

/// The table's ordering invariant: keys strictly ascend, so no key
/// occurs twice.
pub open spec fn sorted(m: TableModel) -> bool {
    forall|i: int, j: int| 0 <= i < j < m.len() ==> lex_lt(m[i].0, m[j].0)
}

/// Whether the table holds an entry for `k`.
pub open spec fn contains_key(m: TableModel, k: Seq<u8>) -> bool
    decreases m.len(),
{
    if m.len() == 0 {
        false
    } else {
        m[0].0 == k || contains_key(m.skip(1), k)
    }
}

/// The version history of `k`: that of the first entry whose key is `k`,
/// or empty when the table has none.
pub open spec fn versions(m: TableModel, k: Seq<u8>) -> Seq<Option<Seq<u8>>>
    decreases m.len(),
{
    if m.len() == 0 {
        Seq::empty()
    } else if m[0].0 == k {
        m[0].1
    } else {
        versions(m.skip(1), k)
    }
}

/// The value a lookup of `k` sees: the latest version if it is a value;
/// nothing when the key is absent or its latest version is a tombstone.
pub open spec fn latest(m: TableModel, k: Seq<u8>) -> Option<Seq<u8>> {
    if contains_key(m, k) && versions(m, k).len() > 0 {
        versions(m, k).last()
    } else {
        None
    }
}

/// The table after `set(k, v)`: append a new value version to `k`'s
/// history, or insert a fresh entry at its sorted slot.
pub open spec fn mem_set(m: TableModel, k: Seq<u8>, v: Seq<u8>) -> TableModel
    decreases m.len(),
{
    if m.len() == 0 {
        seq![(k, seq![Some(v)])]
    } else if lex_lt(k, m[0].0) {
        seq![(k, seq![Some(v)])] + m
    } else if m[0].0 == k {
        seq![(k, m[0].1.push(Some(v)))] + m.skip(1)
    } else {
        seq![m[0]] + mem_set(m.skip(1), k, v)
    }
}

/// The table after a successful `delete(k)`: append a tombstone to `k`'s
/// history, keeping all earlier versions. A table without `k` is
/// returned unchanged (the operation itself reports the failure).
pub open spec fn mem_delete(m: TableModel, k: Seq<u8>) -> TableModel
    decreases m.len(),
{
    if m.len() == 0 {
        m
    } else if m[0].0 == k {
        seq![(k, m[0].1.push(None))] + m.skip(1)
    } else {
        seq![m[0]] + mem_delete(m.skip(1), k)
    }
}

/// An entry at index `i` witnesses containment.
proof fn lemma_contains_at(m: TableModel, k: Seq<u8>, i: int)
    requires
        0 <= i < m.len(),
        m[i].0 == k,
    ensures
        contains_key(m, k),
    decreases i,
{
    if i > 0 {
        lemma_contains_at(m.skip(1), k, i - 1);
    }
}

/// A table none of whose entries carries `k` does not contain `k`.
proof fn lemma_not_contains(m: TableModel, k: Seq<u8>)
    requires
        forall|j: int| 0 <= j < m.len() ==> m[j].0 != k,
    ensures
        !contains_key(m, k),
    decreases m.len(),
{
    if m.len() > 0 {
        assert(forall|j: int| 0 <= j < m.skip(1).len() ==> m.skip(1)[j].0 != k);
        lemma_not_contains(m.skip(1), k);
    }
}

/// In a sorted table, the history of `k` is exactly that of the entry
/// holding `k`.
proof fn lemma_versions_at(m: TableModel, k: Seq<u8>, i: int)
    requires
        sorted(m),
        0 <= i < m.len(),
        m[i].0 == k,
    ensures
        versions(m, k) == m[i].1,
    decreases i,
{
    if i > 0 {
        assert(lex_lt(m[0].0, m[i].0));
        if m[0].0 == k {
            kv::lemma_lex_lt_irreflexive(k);
        }
        assert(sorted(m.skip(1)));
        lemma_versions_at(m.skip(1), k, i - 1);
    }
}

/// `mem_set` on a table whose entry `i` holds `k` updates that entry's
/// history in place.
proof fn lemma_mem_set_found(m: TableModel, k: Seq<u8>, v: Seq<u8>, i: int)
    requires
        sorted(m),
        0 <= i < m.len(),
        m[i].0 == k,
    ensures
        mem_set(m, k, v) == m.update(i, (k, m[i].1.push(Some(v)))),
    decreases i,
{
    if i == 0 {
        kv::lemma_lex_lt_irreflexive(k);
        assert(seq![(k, m[0].1.push(Some(v)))] + m.skip(1) =~= m.update(
            0,
            (k, m[0].1.push(Some(v))),
        ));
    } else {
        assert(lex_lt(m[0].0, m[i].0));
        if m[0].0 == k {
            kv::lemma_lex_lt_irreflexive(k);
        }
        kv::lemma_lex_lt_asymmetric(k, m[0].0);
        assert(sorted(m.skip(1)));
        lemma_mem_set_found(m.skip(1), k, v, i - 1);
        assert(seq![m[0]] + m.skip(1).update(i - 1, (k, m[i].1.push(Some(v)))) =~= m.update(
            i,
            (k, m[i].1.push(Some(v))),
        ));
    }
}

/// `mem_set` on a table without `k` inserts a fresh single-version entry
/// at the sorted slot `i`.
proof fn lemma_mem_set_absent(m: TableModel, k: Seq<u8>, v: Seq<u8>, i: int)
    requires
        sorted(m),
        0 <= i <= m.len(),
        forall|j: int| 0 <= j < i ==> lex_lt(m[j].0, k),
        forall|j: int| i <= j < m.len() ==> lex_lt(k, m[j].0),
    ensures
        mem_set(m, k, v) == m.subrange(0, i) + seq![(k, seq![Some(v)])] + m.subrange(
            i,
            m.len() as int,
        ),
    decreases i,
{
    if m.len() == 0 {
        assert(mem_set(m, k, v) =~= m.subrange(0, i) + seq![(k, seq![Some(v)])] + m.subrange(
            i,
            m.len() as int,
        ));
    } else if i == 0 {
        assert(lex_lt(k, m[0].0));
        assert(seq![(k, seq![Some(v)])] + m =~= m.subrange(0, 0) + seq![(k, seq![Some(v)])]
            + m.subrange(0, m.len() as int));
    } else {
        assert(lex_lt(m[0].0, k));
        kv::lemma_lex_lt_asymmetric(k, m[0].0);
        if m[0].0 == k {
            kv::lemma_lex_lt_irreflexive(k);
        }
        assert(sorted(m.skip(1)));
        assert(forall|j: int| 0 <= j < i - 1 ==> lex_lt(m.skip(1)[j].0, k));
        assert(forall|j: int| i - 1 <= j < m.skip(1).len() ==> lex_lt(k, m.skip(1)[j].0));
        lemma_mem_set_absent(m.skip(1), k, v, i - 1);
        assert(seq![m[0]] + (m.skip(1).subrange(0, i - 1) + seq![(k, seq![Some(v)])]
            + m.skip(1).subrange(i - 1, m.skip(1).len() as int)) =~= m.subrange(0, i) + seq![
            (k, seq![Some(v)]),
        ] + m.subrange(i, m.len() as int));
    }
}

/// `mem_delete` on a table whose entry `i` holds `k` appends a tombstone
/// to that entry's history in place.
proof fn lemma_mem_delete_found(m: TableModel, k: Seq<u8>, i: int)
    requires
        sorted(m),
        0 <= i < m.len(),
        m[i].0 == k,
    ensures
        mem_delete(m, k) == m.update(i, (k, m[i].1.push(None))),
    decreases i,
{
    if i == 0 {
        assert(seq![(k, m[0].1.push(None))] + m.skip(1) =~= m.update(0, (k, m[0].1.push(None))));
    } else {
        assert(lex_lt(m[0].0, m[i].0));
        if m[0].0 == k {
            kv::lemma_lex_lt_irreflexive(k);
        }
        assert(sorted(m.skip(1)));
        lemma_mem_delete_found(m.skip(1), k, i - 1);
        assert(seq![m[0]] + m.skip(1).update(i - 1, (k, m[i].1.push(None))) =~= m.update(
            i,
            (k, m[i].1.push(None)),
        ));
    }
}

/// Updating an entry's history while keeping its key preserves sortedness.
proof fn lemma_sorted_update(m: TableModel, i: int, vs: Seq<Option<Seq<u8>>>)
    requires
        sorted(m),
        0 <= i < m.len(),
    ensures
        sorted(m.update(i, (m[i].0, vs))),
{
    let m2 = m.update(i, (m[i].0, vs));
    assert(forall|j: int| 0 <= j < m.len() ==> m2[j].0 == m[j].0);
}

/// Inserting a fresh entry at its sorted slot preserves sortedness.
proof fn lemma_sorted_insert(m: TableModel, i: int, e: EntryModel)
    requires
        sorted(m),
        0 <= i <= m.len(),
        forall|j: int| 0 <= j < i ==> lex_lt(m[j].0, e.0),
        forall|j: int| i <= j < m.len() ==> lex_lt(e.0, m[j].0),
    ensures
        sorted(m.subrange(0, i) + seq![e] + m.subrange(i, m.len() as int)),
{
    let m2 = m.subrange(0, i) + seq![e] + m.subrange(i, m.len() as int);
    assert(m2.len() == m.len() + 1);
    assert(forall|j: int| 0 <= j < i ==> m2[j] == m[j]);
    assert(m2[i] == e);
    assert(forall|j: int| i < j < m2.len() ==> m2[j] == m[j - 1]);
}

/// Setting a key then reading it yields the value just set.
pub proof fn lemma_set_then_get(m: TableModel, k: Seq<u8>, v: Seq<u8>)
    ensures
        latest(mem_set(m, k, v), k) == Some(v),
        contains_key(mem_set(m, k, v), k),
    decreases m.len(),
{
    let m2 = mem_set(m, k, v);
    if m.len() == 0 {
        assert(m2[0] == (k, seq![Some(v)]));
        assert(contains_key(m2, k));
        assert(versions(m2, k) == seq![Some(v)]);
    } else if lex_lt(k, m[0].0) {
        assert(m2[0] == (k, seq![Some(v)]));
        assert(contains_key(m2, k));
        assert(versions(m2, k) == seq![Some(v)]);
    } else if m[0].0 == k {
        assert(m2[0] == (k, m[0].1.push(Some(v))));
        assert(contains_key(m2, k));
        assert(versions(m2, k) == m[0].1.push(Some(v)));
    } else {
        lemma_set_then_get(m.skip(1), k, v);
        assert(m2[0] == m[0]);
        assert(m2.skip(1) =~= mem_set(m.skip(1), k, v));
        assert(contains_key(m2, k));
        assert(versions(m2, k) == versions(mem_set(m.skip(1), k, v), k));
    }
}

/// Last write wins: setting a key twice leaves the second value as the
/// one a read sees.
pub proof fn lemma_last_write_wins(m: TableModel, k: Seq<u8>, v1: Seq<u8>, v2: Seq<u8>)
    ensures
        latest(mem_set(mem_set(m, k, v1), k, v2), k) == Some(v2),
{
    lemma_set_then_get(mem_set(m, k, v1), k, v2);
}

/// Deleting a present key makes a read see nothing, while the history
/// only grows by a tombstone.
pub proof fn lemma_delete_then_get(m: TableModel, k: Seq<u8>)
    requires
        contains_key(m, k),
    ensures
        latest(mem_delete(m, k), k) is None,
    decreases m.len(),
{
    let m2 = mem_delete(m, k);
    if m[0].0 == k {
        assert(m2[0] == (k, m[0].1.push(None)));
        assert(versions(m2, k) == m[0].1.push(None));
        assert(versions(m2, k).last() is None);
    } else {
        lemma_delete_then_get(m.skip(1), k);
        assert(m2[0] == m[0]);
        assert(m2.skip(1) =~= mem_delete(m.skip(1), k));
        assert(contains_key(m2, k) == contains_key(mem_delete(m.skip(1), k), k));
        assert(versions(m2, k) == versions(mem_delete(m.skip(1), k), k));
    }
}

/// Deleting a key right after setting it makes a read see nothing.
pub proof fn lemma_delete_after_set(m: TableModel, k: Seq<u8>, v: Seq<u8>)
    ensures
        contains_key(mem_set(m, k, v), k),
        latest(mem_delete(mem_set(m, k, v), k), k) is None,
{
    lemma_set_then_get(m, k, v);
    lemma_delete_then_get(mem_set(m, k, v), k);
}

/// A read of a key the table does not contain sees nothing.
pub proof fn lemma_get_absent(m: TableModel, k: Seq<u8>)
    requires
        !contains_key(m, k),
    ensures
        latest(m, k) is None,
{
}

/// Every key below both `k` and all of `m`'s keys stays below all keys
/// after a set.
proof fn lemma_mem_set_lower_bound(m: TableModel, k: Seq<u8>, v: Seq<u8>, x: Seq<u8>)
    requires
        lex_lt(x, k),
        forall|i: int| 0 <= i < m.len() ==> lex_lt(x, (#[trigger] m[i]).0),
    ensures
        forall|j: int| 0 <= j < mem_set(m, k, v).len() ==> lex_lt(x, (#[trigger] mem_set(m, k, v)[j]).0),
    decreases m.len(),
{
    let m2 = mem_set(m, k, v);
    if m.len() == 0 {
        assert(m2[0].0 == k);
    } else if lex_lt(k, m[0].0) {
        assert forall|j: int| 0 <= j < m2.len() implies lex_lt(x, (#[trigger] m2[j]).0) by {
            if j > 0 {
                assert(m2[j].0 == m[j - 1].0);
            }
        }
    } else if m[0].0 == k {
        assert forall|j: int| 0 <= j < m2.len() implies lex_lt(x, (#[trigger] m2[j]).0) by {
            if j > 0 {
                assert(m2[j].0 == m[j].0);
            }
        }
    } else {
        assert(forall|i: int| 0 <= i < m.skip(1).len() ==> lex_lt(x, (#[trigger] m.skip(1)[i]).0));
        lemma_mem_set_lower_bound(m.skip(1), k, v, x);
        assert forall|j: int| 0 <= j < m2.len() implies lex_lt(x, (#[trigger] m2[j]).0) by {
            if j > 0 {
                assert(m2[j] == mem_set(m.skip(1), k, v)[j - 1]);
            }
        }
    }
}

/// Ordering invariant: a set keeps the key sequence strictly ascending.
pub proof fn lemma_mem_set_preserves_sorted(m: TableModel, k: Seq<u8>, v: Seq<u8>)
    requires
        sorted(m),
    ensures
        sorted(mem_set(m, k, v)),
    decreases m.len(),
{
    let m2 = mem_set(m, k, v);
    if m.len() == 0 {
    } else if lex_lt(k, m[0].0) {
        assert forall|i: int, j: int| 0 <= i < j < m2.len() implies lex_lt(m2[i].0, m2[j].0) by {
            if i == 0 {
                assert(m2[j].0 == m[j - 1].0);
                if j > 1 {
                    assert(lex_lt(m[0].0, m[j - 1].0));
                    kv::lemma_lex_lt_transitive(k, m[0].0, m[j - 1].0);
                }
            } else {
                assert(m2[i].0 == m[i - 1].0);
                assert(m2[j].0 == m[j - 1].0);
            }
        }
    } else if m[0].0 == k {
        assert forall|i: int, j: int| 0 <= i < j < m2.len() implies lex_lt(m2[i].0, m2[j].0) by {
            assert(m2[i].0 == m[i].0);
            assert(m2[j].0 == m[j].0);
        }
    } else {
        kv::lemma_lex_lt_total(k, m[0].0);
        assert(lex_lt(m[0].0, k));
        assert(sorted(m.skip(1)));
        lemma_mem_set_preserves_sorted(m.skip(1), k, v);
        assert(forall|i: int| 0 <= i < m.skip(1).len() ==> lex_lt(m[0].0, (#[trigger] m.skip(1)[i]).0));
        lemma_mem_set_lower_bound(m.skip(1), k, v, m[0].0);
        let mrec = mem_set(m.skip(1), k, v);
        assert forall|i: int, j: int| 0 <= i < j < m2.len() implies lex_lt(m2[i].0, m2[j].0) by {
            if i == 0 {
                assert(m2[j] == mrec[j - 1]);
                assert(lex_lt(m[0].0, mrec[j - 1].0));
            } else {
                assert(m2[i] == mrec[i - 1]);
                assert(m2[j] == mrec[j - 1]);
            }
        }
    }
}

/// A delete changes no key: the sequence of keys (and so the order) is
/// untouched.
proof fn lemma_mem_delete_keys(m: TableModel, k: Seq<u8>)
    ensures
        mem_delete(m, k).len() == m.len(),
        forall|j: int| 0 <= j < m.len() ==> (#[trigger] mem_delete(m, k)[j]).0 == m[j].0,
    decreases m.len(),
{
    let m2 = mem_delete(m, k);
    if m.len() == 0 {
    } else if m[0].0 == k {
        assert forall|j: int| 0 <= j < m.len() implies (#[trigger] m2[j]).0 == m[j].0 by {
            if j > 0 {
                assert(m2[j] == m.skip(1)[j - 1]);
            }
        }
    } else {
        lemma_mem_delete_keys(m.skip(1), k);
        assert forall|j: int| 0 <= j < m.len() implies (#[trigger] m2[j]).0 == m[j].0 by {
            if j > 0 {
                assert(m2[j] == mem_delete(m.skip(1), k)[j - 1]);
            }
        }
    }
}

/// Ordering invariant: a delete keeps the key sequence strictly
/// ascending.
pub proof fn lemma_mem_delete_preserves_sorted(m: TableModel, k: Seq<u8>)
    requires
        sorted(m),
    ensures
        sorted(mem_delete(m, k)),
{
    lemma_mem_delete_keys(m, k);
}

/// A strictly ascending key sequence holds no key twice.
pub proof fn lemma_sorted_keys_distinct(m: TableModel)
    requires
        sorted(m),
    ensures
        forall|i: int, j: int| 0 <= i < j < m.len() ==> m[i].0 != m[j].0,
{
    assert forall|i: int, j: int| 0 <= i < j < m.len() implies m[i].0 != m[j].0 by {
        kv::lemma_lex_lt_irreflexive(m[i].0);
    }
}

/// One historical version of a key: a stored value, or a tombstone
/// recording that the key was deleted at that point in its history.
pub enum ValueEntry {
    Value(Value),
    Tombstone,
}

impl View for ValueEntry {
    type V = Option<Seq<u8>>;

    closed spec fn view(&self) -> Option<Seq<u8>> {
        match self {
            ValueEntry::Value(v) => Some(v@),
            ValueEntry::Tombstone => None,
        }
    }
}

/// A key together with its chronological version history; the last
/// element of `values` is the current version.
pub struct KeyEntry {
    key: Key,
    values: Vec<ValueEntry>,
}

impl View for KeyEntry {
    type V = EntryModel;

    closed spec fn view(&self) -> EntryModel {
        (self.key@, self.values@.map_values(|v: ValueEntry| v@))
    }
}

/// The sorted, versioned table held entirely in memory.
pub struct Memtable {
    entries: Vec<KeyEntry>,
}

impl Memtable {
    /// The table's model: its entries, in order.
    pub closed spec fn view(&self) -> TableModel {
        self.entries@.map_values(|e: KeyEntry| e@)
    }

    /// Well-formedness: keys strictly ascend (hence are unique), and
    /// every entry has at least one version.
    pub open spec fn wf(&self) -> bool {
        &&& sorted(self@)
        &&& forall|i: int| 0 <= i < self@.len() ==> self@[i].1.len() > 0
    }

    /// Creates an empty table.
    pub fn new() -> (r: Memtable)
        ensures
            r.wf(),
            r@ == Seq::<EntryModel>::empty(),
    {
        let r = Memtable { entries: Vec::new() };
        proof {
            assert(r@ =~= Seq::<EntryModel>::empty());
        }
        r
    }

    /// Binary search for `key` over the ordered entries. `Ok(i)` is the
    /// index holding the key; `Err(i)` the slot where it would be
    /// inserted to preserve the order.
    fn get_index(&self, key: &Key) -> (r: Result<usize, usize>)
        requires
            self.wf(),
        ensures
            match r {
                Ok(i) => i < self@.len() && self@[i as int].0 == key@,
                Err(i) => {
                    &&& i <= self@.len()
                    &&& forall|j: int| 0 <= j < i ==> lex_lt(self@[j].0, key@)
                    &&& forall|j: int| i <= j < self@.len() ==> lex_lt(key@, self@[j].0)
                },
            },
    {
        let mut lo: usize = 0;
        let mut hi: usize = self.entries.len();
        proof {
            assert(self@.len() == self.entries@.len());
        }
        while lo < hi
            invariant
                self.wf(),
                self@.len() == self.entries@.len(),
                lo <= hi <= self@.len(),
                forall|j: int| 0 <= j < lo ==> lex_lt(self@[j].0, key@),
                forall|j: int| hi <= j < self@.len() ==> !lex_lt(self@[j].0, key@),
            decreases hi - lo,
        {
            let mid = lo + (hi - lo) / 2;
            assert(self@[mid as int].0 == self.entries@[mid as int].key@);
            if self.entries[mid].key.lt(key) {
                assert forall|j: int| 0 <= j < mid + 1 implies lex_lt(self@[j].0, key@) by {
                    if lo <= j < mid {
                        assert(lex_lt(self@[j].0, self@[mid as int].0));
                        kv::lemma_lex_lt_transitive(self@[j].0, self@[mid as int].0, key@);
                    }
                }
                lo = mid + 1;
            } else {
                assert forall|j: int| mid <= j < self@.len() implies !lex_lt(self@[j].0, key@) by {
                    if mid < j < hi {
                        assert(lex_lt(self@[mid as int].0, self@[j].0));
                        if lex_lt(self@[j].0, key@) {
                            kv::lemma_lex_lt_transitive(
                                self@[mid as int].0,
                                self@[j].0,
                                key@,
                            );
                        }
                    }
                }
                hi = mid;
            }
        }
        if lo < self.entries.len() {
            assert(self@[lo as int].0 == self.entries@[lo as int].key@);
            if !key.lt(&self.entries[lo].key) {
                proof {
                    kv::lemma_lex_lt_total(key@, self@[lo as int].0);
                }
                return Ok(lo);
            }
            assert forall|j: int| lo <= j < self@.len() implies lex_lt(key@, self@[j].0) by {
                if j > lo {
                    assert(lex_lt(self@[lo as int].0, self@[j].0));
                    kv::lemma_lex_lt_transitive(key@, self@[lo as int].0, self@[j].0);
                }
            }
            return Err(lo);
        }
        Err(lo)
    }

    /// Inserts `value` as the newest version of `key`. An existing key
    /// gains a version; a new key is inserted at its sorted slot. The
    /// previous history is never changed.
    pub fn set(&mut self, key: Key, value: Value) -> (r: Result<(), Error>)
        requires
            old(self).wf(),
        ensures
            final(self).wf(),
            r == Ok::<(), Error>(()),
            final(self)@ == mem_set(old(self)@, key@, value@),
    {
        let ghost m0 = self@;
        let ghost kb = key@;
        let ghost vb = value@;
        match self.get_index(&key) {
            Ok(idx) => {
                proof {
                    lemma_mem_set_found(m0, kb, vb, idx as int);
                }
                let mut entry = self.entries.remove(idx);
                entry.values.push(ValueEntry::Value(value));
                proof {
                    assert(entry@.1 =~= m0[idx as int].1.push(Some(vb)));
                    assert(entry@.0 == kb);
                }
                self.entries.insert(idx, entry);
                proof {
                    assert(self@ =~= m0.update(idx as int, (kb, m0[idx as int].1.push(Some(vb)))));
                    lemma_sorted_update(m0, idx as int, m0[idx as int].1.push(Some(vb)));
                }
                Ok(())
            },
            Err(idx) => {
                let mut entry = KeyEntry { key, values: Vec::new() };
                entry.values.push(ValueEntry::Value(value));
                proof {
                    assert(entry@.1 =~= seq![Some(vb)]);
                }
                self.entries.insert(idx, entry);
                proof {
                    lemma_mem_set_absent(m0, kb, vb, idx as int);
                    assert(self@ =~= m0.subrange(0, idx as int) + seq![(kb, seq![Some(vb)])]
                        + m0.subrange(idx as int, m0.len() as int));
                    lemma_sorted_insert(m0, idx as int, (kb, seq![Some(vb)]));
                }
                Ok(())
            },
        }
    }

    /// Looks `key` up. Absence is not an error here: a key never set,
    /// and a key whose latest version is a tombstone, both yield `None`.
    pub fn get(&self, key: &Key) -> (r: Option<&Value>)
        requires
            self.wf(),
        ensures
            match r {
                Some(v) => latest(self@, key@) == Some(v@),
                None => latest(self@, key@) is None,
            },
    {
        match self.get_index(key) {
            Ok(idx) => {
                proof {
                    lemma_contains_at(self@, key@, idx as int);
                    lemma_versions_at(self@, key@, idx as int);
                }
                let entry = &self.entries[idx];
                let n = entry.values.len();
                assert(n == self@[idx as int].1.len());
                match &entry.values[n - 1] {
                    ValueEntry::Value(v) => {
                        assert(self@[idx as int].1.last() == Some(v@));
                        Some(v)
                    },
                    ValueEntry::Tombstone => {
                        assert(self@[idx as int].1.last() is None);
                        None
                    },
                }
            },
            Err(_) => {
                proof {
                    kv::lemma_lex_lt_irreflexive(key@);
                    lemma_not_contains(self@, key@);
                }
                None
            },
        }
    }

    /// Deletes `key` by appending a tombstone to its history; earlier
    /// versions are kept. Deleting a key the table does not hold fails
    /// with `NotFound` and leaves the table unchanged.
    pub fn delete(&mut self, key: &Key) -> (r: Result<(), Error>)
        requires
            old(self).wf(),
        ensures
            final(self).wf(),
            contains_key(old(self)@, key@) ==> r == Ok::<(), Error>(()) && final(self)@
                == mem_delete(old(self)@, key@),
            !contains_key(old(self)@, key@) ==> r == Err::<(), Error>(Error::NotFound)
                && final(self)@ == old(self)@,
    {
        let ghost m0 = self@;
        let ghost kb = key@;
        match self.get_index(key) {
            Ok(idx) => {
                proof {
                    lemma_contains_at(m0, kb, idx as int);
                    lemma_mem_delete_found(m0, kb, idx as int);
                }
                let mut entry = self.entries.remove(idx);
                entry.values.push(ValueEntry::Tombstone);
                proof {
                    assert(entry@.1 =~= m0[idx as int].1.push(None));
                    assert(entry@.0 == kb);
                }
                self.entries.insert(idx, entry);
                proof {
                    assert(self@ =~= m0.update(idx as int, (kb, m0[idx as int].1.push(None))));
                    lemma_sorted_update(m0, idx as int, m0[idx as int].1.push(None));
                }
                Ok(())
            },
            Err(_) => {
                proof {
                    kv::lemma_lex_lt_irreflexive(kb);
                    lemma_not_contains(m0, kb);
                }
                Err(Error::NotFound)
            },
        }
    }
}

} // verus!
