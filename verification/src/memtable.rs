//! In-memory ordered write buffer: at most one entry per key — the one
//! with the newest sequence number — kept in ascending key order, with
//! exact size accounting.

use vstd::prelude::*;

use crate::byteops::{bytes_eq, bytes_lt, lemma_lex_trans, lemma_lex_trichotomy, lex_lt};
use crate::types::{views_of, Entry, EntryView, ValueType, ValueView, spec_value_len};

verus! {

/// Bytes one entry accounts for in the memtable: key length, value
/// payload length, and sixteen bytes of per-entry overhead.
pub open spec fn spec_entry_contribution(e: EntryView) -> nat {
    e.key.len() + spec_value_len(e.val) + 16
}

/// Total size accounted for a sequence of entries.
pub open spec fn spec_mem_size(s: Seq<EntryView>) -> nat
    decreases s.len(),
{
    if s.len() == 0 {
        0
    } else {
        spec_entry_contribution(s[0]) + spec_mem_size(s.drop_first())
    }
}

/// Whether some entry in `s` has key `k`.
pub open spec fn has_key(s: Seq<EntryView>, k: Seq<u8>) -> bool {
    exists|i: int| 0 <= i < s.len() && s[i].key == k
}

/// Index of the entry with key `k`, where one exists.
pub open spec fn key_index(s: Seq<EntryView>, k: Seq<u8>) -> int {
    choose|i: int| 0 <= i < s.len() && s[i].key == k
}

/// The entries of `s` as a map from key to entry; meaningful when keys
/// are distinct.
pub open spec fn seq_to_map(s: Seq<EntryView>) -> Map<Seq<u8>, EntryView> {
    Map::new(|k: Seq<u8>| has_key(s, k), |k: Seq<u8>| s[key_index(s, k)])
}

/// Size of the memtable after storing `e`, replacing any entry its key
/// already has.
pub open spec fn spec_upsert_size(s: Seq<EntryView>, e: EntryView) -> int {
    if has_key(s, e.key) {
        spec_mem_size(s) - spec_entry_contribution(seq_to_map(s)[e.key])
            + spec_entry_contribution(e)
    } else {
        spec_mem_size(s) + spec_entry_contribution(e) as int
    }
}

/// Keys strictly ascending: the order invariant of the memtable.
pub open spec fn keys_strictly_sorted(s: Seq<EntryView>) -> bool {
    forall|i: int, j: int| 0 <= i < j < s.len() ==> lex_lt(s[i].key, s[j].key)
}

proof fn lemma_key_index_is(s: Seq<EntryView>, i: int)
    requires
        keys_strictly_sorted(s),
        0 <= i < s.len(),
    ensures
        has_key(s, s[i].key),
        key_index(s, s[i].key) == i,
        seq_to_map(s)[s[i].key] == s[i],
{
    assert(has_key(s, s[i].key));
    let j = key_index(s, s[i].key);
    if i < j {
        lemma_lex_trichotomy(s[i].key, s[j].key);
    } else if j < i {
        lemma_lex_trichotomy(s[j].key, s[i].key);
    }
}

proof fn lemma_mem_size_elem(s: Seq<EntryView>, i: int)
    requires
        0 <= i < s.len(),
    ensures
        spec_entry_contribution(s[i]) <= spec_mem_size(s),
    decreases s.len(),
{
    if i > 0 {
        lemma_mem_size_elem(s.drop_first(), i - 1);
    }
}

proof fn lemma_mem_size_update(s: Seq<EntryView>, i: int, e: EntryView)
    requires
        0 <= i < s.len(),
    ensures
        spec_mem_size(s.update(i, e)) == spec_mem_size(s) - spec_entry_contribution(s[i])
            + spec_entry_contribution(e),
    decreases s.len(),
{
    lemma_mem_size_elem(s, i);
    if i == 0 {
        assert(s.update(0, e).drop_first() =~= s.drop_first());
    } else {
        assert(s.update(i, e).drop_first() =~= s.drop_first().update(i - 1, e));
        lemma_mem_size_update(s.drop_first(), i - 1, e);
    }
}

proof fn lemma_mem_size_insert(s: Seq<EntryView>, i: int, e: EntryView)
    requires
        0 <= i <= s.len(),
    ensures
        spec_mem_size(s.insert(i, e)) == spec_mem_size(s) + spec_entry_contribution(e),
    decreases s.len(),
{
    if i == 0 {
        assert(s.insert(0, e)[0] == e);
        assert(s.insert(0, e).drop_first() =~= s);
    } else {
        assert(s.insert(i, e)[0] == s[0]);
        assert(s.insert(i, e).drop_first() =~= s.drop_first().insert(i - 1, e));
        lemma_mem_size_insert(s.drop_first(), i - 1, e);
    }
}

/// In-memory ordered table from key to its newest entry, with an
/// exactly tracked byte size used to drive flush decisions.
pub struct MemTable {
    entries: Vec<Entry>,
    size: u64,
}

impl View for MemTable {
    type V = Seq<EntryView>;

    closed spec fn view(&self) -> Seq<EntryView> {
        views_of(self.entries@)
    }
}

impl MemTable {
    /// The table is well-formed: keys strictly ascending, the size sum
    /// within `u64`, and the tracked size equal to it.
    pub closed spec fn wf(self) -> bool {
        &&& keys_strictly_sorted(self@)
        &&& spec_mem_size(self@) <= u64::MAX
        &&& self.size == spec_mem_size(self@)
    }

    /// Creates an empty memtable.
    pub fn new() -> (r: Self)
        ensures
            r.wf(),
            r@ == Seq::<EntryView>::empty(),
    {
        let r = Self { entries: Vec::new(), size: 0 };
        proof {
            assert(r@ =~= Seq::<EntryView>::empty());
        }
        r
    }

    /// Index of the first entry whose key is not below `key`.
    fn lower_bound(&self, key: &[u8]) -> (pos: usize)
        requires
            keys_strictly_sorted(self@),
        ensures
            pos <= self@.len(),
            forall|j: int| 0 <= j < pos ==> lex_lt(self@[j].key, key@),
            forall|j: int| pos <= j < self@.len() ==> !lex_lt(self@[j].key, key@),
    {
        let mut lo: usize = 0;
        let mut hi: usize = self.entries.len();
        while lo < hi
            invariant
                0 <= lo <= hi <= self@.len(),
                self@.len() == self.entries@.len(),
                keys_strictly_sorted(self@),
                forall|j: int| 0 <= j < lo ==> lex_lt(self@[j].key, key@),
                forall|j: int| hi <= j < self@.len() ==> !lex_lt(self@[j].key, key@),
            decreases hi - lo,
        {
            let mid = lo + (hi - lo) / 2;
            if bytes_lt(self.entries[mid].key.as_slice(), key) {
                proof {
                    assert forall|j: int| 0 <= j < mid + 1 implies lex_lt(self@[j].key, key@) by {
                        if j < mid {
                            lemma_lex_trans(self@[j].key, self@[mid as int].key, key@);
                        }
                    };
                }
                lo = mid + 1;
            } else {
                proof {
                    assert forall|j: int| mid <= j < self@.len() implies !lex_lt(
                        self@[j].key,
                        key@,
                    ) by {
                        if j > mid && lex_lt(self@[j].key, key@) {
                            lemma_lex_trans(self@[mid as int].key, self@[j].key, key@);
                        }
                    };
                }
                hi = mid;
            }
        }
        lo
    }

    /// Stores `entry` under its key, replacing any older version; the
    /// tracked size moves by the difference of the two contributions.
    fn upsert(&mut self, entry: Entry)
        requires
            old(self).wf(),
            spec_upsert_size(old(self)@, entry@) <= u64::MAX,
        ensures
            final(self).wf(),
            seq_to_map(final(self)@) == seq_to_map(old(self)@).insert(entry@.key, entry@),
            has_key(old(self)@, entry@.key) ==> final(self)@.len() == old(self)@.len(),
            !has_key(old(self)@, entry@.key) ==> final(self)@.len() == old(self)@.len() + 1,
    {
        let ghost s0 = self@;
        let ghost ev = entry@;
        let pos = self.lower_bound(entry.key.as_slice());
        let replace = pos < self.entries.len() && bytes_eq(
            self.entries[pos].key.as_slice(),
            entry.key.as_slice(),
        );
        if replace {
            proof {
                lemma_key_index_is(s0, pos as int);
                assert(has_key(s0, ev.key));
                assert(seq_to_map(s0)[ev.key] == s0[pos as int]);
                lemma_mem_size_elem(s0, pos as int);
                lemma_mem_size_update(s0, pos as int, ev);
            }
            let old_c = entry_contribution(&self.entries[pos]);
            let new_c = entry_contribution_of(&entry);
            self.size = self.size - old_c + new_c;
            self.entries.set(pos, entry);
            proof {
                assert(self@ =~= s0.update(pos as int, ev));
                assert(keys_strictly_sorted(self@));
                assert(seq_to_map(self@) =~= seq_to_map(s0).insert(ev.key, ev)) by {
                    lemma_map_after_update(s0, pos as int, ev);
                }
            }
        } else {
            proof {
                assert(!has_key(s0, ev.key)) by {
                    assert forall|i: int| 0 <= i < s0.len() implies s0[i].key != ev.key by {
                        if i < pos {
                            lemma_lex_trichotomy(s0[i].key, ev.key);
                        } else if i == pos {
                            assert(s0[i].key != ev.key);
                        } else {
                            lemma_lex_trichotomy(s0[i].key, ev.key);
                            if s0[i].key == ev.key {
                                assert(lex_lt(s0[pos as int].key, s0[i].key));
                                lemma_lex_trichotomy(s0[pos as int].key, ev.key);
                            }
                        }
                    };
                };
                lemma_mem_size_insert(s0, pos as int, ev);
            }
            let new_c = entry_contribution_of(&entry);
            self.size = self.size + new_c;
            self.entries.insert(pos, entry);
            proof {
                assert(self@ =~= s0.insert(pos as int, ev));
                assert(keys_strictly_sorted(self@)) by {
                    assert forall|i: int, j: int| 0 <= i < j < self@.len() implies lex_lt(
                        self@[i].key,
                        self@[j].key,
                    ) by {
                        if j == pos {
                            lemma_lex_trichotomy(s0[i].key, ev.key);
                        } else if i == pos && j > pos {
                            lemma_lex_trichotomy(ev.key, s0[j - 1].key);
                        }
                    };
                };
                assert(seq_to_map(self@) =~= seq_to_map(s0).insert(ev.key, ev)) by {
                    lemma_map_after_insert(s0, pos as int, ev);
                }
            }
        }
    }

    /// Inserts or updates a plain value under `key` (a put).
    pub fn put(&mut self, seq: u64, key: Vec<u8>, value: Vec<u8>)
        requires
            old(self).wf(),
            spec_upsert_size(
                old(self)@,
                EntryView { key: key@, val: ValueView::Normal(value@), seq },
            ) <= u64::MAX,
        ensures
            final(self).wf(),
            seq_to_map(final(self)@) == seq_to_map(old(self)@).insert(
                key@,
                EntryView { key: key@, val: ValueView::Normal(value@), seq },
            ),
    {
        self.upsert(Entry::new(seq, key, ValueType::Normal(value)));
    }

    /// Records a deletion of `key` by storing a tombstone under it; the
    /// key need not have been present.
    pub fn delete(&mut self, seq: u64, key: Vec<u8>)
        requires
            old(self).wf(),
            spec_upsert_size(
                old(self)@,
                EntryView { key: key@, val: ValueView::Tombstone, seq },
            ) <= u64::MAX,
        ensures
            final(self).wf(),
            seq_to_map(final(self)@) == seq_to_map(old(self)@).insert(
                key@,
                EntryView { key: key@, val: ValueView::Tombstone, seq },
            ),
    {
        self.upsert(Entry::new_tombstone(seq, key));
    }

    /// Inserts or updates an expiring value under `key`; `expire_at` is
    /// a Unix timestamp in seconds.
    pub fn put_expiring(&mut self, seq: u64, key: Vec<u8>, value: Vec<u8>, expire_at: u64)
        requires
            old(self).wf(),
            spec_upsert_size(
                old(self)@,
                EntryView { key: key@, val: ValueView::Expiring { data: value@, expire_at }, seq },
            ) <= u64::MAX,
        ensures
            final(self).wf(),
            seq_to_map(final(self)@) == seq_to_map(old(self)@).insert(
                key@,
                EntryView { key: key@, val: ValueView::Expiring { data: value@, expire_at }, seq },
            ),
    {
        self.upsert(Entry::new_expiring(seq, key, value, expire_at));
    }

    /// Looks up the newest entry stored under `key`; a tombstone is
    /// returned as an entry, not as absence.
    pub fn get(&self, key: &[u8]) -> (r: Option<Entry>)
        requires
            self.wf(),
        ensures
            match r {
                Some(e) => seq_to_map(self@).contains_key(key@) && e@ == seq_to_map(self@)[key@],
                None => !seq_to_map(self@).contains_key(key@),
            },
    {
        let pos = self.lower_bound(key);
        if pos < self.entries.len() && bytes_eq(self.entries[pos].key.as_slice(), key) {
            proof {
                lemma_key_index_is(self@, pos as int);
            }
            Some(self.entries[pos].duplicate())
        } else {
            proof {
                assert forall|i: int| 0 <= i < self@.len() implies self@[i].key != key@ by {
                    if i < pos {
                        lemma_lex_trichotomy(self@[i].key, key@);
                    } else if i > pos {
                        lemma_lex_trichotomy(self@[i].key, key@);
                        if self@[i].key == key@ {
                            assert(lex_lt(self@[pos as int].key, self@[i].key));
                            lemma_lex_trichotomy(self@[pos as int].key, key@);
                        }
                    }
                };
            }
            None
        }
    }

    /// The exact tracked size: the sum over all stored entries of key
    /// length plus value payload length plus sixteen.
    pub fn size(&self) -> (r: u64)
        requires
            self.wf(),
        ensures
            r == spec_mem_size(self@),
    {
        self.size
    }

    /// A copy of all entries in strictly ascending key order.
    pub fn snapshot(&self) -> (r: Vec<Entry>)
        requires
            self.wf(),
        ensures
            views_of(r@) == self@,
            forall|i: int, j: int| 0 <= i < j < r@.len() ==> lex_lt(r@[i]@.key, r@[j]@.key),
    {
        let mut r: Vec<Entry> = Vec::new();
        let n = self.entries.len();
        let mut i: usize = 0;
        while i < n
            invariant
                0 <= i <= n,
                n == self.entries@.len(),
                self.wf(),
                r@.len() == i,
                forall|k: int| 0 <= k < i ==> r@[k]@ == self@[k],
            decreases n - i,
        {
            r.push(self.entries[i].duplicate());
            i = i + 1;
        }
        proof {
            assert(views_of(r@) =~= self@) by {
                assert forall|k: int| 0 <= k < r@.len() implies views_of(r@)[k] == self@[k] by {
                    assert(views_of(r@)[k] == r@[k]@);
                };
            };
            assert forall|i: int, j: int| 0 <= i < j < r@.len() implies lex_lt(
                r@[i]@.key,
                r@[j]@.key,
            ) by {
                assert(r@[i]@ == self@[i] && r@[j]@ == self@[j]);
            };
        }
        r
    }
}

impl Default for MemTable {
    /// An empty memtable.
    fn default() -> (r: Self)
        ensures
            r.wf(),
            r@ == Seq::<EntryView>::empty(),
    {
        Self::new()
    }
}

/// The map contents after a mix of stores — each a put, delete, or
/// expiring put, applied oldest first — as the contracts of `put`,
/// `delete`, and `put_expiring` describe them.
pub open spec fn spec_apply(
    m: Map<Seq<u8>, EntryView>,
    ops: Seq<EntryView>,
) -> Map<Seq<u8>, EntryView>
    decreases ops.len(),
{
    if ops.len() == 0 {
        m
    } else {
        spec_apply(m, ops.drop_last()).insert(ops.last().key, ops.last())
    }
}

/// The latest store wins: after any mix of stores on one key, a lookup
/// of that key sees exactly the entry — value variant and sequence
/// number — of the newest store.
pub proof fn lemma_latest_wins(m: Map<Seq<u8>, EntryView>, ops: Seq<EntryView>, k: Seq<u8>)
    requires
        ops.len() > 0,
        forall|i: int| 0 <= i < ops.len() ==> (#[trigger] ops[i]).key == k,
    ensures
        spec_apply(m, ops).contains_key(k),
        spec_apply(m, ops)[k] == ops.last(),
{
}

/// Stores on one key leave every other key untouched.
pub proof fn lemma_other_keys_unchanged(
    m: Map<Seq<u8>, EntryView>,
    ops: Seq<EntryView>,
    k: Seq<u8>,
)
    requires
        forall|i: int| 0 <= i < ops.len() ==> (#[trigger] ops[i]).key != k,
    ensures
        spec_apply(m, ops).contains_key(k) == m.contains_key(k),
        m.contains_key(k) ==> spec_apply(m, ops)[k] == m[k],
    decreases ops.len(),
{
    if ops.len() > 0 {
        lemma_other_keys_unchanged(m, ops.drop_last(), k);
    }
}

/// Contribution of a stored entry to the tracked size.
fn entry_contribution(e: &Entry) -> (r: u64)
    requires
        spec_entry_contribution(e@) <= u64::MAX,
    ensures
        r == spec_entry_contribution(e@),
{
    e.key.len() as u64 + e.val.data_len() as u64 + e.val.meta_len() as u64 + 16
}

/// Contribution of an entry about to be stored.
fn entry_contribution_of(e: &Entry) -> (r: u64)
    requires
        spec_entry_contribution(e@) <= u64::MAX,
    ensures
        r == spec_entry_contribution(e@),
{
    entry_contribution(e)
}

proof fn lemma_map_after_update(s: Seq<EntryView>, i: int, e: EntryView)
    requires
        keys_strictly_sorted(s),
        0 <= i < s.len(),
        s[i].key == e.key,
    ensures
        seq_to_map(s.update(i, e)) =~= seq_to_map(s).insert(e.key, e),
{
    let t = s.update(i, e);
    assert(keys_strictly_sorted(t));
    assert forall|k: Seq<u8>| has_key(t, k) <==> (has_key(s, k) || k == e.key) by {
        if has_key(t, k) {
            let j = choose|j: int| 0 <= j < t.len() && t[j].key == k;
            if j != i {
                assert(s[j].key == k);
            }
        }
        if has_key(s, k) {
            let j = choose|j: int| 0 <= j < s.len() && s[j].key == k;
            if j != i {
                assert(t[j].key == k);
            }
        }
    };
    assert forall|k: Seq<u8>| has_key(t, k) implies seq_to_map(t)[k] == seq_to_map(s).insert(
        e.key,
        e,
    )[k] by {
        let j = key_index(t, k);
        lemma_key_index_is(t, j);
        if k == e.key {
            lemma_key_index_is(t, i);
        } else {
            assert(s[j].key == k);
            lemma_key_index_is(s, j);
        }
    };
}

proof fn lemma_map_after_insert(s: Seq<EntryView>, i: int, e: EntryView)
    requires
        keys_strictly_sorted(s),
        0 <= i <= s.len(),
        !has_key(s, e.key),
        keys_strictly_sorted(s.insert(i, e)),
    ensures
        seq_to_map(s.insert(i, e)) =~= seq_to_map(s).insert(e.key, e),
{
    let t = s.insert(i, e);
    assert(t[i] == e);
    assert forall|k: Seq<u8>| has_key(t, k) <==> (has_key(s, k) || k == e.key) by {
        if has_key(t, k) {
            let j = choose|j: int| 0 <= j < t.len() && t[j].key == k;
            if j < i {
                assert(s[j].key == k);
            } else if j > i {
                assert(s[j - 1].key == k);
            }
        }
        if has_key(s, k) {
            let j = choose|j: int| 0 <= j < s.len() && s[j].key == k;
            if j < i {
                assert(t[j].key == k);
            } else {
                assert(t[j + 1].key == k);
            }
        }
    };
    assert forall|k: Seq<u8>| has_key(t, k) implies seq_to_map(t)[k] == seq_to_map(s).insert(
        e.key,
        e,
    )[k] by {
        let j = key_index(t, k);
        lemma_key_index_is(t, j);
        if k == e.key {
            lemma_key_index_is(t, i);
        } else {
            if j < i {
                assert(s[j].key == k);
                lemma_key_index_is(s, j);
            } else {
                assert(s[j - 1].key == k);
                lemma_key_index_is(s, j - 1);
            }
        }
    };
}

} // verus!
