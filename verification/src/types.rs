//! The versioned data model: value variants, entries, and the entry
//! order used throughout the LSM tree.

use vstd::prelude::*;

use crate::byteops::{bytes_eq, bytes_lt, copy_bytes, lemma_lex_trichotomy, lex_lt};

use core::cmp::Ordering;

verus! {

/// Wire tag of a normal value.
pub const NORMAL_VALUE_TYPE: u8 = 0;

/// Wire tag of a tombstone.
pub const TOMBSTONE_VALUE_TYPE: u8 = 1;

/// Wire tag of an expiring value.
pub const EXPIRING_VALUE_TYPE: u8 = 2;

/// The kind of value stored under a key.
///
/// Each variant has a fixed tag in the on-disk and on-log encodings:
/// normal values are tagged 0, tombstones 1, expiring values 2.
#[derive(Debug, Clone, PartialEq)]
pub enum ValueType {
    /// A plain value: raw bytes.
    Normal(Vec<u8>),
    /// A deletion marker; it shadows older versions of the key until
    /// compaction can drop them.
    Tombstone,
    /// A value with a time-to-live, expiring at a Unix timestamp in
    /// seconds.
    Expiring { data: Vec<u8>, expire_at: u64 },
}

/// Mathematical image of a `ValueType`.
pub enum ValueView {
    Normal(Seq<u8>),
    Tombstone,
    Expiring { data: Seq<u8>, expire_at: u64 },
}

impl View for ValueType {
    type V = ValueView;

    open spec fn view(&self) -> ValueView {
        match self {
            ValueType::Normal(data) => ValueView::Normal(data@),
            ValueType::Tombstone => ValueView::Tombstone,
            ValueType::Expiring { data, expire_at } => ValueView::Expiring {
                data: data@,
                expire_at: *expire_at,
            },
        }
    }
}

/// Length of the user data carried by a value; zero for tombstones.
pub open spec fn spec_data_len(v: ValueView) -> nat {
    match v {
        ValueView::Normal(data) => data.len(),
        ValueView::Tombstone => 0,
        ValueView::Expiring { data, .. } => data.len(),
    }
}

/// Length of the metadata carried by a value: eight bytes for the
/// expiry timestamp of an expiring value, zero otherwise.
pub open spec fn spec_meta_len(v: ValueView) -> nat {
    match v {
        ValueView::Expiring { .. } => 8,
        _ => 0,
    }
}

/// Total number of payload bytes a value occupies when serialized,
/// excluding its type tag.
pub open spec fn spec_value_len(v: ValueView) -> nat {
    spec_data_len(v) + spec_meta_len(v)
}

/// The wire tag of a value.
pub open spec fn spec_type_tag(v: ValueView) -> u8 {
    match v {
        ValueView::Normal(..) => NORMAL_VALUE_TYPE,
        ValueView::Tombstone => TOMBSTONE_VALUE_TYPE,
        ValueView::Expiring { .. } => EXPIRING_VALUE_TYPE,
    }
}

impl ValueType {
    /// The tag under which this variant is serialized.
    pub fn type_tag(&self) -> (r: u8)
        ensures
            r == spec_type_tag(self@),
    {
        match self {
            ValueType::Normal(_) => NORMAL_VALUE_TYPE,
            ValueType::Tombstone => TOMBSTONE_VALUE_TYPE,
            ValueType::Expiring { .. } => EXPIRING_VALUE_TYPE,
        }
    }

    /// Length of the user data in bytes; zero for a tombstone.
    pub fn data_len(&self) -> (r: usize)
        ensures
            r == spec_data_len(self@),
    {
        match self {
            ValueType::Normal(data) => data.len(),
            ValueType::Tombstone => 0,
            ValueType::Expiring { data, .. } => data.len(),
        }
    }

    /// Length of the metadata in bytes: eight for an expiring value.
    pub fn meta_len(&self) -> (r: usize)
        ensures
            r == spec_meta_len(self@),
    {
        match self {
            ValueType::Normal(_) => 0,
            ValueType::Tombstone => 0,
            ValueType::Expiring { .. } => 8,
        }
    }

    /// Total serialized payload length: data plus metadata.
    pub fn serialized_len(&self) -> (r: usize)
        requires
            spec_value_len(self@) <= usize::MAX,
        ensures
            r == spec_value_len(self@),
    {
        self.data_len() + self.meta_len()
    }

    /// Whether this value is a deletion marker.
    pub fn is_tombstone(&self) -> (r: bool)
        ensures
            r == (self@ is Tombstone),
    {
        matches!(self, ValueType::Tombstone)
    }
}

/// A single versioned record: key, value variant, and the globally
/// monotonic sequence number stamped on the mutation.
#[derive(Debug, Clone)]
pub struct Entry {
    /// The key bytes.
    pub key: Vec<u8>,
    /// The stored value variant.
    pub val: ValueType,
    /// The sequence number of the mutation.
    pub seq: u64,
}

/// Mathematical image of an `Entry`.
pub struct EntryView {
    pub key: Seq<u8>,
    pub val: ValueView,
    pub seq: u64,
}

impl View for Entry {
    type V = EntryView;

    open spec fn view(&self) -> EntryView {
        EntryView { key: self.key@, val: self.val@, seq: self.seq }
    }
}

/// Bytes an entry accounts for in memory-size estimates: key, value
/// payload, and eight bytes for the sequence number.
pub open spec fn spec_entry_size(e: EntryView) -> nat {
    e.key.len() + spec_value_len(e.val) + 8
}

/// The entry order: keys ascending, and under one key sequence numbers
/// descending, so that a forward scan meets the newest version first.
pub open spec fn entry_lt(a: EntryView, b: EntryView) -> bool {
    lex_lt(a.key, b.key) || (a.key == b.key && a.seq > b.seq)
}

/// Non-strict form of the entry order.
pub open spec fn entry_le(a: EntryView, b: EntryView) -> bool {
    lex_lt(a.key, b.key) || (a.key == b.key && a.seq >= b.seq)
}

/// Where `a` stands relative to `b` in the entry order; two entries are
/// equal exactly when their key and sequence number agree.
pub open spec fn spec_entry_ordering(a: EntryView, b: EntryView) -> Ordering {
    if lex_lt(a.key, b.key) {
        Ordering::Less
    } else if lex_lt(b.key, a.key) {
        Ordering::Greater
    } else if a.seq > b.seq {
        Ordering::Less
    } else if a.seq < b.seq {
        Ordering::Greater
    } else {
        Ordering::Equal
    }
}

impl Entry {
    /// Creates an entry from its three parts.
    pub fn new(seq: u64, key: Vec<u8>, val: ValueType) -> (r: Self)
        ensures
            r@ == (EntryView { key: key@, val: val@, seq }),
    {
        Self { key, val, seq }
    }

    /// Creates a deletion marker for `key`.
    pub fn new_tombstone(seq: u64, key: Vec<u8>) -> (r: Self)
        ensures
            r@ == (EntryView { key: key@, val: ValueView::Tombstone, seq }),
    {
        Self::new(seq, key, ValueType::Tombstone)
    }

    /// Creates a plain value entry.
    pub fn new_normal(seq: u64, key: Vec<u8>, val: Vec<u8>) -> (r: Self)
        ensures
            r@ == (EntryView { key: key@, val: ValueView::Normal(val@), seq }),
    {
        Self::new(seq, key, ValueType::Normal(val))
    }

    /// Creates an expiring value entry; `expire_at` is a Unix timestamp
    /// in seconds.
    pub fn new_expiring(seq: u64, key: Vec<u8>, val: Vec<u8>, expire_at: u64) -> (r: Self)
        ensures
            r@ == (EntryView {
                key: key@,
                val: ValueView::Expiring { data: val@, expire_at },
                seq,
            }),
    {
        Self::new(seq, key, ValueType::Expiring { data: val, expire_at })
    }

    /// Whether this entry is a deletion marker.
    pub fn is_tombstone(&self) -> (r: bool)
        ensures
            r == (self@.val is Tombstone),
    {
        self.val.is_tombstone()
    }

    /// Estimated in-memory size: key length, value payload length, and
    /// eight bytes for the sequence number.
    pub fn estimated_size(&self) -> (r: usize)
        requires
            spec_entry_size(self@) <= usize::MAX,
        ensures
            r == spec_entry_size(self@),
    {
        self.key.len() + self.val.serialized_len() + 8
    }

    /// The key.
    pub fn key(&self) -> (r: &Vec<u8>)
        ensures
            r@ == self@.key,
    {
        &self.key
    }

    /// The value variant.
    pub fn val(&self) -> (r: &ValueType)
        ensures
            r@ == self@.val,
    {
        &self.val
    }

    /// The sequence number.
    pub fn seq(&self) -> (r: u64)
        ensures
            r == self@.seq,
    {
        self.seq
    }

    /// Deep copy of this entry.
    pub fn duplicate(&self) -> (r: Self)
        ensures
            r@ == self@,
    {
        let val = match &self.val {
            ValueType::Normal(data) => ValueType::Normal(copy_bytes(data.as_slice())),
            ValueType::Tombstone => ValueType::Tombstone,
            ValueType::Expiring { data, expire_at } => ValueType::Expiring {
                data: copy_bytes(data.as_slice()),
                expire_at: *expire_at,
            },
        };
        Entry { key: copy_bytes(self.key.as_slice()), val, seq: self.seq }
    }
}

impl PartialEq for Entry {
    /// Entries are identified by key and sequence number; the payload
    /// is not part of identity, a sequence number being globally unique
    /// per mutation.
    fn eq(&self, other: &Self) -> (r: bool) {
        self.seq == other.seq && bytes_eq(self.key.as_slice(), other.key.as_slice())
    }
}

impl vstd::std_specs::cmp::PartialEqSpecImpl for Entry {
    open spec fn obeys_eq_spec() -> bool {
        true
    }

    open spec fn eq_spec(&self, other: &Entry) -> bool {
        self.seq == other.seq && self.key@ == other.key@
    }
}

impl PartialOrd for Entry {
    /// Compares by key ascending, then by sequence number descending.
    fn partial_cmp(&self, other: &Self) -> (r: Option<Ordering>) {
        proof {
            lemma_lex_trichotomy(self.key@, other.key@);
        }
        if bytes_lt(self.key.as_slice(), other.key.as_slice()) {
            Some(Ordering::Less)
        } else if bytes_lt(other.key.as_slice(), self.key.as_slice()) {
            Some(Ordering::Greater)
        } else if self.seq > other.seq {
            Some(Ordering::Less)
        } else if self.seq < other.seq {
            Some(Ordering::Greater)
        } else {
            Some(Ordering::Equal)
        }
    }
}

impl vstd::std_specs::cmp::PartialOrdSpecImpl for Entry {
    open spec fn obeys_partial_cmp_spec() -> bool {
        true
    }

    open spec fn partial_cmp_spec(&self, other: &Entry) -> Option<Ordering> {
        Some(spec_entry_ordering(self@, other@))
    }
}

/// Whether `a` comes strictly before `b` in the entry order.
pub fn entry_before(a: &Entry, b: &Entry) -> (r: bool)
    ensures
        r == entry_lt(a@, b@),
{
    proof {
        lemma_lex_trichotomy(a.key@, b.key@);
    }
    if bytes_lt(a.key.as_slice(), b.key.as_slice()) {
        true
    } else if bytes_lt(b.key.as_slice(), a.key.as_slice()) {
        false
    } else {
        a.seq > b.seq
    }
}

/// The views of a sequence of entries.
pub open spec fn views_of(s: Seq<Entry>) -> Seq<EntryView> {
    s.map_values(|e: Entry| e@)
}

/// Position at which `e` belongs in a vector sorted by the entry
/// order: everything from the position on is strictly after `e`.
fn find_insert_pos(sorted: &Vec<Entry>, e: &Entry) -> (pos: usize)
    requires
        forall|i: int, j: int|
            0 <= i < j < sorted@.len() ==> entry_le(sorted@[i]@, sorted@[j]@),
    ensures
        pos <= sorted@.len(),
        forall|j: int| pos <= j < sorted@.len() ==> entry_lt(e@, sorted@[j]@),
        pos > 0 ==> !entry_lt(e@, sorted@[pos - 1]@),
{
    let mut pos: usize = sorted.len();
    while pos > 0
        invariant
            0 <= pos <= sorted@.len(),
            forall|j: int| pos <= j < sorted@.len() ==> entry_lt(e@, sorted@[j]@),
        decreases pos,
    {
        if entry_before(e, &sorted[pos - 1]) {
            pos = pos - 1;
        } else {
            return pos;
        }
    }
    pos
}

/// Sorts entries by key ascending and, under one key, by sequence
/// number descending; the result holds exactly the given entries.
pub fn sort_entries(entries: &mut Vec<Entry>)
    ensures
        views_of(final(entries)@).to_multiset() == views_of(old(entries)@).to_multiset(),
        final(entries)@.len() == old(entries)@.len(),
        forall|i: int, j: int|
            0 <= i < j < final(entries)@.len() ==> entry_le(
                final(entries)@[i]@,
                final(entries)@[j]@,
            ),
{
    let ghost orig = entries@;
    let mut sorted: Vec<Entry> = Vec::new();
    proof {
        broadcast use vstd::seq_lib::group_to_multiset_ensures;

        assert(views_of(orig).take(0) =~= Seq::<EntryView>::empty());
        assert(views_of(sorted@) =~= Seq::<EntryView>::empty());
        assert(views_of(orig).take(0).to_multiset() =~= views_of(sorted@).to_multiset());
    }
    let n = entries.len();
    let mut taken: usize = 0;
    while taken < n
        invariant
            0 <= taken <= n,
            n == orig.len(),
            entries@ == orig,
            views_of(sorted@).to_multiset() == views_of(orig).take(taken as int).to_multiset(),
            sorted@.len() == taken,
            forall|i: int, j: int|
                0 <= i < j < sorted@.len() ==> entry_le(sorted@[i]@, sorted@[j]@),
        decreases n - taken,
    {
        let e = entries[taken].duplicate();
        let pos = find_insert_pos(&sorted, &e);
        proof {
            broadcast use vstd::seq_lib::group_to_multiset_ensures;

            vstd::seq_lib::to_multiset_insert(views_of(sorted@), pos as int, e@);
            assert(views_of(orig).take(taken + 1) =~= views_of(orig).take(taken as int).push(e@));
        }
        let ghost presorted = sorted@;
        let ghost ev = e@;
        sorted.insert(pos, e);
        proof {
            assert(views_of(sorted@) =~= views_of(presorted).insert(pos as int, ev));
            if pos > 0 {
                lemma_entry_order_total(ev, presorted[pos - 1]@);
            }
            assert forall|i: int, j: int| 0 <= i < j < sorted@.len() implies entry_le(
                sorted@[i]@,
                sorted@[j]@,
            ) by {
                if i < pos && j == pos {
                    if i < pos - 1 {
                        lemma_entry_le_trans(presorted[i]@, presorted[pos - 1]@, ev);
                    }
                } else if i == pos && j > pos {
                    lemma_entry_order_total(ev, presorted[j - 1]@);
                }
            };
        }
        taken = taken + 1;
    }
    proof {
        assert(views_of(orig).take(orig.len() as int) =~= views_of(orig));
    }
    *entries = sorted;
}

/// Position at which `e` belongs in a vector sorted by sequence
/// number.
fn find_insert_pos_seq(sorted: &Vec<Entry>, e: &Entry) -> (pos: usize)
    ensures
        pos <= sorted@.len(),
        forall|j: int| pos <= j < sorted@.len() ==> e@.seq < sorted@[j]@.seq,
        pos > 0 ==> sorted@[pos - 1]@.seq <= e@.seq,
{
    let mut pos: usize = sorted.len();
    while pos > 0
        invariant
            0 <= pos <= sorted@.len(),
            forall|j: int| pos <= j < sorted@.len() ==> e@.seq < sorted@[j]@.seq,
        decreases pos,
    {
        if e.seq < sorted[pos - 1].seq {
            pos = pos - 1;
        } else {
            return pos;
        }
    }
    pos
}

/// Sorts entries by sequence number ascending; the result holds
/// exactly the given entries. Recovery uses this to restore global
/// mutation order.
pub fn sort_entries_by_seq(entries: &mut Vec<Entry>)
    ensures
        views_of(final(entries)@).to_multiset() == views_of(old(entries)@).to_multiset(),
        final(entries)@.len() == old(entries)@.len(),
        forall|i: int, j: int|
            0 <= i < j < final(entries)@.len() ==> final(entries)@[i]@.seq
                <= final(entries)@[j]@.seq,
{
    let ghost orig = entries@;
    let mut sorted: Vec<Entry> = Vec::new();
    proof {
        broadcast use vstd::seq_lib::group_to_multiset_ensures;

        assert(views_of(orig).take(0) =~= Seq::<EntryView>::empty());
        assert(views_of(sorted@) =~= Seq::<EntryView>::empty());
        assert(views_of(orig).take(0).to_multiset() =~= views_of(sorted@).to_multiset());
    }
    let n = entries.len();
    let mut taken: usize = 0;
    while taken < n
        invariant
            0 <= taken <= n,
            n == orig.len(),
            entries@ == orig,
            views_of(sorted@).to_multiset() == views_of(orig).take(taken as int).to_multiset(),
            sorted@.len() == taken,
            forall|i: int, j: int| 0 <= i < j < sorted@.len() ==> sorted@[i]@.seq <= sorted@[j]@.seq,
        decreases n - taken,
    {
        let e = entries[taken].duplicate();
        let pos = find_insert_pos_seq(&sorted, &e);
        proof {
            broadcast use vstd::seq_lib::group_to_multiset_ensures;

            vstd::seq_lib::to_multiset_insert(views_of(sorted@), pos as int, e@);
            assert(views_of(orig).take(taken + 1) =~= views_of(orig).take(taken as int).push(e@));
        }
        let ghost presorted = sorted@;
        let ghost ev = e@;
        sorted.insert(pos, e);
        proof {
            assert(views_of(sorted@) =~= views_of(presorted).insert(pos as int, ev));
        }
        taken = taken + 1;
    }
    proof {
        assert(views_of(orig).take(orig.len() as int) =~= views_of(orig));
    }
    *entries = sorted;
}

/// The non-strict entry order is transitive.
pub proof fn lemma_entry_le_trans(a: EntryView, b: EntryView, c: EntryView)
    requires
        entry_le(a, b),
        entry_le(b, c),
    ensures
        entry_le(a, c),
{
    lemma_lex_trichotomy(a.key, b.key);
    lemma_lex_trichotomy(b.key, c.key);
    lemma_lex_trichotomy(a.key, c.key);
    if lex_lt(a.key, b.key) && lex_lt(b.key, c.key) {
        crate::byteops::lemma_lex_trans(a.key, b.key, c.key);
    }
}

/// Any two entries are related by `entry_le` in one direction or the
/// other; `entry_lt` implies `entry_le`, and `entry_lt` excludes its
/// converse.
pub proof fn lemma_entry_order_total(a: EntryView, b: EntryView)
    ensures
        entry_le(a, b) || entry_le(b, a),
        entry_lt(a, b) ==> entry_le(a, b),
        entry_lt(a, b) ==> !entry_lt(b, a),
        !entry_lt(b, a) ==> entry_le(a, b),
{
    lemma_lex_trichotomy(a.key, b.key);
}

} // verus!
