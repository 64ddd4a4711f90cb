//! The in-memory ordered index of the latest entry per key.
//!
//! A table is modelled by the mapping from each key to its entry, by the
//! listing of its entries in key order, and by the size that it accounts
//! for. The listing is strictly sorted and the size is the sum over the
//! listing at all times.

use vstd::prelude::*;
use vstd::slice::slice_to_vec;
use crate::order::{compare_keys, lemma_lex_irreflexive, lemma_lex_transitive, lex_lt, KeyOrder};

verus! {

/// One state change of a key: a value written at some time, or a tombstone.
#[derive(Debug, Clone, PartialEq, Eq)]
pub struct MemTableEntry {
    pub key: Vec<u8>,
    pub value: Option<Vec<u8>>,
    pub timestamp: u128,
    pub deleted: bool,
}

/// The mathematical content of an entry.
pub struct EntryView {
    pub key: Seq<u8>,
    pub value: Option<Seq<u8>>,
    pub timestamp: u128,
    pub deleted: bool,
}

impl EntryView {
    /// The entry that records `value` under `key`.
    pub open spec fn put(key: Seq<u8>, value: Seq<u8>, timestamp: u128) -> EntryView {
        EntryView { key, value: Some(value), timestamp, deleted: false }
    }

    /// The tombstone that records the deletion of `key`.
    pub open spec fn tombstone(key: Seq<u8>, timestamp: u128) -> EntryView {
        EntryView { key, value: None, timestamp, deleted: true }
    }

    /// An entry is a tombstone exactly when it carries no value.
    pub open spec fn well_formed(self) -> bool {
        self.deleted <==> self.value is None
    }

    /// Bytes of the value, none for a tombstone.
    pub open spec fn value_len(self) -> nat {
        match self.value {
            Some(v) => v.len(),
            None => 0,
        }
    }

    /// Bytes this entry accounts for in a table: key and value, sixteen for
    /// the timestamp and one for the tombstone flag.
    pub open spec fn accounted_size(self) -> nat {
        self.key.len() + self.value_len() + 17
    }
}

impl View for MemTableEntry {
    type V = EntryView;

    open spec fn view(&self) -> EntryView {
        EntryView {
            key: self.key@,
            value: match self.value {
                Some(v) => Some(v@),
                None => None,
            },
            timestamp: self.timestamp,
            deleted: self.deleted,
        }
    }
}

/// The keys of `s` ascend strictly in byte-lexicographic order, so no key
/// occurs twice.
pub open spec fn strictly_sorted(s: Seq<EntryView>) -> bool {
    forall|i: int, j: int| 0 <= i < j < s.len() ==> lex_lt(s[i].key, s[j].key)
}

/// Sum of the accounted sizes of the entries of `s`.
pub open spec fn total_size(s: Seq<EntryView>) -> nat
    decreases s.len(),
{
    if s.len() == 0 {
        0
    } else {
        total_size(s.drop_last()) + s.last().accounted_size()
    }
}

/// Some entry of `s` has the key `key`.
pub open spec fn has_key(s: Seq<EntryView>, key: Seq<u8>) -> bool {
    exists|i: int| 0 <= i < s.len() && #[trigger] s[i].key == key
}

/// The mapping from each key of `s` to its entry.
pub open spec fn entries_map(s: Seq<EntryView>) -> Map<Seq<u8>, EntryView> {
    Map::new(
        |key: Seq<u8>| has_key(s, key),
        |key: Seq<u8>| s[choose|i: int| 0 <= i < s.len() && #[trigger] s[i].key == key],
    )
}

/// The mapping after `entries` have been applied to `table` in order: each
/// entry takes the place of whatever its key held before.
pub open spec fn apply_all(table: Map<Seq<u8>, EntryView>, entries: Seq<EntryView>) -> Map<
    Seq<u8>,
    EntryView,
>
    decreases entries.len(),
{
    if entries.len() == 0 {
        table
    } else {
        apply_all(table, entries.drop_last()).insert(entries.last().key, entries.last())
    }
}

/// The index of the last entry of `entries` that names `key`; -1 where none
/// does.
pub open spec fn last_index_of(entries: Seq<EntryView>, key: Seq<u8>) -> int
    decreases entries.len(),
{
    if entries.len() == 0 {
        -1
    } else if entries.last().key == key {
        entries.len() - 1
    } else {
        last_index_of(entries.drop_last(), key)
    }
}

/// An ordered table of the latest entry of each key, with the number of
/// bytes it accounts for.
pub struct MemTable {
    entries: Vec<MemTableEntry>,
    size: usize,
}

impl View for MemTable {
    type V = Map<Seq<u8>, EntryView>;

    /// The mapping from each key to its latest entry.
    open spec fn view(&self) -> Map<Seq<u8>, EntryView> {
        entries_map(self.listing())
    }
}

impl MemTable {
    /// The entries in the order of an in-order traversal.
    pub closed spec fn listing(&self) -> Seq<EntryView> {
        self.entries@.map_values(|e: MemTableEntry| e@)
    }

    /// The size that the table tracks.
    pub closed spec fn accounted(&self) -> nat {
        self.size as nat
    }

    /// The size that the table accounts for once `e` has taken the place of
    /// the entry of its key, or has been added where the key is new.
    pub open spec fn accounted_after(&self, e: EntryView) -> int {
        if self@.contains_key(e.key) {
            self.accounted() - self@[e.key].accounted_size() + e.accounted_size()
        } else {
            (self.accounted() + e.accounted_size()) as int
        }
    }

    /// The number of entries once an entry has been stored under `key`.
    pub open spec fn len_after(&self, key: Seq<u8>) -> int {
        if self@.contains_key(key) {
            self.listing().len() as int
        } else {
            self.listing().len() as int + 1
        }
    }

    #[verifier::type_invariant]
    spec fn inv(&self) -> bool {
        &&& strictly_sorted(self.listing())
        &&& forall|i: int|
            0 <= i < self.listing().len() ==> (#[trigger] self.listing()[i]).well_formed()
        &&& self.size == total_size(self.listing())
    }

    /// An empty table.
    pub fn new() -> (table: MemTable)
        ensures
            table.listing() == Seq::<EntryView>::empty(),
            table@ == Map::<Seq<u8>, EntryView>::empty(),
            table.accounted() == 0,
    {
        let table = MemTable { entries: Vec::new(), size: 0 };
        assert(table.listing() =~= Seq::<EntryView>::empty());
        assert(table@ =~= Map::<Seq<u8>, EntryView>::empty());
        table
    }

    /// Searches the ordered entries for `key`: `Ok` with the index of its
    /// entry, or `Err` with the index at which an entry for it belongs.
    pub fn get_key_index(&self, key: &[u8]) -> (r: Result<usize, usize>)
        ensures
            (match r {
                Ok(i) => i < self.listing().len() && self.listing()[i as int].key == key@,
                Err(i) => {
                    &&& i <= self.listing().len()
                    &&& !has_key(self.listing(), key@)
                    &&& forall|j: int| 0 <= j < i ==> lex_lt(#[trigger] self.listing()[j].key, key@)
                    &&& forall|j: int|
                        i <= j < self.listing().len() ==> lex_lt(
                            key@,
                            #[trigger] self.listing()[j].key,
                        )
                },
            }),
    {
        proof {
            use_type_invariant(self);
        }
        let ghost s = self.listing();
        let mut lo: usize = 0;
        let mut hi: usize = self.entries.len();
        while lo < hi
            invariant
                s == self.listing(),
                strictly_sorted(s),
                lo <= hi <= s.len(),
                s.len() == self.entries@.len(),
                forall|j: int| 0 <= j < lo ==> lex_lt(#[trigger] s[j].key, key@),
                forall|j: int| hi <= j < s.len() ==> lex_lt(key@, #[trigger] s[j].key),
            decreases hi - lo,
        {
            let mid: usize = lo + (hi - lo) / 2;
            assert(s[mid as int] == self.entries@[mid as int]@);
            match compare_keys(self.entries[mid].key.as_slice(), key) {
                KeyOrder::Less => {
                    assert forall|j: int| 0 <= j < mid + 1 implies lex_lt(
                        #[trigger] s[j].key,
                        key@,
                    ) by {
                        if j < mid {
                            lemma_lex_transitive(s[j].key, s[mid as int].key, key@);
                        }
                    }
                    lo = mid + 1;
                },
                KeyOrder::Equal => {
                    return Ok(mid);
                },
                KeyOrder::Greater => {
                    assert forall|j: int| mid <= j < s.len() implies lex_lt(
                        key@,
                        #[trigger] s[j].key,
                    ) by {
                        if j > mid {
                            lemma_lex_transitive(key@, s[mid as int].key, s[j].key);
                        }
                    }
                    hi = mid;
                },
            }
        }
        proof {
            assert forall|j: int| 0 <= j < s.len() implies #[trigger] s[j].key != key@ by {
                lemma_lex_irreflexive(key@);
            }
        }
        Err(lo)
    }

    /// The entry held under `key`, whether it carries a value or is a
    /// tombstone: the caller tells the two apart by its `deleted` flag.
    pub fn get(&self, key: &[u8]) -> (r: Option<&MemTableEntry>)
        ensures
            (match r {
                Some(entry) => {
                    &&& self@.contains_key(key@)
                    &&& entry@ == self@[key@]
                    &&& entry@.key == key@
                    &&& entry@.well_formed()
                },
                None => !self@.contains_key(key@),
            }),
    {
        proof {
            use_type_invariant(self);
        }
        match self.get_key_index(key) {
            Ok(idx) => {
                proof {
                    lemma_entries_map_index(self.listing(), idx as int);
                }
                Some(&self.entries[idx])
            },
            Err(_) => None,
        }
    }

    /// Puts `entry` in the place that `found` gives: over the entry at the
    /// index, or as a new entry before it.
    fn store(&mut self, found: Result<usize, usize>, entry: MemTableEntry)
        requires
            entry@.well_formed(),
            old(self).accounted_after(entry@) <= usize::MAX,
            (match found {
                Ok(i) => i < old(self).listing().len() && old(self).listing()[i as int].key
                    == entry@.key,
                Err(i) => {
                    &&& i <= old(self).listing().len()
                    &&& forall|j: int|
                        0 <= j < i ==> lex_lt(#[trigger] old(self).listing()[j].key, entry@.key)
                    &&& forall|j: int|
                        i <= j < old(self).listing().len() ==> lex_lt(
                            entry@.key,
                            #[trigger] old(self).listing()[j].key,
                        )
                },
            }),
        ensures
            final(self)@ == old(self)@.insert(entry@.key, entry@),
            final(self).listing() == (match found {
                Ok(i) => old(self).listing().update(i as int, entry@),
                Err(i) => old(self).listing().insert(i as int, entry@),
            }),
            final(self).listing().len() == old(self).len_after(entry@.key),
            final(self).accounted() == old(self).accounted_after(entry@),
            strictly_sorted(final(self).listing()),
            final(self).accounted() == total_size(final(self).listing()),
    {
        proof {
            use_type_invariant(&*self);
        }
        let ghost before = self.listing();
        let ghost e = entry@;
        // Both fields change together, so the table is taken apart and put
        // together again.
        let mut taken = MemTable { entries: Vec::new(), size: 0 };
        proof {
            assert(taken.listing() =~= Seq::<EntryView>::empty());
        }
        std::mem::swap(self, &mut taken);
        let MemTable { entries: mut entries, size: mut size } = taken;
        assert(entries@.map_values(|e: MemTableEntry| e@) == before);
        match found {
            Ok(idx) => {
                proof {
                    lemma_entries_map_update(before, idx as int, e);
                    lemma_entries_map_index(before, idx as int);
                }
                assert(before[idx as int] == entries@[idx as int]@);
                let old_len: usize = match &entries[idx].value {
                    Some(v) => v.len(),
                    None => 0,
                };
                let new_len: usize = match &entry.value {
                    Some(v) => v.len(),
                    None => 0,
                };
                if new_len < old_len {
                    size = size - (old_len - new_len);
                } else {
                    size = size + (new_len - old_len);
                }
                entries[idx] = entry;
                assert(entries@.map_values(|e: MemTableEntry| e@) =~= before.update(idx as int, e));
            },
            Err(idx) => {
                proof {
                    lemma_entries_map_insert(before, idx as int, e);
                }
                let key_len: usize = entry.key.len();
                let value_len: usize = match &entry.value {
                    Some(v) => v.len(),
                    None => 0,
                };
                size = size + key_len + value_len + 17;
                entries.insert(idx, entry);
                assert(entries@.map_values(|e: MemTableEntry| e@) =~= before.insert(idx as int, e));
            },
        }
        *self = MemTable { entries, size };
    }

    /// Records `value` under `key`: over the entry that the key has, be it a
    /// value or a tombstone, or as a new entry at the key's place in the
    /// order. The size changes by the difference between the new value's
    /// length and the old one's, where a tombstone's is none, and grows by
    /// the whole entry where the key is new.
    pub fn insert(&mut self, key: &[u8], value: &[u8], timestamp: u128)
        requires
            old(self).accounted_after(EntryView::put(key@, value@, timestamp)) <= usize::MAX,
        ensures
            final(self)@ == old(self)@.insert(key@, EntryView::put(key@, value@, timestamp)),
            final(self).listing().len() == old(self).len_after(key@),
            final(self).accounted() == old(self).accounted_after(
                EntryView::put(key@, value@, timestamp),
            ),
            strictly_sorted(final(self).listing()),
            final(self).accounted() == total_size(final(self).listing()),
    {
        let entry = MemTableEntry {
            key: slice_to_vec(key),
            value: Some(slice_to_vec(value)),
            timestamp,
            deleted: false,
        };
        let found = self.get_key_index(key);
        self.store(found, entry);
    }

    /// Records the deletion of `key`: a tombstone takes the place of the
    /// entry that the key has, or is added at the key's place in the order.
    /// The size shrinks by the length of the value that is dropped, and
    /// grows by the tombstone where the key is new.
    pub fn delete(&mut self, key: &[u8], timestamp: u128)
        requires
            old(self).accounted_after(EntryView::tombstone(key@, timestamp)) <= usize::MAX,
        ensures
            final(self)@ == old(self)@.insert(key@, EntryView::tombstone(key@, timestamp)),
            final(self).listing().len() == old(self).len_after(key@),
            final(self).accounted() == old(self).accounted_after(
                EntryView::tombstone(key@, timestamp),
            ),
            strictly_sorted(final(self).listing()),
            final(self).accounted() == total_size(final(self).listing()),
    {
        let entry = MemTableEntry { key: slice_to_vec(key), value: None, timestamp, deleted: true };
        let found = self.get_key_index(key);
        self.store(found, entry);
    }

    /// The number of bytes the table accounts for: the sum of the accounted
    /// sizes of its entries.
    pub fn size(&self) -> (r: usize)
        ensures
            r == self.accounted(),
            r == total_size(self.listing()),
    {
        proof {
            use_type_invariant(self);
        }
        self.size
    }

    /// The number of keys in the table.
    pub fn len(&self) -> (r: usize)
        ensures
            r == self.listing().len(),
    {
        self.entries.len()
    }

    /// The entries in the order of an in-order traversal: their keys ascend
    /// strictly, so no key occurs twice.
    pub fn entries(&self) -> (r: &[MemTableEntry])
        ensures
            r@.map_values(|e: MemTableEntry| e@) == self.listing(),
            strictly_sorted(self.listing()),
            forall|i: int| 0 <= i < r@.len() ==> (#[trigger] r@[i])@.well_formed(),
    {
        proof {
            use_type_invariant(self);
            assert forall|i: int| 0 <= i < self.entries@.len() implies (
            #[trigger] self.entries@[i])@.well_formed() by {
                assert(self.listing()[i] == self.entries@[i]@);
            }
        }
        self.entries.as_slice()
    }
}

/// What a table accounts for fits in `usize`.
pub proof fn lemma_accounted_fits(table: MemTable)
    ensures
        table.accounted() <= usize::MAX,
{
}

/// The keys of a strictly sorted sequence are all different.
pub proof fn lemma_sorted_keys_distinct(s: Seq<EntryView>)
    requires
        strictly_sorted(s),
    ensures
        forall|i: int, j: int|
            0 <= i < s.len() && 0 <= j < s.len() && i != j ==> s[i].key != s[j].key,
{
    assert forall|i: int, j: int| 0 <= i < s.len() && 0 <= j < s.len() && i != j implies s[i].key
        != s[j].key by {
        lemma_lex_irreflexive(s[i].key);
    }
}

/// In a strictly sorted sequence every entry is the one that the mapping
/// holds under its key.
pub proof fn lemma_entries_map_index(s: Seq<EntryView>, i: int)
    requires
        strictly_sorted(s),
        0 <= i < s.len(),
    ensures
        entries_map(s).contains_key(s[i].key),
        entries_map(s)[s[i].key] == s[i],
{
    let key = s[i].key;
    assert(has_key(s, key));
    let j = choose|j: int| 0 <= j < s.len() && #[trigger] s[j].key == key;
    lemma_lex_irreflexive(key);
    assert(j == i);
}

/// A mapping has one strictly sorted listing only: two strictly sorted
/// sequences that hold the same entries under the same keys are equal.
pub proof fn lemma_sorted_listing_unique(a: Seq<EntryView>, b: Seq<EntryView>)
    requires
        strictly_sorted(a),
        strictly_sorted(b),
        entries_map(a) == entries_map(b),
    ensures
        a == b,
    decreases a.len(),
{
    if a.len() == 0 {
        if b.len() > 0 {
            lemma_entries_map_index(b, 0);
            assert(has_key(a, b[0].key));
        }
        assert(a =~= b);
    } else {
        let la = a.len() - 1;
        lemma_entries_map_index(a, la);
        assert(has_key(b, a[la].key));
        let lb = b.len() - 1;
        lemma_entries_map_index(b, lb);
        assert(has_key(a, b[lb].key));
        let j = choose|j: int| 0 <= j < b.len() && #[trigger] b[j].key == a[la].key;
        let i = choose|i: int| 0 <= i < a.len() && #[trigger] a[i].key == b[lb].key;
        if j < lb {
            // The last key of `a` would come before the last key of `b`,
            // which is a key of `a` and so not after the last key of `a`.
            if i < la {
                lemma_lex_transitive(a[la].key, b[lb].key, a[la].key);
            }
            lemma_lex_irreflexive(a[la].key);
        }
        assert(a[la].key == b[lb].key);
        assert(a[la] == b[lb]);
        let a0 = a.drop_last();
        let b0 = b.drop_last();
        lemma_sorted_keys_distinct(a);
        lemma_sorted_keys_distinct(b);
        assert forall|key: Seq<u8>| has_key(a0, key) == has_key(b0, key) by {
            if has_key(a0, key) {
                let x = choose|x: int| 0 <= x < a0.len() && #[trigger] a0[x].key == key;
                assert(a[x].key == key);
                assert(has_key(a, key));
                lemma_entries_map_index(a, x);
                let y = choose|y: int| 0 <= y < b.len() && #[trigger] b[y].key == key;
                assert(y != lb);
                assert(b0[y].key == key);
            }
            if has_key(b0, key) {
                let y = choose|y: int| 0 <= y < b0.len() && #[trigger] b0[y].key == key;
                assert(b[y].key == key);
                assert(has_key(b, key));
                lemma_entries_map_index(b, y);
                let x = choose|x: int| 0 <= x < a.len() && #[trigger] a[x].key == key;
                assert(x != la);
                assert(a0[x].key == key);
            }
        }
        assert forall|key: Seq<u8>| has_key(a0, key) implies entries_map(a0)[key] == entries_map(
            b0,
        )[key] by {
            let x = choose|x: int| 0 <= x < a0.len() && #[trigger] a0[x].key == key;
            let y = choose|y: int| 0 <= y < b0.len() && #[trigger] b0[y].key == key;
            lemma_entries_map_index(a0, x);
            lemma_entries_map_index(b0, y);
            assert(a0[x] == a[x] && b0[y] == b[y]);
            lemma_entries_map_index(a, x);
            lemma_entries_map_index(b, y);
        }
        assert(entries_map(a0) =~= entries_map(b0));
        lemma_sorted_listing_unique(a0, b0);
        assert(a =~= a0.push(a[la]));
        assert(b =~= b0.push(b[lb]));
    }
}

/// Replacing the entry of a key in a strictly sorted sequence keeps it
/// sorted and overwrites the key in the mapping.
pub proof fn lemma_entries_map_update(s: Seq<EntryView>, i: int, e: EntryView)
    requires
        strictly_sorted(s),
        0 <= i < s.len(),
        s[i].key == e.key,
    ensures
        strictly_sorted(s.update(i, e)),
        entries_map(s.update(i, e)) == entries_map(s).insert(e.key, e),
        total_size(s.update(i, e)) == total_size(s) - s[i].accounted_size() + e.accounted_size(),
{
    let t = s.update(i, e);
    assert forall|a: int, b: int| 0 <= a < b < t.len() implies lex_lt(t[a].key, t[b].key) by {
        assert(t[a].key == s[a].key);
        assert(t[b].key == s[b].key);
    }
    let m1 = entries_map(t);
    let m2 = entries_map(s).insert(e.key, e);
    assert forall|key: Seq<u8>| m1.contains_key(key) == m2.contains_key(key) by {
        if has_key(t, key) {
            let j = choose|j: int| 0 <= j < t.len() && #[trigger] t[j].key == key;
            assert(s[j].key == key);
        }
        if has_key(s, key) {
            let j = choose|j: int| 0 <= j < s.len() && #[trigger] s[j].key == key;
            assert(t[j].key == key);
        }
        if key == e.key {
            assert(t[i].key == key);
        }
    }
    assert forall|key: Seq<u8>| m1.contains_key(key) implies m1[key] == m2[key] by {
        let j = choose|j: int| 0 <= j < t.len() && #[trigger] t[j].key == key;
        lemma_entries_map_index(t, j);
        if j != i {
            assert(s[j] == t[j]);
            lemma_entries_map_index(s, j);
            lemma_lex_irreflexive(key);
        }
    }
    assert(m1 =~= m2);
    lemma_total_size_update(s, i, e);
}

/// Inserting an entry with a new key at its place in a strictly sorted
/// sequence keeps it sorted and adds the key to the mapping.
pub proof fn lemma_entries_map_insert(s: Seq<EntryView>, i: int, e: EntryView)
    requires
        strictly_sorted(s),
        0 <= i <= s.len(),
        forall|j: int| 0 <= j < i ==> lex_lt(#[trigger] s[j].key, e.key),
        forall|j: int| i <= j < s.len() ==> lex_lt(e.key, #[trigger] s[j].key),
    ensures
        strictly_sorted(s.insert(i, e)),
        !entries_map(s).contains_key(e.key),
        entries_map(s.insert(i, e)) == entries_map(s).insert(e.key, e),
        total_size(s.insert(i, e)) == total_size(s) + e.accounted_size(),
{
    let t = s.insert(i, e);
    assert forall|a: int, b: int| 0 <= a < b < t.len() implies lex_lt(t[a].key, t[b].key) by {
        if b < i {
            assert(t[a] == s[a] && t[b] == s[b]);
        } else if b == i {
            assert(t[a] == s[a]);
        } else if a < i {
            assert(t[a] == s[a] && t[b] == s[b - 1]);
            lemma_lex_transitive(s[a].key, e.key, s[b - 1].key);
        } else if a == i {
            assert(t[b] == s[b - 1]);
        } else {
            assert(t[a] == s[a - 1] && t[b] == s[b - 1]);
        }
    }
    lemma_lex_irreflexive(e.key);
    assert(!has_key(s, e.key));
    let m1 = entries_map(t);
    let m2 = entries_map(s).insert(e.key, e);
    assert forall|key: Seq<u8>| m1.contains_key(key) == m2.contains_key(key) by {
        if has_key(t, key) {
            let j = choose|j: int| 0 <= j < t.len() && #[trigger] t[j].key == key;
            if j < i {
                assert(s[j].key == key);
            } else if j > i {
                assert(s[j - 1].key == key);
            }
        }
        if has_key(s, key) {
            let j = choose|j: int| 0 <= j < s.len() && #[trigger] s[j].key == key;
            if j < i {
                assert(t[j].key == key);
            } else {
                assert(t[j + 1].key == key);
            }
        }
        if key == e.key {
            assert(t[i].key == key);
        }
    }
    assert forall|key: Seq<u8>| m1.contains_key(key) implies m1[key] == m2[key] by {
        let j = choose|j: int| 0 <= j < t.len() && #[trigger] t[j].key == key;
        lemma_entries_map_index(t, j);
        if j < i {
            assert(s[j] == t[j]);
            lemma_entries_map_index(s, j);
        } else if j > i {
            assert(s[j - 1] == t[j]);
            lemma_entries_map_index(s, j - 1);
        }
    }
    assert(m1 =~= m2);
    lemma_total_size_insert(s, i, e);
}

/// The sum of sizes is no less than the size of any one entry, and changes
/// by the difference of the two sizes when an entry is replaced.
pub proof fn lemma_total_size_update(s: Seq<EntryView>, i: int, e: EntryView)
    requires
        0 <= i < s.len(),
    ensures
        total_size(s) >= s[i].accounted_size(),
        total_size(s.update(i, e)) == total_size(s) - s[i].accounted_size() + e.accounted_size(),
    decreases s.len(),
{
    let t = s.update(i, e);
    if i == s.len() - 1 {
        assert(t.drop_last() =~= s.drop_last());
    } else {
        lemma_total_size_update(s.drop_last(), i, e);
        assert(t.drop_last() =~= s.drop_last().update(i, e));
    }
}

/// The sum of sizes grows by the size of an entry that is added.
pub proof fn lemma_total_size_insert(s: Seq<EntryView>, i: int, e: EntryView)
    requires
        0 <= i <= s.len(),
    ensures
        total_size(s.insert(i, e)) == total_size(s) + e.accounted_size(),
    decreases s.len(),
{
    let t = s.insert(i, e);
    if i == s.len() {
        assert(t.drop_last() =~= s);
    } else {
        lemma_total_size_insert(s.drop_last(), i, e);
        assert(t.drop_last() =~= s.drop_last().insert(i, e));
    }
}

/// Applying one sequence of entries and then another is applying their
/// concatenation.
pub proof fn lemma_apply_all_concat(
    table: Map<Seq<u8>, EntryView>,
    first: Seq<EntryView>,
    second: Seq<EntryView>,
)
    ensures
        apply_all(apply_all(table, first), second) == apply_all(table, first + second),
    decreases second.len(),
{
    if second.len() == 0 {
        assert(first + second =~= first);
    } else {
        lemma_apply_all_concat(table, first, second.drop_last());
        assert((first + second).drop_last() =~= first + second.drop_last());
        assert((first + second).last() == second.last());
    }
}

/// Last write wins: after `entries` have been applied, a key holds the last
/// entry among them that names it, and what `table` held where none does.
pub proof fn lemma_apply_all_last_write_wins(
    table: Map<Seq<u8>, EntryView>,
    entries: Seq<EntryView>,
    key: Seq<u8>,
)
    ensures
        has_key(entries, key) ==> 0 <= last_index_of(entries, key) < entries.len(),
        has_key(entries, key) ==> entries[last_index_of(entries, key)].key == key,
        has_key(entries, key) ==> forall|j: int|
            last_index_of(entries, key) < j < entries.len() ==> entries[j].key != key,
        has_key(entries, key) ==> apply_all(table, entries).contains_key(key),
        has_key(entries, key) ==> apply_all(table, entries)[key] == entries[last_index_of(
            entries,
            key,
        )],
        !has_key(entries, key) ==> apply_all(table, entries).contains_key(key)
            == table.contains_key(key),
        !has_key(entries, key) && table.contains_key(key) ==> apply_all(table, entries)[key]
            == table[key],
    decreases entries.len(),
{
    if entries.len() > 0 {
        let front = entries.drop_last();
        lemma_apply_all_last_write_wins(table, front, key);
        if entries.last().key == key {
            assert(has_key(entries, key));
        } else if has_key(front, key) {
            let i = last_index_of(front, key);
            assert(entries[i].key == key);
            assert(has_key(entries, key));
            assert(entries[i] == front[i]);
            assert forall|j: int| i < j < entries.len() implies entries[j].key != key by {
                if j < front.len() {
                    assert(front[j] == entries[j]);
                }
            }
        } else if has_key(entries, key) {
            let i = choose|i: int| 0 <= i < entries.len() && #[trigger] entries[i].key == key;
            assert(front[i].key == key);
        }
    }
}

} // verus!
