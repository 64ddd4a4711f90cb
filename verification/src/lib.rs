//! AnchorDB: the durable write path of an embedded key-value engine.
//!
//! A write is first logged as a record of the write-ahead log and becomes
//! visible in the in-memory table only once the log has reached stable
//! storage. At startup the segments of the log are replayed, in the order
//! of their file names, into one segment and one table.

use vstd::prelude::*;
use vstd::slice::slice_to_vec;

pub mod error;
pub mod memtable;
pub mod names;
pub mod order;
pub mod record;
pub mod wal;

use crate::memtable::{apply_all, lemma_accounted_fits, EntryView, MemTable};
use crate::record::{
    encodable, lemma_record_len, lemma_whole_records_empty, lemma_whole_records_push, put_record,
    put_record_len, record_of, replay, whole_records,
};
use crate::wal::{replay_into, WAL};

verus! {

/// A value read from the engine: the key, the value stored under it and the
/// time of the write.
#[derive(Debug, Clone, PartialEq, Eq)]
pub struct DBEntry {
    key: Vec<u8>,
    value: Vec<u8>,
    timestamp: u128,
}

impl View for DBEntry {
    type V = EntryView;

    /// The entry that was read: one that carries a value.
    closed spec fn view(&self) -> EntryView {
        EntryView::put(self.key@, self.value@, self.timestamp)
    }
}

impl DBEntry {
    /// The key that was read.
    pub fn key(&self) -> (r: &[u8])
        ensures
            r@ == self@.key,
    {
        self.key.as_slice()
    }

    /// The value stored under the key.
    pub fn value(&self) -> (r: &[u8])
        ensures
            self@.value == Some(r@),
    {
        self.value.as_slice()
    }

    /// The time of the write, in microseconds.
    pub fn timestamp(&self) -> (r: u128)
        ensures
            r == self@.timestamp,
    {
        self.timestamp
    }
}

/// The engine: the table of what is visible and the log buffer of what has
/// been written but has not yet reached stable storage.
///
/// A write takes two steps. `put` logs it; the caller then writes the bytes
/// of `unflushed` to the active segment file and flushes it; `commit` takes
/// the outcome and, where the flush succeeded, makes the logged writes
/// visible. So nothing is visible that is not on stable storage.
pub struct AnchorDB {
    mem_table: MemTable,
    wal: WAL,
}

impl View for AnchorDB {
    type V = Map<Seq<u8>, EntryView>;

    /// The visible state: the mapping from each key to its latest committed
    /// entry.
    open spec fn view(&self) -> Map<Seq<u8>, EntryView> {
        self.table()@
    }
}

impl AnchorDB {
    /// The table of the visible entries.
    pub closed spec fn table(&self) -> MemTable {
        self.mem_table
    }

    /// The bytes logged since the last commit.
    pub closed spec fn log(&self) -> Seq<u8> {
        self.wal@
    }

    /// The writes logged since the last commit, in order.
    pub open spec fn staged(&self) -> Seq<EntryView> {
        replay(self.log())
    }

    #[verifier::type_invariant]
    spec fn inv(&self) -> bool {
        &&& whole_records(self.wal@)
        &&& self.mem_table.accounted() + self.wal@.len() <= usize::MAX
    }

    /// An engine that shows the entries of `mem_table` and has nothing
    /// logged.
    pub fn new(mem_table: MemTable) -> (db: AnchorDB)
        ensures
            db.table() == mem_table,
            db.log() == Seq::<u8>::empty(),
            db.staged() == Seq::<EntryView>::empty(),
    {
        proof {
            lemma_whole_records_empty();
            lemma_accounted_fits(mem_table);
        }
        AnchorDB { mem_table, wal: WAL::new() }
    }

    /// The value visible under `key`. `None` where the key is absent and
    /// where its latest entry is a tombstone.
    pub fn get(&self, key: &[u8]) -> (r: Option<DBEntry>)
        ensures
            (match r {
                Some(entry) => {
                    &&& self@.contains_key(key@)
                    &&& entry@ == self@[key@]
                    &&& entry@.key == key@
                    &&& entry@.value is Some
                    &&& !entry@.deleted
                },
                None => !self@.contains_key(key@) || self@[key@].deleted,
            }),
    {
        match self.mem_table.get(key) {
            Some(entry) => match &entry.value {
                Some(value) => Some(
                    DBEntry {
                        key: slice_to_vec(entry.key.as_slice()),
                        value: slice_to_vec(value.as_slice()),
                        timestamp: entry.timestamp,
                    },
                ),
                None => None,
            },
            None => None,
        }
    }

    /// The table of the visible entries. What it accounts for and what is
    /// logged fit in `usize` together.
    pub fn mem_table(&self) -> (table: &MemTable)
        ensures
            *table == self.table(),
            table.accounted() + self.log().len() <= usize::MAX,
    {
        proof {
            use_type_invariant(self);
        }
        &self.mem_table
    }

    /// First step of a write: logs the record that writes `value` under
    /// `key`. Nothing becomes visible.
    pub fn put(&mut self, key: &[u8], value: &[u8], timestamp: u128)
        requires
            old(self).table().accounted() + old(self).log().len() + put_record_len(
                key@.len() as int,
                value@.len() as int,
            ) <= usize::MAX,
        ensures
            final(self).table() == old(self).table(),
            final(self).log() == old(self).log() + put_record(key@, value@, timestamp),
            final(self).staged() == old(self).staged().push(
                EntryView::put(key@, value@, timestamp),
            ),
    {
        proof {
            use_type_invariant(&*self);
            let e = EntryView::put(key@, value@, timestamp);
            assert(encodable(e));
            assert(record_of(e) == put_record(key@, value@, timestamp));
            lemma_whole_records_push(self.wal@, e);
            lemma_record_len(e);
            lemma_whole_records_empty();
        }
        let mut taken = AnchorDB { mem_table: MemTable::new(), wal: WAL::new() };
        std::mem::swap(self, &mut taken);
        let AnchorDB { mem_table, wal: mut wal } = taken;
        wal.set(key, value, timestamp);
        *self = AnchorDB { mem_table, wal };
    }

    /// The bytes logged since the last commit: what the caller has to write
    /// to the active segment file and flush before it commits.
    pub fn unflushed(&self) -> (bytes: &[u8])
        ensures
            bytes@ == self.log(),
    {
        self.wal.as_bytes()
    }

    /// Second step of a write. `flushed` tells whether the bytes of
    /// `unflushed` have reached stable storage. Where they have, the logged
    /// writes become visible in the order in which they were logged, the
    /// buffer is emptied and their number is returned. Where they have not,
    /// nothing changes and the result is `Err(0)`.
    pub fn commit(&mut self, flushed: bool) -> (r: Result<usize, usize>)
        ensures
            flushed ==> r is Ok,
            flushed ==> r.unwrap() == old(self).staged().len(),
            flushed ==> final(self)@ == apply_all(old(self)@, old(self).staged()),
            flushed ==> final(self).log() == Seq::<u8>::empty(),
            !flushed ==> r == Err::<usize, usize>(0),
            !flushed ==> final(self).table() == old(self).table(),
            !flushed ==> final(self).log() == old(self).log(),
    {
        if !flushed {
            return Err(0);
        }
        proof {
            use_type_invariant(&*self);
            lemma_whole_records_empty();
        }
        let mut taken = AnchorDB { mem_table: MemTable::new(), wal: WAL::new() };
        std::mem::swap(self, &mut taken);
        let AnchorDB { mem_table: mut mem_table, wal: mut wal } = taken;
        let count = replay_into(&mut mem_table, wal.as_bytes());
        wal.clear();
        *self = AnchorDB { mem_table, wal };
        Ok(count)
    }
}

} // verus!
