//! The write-ahead log: a segment of records that grows by appends, the
//! replay of a segment, and the recovery that folds the segments of a
//! directory into one segment and one table.

use vstd::prelude::*;
use vstd::slice::slice_subrange;
use crate::memtable::{apply_all, lemma_apply_all_concat, EntryView, MemTable, MemTableEntry};
use crate::record::{
    decode, decode_record, delete_record, encodable, encode_delete, encode_put,
    lemma_decode_some, lemma_records_push, lemma_replay_encodable, lemma_replay_prefix,
    lemma_replay_round_trip, put_record, records_of, replay, whole_records,
};

verus! {

/// One replayed record of a segment.
#[derive(Debug, Clone, PartialEq, Eq)]
pub struct WALEntry {
    pub data: MemTableEntry,
}

impl View for WALEntry {
    type V = EntryView;

    open spec fn view(&self) -> EntryView {
        self.data@
    }
}

/// A forward-only cursor over the records of a segment.
pub struct WALIter<'a> {
    data: &'a [u8],
    pos: usize,
}

impl<'a> View for WALIter<'a> {
    type V = Seq<EntryView>;

    /// The entries that the cursor has yet to give.
    open spec fn view(&self) -> Seq<EntryView> {
        replay(self.remaining())
    }
}

impl<'a> WALIter<'a> {
    /// The bytes that the cursor has not read yet.
    pub closed spec fn remaining(&self) -> Seq<u8> {
        self.data@.skip(self.pos as int)
    }

    #[verifier::type_invariant]
    spec fn inv(&self) -> bool {
        self.pos <= self.data@.len()
    }

    /// A cursor at the start of the segment `data`.
    pub fn new(data: &'a [u8]) -> (iter: WALIter<'a>)
        ensures
            iter.remaining() == data@,
            iter@ == replay(data@),
    {
        let iter = WALIter { data, pos: 0 };
        assert(iter.remaining() =~= data@);
        iter
    }

    /// Gives the entry of the next record and moves past it. `None` at the
    /// end of the segment or at a record that the segment cuts short; the
    /// cursor then stays where it is.
    pub fn next(&mut self) -> (r: Option<WALEntry>)
        ensures
            (match r {
                Some(entry) => {
                    &&& old(self)@.len() > 0
                    &&& entry@ == old(self)@[0]
                    &&& final(self)@ == old(self)@.drop_first()
                    &&& decode(old(self).remaining()) is Some
                    &&& final(self).remaining() == old(self).remaining().skip(
                        decode(old(self).remaining()).unwrap().1,
                    )
                },
                None => {
                    &&& old(self)@.len() == 0
                    &&& decode(old(self).remaining()) is None
                    &&& final(self).remaining() == old(self).remaining()
                },
            }),
    {
        proof {
            use_type_invariant(&*self);
        }
        let rest = slice_subrange(self.data, self.pos, self.data.len());
        match decode_record(rest) {
            Some((entry, used)) => {
                proof {
                    lemma_decode_some(rest@);
                    assert(self.data@.skip(self.pos + used) =~= rest@.skip(used as int));
                    assert((seq![entry@] + replay(rest@.skip(used as int))).drop_first() =~= replay(
                        rest@.skip(used as int),
                    ));
                }
                self.pos = self.pos + used;
                Some(WALEntry { data: entry })
            },
            None => None,
        }
    }
}

/// The entries of all `segments`, replayed one segment after the other.
pub open spec fn replay_all(segments: Seq<Seq<u8>>) -> Seq<EntryView>
    decreases segments.len(),
{
    if segments.len() == 0 {
        Seq::empty()
    } else {
        replay_all(segments.drop_last()) + replay(segments.last())
    }
}

/// The bytes of all `segments` together.
pub open spec fn total_len(segments: Seq<Seq<u8>>) -> nat
    decreases segments.len(),
{
    if segments.len() == 0 {
        0
    } else {
        total_len(segments.drop_last()) + segments.last().len()
    }
}

/// The one segment that recovery writes for `segments`: the records of
/// every entry that they replay to, in order.
pub open spec fn recovered_log(segments: Seq<Seq<u8>>) -> Seq<u8> {
    records_of(replay_all(segments))
}

/// The table that recovery builds for `segments`: every entry that they
/// replay to, applied in order to an empty table.
pub open spec fn recovered_table(segments: Seq<Seq<u8>>) -> Map<Seq<u8>, EntryView> {
    apply_all(Map::empty(), replay_all(segments))
}

/// A log segment in memory: the bytes of the records appended to it.
pub struct WAL {
    buffer: Vec<u8>,
}

impl View for WAL {
    type V = Seq<u8>;

    closed spec fn view(&self) -> Seq<u8> {
        self.buffer@
    }
}

impl WAL {
    /// An empty segment.
    pub fn new() -> (wal: WAL)
        ensures
            wal@ == Seq::<u8>::empty(),
    {
        WAL { buffer: Vec::new() }
    }

    /// Appends the record that writes `value` under `key`.
    pub fn set(&mut self, key: &[u8], value: &[u8], timestamp: u128)
        ensures
            final(self)@ == old(self)@ + put_record(key@, value@, timestamp),
    {
        let mut record = encode_put(key, value, timestamp);
        self.buffer.append(&mut record);
    }

    /// Appends the record that deletes `key`.
    pub fn delete(&mut self, key: &[u8], timestamp: u128)
        ensures
            final(self)@ == old(self)@ + delete_record(key@, timestamp),
    {
        let mut record = encode_delete(key, timestamp);
        self.buffer.append(&mut record);
    }

    /// The bytes of the segment.
    pub fn as_bytes(&self) -> (bytes: &[u8])
        ensures
            bytes@ == self@,
    {
        self.buffer.as_slice()
    }

    /// A cursor over the records of the segment, from its start.
    pub fn iter(&self) -> (iter: WALIter<'_>)
        ensures
            iter.remaining() == self@,
            iter@ == replay(self@),
    {
        WALIter::new(self.buffer.as_slice())
    }

    /// Empties the segment.
    pub fn clear(&mut self)
        ensures
            final(self)@ == Seq::<u8>::empty(),
    {
        self.buffer.clear();
    }

    /// Recovery: replays `segments`, given in the order of their file names,
    /// into one fresh table and one fresh segment. Each replayed entry is
    /// applied to the table and logged again; a segment's replay ends where
    /// the segment cuts a record short.
    pub fn load_dir(segments: &[Vec<u8>]) -> (r: (WAL, MemTable))
        requires
            total_len(segments.deep_view()) <= usize::MAX,
        ensures
            r.0@ == recovered_log(segments.deep_view()),
            r.1@ == recovered_table(segments.deep_view()),
            r.1.accounted() <= r.0@.len() <= total_len(segments.deep_view()),
    {
        let ghost segs = segments.deep_view();
        let mut mem_table = MemTable::new();
        let mut wal = WAL::new();
        let mut i: usize = 0;
        assert(segs.take(0) =~= Seq::<Seq<u8>>::empty());
        while i < segments.len()
            invariant
                segs == segments.deep_view(),
                i <= segs.len(),
                total_len(segs) <= usize::MAX,
                wal@ == recovered_log(segs.take(i as int)),
                mem_table@ == recovered_table(segs.take(i as int)),
                mem_table.accounted() <= wal@.len() <= total_len(segs.take(i as int)),
            decreases segs.len() - i,
        {
            let ghost before = replay_all(segs.take(i as int));
            let ghost segment = segs[i as int];
            assert(segment == segments@[i as int]@);
            proof {
                lemma_total_len_take(segs, i as int + 1);
                assert(segs.take(i as int + 1).drop_last() =~= segs.take(i as int));
                lemma_replay_encodable(segment);
            }
            let mut iter = WALIter::new(segments[i].as_slice());
            let ghost mut seen: Seq<EntryView> = Seq::empty();
            assert(before + seen =~= before);
            loop
                invariant
                    replay(segment) == seen + iter@,
                    wal@ == records_of(before + seen),
                    mem_table@ == apply_all(Map::empty(), before + seen),
                    mem_table.accounted() <= wal@.len(),
                    wal@.len() + iter.remaining().len() <= total_len(segs.take(i as int + 1)),
                    total_len(segs.take(i as int + 1)) <= usize::MAX,
                ensures
                    iter@.len() == 0,
                decreases iter@.len(),
            {
                let ghost rest = iter.remaining();
                match iter.next() {
                    Some(entry) => {
                        let ghost e = entry@;
                        proof {
                            lemma_decode_some(rest);
                            lemma_records_push(before + seen, e);
                            assert((before + seen).push(e) =~= before + seen.push(e));
                            assert((before + seen.push(e)).drop_last() =~= before + seen);
                            assert(seen.push(e) + iter@ =~= seen + (seq![e] + iter@));
                            seen = seen.push(e);
                        }
                        match entry.data.value {
                            Some(value) => {
                                mem_table.insert(
                                    entry.data.key.as_slice(),
                                    value.as_slice(),
                                    entry.data.timestamp,
                                );
                                wal.set(
                                    entry.data.key.as_slice(),
                                    value.as_slice(),
                                    entry.data.timestamp,
                                );
                            },
                            None => {
                                mem_table.delete(entry.data.key.as_slice(), entry.data.timestamp);
                                wal.delete(entry.data.key.as_slice(), entry.data.timestamp);
                            },
                        }
                    },
                    None => {
                        break ;
                    },
                }
            }
            assert(seen =~= replay(segment));
            i = i + 1;
        }
        assert(segs.take(i as int) =~= segs);
        (wal, mem_table)
    }
}

/// Applies the entries that `segment` replays to, in order, to `table`, and
/// returns how many they are.
pub fn replay_into(table: &mut MemTable, segment: &[u8]) -> (count: usize)
    requires
        old(table).accounted() + segment@.len() <= usize::MAX,
    ensures
        final(table)@ == apply_all(old(table)@, replay(segment@)),
        count == replay(segment@).len(),
        final(table).accounted() <= old(table).accounted() + segment@.len(),
{
    let ghost start = table@;
    let ghost first_size = table.accounted();
    let mut iter = WALIter::new(segment);
    let mut count: usize = 0;
    let ghost mut seen: Seq<EntryView> = Seq::empty();
    proof {
        lemma_replay_encodable(segment@);
    }
    loop
        invariant
            replay(segment@) == seen + iter@,
            count == seen.len(),
            table@ == apply_all(start, seen),
            table.accounted() + iter.remaining().len() <= first_size + segment@.len(),
            count * 25 + iter.remaining().len() <= segment@.len(),
            first_size + segment@.len() <= usize::MAX,
        ensures
            iter@.len() == 0,
        decreases iter@.len(),
    {
        let ghost rest = iter.remaining();
        match iter.next() {
            Some(entry) => {
                let ghost e = entry@;
                proof {
                    lemma_decode_some(rest);
                    assert(seen.push(e).drop_last() =~= seen);
                    assert(seen.push(e) + iter@ =~= seen + (seq![e] + iter@));
                    seen = seen.push(e);
                }
                match entry.data.value {
                    Some(value) => {
                        table.insert(
                            entry.data.key.as_slice(),
                            value.as_slice(),
                            entry.data.timestamp,
                        );
                    },
                    None => {
                        table.delete(entry.data.key.as_slice(), entry.data.timestamp);
                    },
                }
                count = count + 1;
            },
            None => {
                break ;
            },
        }
    }
    assert(seen =~= replay(segment@));
    count
}

/// The bytes of the first `n` segments are no more than the bytes of all.
pub proof fn lemma_total_len_take(segments: Seq<Seq<u8>>, n: int)
    requires
        0 <= n <= segments.len(),
    ensures
        total_len(segments.take(n)) <= total_len(segments),
    decreases segments.len(),
{
    if n == segments.len() {
        assert(segments.take(n) =~= segments);
    } else {
        lemma_total_len_take(segments.drop_last(), n);
        assert(segments.drop_last().take(n) =~= segments.take(n));
    }
}

/// Every entry that segments replay to is encodable.
pub proof fn lemma_replay_all_encodable(segments: Seq<Seq<u8>>)
    ensures
        forall|i: int|
            0 <= i < replay_all(segments).len() ==> encodable(#[trigger] replay_all(segments)[i]),
    decreases segments.len(),
{
    if segments.len() > 0 {
        let front = replay_all(segments.drop_last());
        let back = replay(segments.last());
        lemma_replay_all_encodable(segments.drop_last());
        lemma_replay_encodable(segments.last());
        assert forall|i: int| 0 <= i < replay_all(segments).len() implies encodable(
            #[trigger] replay_all(segments)[i],
        ) by {
            if i < front.len() {
                assert(replay_all(segments)[i] == front[i]);
            } else {
                assert(replay_all(segments)[i] == back[i - front.len()]);
            }
        }
    }
}

/// Recovery is idempotent: recovering from the one segment that a recovery
/// wrote gives the same segment and the same table again.
pub proof fn lemma_recovery_idempotent(segments: Seq<Seq<u8>>)
    ensures
        recovered_log(seq![recovered_log(segments)]) == recovered_log(segments),
        recovered_table(seq![recovered_log(segments)]) == recovered_table(segments),
{
    let log = recovered_log(segments);
    lemma_replay_all_encodable(segments);
    lemma_replay_round_trip(replay_all(segments));
    lemma_replay_all_one(log);
}

/// One segment alone replays to its own entries.
pub proof fn lemma_replay_all_one(segment: Seq<u8>)
    ensures
        replay_all(seq![segment]) == replay(segment),
{
    let one = seq![segment];
    assert(one.drop_last() =~= Seq::<Seq<u8>>::empty());
    assert(one.last() == segment);
    assert(replay_all(one.drop_last()) =~= Seq::<EntryView>::empty());
    assert(replay_all(one) =~= replay(segment));
}

/// Writes replay in the order in which they were logged: where segment `i`
/// holds the records of `writes[i]`, the segments replay to all the writes
/// in order, and recovery builds the table that applying them one by one to
/// an empty table gives.
pub proof fn lemma_recovery_replays_writes(writes: Seq<Seq<EntryView>>, segments: Seq<Seq<u8>>)
    requires
        segments.len() == writes.len(),
        forall|i: int| 0 <= i < writes.len() ==> segments[i] == records_of(#[trigger] writes[i]),
        forall|i: int, j: int|
            0 <= i < writes.len() && 0 <= j < writes[i].len() ==> encodable(#[trigger] writes[i][j]),
    ensures
        replay_all(segments) == writes.flatten(),
        recovered_table(segments) == apply_all(Map::empty(), writes.flatten()),
    decreases writes.len(),
{
    writes.lemma_flatten_and_flatten_alt_are_equivalent();
    if writes.len() > 0 {
        let front = writes.drop_last();
        assert forall|i: int| 0 <= i < front.len() implies segments.drop_last()[i]
            == records_of(#[trigger] front[i]) by {
            assert(front[i] == writes[i]);
        }
        assert forall|i: int, j: int|
            0 <= i < front.len() && 0 <= j < front[i].len() implies encodable(
            #[trigger] front[i][j],
        ) by {
            assert(front[i] == writes[i]);
        }
        lemma_recovery_replays_writes(front, segments.drop_last());
        front.lemma_flatten_and_flatten_alt_are_equivalent();
        let last = writes.last();
        assert forall|j: int| 0 <= j < last.len() implies encodable(#[trigger] last[j]) by {
            assert(last[j] == writes[writes.len() - 1][j]);
        }
        lemma_replay_round_trip(last);
    }
}

/// Durability: what a commit makes visible is what recovery rebuilds. Where
/// a segment of whole records `flushed` is on stable storage and `log` is
/// appended to it, recovery from the longer segment gives the table that
/// recovery from `flushed` gives, with the writes of `log` applied to it in
/// order.
pub proof fn lemma_recovery_sees_appended_writes(flushed: Seq<u8>, log: Seq<u8>)
    requires
        whole_records(flushed),
    ensures
        replay(flushed + log) == replay(flushed) + replay(log),
        recovered_table(seq![flushed + log]) == apply_all(
            recovered_table(seq![flushed]),
            replay(log),
        ),
{
    lemma_replay_encodable(flushed);
    lemma_replay_prefix(replay(flushed), log);
    lemma_replay_all_one(flushed);
    lemma_replay_all_one(flushed + log);
    lemma_apply_all_concat(Map::empty(), replay(flushed), replay(log));
}

} // verus!
