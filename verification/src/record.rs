//! The binary layout of one log record, and the replay of a byte stream of
//! records.
//!
//! A record that writes a value is laid out as
//! `key_len: u64 | 0u8 | value_len: u64 | key | value | timestamp: u128`,
//! a record that deletes a key as
//! `key_len: u64 | flag: u8 | key | timestamp: u128`, where the flag is
//! written as 1 and read as a tombstone whenever it is not 0.
//! All integers are little-endian.

use vstd::prelude::*;
use vstd::bytes::{
    lemma_auto_spec_u128_to_from_le_bytes, lemma_auto_spec_u64_to_from_le_bytes,
    spec_u128_from_le_bytes, spec_u128_to_le_bytes, spec_u64_from_le_bytes, spec_u64_to_le_bytes,
    u128_from_le_bytes, u128_to_le_bytes, u64_from_le_bytes, u64_to_le_bytes,
};
use vstd::slice::{slice_subrange, slice_to_vec};
use crate::memtable::{EntryView, MemTableEntry};

verus! {

/// Bytes of a record that carries a key of `key_len` and a value of
/// `value_len` bytes.
pub open spec fn put_record_len(key_len: int, value_len: int) -> int {
    key_len + value_len + 33
}

/// Bytes of a record that deletes a key of `key_len` bytes.
pub open spec fn delete_record_len(key_len: int) -> int {
    key_len + 25
}

/// The record that writes `value` under `key`.
pub open spec fn put_record(key: Seq<u8>, value: Seq<u8>, timestamp: u128) -> Seq<u8> {
    spec_u64_to_le_bytes(key.len() as u64) + seq![0u8] + spec_u64_to_le_bytes(value.len() as u64)
        + key + value + spec_u128_to_le_bytes(timestamp)
}

/// The record that deletes `key`.
pub open spec fn delete_record(key: Seq<u8>, timestamp: u128) -> Seq<u8> {
    spec_u64_to_le_bytes(key.len() as u64) + seq![1u8] + key + spec_u128_to_le_bytes(timestamp)
}

/// The record of an entry: a put record where it carries a value, else a
/// delete record.
pub open spec fn record_of(e: EntryView) -> Seq<u8> {
    match e.value {
        Some(v) => put_record(e.key, v, e.timestamp),
        None => delete_record(e.key, e.timestamp),
    }
}

/// The records of `entries`, one after the other.
pub open spec fn records_of(entries: Seq<EntryView>) -> Seq<u8>
    decreases entries.len(),
{
    if entries.len() == 0 {
        Seq::empty()
    } else {
        record_of(entries[0]) + records_of(entries.drop_first())
    }
}

/// An entry that a record can hold: it is well formed and its lengths fit
/// the 64-bit length fields.
pub open spec fn encodable(e: EntryView) -> bool {
    &&& e.well_formed()
    &&& e.key.len() <= u64::MAX
    &&& e.value_len() <= u64::MAX
}

/// The first record of `s`: the entry it holds and the number of bytes it
/// takes. `None` where `s` ends before the record is complete.
pub open spec fn decode(s: Seq<u8>) -> Option<(EntryView, int)> {
    if s.len() < 9 {
        None
    } else {
        let key_len = spec_u64_from_le_bytes(s.subrange(0, 8)) as int;
        if s[8] != 0 {
            if s.len() < delete_record_len(key_len) {
                None
            } else {
                Some(
                    (
                        EntryView::tombstone(
                            s.subrange(9, 9 + key_len),
                            spec_u128_from_le_bytes(s.subrange(9 + key_len, 25 + key_len)),
                        ),
                        delete_record_len(key_len),
                    ),
                )
            }
        } else if s.len() < 17 {
            None
        } else {
            let value_len = spec_u64_from_le_bytes(s.subrange(9, 17)) as int;
            if s.len() < put_record_len(key_len, value_len) {
                None
            } else {
                Some(
                    (
                        EntryView::put(
                            s.subrange(17, 17 + key_len),
                            s.subrange(17 + key_len, 17 + key_len + value_len),
                            spec_u128_from_le_bytes(
                                s.subrange(17 + key_len + value_len, 33 + key_len + value_len),
                            ),
                        ),
                        put_record_len(key_len, value_len),
                    ),
                )
            }
        }
    }
}

/// The entries of the complete records at the start of `s`, in order. It
/// ends at the end of `s` or at the first record that `s` cuts short.
pub open spec fn replay(s: Seq<u8>) -> Seq<EntryView>
    decreases s.len(),
{
    match decode(s) {
        Some((e, n)) => seq![e] + replay(s.skip(n)),
        None => Seq::empty(),
    }
}

/// `s` is made of whole records only, each in the layout that encoding
/// gives: it is the records of the entries that it replays to.
pub open spec fn whole_records(s: Seq<u8>) -> bool {
    records_of(replay(s)) == s
}

/// Encodes the record that writes `value` under `key`.
pub fn encode_put(key: &[u8], value: &[u8], timestamp: u128) -> (out: Vec<u8>)
    ensures
        out@ == put_record(key@, value@, timestamp),
        out@.len() == put_record_len(key@.len() as int, value@.len() as int),
{
    let mut out = u64_to_le_bytes(key.len() as u64);
    out.push(0u8);
    let mut value_len = u64_to_le_bytes(value.len() as u64);
    out.append(&mut value_len);
    let mut key_bytes = slice_to_vec(key);
    out.append(&mut key_bytes);
    let mut value_bytes = slice_to_vec(value);
    out.append(&mut value_bytes);
    let mut stamp = u128_to_le_bytes(timestamp);
    out.append(&mut stamp);
    assert(out@ =~= put_record(key@, value@, timestamp));
    out
}

/// Encodes the record that deletes `key`.
pub fn encode_delete(key: &[u8], timestamp: u128) -> (out: Vec<u8>)
    ensures
        out@ == delete_record(key@, timestamp),
        out@.len() == delete_record_len(key@.len() as int),
{
    let mut out = u64_to_le_bytes(key.len() as u64);
    out.push(1u8);
    let mut key_bytes = slice_to_vec(key);
    out.append(&mut key_bytes);
    let mut stamp = u128_to_le_bytes(timestamp);
    out.append(&mut stamp);
    assert(out@ =~= delete_record(key@, timestamp));
    out
}

/// Decodes the first record of `bytes`: the entry and the number of bytes
/// the record takes. `None` where `bytes` ends before the record does,
/// be it that the bytes were cut short or that a length field asks for more
/// than there is.
pub fn decode_record(bytes: &[u8]) -> (r: Option<(MemTableEntry, usize)>)
    ensures
        (match r {
            Some((entry, used)) => decode(bytes@) == Some((entry@, used as int)),
            None => decode(bytes@) is None,
        }),
{
    let len = bytes.len();
    if len < 9 {
        return None;
    }
    let key_len = u64_from_le_bytes(slice_subrange(bytes, 0, 8));
    let deleted = bytes[8] != 0;
    if deleted {
        let room = len - 9;
        if room < 16 || key_len > (room - 16) as u64 {
            return None;
        }
        let key_end: usize = 9 + key_len as usize;
        let key = slice_to_vec(slice_subrange(bytes, 9, key_end));
        let timestamp = u128_from_le_bytes(slice_subrange(bytes, key_end, key_end + 16));
        Some((MemTableEntry { key, value: None, timestamp, deleted: true }, key_end + 16))
    } else {
        if len < 17 {
            return None;
        }
        let value_len = u64_from_le_bytes(slice_subrange(bytes, 9, 17));
        let room = len - 17;
        if room < 16 || key_len > (room - 16) as u64 {
            return None;
        }
        let key_end: usize = 17 + key_len as usize;
        if value_len > (len - 16 - key_end) as u64 {
            return None;
        }
        let value_end: usize = key_end + value_len as usize;
        let key = slice_to_vec(slice_subrange(bytes, 17, key_end));
        let value = slice_to_vec(slice_subrange(bytes, key_end, value_end));
        let timestamp = u128_from_le_bytes(slice_subrange(bytes, value_end, value_end + 16));
        Some((MemTableEntry { key, value: Some(value), timestamp, deleted: false }, value_end + 16))
    }
}

/// The record of an encodable entry has the length that its layout gives,
/// which is no less than what the entry accounts for in a table.
pub proof fn lemma_record_len(e: EntryView)
    requires
        encodable(e),
    ensures
        record_of(e).len() == (match e.value {
            Some(v) => put_record_len(e.key.len() as int, v.len() as int),
            None => delete_record_len(e.key.len() as int),
        }),
        record_of(e).len() >= 25,
        record_of(e).len() >= e.accounted_size(),
{
    lemma_auto_spec_u64_to_from_le_bytes();
    lemma_auto_spec_u128_to_from_le_bytes();
}

/// Round trip: decoding the record of an entry gives back the entry.
pub proof fn lemma_decode_round_trip(e: EntryView)
    requires
        encodable(e),
    ensures
        decode(record_of(e)) == Some((e, record_of(e).len() as int)),
{
    lemma_decode_prefix(e, Seq::empty());
    assert(record_of(e) + Seq::<u8>::empty() =~= record_of(e));
}

/// Decoding a record, whatever follows it, gives back the entry that was
/// encoded and the record's length.
pub proof fn lemma_decode_prefix(e: EntryView, rest: Seq<u8>)
    requires
        encodable(e),
    ensures
        decode(record_of(e) + rest) == Some((e, record_of(e).len() as int)),
{
    lemma_auto_spec_u64_to_from_le_bytes();
    lemma_auto_spec_u128_to_from_le_bytes();
    let s = record_of(e) + rest;
    let k = e.key.len() as int;
    assert(s.subrange(0, 8) =~= spec_u64_to_le_bytes(k as u64));
    match e.value {
        Some(v) => {
            let n = v.len() as int;
            assert(s[8] == 0);
            assert(s.subrange(9, 17) =~= spec_u64_to_le_bytes(n as u64));
            assert(s.subrange(17, 17 + k) =~= e.key);
            assert(s.subrange(17 + k, 17 + k + n) =~= v);
            assert(s.subrange(17 + k + n, 33 + k + n) =~= spec_u128_to_le_bytes(e.timestamp));
        },
        None => {
            assert(s[8] == 1);
            assert(s.subrange(9, 9 + k) =~= e.key);
            assert(s.subrange(9 + k, 25 + k) =~= spec_u128_to_le_bytes(e.timestamp));
        },
    }
}

/// A record cut short anywhere before its end decodes to nothing.
pub proof fn lemma_decode_truncated(e: EntryView, n: int)
    requires
        encodable(e),
        0 <= n < record_of(e).len(),
    ensures
        decode(record_of(e).take(n)) is None,
{
    lemma_auto_spec_u64_to_from_le_bytes();
    lemma_auto_spec_u128_to_from_le_bytes();
    let r = record_of(e);
    let s = r.take(n);
    if n >= 9 {
        assert(s.subrange(0, 8) =~= spec_u64_to_le_bytes(e.key.len() as u64));
        assert(s[8] == r[8]);
        match e.value {
            Some(v) => {
                assert(r[8] == 0);
                if n >= 17 {
                    assert(s.subrange(9, 17) =~= spec_u64_to_le_bytes(v.len() as u64));
                }
            },
            None => {
                assert(r[8] == 1);
            },
        }
    }
}

/// What `decode` finds is an encodable entry whose record has the length
/// that was consumed.
pub proof fn lemma_decode_some(s: Seq<u8>)
    requires
        decode(s) is Some,
    ensures
        encodable(decode(s).unwrap().0),
        record_of(decode(s).unwrap().0).len() == decode(s).unwrap().1,
        25 <= decode(s).unwrap().1 <= s.len(),
{
    lemma_auto_spec_u64_to_from_le_bytes();
    lemma_auto_spec_u128_to_from_le_bytes();
}

/// The records of a sequence that ends in `e` are the records of what comes
/// before, then the record of `e`.
pub proof fn lemma_records_push(entries: Seq<EntryView>, e: EntryView)
    ensures
        records_of(entries.push(e)) == records_of(entries) + record_of(e),
    decreases entries.len(),
{
    let all = entries.push(e);
    if entries.len() == 0 {
        assert(all.drop_first() =~= Seq::<EntryView>::empty());
        assert(records_of(all) =~= record_of(e) + records_of(all.drop_first()));
        assert(records_of(all) =~= records_of(entries) + record_of(e));
    } else {
        lemma_records_push(entries.drop_first(), e);
        assert(all.drop_first() =~= entries.drop_first().push(e));
        assert(records_of(all) =~= records_of(entries) + record_of(e));
    }
}

/// The records of two sequences, one after the other, are the records of
/// their concatenation.
pub proof fn lemma_records_concat(a: Seq<EntryView>, b: Seq<EntryView>)
    ensures
        records_of(a + b) == records_of(a) + records_of(b),
    decreases b.len(),
{
    if b.len() == 0 {
        assert(a + b =~= a);
        assert(records_of(a) + records_of(b) =~= records_of(a));
    } else {
        lemma_records_concat(a.push(b[0]), b.drop_first());
        lemma_records_push(a, b[0]);
        assert(a.push(b[0]) + b.drop_first() =~= a + b);
        assert(records_of(a) + record_of(b[0]) + records_of(b.drop_first()) =~= records_of(a)
            + records_of(b));
    }
}

/// Replaying the records of `entries`, followed by any bytes, gives
/// `entries` and then what the bytes that follow replay to.
pub proof fn lemma_replay_prefix(entries: Seq<EntryView>, rest: Seq<u8>)
    requires
        forall|i: int| 0 <= i < entries.len() ==> encodable(#[trigger] entries[i]),
    ensures
        replay(records_of(entries) + rest) == entries + replay(rest),
    decreases entries.len(),
{
    if entries.len() == 0 {
        assert(records_of(entries) + rest =~= rest);
        assert(entries + replay(rest) =~= replay(rest));
    } else {
        let e = entries[0];
        let tail = entries.drop_first();
        let s = records_of(entries) + rest;
        let after = records_of(tail) + rest;
        assert(s =~= record_of(e) + after);
        lemma_decode_prefix(e, after);
        lemma_record_len(e);
        assert(s.skip(record_of(e).len() as int) =~= after);
        assert forall|i: int| 0 <= i < tail.len() implies encodable(#[trigger] tail[i]) by {
            assert(tail[i] == entries[i + 1]);
        }
        lemma_replay_prefix(tail, rest);
        assert(seq![e] + (tail + replay(rest)) =~= entries + replay(rest));
    }
}

/// Round trip of a stream: replaying the records of `entries` gives
/// `entries`.
pub proof fn lemma_replay_round_trip(entries: Seq<EntryView>)
    requires
        forall|i: int| 0 <= i < entries.len() ==> encodable(#[trigger] entries[i]),
    ensures
        replay(records_of(entries)) == entries,
{
    lemma_replay_prefix(entries, Seq::empty());
    assert(records_of(entries) + Seq::<u8>::empty() =~= records_of(entries));
    assert(decode(Seq::<u8>::empty()) is None);
    assert(entries + replay(Seq::<u8>::empty()) =~= entries);
}

/// Truncation tolerance: a stream of records cut anywhere inside its record
/// number `k`, `n` bytes into it, replays to the `k` entries before it.
pub proof fn lemma_replay_truncated(entries: Seq<EntryView>, k: int, n: int)
    requires
        forall|i: int| 0 <= i < entries.len() ==> encodable(#[trigger] entries[i]),
        0 <= k < entries.len(),
        0 <= n < record_of(entries[k]).len(),
    ensures
        records_of(entries.take(k)).len() + n < records_of(entries).len(),
        replay(records_of(entries).take(records_of(entries.take(k)).len() + n)) == entries.take(k),
{
    let head = entries.take(k);
    let cut = record_of(entries[k]).take(n);
    let tail = entries.skip(k + 1);
    lemma_records_concat(head.push(entries[k]), tail);
    lemma_records_push(head, entries[k]);
    assert(head.push(entries[k]) + tail =~= entries);
    let whole = records_of(entries);
    assert(whole =~= records_of(head) + record_of(entries[k]) + records_of(tail));
    assert(whole.take(records_of(head).len() + n) =~= records_of(head) + cut);
    assert forall|i: int| 0 <= i < head.len() implies encodable(#[trigger] head[i]) by {
        assert(head[i] == entries[i]);
    }
    lemma_replay_prefix(head, cut);
    lemma_decode_truncated(entries[k], n);
    assert(head + replay(cut) =~= head);
}

/// Every replayed entry is encodable, and the records of what a stream
/// replays to are no longer than the stream.
pub proof fn lemma_replay_encodable(s: Seq<u8>)
    ensures
        forall|i: int| 0 <= i < replay(s).len() ==> encodable(#[trigger] replay(s)[i]),
        records_of(replay(s)).len() <= s.len(),
    decreases s.len(),
{
    match decode(s) {
        Some((e, n)) => {
            lemma_decode_some(s);
            let rest = s.skip(n);
            lemma_replay_encodable(rest);
            let r = replay(s);
            assert(r =~= seq![e] + replay(rest));
            assert(r.drop_first() =~= replay(rest));
            assert forall|i: int| 0 <= i < r.len() implies encodable(#[trigger] r[i]) by {
                if i > 0 {
                    assert(r[i] == replay(rest)[i - 1]);
                }
            }
        },
        None => {},
    }
}

/// The empty stream is a stream of whole records that replays to nothing.
pub proof fn lemma_whole_records_empty()
    ensures
        whole_records(Seq::empty()),
        replay(Seq::empty()) == Seq::<EntryView>::empty(),
{
    assert(decode(Seq::<u8>::empty()) is None);
    assert(replay(Seq::<u8>::empty()) =~= Seq::<EntryView>::empty());
    assert(records_of(Seq::<EntryView>::empty()) =~= Seq::<u8>::empty());
}

/// A stream of whole records stays one when the record of an encodable
/// entry is appended, and then replays to one entry more.
pub proof fn lemma_whole_records_push(s: Seq<u8>, e: EntryView)
    requires
        whole_records(s),
        encodable(e),
    ensures
        whole_records(s + record_of(e)),
        replay(s + record_of(e)) == replay(s).push(e),
{
    let record = record_of(e);
    lemma_replay_encodable(s);
    lemma_replay_prefix(replay(s), record);
    let one = seq![e];
    assert(one.drop_first() =~= Seq::<EntryView>::empty());
    assert(records_of(one.drop_first()) =~= Seq::<u8>::empty());
    assert(records_of(one) =~= record);
    lemma_replay_round_trip(one);
    assert(replay(s) + seq![e] =~= replay(s).push(e));
    lemma_records_push(replay(s), e);
}

} // verus!
