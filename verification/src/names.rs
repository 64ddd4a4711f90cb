//! Names of segment files: a decimal timestamp in microseconds and a fixed
//! extension. Their byte-lexicographic order is the order in which recovery
//! replays the segments.

use vstd::prelude::*;
use vstd::seq_lib::{to_multiset_build, to_multiset_insert};
use vstd::slice::slice_to_vec;
use crate::order::{
    compare_keys, lemma_lex_asymmetric, lemma_lex_total, lemma_lex_transitive, lex_lt, KeyOrder,
};

verus! {

/// The extension of a segment file, with its dot: `.wal`.
pub open spec fn extension() -> Seq<u8> {
    seq![46u8, 119u8, 97u8, 108u8]
}

/// `name` is the name of a segment file: it ends in the extension and has at
/// least one byte before it.
pub open spec fn is_segment_name(name: Seq<u8>) -> bool {
    name.len() > 4 && name.skip(name.len() - 4) == extension()
}

/// The decimal digits of `n` in ASCII, without leading zeros.
pub open spec fn decimal(n: nat) -> Seq<u8>
    decreases n,
{
    if n < 10 {
        seq![(48 + n) as u8]
    } else {
        decimal(n / 10).push((48 + n % 10) as u8)
    }
}

/// The name of the segment file created at `timestamp`.
pub open spec fn segment_name(timestamp: u128) -> Seq<u8> {
    decimal(timestamp as nat) + extension()
}

/// No name comes before one that stands earlier in `names`.
pub open spec fn ascending(names: Seq<Seq<u8>>) -> bool {
    forall|i: int, j: int| 0 <= i < j < names.len() ==> !lex_lt(names[j], names[i])
}

/// The names among `names` that are names of segment files, in the order
/// in which they stand.
pub open spec fn segment_names_of(names: Seq<Seq<u8>>) -> Seq<Seq<u8>> {
    names.filter(|name: Seq<u8>| is_segment_name(name))
}

/// A number has at least one decimal digit.
pub proof fn lemma_decimal_len(n: nat)
    ensures
        decimal(n).len() >= 1,
    decreases n,
{
    if n >= 10 {
        lemma_decimal_len(n / 10);
    }
}

/// The name made for a timestamp is the name of a segment file.
pub proof fn lemma_segment_name_is_segment_name(timestamp: u128)
    ensures
        is_segment_name(segment_name(timestamp)),
{
    lemma_decimal_len(timestamp as nat);
    let name = segment_name(timestamp);
    assert(name.skip(name.len() - 4) =~= extension());
}

/// Adding a name at its place keeps an ascending sequence ascending.
pub proof fn lemma_ascending_insert(names: Seq<Seq<u8>>, at: int, name: Seq<u8>)
    requires
        ascending(names),
        0 <= at <= names.len(),
        at > 0 ==> !lex_lt(name, names[at - 1]),
        forall|j: int| at <= j < names.len() ==> lex_lt(name, #[trigger] names[j]),
    ensures
        ascending(names.insert(at, name)),
{
    let out = names.insert(at, name);
    assert forall|i: int, j: int| 0 <= i < j < out.len() implies !lex_lt(out[j], out[i]) by {
        if j < at {
            assert(out[i] == names[i] && out[j] == names[j]);
        } else if j == at {
            assert(out[i] == names[i]);
            if lex_lt(name, names[i]) {
                // names[i] <= names[at - 1] <= name
                if i < at - 1 {
                    lemma_lex_total(names[i], names[at - 1]);
                    if lex_lt(names[i], names[at - 1]) {
                        lemma_lex_transitive(name, names[i], names[at - 1]);
                    }
                }
            }
        } else if i < at {
            assert(out[i] == names[i] && out[j] == names[j - 1]);
        } else if i == at {
            assert(out[j] == names[j - 1]);
            lemma_lex_asymmetric(name, names[j - 1]);
        } else {
            assert(out[i] == names[i - 1] && out[j] == names[j - 1]);
        }
    }
}

/// Tells whether `name` is the name of a segment file.
pub fn has_segment_extension(name: &[u8]) -> (r: bool)
    ensures
        r == is_segment_name(name@),
{
    let n = name.len();
    if n <= 4 {
        return false;
    }
    let r = name[n - 4] == 46u8 && name[n - 3] == 119u8 && name[n - 2] == 97u8 && name[n - 1]
        == 108u8;
    proof {
        let tail = name@.skip(n - 4);
        assert(tail.len() == 4);
        assert(tail[0] == name@[n - 4] && tail[1] == name@[n - 3] && tail[2] == name@[n - 2]
            && tail[3] == name@[n - 1]);
        if r {
            assert(tail =~= extension());
        }
    }
    r
}

/// Picks the names of segment files out of the names of a directory and puts
/// them in ascending byte-lexicographic order: the order of replay.
pub fn segment_names(names: &[Vec<u8>]) -> (out: Vec<Vec<u8>>)
    ensures
        ascending(out.deep_view()),
        out.deep_view().to_multiset() == segment_names_of(names.deep_view()).to_multiset(),
{
    let ghost all = names.deep_view();
    let ghost pred = |name: Seq<u8>| is_segment_name(name);
    let mut out: Vec<Vec<u8>> = Vec::new();
    let mut i: usize = 0;
    assert(all.take(0).filter(pred) =~= Seq::<Seq<u8>>::empty());
    assert(out.deep_view() =~= Seq::<Seq<u8>>::empty());
    while i < names.len()
        invariant
            all == names.deep_view(),
            pred == (|name: Seq<u8>| is_segment_name(name)),
            i <= all.len(),
            ascending(out.deep_view()),
            out.deep_view().to_multiset() == all.take(i as int).filter(pred).to_multiset(),
        decreases all.len() - i,
    {
        let name = names[i].as_slice();
        assert(name@ == all[i as int]);
        proof {
            assert(all.take(i as int + 1) =~= all.take(i as int).push(all[i as int]));
            Seq::lemma_filter_push(all.take(i as int), all[i as int], pred);
        }
        if has_segment_extension(name) {
            let ghost sorted = out.deep_view();
            let mut at: usize = out.len();
            while at > 0 && compare_keys(name, out[at - 1].as_slice()) == KeyOrder::Less
                invariant
                    sorted == out.deep_view(),
                    at <= sorted.len(),
                    forall|j: int| at <= j < sorted.len() ==> lex_lt(name@, #[trigger] sorted[j]),
                decreases at,
            {
                assert(sorted[at - 1] == out@[at - 1]@);
                at = at - 1;
            }
            proof {
                if at > 0 {
                    assert(sorted[at - 1] == out@[at - 1]@);
                }
                lemma_ascending_insert(sorted, at as int, name@);
                to_multiset_insert(sorted, at as int, name@);
                to_multiset_build(all.take(i as int).filter(pred), name@);
            }
            out.insert(at, slice_to_vec(name));
            assert(out.deep_view() =~= sorted.insert(at as int, name@));
        }
        i = i + 1;
    }
    assert(all.take(i as int) =~= all);
    out
}

/// Makes the name of the segment file created at `timestamp`: the timestamp
/// in decimal, then the extension.
pub fn segment_file_name(timestamp: u128) -> (name: Vec<u8>)
    ensures
        name@ == segment_name(timestamp),
        is_segment_name(name@),
{
    let mut digits: Vec<u8> = Vec::new();
    let mut n: u128 = timestamp;
    assert(decimal(n as nat) + digits@.reverse() =~= decimal(timestamp as nat));
    loop
        invariant_except_break
            decimal(timestamp as nat) == decimal(n as nat) + digits@.reverse(),
        ensures
            decimal(timestamp as nat) == digits@.reverse(),
        decreases n,
    {
        let ghost before = digits@;
        let d: u8 = (n % 10) as u8;
        digits.push(48 + d);
        assert(digits@.reverse() =~= seq![(48 + d) as u8] + before.reverse());
        let next = n / 10;
        if next == 0 {
            assert(decimal(n as nat) + before.reverse() =~= digits@.reverse());
            break ;
        }
        assert(decimal(n as nat) + before.reverse() =~= decimal(next as nat) + digits@.reverse());
        n = next;
    }
    let mut name: Vec<u8> = Vec::new();
    let mut k: usize = digits.len();
    while k > 0
        invariant
            k <= digits@.len(),
            name@ == digits@.reverse().take(digits@.len() - k),
        decreases k,
    {
        k = k - 1;
        name.push(digits[k]);
        assert(name@ =~= digits@.reverse().take(digits@.len() - k));
    }
    assert(name@ =~= digits@.reverse());
    name.push(46u8);
    name.push(119u8);
    name.push(97u8);
    name.push(108u8);
    assert(name@ =~= segment_name(timestamp));
    proof {
        lemma_segment_name_is_segment_name(timestamp);
    }
    name
}

} // verus!
