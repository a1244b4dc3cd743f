//! Blocks of lines on their way from the parser to the persister.

use vstd::prelude::*;
use rayon::slice::ParallelSliceMut;
use crate::models::{same_text, LogEntry, LogEntryView, RequestView};

verus! {

/// The number of lines in a block.
pub const CHUNK_SIZE: usize = 100000;

/// The number of parsed blocks that may wait for the persister.
pub const CHUNK_QUEUE: usize = 3;

/// The values of the `Ok` items of `s`, in order.
pub open spec fn ok_values<T, E>(s: Seq<Result<T, E>>) -> Seq<T>
    decreases s.len(),
{
    if s.len() == 0 {
        Seq::empty()
    } else {
        match s.last() {
            Ok(v) => ok_values(s.drop_last()).push(v),
            Err(_) => ok_values(s.drop_last()),
        }
    }
}

/// The errors of the `Err` items of `s`, in order.
pub open spec fn err_values<T, E>(s: Seq<Result<T, E>>) -> Seq<E>
    decreases s.len(),
{
    if s.len() == 0 {
        Seq::empty()
    } else {
        match s.last() {
            Ok(_) => err_values(s.drop_last()),
            Err(e) => err_values(s.drop_last()).push(e),
        }
    }
}

/// Splits results into the values, which go on down the pipeline, and the errors,
/// which go to the diagnostics; both keep their order.
pub fn split_results<T, E>(items: Vec<Result<T, E>>) -> (r: (Vec<T>, Vec<E>))
    ensures
        r.0@ == ok_values(items@),
        r.1@ == err_values(items@),
{
    let ghost all = items@;
    let mut oks: Vec<T> = Vec::new();
    let mut errs: Vec<E> = Vec::new();
    for item in it: items.into_iter()
        invariant
            it.seq() == all,
            oks@ == ok_values(all.take(it.index() as int)),
            errs@ == err_values(all.take(it.index() as int)),
    {
        proof {
            assert(all.take(it.index() + 1).drop_last() =~= all.take(it.index() as int));
        }
        match item {
            Ok(v) => oks.push(v),
            Err(e) => errs.push(e),
        }
    }
    assert(all.take(all.len() as int) =~= all);
    (oks, errs)
}

/// A block whose every line failed gives no value and one error per line.
pub proof fn lemma_all_failed<T, E>(s: Seq<Result<T, E>>)
    requires
        forall|i: int| 0 <= i < s.len() ==> #[trigger] s[i] is Err,
    ensures
        ok_values(s).len() == 0,
        err_values(s).len() == s.len(),
    decreases s.len(),
{
    if s.len() > 0 {
        assert(s.drop_last()[0] == s[0] || s.drop_last().len() == 0);
        assert forall|i: int| 0 <= i < s.drop_last().len() implies #[trigger] s.drop_last()[i] is Err by {
            assert(s.drop_last()[i] == s[i]);
        }
        lemma_all_failed(s.drop_last());
        assert(s.last() == s[s.len() - 1]);
    }
}

/// What makes two entries the same for deduplication: time, client and request.
pub open spec fn fingerprint(e: LogEntryView) -> (i64, i64, RequestView) {
    (e.timestamp, e.user.hash, e.request)
}

/// Whether `s` holds an entry with the fingerprint of `e`.
pub open spec fn covers(s: Seq<LogEntry>, e: LogEntryView) -> bool {
    exists|j: int| 0 <= j < s.len() && fingerprint((#[trigger] s[j])@) == fingerprint(e)
}

pub open spec fn sorted_by_time(s: Seq<LogEntry>) -> bool {
    forall|i: int, j: int| 0 <= i < j < s.len() ==> s[i].timestamp <= s[j].timestamp
}

/// The order of `(timestamp, index)` pairs: by timestamp, then by index.
pub open spec fn key_le(a: (i64, usize), b: (i64, usize)) -> bool {
    a.0 < b.0 || (a.0 == b.0 && a.1 <= b.1)
}

/// Relies on rayon's ParallelSliceMut::par_sort_unstable: sorts the pairs in place in
/// the order of tuples, which compares the first items and then the second, and
/// keeps each of them.
#[verifier::external_body]
fn sort_keys(keys: &mut Vec<(i64, usize)>)
    ensures
        final(keys)@.to_multiset() == old(keys)@.to_multiset(),
        forall|a: int, b: int| 0 <= a < b < final(keys)@.len() ==> key_le(final(keys)@[a], final(keys)@[b]),
{
    keys.par_sort_unstable()
}

/// Whether entry `i` of `s` is the first one with its fingerprint.
pub open spec fn first_of_fingerprint(s: Seq<LogEntry>, i: int) -> bool {
    &&& 0 <= i < s.len()
    &&& forall|j: int| 0 <= j < i ==> fingerprint(#[trigger] s[j]@) != fingerprint(s[i]@)
}

/// Whether `r` is made of the entries of `s` at `idx`, each the first of its
/// fingerprint, in the order of their times and, for equal times, of their places in `s`.
pub open spec fn picks(s: Seq<LogEntry>, r: Seq<LogEntry>, idx: Seq<int>) -> bool {
    &&& idx.len() == r.len()
    &&& forall|k: int|
        0 <= k < r.len() ==> first_of_fingerprint(s, #[trigger] idx[k]) && s[idx[k]]@ == r[k]@
    &&& forall|k1: int, k2: int|
        0 <= k1 < k2 < r.len() ==> (#[trigger] r[k1]).timestamp < (#[trigger] r[k2]).timestamp || (
        r[k1].timestamp == r[k2].timestamp && idx[k1] < idx[k2])
}

fn same_fingerprint(a: &LogEntry, b: &LogEntry) -> (r: bool)
    ensures
        r == (fingerprint(a@) == fingerprint(b@)),
{
    a.timestamp == b.timestamp && a.user.hash == b.user.hash && a.request.status_code
        == b.request.status_code && same_text(a.request.method.as_str(), b.request.method.as_str())
        && same_text(a.request.url.as_str(), b.request.url.as_str())
}

fn has_fingerprint(out: &Vec<LogEntry>, from: usize, e: &LogEntry) -> (r: bool)
    requires
        from <= out.len(),
    ensures
        r == exists|j: int| from <= j < out.len() && fingerprint(#[trigger] out@[j]@) == fingerprint(e@),
{
    let mut j = from;
    while j < out.len()
        invariant
            from <= j <= out.len(),
            forall|m: int| from <= m < j ==> fingerprint(#[trigger] out@[m]@) != fingerprint(e@),
        decreases out.len() - j,
    {
        if same_fingerprint(&out[j], e) {
            return true;
        }
        j += 1;
    }
    false
}

/// Makes a block ready to be stored: the first entry of each fingerprint that occurs
/// in it, sorted by timestamp; entries of equal times keep their order in the block.
pub fn prepare_block(entries: Vec<LogEntry>) -> (r: Vec<LogEntry>)
    ensures
        r.len() <= entries.len(),
        sorted_by_time(r@),
        forall|i: int, j: int|
            0 <= i < j < r.len() ==> fingerprint(#[trigger] r@[i]@) != fingerprint(#[trigger] r@[j]@),
        forall|i: int| 0 <= i < entries.len() ==> covers(r@, #[trigger] entries@[i]@),
        exists|idx: Seq<int>| picks(entries@, r@, idx),
{
    let ghost input = entries@;
    let mut keys: Vec<(i64, usize)> = Vec::new();
    let mut i: usize = 0;
    while i < entries.len()
        invariant
            i <= entries.len(),
            keys.len() == i,
            forall|k: int| 0 <= k < i ==> #[trigger] keys@[k] == (entries@[k].timestamp, k as usize),
        decreases entries.len() - i,
    {
        keys.push((entries[i].timestamp, i));
        i += 1;
    }
    let ghost unsorted = keys@;
    sort_keys(&mut keys);
    let ghost sorted = keys@;
    proof {
        unsorted.to_multiset_ensures();
        sorted.to_multiset_ensures();
        assert forall|k: int| 0 <= k < input.len() implies sorted.contains(#[trigger] unsorted[k]) by {
            assert(unsorted.contains(unsorted[k]));
            assert(unsorted.to_multiset().count(unsorted[k]) > 0);
        }
        assert forall|p: int| 0 <= p < sorted.len() implies unsorted.contains(#[trigger] sorted[p]) by {
            assert(sorted.contains(sorted[p]));
            assert(sorted.to_multiset().count(sorted[p]) > 0);
        }
        assert forall|p: int| 0 <= p < sorted.len() implies (#[trigger] sorted[p]).1 < input.len()
            && sorted[p].0 == input[sorted[p].1 as int].timestamp by {
            assert(unsorted.contains(sorted[p]));
        }
    }
    let mut out: Vec<LogEntry> = Vec::new();
    let ghost mut idx: Seq<int> = Seq::empty();
    let mut run_start: usize = 0;
    let mut n: usize = 0;
    while n < keys.len()
        invariant
            n <= keys.len(),
            keys@ == sorted,
            entries@ == input,
            sorted.len() == input.len(),
            unsorted.len() == input.len(),
            forall|k: int| 0 <= k < input.len() ==> sorted.contains(#[trigger] unsorted[k]),
            forall|k: int| 0 <= k < input.len() ==> #[trigger] unsorted[k] == (input[k].timestamp, k as usize),
            forall|p: int| 0 <= p < sorted.len() ==> (#[trigger] sorted[p]).1 < input.len()
                && sorted[p].0 == input[sorted[p].1 as int].timestamp,
            forall|a: int, b: int| 0 <= a < b < sorted.len() ==> key_le(sorted[a], sorted[b]),
            run_start <= out.len(),
            out.len() <= n,
            n == 0 <==> out.len() == 0,
            n > 0 ==> out@.last().timestamp == sorted[n - 1].0,
            n > 0 ==> key_le((out@.last().timestamp, idx.last() as usize), sorted[n - 1]),
            forall|m: int| 0 <= m < run_start ==> (#[trigger] out@[m]).timestamp < out@.last().timestamp,
            sorted_by_time(out@),
            forall|a: int, b: int|
                0 <= a < b < out.len() ==> fingerprint(#[trigger] out@[a]@) != fingerprint(#[trigger] out@[b]@),
            forall|p: int| 0 <= p < n ==> covers(out@, #[trigger] input[sorted[p].1 as int]@),
            picks(input, out@, idx),
            forall|k: int| 0 <= k < idx.len() ==> 0 <= #[trigger] idx[k] < input.len(),
        decreases keys.len() - n,
    {
        let (t, i) = keys[n];
        let e = entries[i].copy();
        assert(sorted[n as int] == (t, i));
        assert(e.timestamp == t);
        if n > 0 {
            assert(key_le(sorted[n - 1], sorted[n as int]));
        }
        if out.len() > 0 && out[out.len() - 1].timestamp != t {
            run_start = out.len();
        }
        let ghost before = out@;
        let ghost idx_before = idx;
        if !has_fingerprint(&out, run_start, &e) {
            proof {
                assert forall|m: int| 0 <= m < out.len() implies fingerprint(#[trigger] out@[m]@)
                    != fingerprint(e@) by {
                    if m < run_start {
                        assert(out@[m].timestamp < e.timestamp);
                    }
                }
                // No earlier entry has this fingerprint: it would have the same time
                // and a smaller index, so it came before in the sorted keys and was kept.
                assert forall|j: int| 0 <= j < i implies fingerprint(#[trigger] input[j]@) != fingerprint(
                    input[i as int]@,
                ) by {
                    if fingerprint(input[j]@) == fingerprint(input[i as int]@) {
                        assert(sorted.contains(unsorted[j]));
                        let p = choose|p: int| 0 <= p < sorted.len() && sorted[p] == unsorted[j];
                        if p >= n {
                            assert(key_le(sorted[n as int], sorted[p]));
                        }
                        assert(covers(out@, input[sorted[p].1 as int]@));
                    }
                }
            }
            out.push(e);
            proof {
                idx = idx.push(i as int);
                assert forall|k: int| 0 <= k < out.len() implies first_of_fingerprint(input, #[trigger] idx[k])
                    && input[idx[k]]@ == out@[k]@ by {
                    if k < before.len() {
                        assert(idx[k] == idx_before[k]);
                        assert(out@[k] == before[k]);
                    }
                }
                assert forall|k1: int, k2: int| 0 <= k1 < k2 < out.len() implies (#[trigger] out@[k1]).timestamp
                    < (#[trigger] out@[k2]).timestamp || (out@[k1].timestamp == out@[k2].timestamp && idx[k1]
                    < idx[k2]) by {
                    if k2 < before.len() {
                        assert(out@[k1] == before[k1] && out@[k2] == before[k2]);
                        assert(idx[k1] == idx_before[k1] && idx[k2] == idx_before[k2]);
                    } else if n > 0 {
                        assert(key_le(sorted[n - 1], sorted[n as int]));
                        assert(out@[k1] == before[k1] && idx[k1] == idx_before[k1]);
                        if k1 < before.len() - 1 {
                            assert(out@[k1].timestamp < before.last().timestamp || (out@[k1].timestamp
                                == before.last().timestamp && idx_before[k1] < idx_before.last()));
                        }
                        if sorted[n - 1] == sorted[n as int] {
                            assert(unsorted.contains(sorted[n as int]));
                            assert(unsorted.contains(sorted[n - 1]));
                        }
                    }
                }
                assert forall|p: int| 0 <= p < n + 1 implies covers(out@, #[trigger] input[sorted[p].1 as int]@) by {
                    if p < n {
                        let j = choose|j: int|
                            0 <= j < before.len() && fingerprint((#[trigger] before[j])@) == fingerprint(
                                input[sorted[p].1 as int]@,
                            );
                        assert(out@[j] == before[j]);
                    } else {
                        assert(out@[before.len() as int]@ == input[sorted[p].1 as int]@);
                    }
                }
            }
        } else {
            proof {
                let j = choose|j: int|
                    run_start <= j < out.len() && fingerprint(#[trigger] out@[j]@) == fingerprint(e@);
                assert forall|p: int| 0 <= p < n + 1 implies covers(out@, #[trigger] input[sorted[p].1 as int]@) by {
                    if p == n {
                        assert(fingerprint(out@[j]@) == fingerprint(input[sorted[p].1 as int]@));
                    }
                }
                if n > 0 {
                    assert(key_le(sorted[n - 1], sorted[n as int]));
                }
            }
        }
        n += 1;
    }
    proof {
        assert forall|k: int| 0 <= k < input.len() implies covers(out@, #[trigger] input[k]@) by {
            assert(sorted.contains(unsorted[k]));
            let p = choose|p: int| 0 <= p < sorted.len() && sorted[p] == unsorted[k];
            assert(covers(out@, input[sorted[p].1 as int]@));
        }
    }
    out
}

} // verus!
