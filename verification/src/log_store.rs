//! The replicated log: an ordered sequence of term-stamped entries with
//! lookup by index, a consistency check, and merging of a received batch.

use crate::types::Log;
use vstd::prelude::*;

verus! {

/// Entries carry their own 1-based position: the entry at offset `i` has
/// index `i + 1`.
pub open spec fn indexed(log: Seq<Log>) -> bool {
    forall|i: int| 0 <= i < log.len() ==> (#[trigger] log[i]).index == i + 1
}

/// Sum of two deltas as the accumulator holds it: 32-bit, wrapping.
pub open spec fn wrapped_sum(value: i32, delta: i32) -> i32 {
    vstd::wrapping::i32_specs::wrapping_add(value, delta)
}

/// The value reached from zero by applying every delta of `entries` in order.
pub open spec fn delta_sum(entries: Seq<Log>) -> i32
    decreases entries.len(),
{
    if entries.len() == 0 {
        0
    } else {
        wrapped_sum(delta_sum(entries.drop_last()), entries.last().delta)
    }
}

/// Term of the last entry; 0 for an empty log.
pub open spec fn last_log_term(log: Seq<Log>) -> usize {
    if log.len() == 0 {
        0
    } else {
        log.last().term
    }
}

/// Term of the entry with the given 1-based index; 0 where there is none.
pub open spec fn term_at(log: Seq<Log>, index: int) -> usize {
    if 1 <= index <= log.len() {
        log[index - 1].term
    } else {
        0
    }
}

/// A candidate whose log ends in `(last_term, last_index)` is at least as up
/// to date as `log`: the pair is compared with the log's own, term first.
pub open spec fn up_to_date(last_term: usize, last_index: usize, log: Seq<Log>) -> bool {
    last_term > last_log_term(log) || (last_term == last_log_term(log) && last_index >= log.len())
}

/// The log holds an entry at `prev_index` with term `prev_term`; index 0
/// stands for the start of the log and always matches.
pub open spec fn prev_matches(log: Seq<Log>, prev_index: usize, prev_term: usize) -> bool {
    prev_index == 0 || (prev_index <= log.len() && log[prev_index - 1].term == prev_term)
}

/// The batch continues a log right after `prev_index`: its entries are
/// numbered `prev_index + 1`, `prev_index + 2`, and so on.
pub open spec fn follows(entries: Seq<Log>, prev_index: usize) -> bool {
    forall|k: int| 0 <= k < entries.len() ==> (#[trigger] entries[k]).index == prev_index + k + 1
}

/// The log holds an entry at the place of `entries[k]` and both carry the
/// same term.
pub open spec fn agrees_at(log: Seq<Log>, prev_index: usize, entries: Seq<Log>, k: int) -> bool {
    prev_index + k < log.len() && log[prev_index + k].term == entries[k].term
}

/// Offset into the batch of the first entry, at or after `k`, that the log
/// lacks or holds with another term; the batch's length if there is none.
pub open spec fn first_conflict_from(
    log: Seq<Log>,
    prev_index: usize,
    entries: Seq<Log>,
    k: int,
) -> int
    decreases entries.len() - k,
{
    if 0 <= k < entries.len() && agrees_at(log, prev_index, entries, k) {
        first_conflict_from(log, prev_index, entries, k + 1)
    } else {
        k
    }
}

/// Offset into the batch of the first entry that the log lacks or holds with
/// another term; the batch's length if the log already agrees with all of it.
pub open spec fn first_conflict(log: Seq<Log>, prev_index: usize, entries: Seq<Log>) -> int {
    first_conflict_from(log, prev_index, entries, 0)
}

/// The log after taking in a batch that follows `prev_index`: unchanged if
/// it agrees with the whole batch; otherwise cut at the first conflict and
/// continued with the rest of the batch.
pub open spec fn merge(log: Seq<Log>, prev_index: usize, entries: Seq<Log>) -> Seq<Log> {
    let j = first_conflict(log, prev_index, entries);
    if j >= entries.len() {
        log
    } else {
        log.take(prev_index + j) + entries.skip(j)
    }
}

/// What `first_conflict_from` returns, stated without recursion.
pub proof fn lemma_first_conflict(log: Seq<Log>, prev_index: usize, entries: Seq<Log>, k: int)
    requires
        0 <= k <= entries.len(),
    ensures
        k <= first_conflict_from(log, prev_index, entries, k) <= entries.len(),
        forall|i: int|
            k <= i < first_conflict_from(log, prev_index, entries, k) ==> agrees_at(
                log,
                prev_index,
                entries,
                i,
            ),
        first_conflict_from(log, prev_index, entries, k) < entries.len() ==> !agrees_at(
            log,
            prev_index,
            entries,
            first_conflict_from(log, prev_index, entries, k),
        ),
    decreases entries.len() - k,
{
    if k < entries.len() && agrees_at(log, prev_index, entries, k) {
        lemma_first_conflict(log, prev_index, entries, k + 1);
    }
}

/// A merged log is numbered like the log and the batch it came from, reaches
/// to the end of the batch, and keeps every entry before the first conflict.
pub proof fn lemma_merge(log: Seq<Log>, prev_index: usize, entries: Seq<Log>)
    requires
        indexed(log),
        follows(entries, prev_index),
        prev_index <= log.len(),
    ensures
        indexed(merge(log, prev_index, entries)),
        prev_index + first_conflict(log, prev_index, entries) <= log.len(),
        merge(log, prev_index, entries).len() >= prev_index + entries.len(),
        merge(log, prev_index, entries).take(prev_index + first_conflict(log, prev_index, entries))
            == log.take(prev_index + first_conflict(log, prev_index, entries)),
        first_conflict(log, prev_index, entries) < entries.len() ==> merge(
            log,
            prev_index,
            entries,
        ).len() == prev_index + entries.len(),
{
    lemma_first_conflict(log, prev_index, entries, 0);
    let j = first_conflict(log, prev_index, entries);
    let merged = merge(log, prev_index, entries);
    if j >= entries.len() {
        if entries.len() > 0 {
            assert(agrees_at(log, prev_index, entries, entries.len() - 1));
        }
    } else {
        if j > 0 {
            assert(agrees_at(log, prev_index, entries, j - 1));
        }
        assert forall|i: int| 0 <= i < merged.len() implies (#[trigger] merged[i]).index == i
            + 1 by {
            if i >= prev_index + j {
                assert(merged[i] == entries[i - prev_index]);
            }
        }
        assert(merged.take(prev_index + j) =~= log.take(prev_index + j));
    }
}

/// Term of the last entry of the log; 0 for an empty log.
pub fn last_term_of(log: &Vec<Log>) -> (term: usize)
    ensures
        term == last_log_term(log@),
{
    if log.len() == 0 {
        0
    } else {
        log[log.len() - 1].term
    }
}

/// Term of the entry with the given 1-based index; 0 where there is none.
pub fn term_of(log: &Vec<Log>, index: usize) -> (term: usize)
    ensures
        term == term_at(log@, index as int),
{
    if 1 <= index && index <= log.len() {
        log[index - 1].term
    } else {
        0
    }
}

/// Whether a candidate whose log ends in `(last_term, last_index)` is at
/// least as up to date as `log`.
pub fn is_up_to_date(last_term: usize, last_index: usize, log: &Vec<Log>) -> (ok: bool)
    ensures
        ok == up_to_date(last_term, last_index, log@),
{
    let own: usize = last_term_of(log);
    last_term > own || (last_term == own && last_index >= log.len())
}

/// Whether the log holds an entry at `prev_index` with term `prev_term`.
pub fn matches_prev(log: &Vec<Log>, prev_index: usize, prev_term: usize) -> (ok: bool)
    ensures
        ok == prev_matches(log@, prev_index, prev_term),
{
    prev_index == 0 || (prev_index <= log.len() && log[prev_index - 1].term == prev_term)
}

/// Whether the entries of a batch are numbered consecutively from
/// `prev_index + 1`.
pub fn batch_follows(entries: &Vec<Log>, prev_index: usize) -> (ok: bool)
    ensures
        ok == follows(entries@, prev_index),
{
    let mut k: usize = 0;
    while k < entries.len()
        invariant
            k <= entries.len(),
            forall|i: int| 0 <= i < k ==> (#[trigger] entries@[i]).index == prev_index + i + 1,
        decreases entries.len() - k,
    {
        let index: usize = entries[k].index;
        if index <= prev_index || index - prev_index - 1 != k {
            assert(entries@[k as int].index != prev_index + k + 1);
            return false;
        }
        k += 1;
    }
    true
}

/// Offset into the batch of the first entry that the log lacks or holds with
/// another term; the batch's length if the log agrees with all of it.
pub fn find_conflict(log: &Vec<Log>, prev_index: usize, entries: &Vec<Log>) -> (j: usize)
    ensures
        j == first_conflict(log@, prev_index, entries@),
        j <= entries.len(),
{
    let mut k: usize = 0;
    proof {
        lemma_first_conflict(log@, prev_index, entries@, 0);
    }
    if prev_index > log.len() {
        return 0;
    }
    while k < entries.len() && k < log.len() - prev_index && log[prev_index + k].term
        == entries[k].term
        invariant
            prev_index <= log.len(),
            k <= entries.len(),
            first_conflict_from(log@, prev_index, entries@, k as int) == first_conflict(
                log@,
                prev_index,
                entries@,
            ),
        decreases entries.len() - k,
    {
        assert(agrees_at(log@, prev_index, entries@, k as int));
        k += 1;
    }
    assert(!(k < entries.len() && agrees_at(log@, prev_index, entries@, k as int)));
    k
}

/// Takes a batch into the log, given the offset of its first conflict: the
/// log is cut there and continued with the rest of the batch. A batch that
/// the log agrees with throughout leaves it unchanged.
pub fn merge_at(log: &mut Vec<Log>, prev_index: usize, entries: &Vec<Log>, j: usize)
    requires
        prev_index <= old(log).len(),
        j == first_conflict(old(log)@, prev_index, entries@),
    ensures
        final(log)@ == merge(old(log)@, prev_index, entries@),
{
    proof {
        lemma_first_conflict(log@, prev_index, entries@, 0);
    }
    if j < entries.len() {
        if j > 0 {
            assert(agrees_at(log@, prev_index, entries@, j - 1));
        }
        log.truncate(prev_index + j);
        let mut k: usize = j;
        while k < entries.len()
            invariant
                j <= k <= entries.len(),
                log@ == old(log)@.take(prev_index + j) + entries@.subrange(j as int, k as int),
            decreases entries.len() - k,
        {
            log.push(entries[k]);
            assert(entries@.subrange(j as int, k as int).push(entries@[k as int])
                =~= entries@.subrange(j as int, k + 1));
            k += 1;
        }
        assert(entries@.subrange(j as int, entries.len() as int) =~= entries@.skip(j as int));
    }
}

/// Copy of the entries of the log after the first `start` of them.
pub fn tail_from(log: &Vec<Log>, start: usize) -> (tail: Vec<Log>)
    requires
        start <= log.len(),
    ensures
        tail@ == log@.skip(start as int),
{
    let mut tail: Vec<Log> = Vec::new();
    let mut k: usize = start;
    while k < log.len()
        invariant
            start <= k <= log.len(),
            tail@ == log@.subrange(start as int, k as int),
        decreases log.len() - k,
    {
        tail.push(log[k]);
        assert(log@.subrange(start as int, k as int).push(log@[k as int]) =~= log@.subrange(
            start as int,
            k + 1,
        ));
        k += 1;
    }
    assert(log@.subrange(start as int, log.len() as int) =~= log@.skip(start as int));
    tail
}

/// Applies to `value` the deltas of the entries numbered `from + 1` to `to`,
/// in order.
pub fn apply_range(value: i32, log: &Vec<Log>, from: usize, to: usize) -> (result: i32)
    requires
        from <= to <= log.len(),
        value == delta_sum(log@.take(from as int)),
    ensures
        result == delta_sum(log@.take(to as int)),
{
    let mut result: i32 = value;
    let mut k: usize = from;
    while k < to
        invariant
            from <= k <= to <= log.len(),
            result == delta_sum(log@.take(k as int)),
        decreases to - k,
    {
        assert(log@.take(k + 1).drop_last() =~= log@.take(k as int));
        result = result.wrapping_add(log[k].delta);
        k += 1;
    }
    result
}

} // verus!
