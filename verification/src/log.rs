//! The log store: an ordered sequence of term-stamped entries that is
//! appended to, queried by index, and truncated where a leader's entries
//! conflict with it.

use crate::types::LogEntry;
use vstd::prelude::*;

verus! {

/// The term of the last entry of `log`, or 0 for the empty log.
pub open spec fn last_term(log: Seq<LogEntry>) -> u64 {
    if log.len() == 0 {
        0
    } else {
        log.last().term
    }
}

/// The payloads of `entries`, in order.
pub open spec fn payloads(entries: Seq<LogEntry>) -> Seq<u64> {
    Seq::new(entries.len(), |i: int| entries[i].payload)
}

/// Whether `log` holds an entry at `prev_log_index` whose term is
/// `prev_log_term`. Index `-1` stands for the empty prefix, which every log
/// holds.
pub open spec fn has_prefix(log: Seq<LogEntry>, prev_log_index: int, prev_log_term: u64) -> bool {
    prev_log_index == -1 || (0 <= prev_log_index < log.len() && log[prev_log_index].term
        == prev_log_term)
}

/// Whether the log already holds `entries[i]`, by term, when `entries[0]`
/// belongs at index `start`.
pub open spec fn agrees_at(log: Seq<LogEntry>, start: int, entries: Seq<LogEntry>, i: int) -> bool {
    0 <= i < entries.len() && 0 <= start + i < log.len() && log[start + i].term == entries[i].term
}

/// How many leading entries of `entries` the log already holds, by term,
/// when `entries[0]` belongs at index `start`; counting resumes at `from`.
pub open spec fn agreeing_entries(
    log: Seq<LogEntry>,
    start: int,
    entries: Seq<LogEntry>,
    from: nat,
) -> nat
    decreases entries.len() - from,
{
    if agrees_at(log, start, entries, from as int) {
        agreeing_entries(log, start, entries, from + 1)
    } else {
        from
    }
}

/// The log after `entries` have been laid over it from index `start`: where
/// every entry is already there, the log as it is; otherwise the log cut at
/// the first entry that is missing or differs in term, followed by the rest
/// of `entries`.
pub open spec fn merged(log: Seq<LogEntry>, start: int, entries: Seq<LogEntry>) -> Seq<LogEntry> {
    let k = agreeing_entries(log, start, entries, 0);
    if k >= entries.len() {
        log
    } else {
        log.subrange(0, start + k) + entries.subrange(k as int, entries.len() as int)
    }
}

/// `agreeing_entries` counts exactly the leading entries that agree: all
/// before the count are in the log with the same term, and the entry at the
/// count, if there is one, is not.
pub proof fn lemma_agreeing_entries(
    log: Seq<LogEntry>,
    start: int,
    entries: Seq<LogEntry>,
    from: nat,
)
    requires
        from <= entries.len(),
        forall|i: int| 0 <= i < from ==> #[trigger] agrees_at(log, start, entries, i),
    ensures
        from <= agreeing_entries(log, start, entries, from) <= entries.len(),
        forall|i: int|
            0 <= i < agreeing_entries(log, start, entries, from) ==> #[trigger] agrees_at(
                log,
                start,
                entries,
                i,
            ),
        !agrees_at(log, start, entries, agreeing_entries(log, start, entries, from) as int),
    decreases entries.len() - from,
{
    if agrees_at(log, start, entries, from as int) {
        lemma_agreeing_entries(log, start, entries, (from + 1) as nat);
    }
}

/// The term of the last entry of `log`, or 0 for the empty log.
pub fn last_log_term(log: &Vec<LogEntry>) -> (term: u64)
    ensures
        term == last_term(log@),
{
    if log.len() == 0 {
        0
    } else {
        log[log.len() - 1].term
    }
}

/// Whether `log` holds an entry at `prev_log_index` with term `prev_log_term`.
pub fn holds_prefix(log: &Vec<LogEntry>, prev_log_index: isize, prev_log_term: u64) -> (held: bool)
    ensures
        held == has_prefix(log@, prev_log_index as int, prev_log_term),
{
    if prev_log_index == -1 {
        true
    } else if prev_log_index < 0 {
        false
    } else {
        let index: usize = prev_log_index as usize;
        index < log.len() && log[index].term == prev_log_term
    }
}

/// The entries of `log` from index `from` to its end.
pub fn suffix(log: &Vec<LogEntry>, from: usize) -> (tail: Vec<LogEntry>)
    requires
        from <= log.len(),
    ensures
        tail@ == log@.subrange(from as int, log.len() as int),
{
    let mut tail: Vec<LogEntry> = Vec::new();
    let mut i: usize = from;
    while i < log.len()
        invariant
            from <= i <= log.len(),
            tail@ == log@.subrange(from as int, i as int),
        decreases log.len() - i,
    {
        tail.push(log[i]);
        i += 1;
    }
    tail
}

/// The payloads of the entries of `log` at indices `from..to`.
pub fn payloads_between(log: &Vec<LogEntry>, from: usize, to: usize) -> (out: Vec<u64>)
    requires
        from <= to <= log.len(),
    ensures
        out@ == payloads(log@.subrange(from as int, to as int)),
{
    let mut out: Vec<u64> = Vec::new();
    let mut i: usize = from;
    while i < to
        invariant
            from <= i <= to <= log.len(),
            out@ == payloads(log@.subrange(from as int, i as int)),
        decreases to - i,
    {
        out.push(log[i].payload);
        i += 1;
    }
    out
}

/// How many leading entries of `entries` the log already holds, by term,
/// from index `start` on.
pub fn matching_prefix(log: &Vec<LogEntry>, start: usize, entries: &Vec<LogEntry>) -> (k: usize)
    requires
        start <= log.len(),
    ensures
        k == agreeing_entries(log@, start as int, entries@, 0),
        k <= entries.len(),
        start + k <= log.len(),
{
    let mut k: usize = 0;
    while k < entries.len() && k < log.len() - start && log[start + k].term == entries[k].term
        invariant
            start <= log.len(),
            k <= entries.len(),
            k <= log.len() - start,
            agreeing_entries(log@, start as int, entries@, k as nat) == agreeing_entries(
                log@,
                start as int,
                entries@,
                0,
            ),
        decreases entries.len() - k,
    {
        k += 1;
    }
    k
}

/// Lays `entries` over `log` from index `start`: the log is cut only where
/// an entry is missing or differs in term, so entries that are already
/// there, and whatever follows them, stay.
pub fn append_entries(log: &mut Vec<LogEntry>, start: usize, entries: &Vec<LogEntry>)
    requires
        start <= old(log).len(),
    ensures
        final(log)@ == merged(old(log)@, start as int, entries@),
{
    let ghost before = log@;
    let k = matching_prefix(log, start, entries);
    if k < entries.len() {
        log.truncate(start + k);
        let mut i: usize = k;
        while i < entries.len()
            invariant
                k <= i <= entries.len(),
                log@ == before.subrange(0, start + k) + entries@.subrange(k as int, i as int),
            decreases entries.len() - i,
        {
            log.push(entries[i]);
            i += 1;
        }
    }
}

} // verus!
