//! The bounded log: entries in order of time, one for each query text.

use crate::codec::{decode, decoded, encode, encoded, lemma_decoded_encoded};
use crate::entry::{entry_at, views_of, Entry, QueryLog};
use crate::error::LogError;
use crate::json::{json_of, parse, parsed, print, printed};
use vstd::prelude::*;

verus! {

/// The capacity of the log: a log that holds no more entries than this
/// holds no more than this after an entry has been recorded.
pub const MAX_ENTRIES: usize = 100;

/// Timestamps never decrease along `s`.
pub open spec fn ordered(s: Seq<Entry>) -> bool {
    forall|i: int, j: int| 0 <= i <= j < s.len() ==> s[i].timestamp <= s[j].timestamp
}

/// No two entries of `s` have the same query text.
pub open spec fn distinct(s: Seq<Entry>) -> bool {
    forall|i: int, j: int| 0 <= i < j < s.len() ==> s[i].query != s[j].query
}

/// Some entry of `s` has the query text `query`.
pub open spec fn holds_query(s: Seq<Entry>, query: Seq<char>) -> bool {
    exists|i: int| 0 <= i < s.len() && s[i].query == query
}

/// `s` without the entries for `query`.
pub open spec fn without_query(s: Seq<Entry>, query: Seq<char>) -> Seq<Entry> {
    s.filter(|x: Entry| x.query != query)
}

/// `s` with `e` put behind every entry that is not newer than `e`, and in
/// front of every entry that is newer.
pub open spec fn placed(s: Seq<Entry>, e: Entry) -> Seq<Entry> {
    s.filter(|x: Entry| x.timestamp <= e.timestamp).push(e) + s.filter(
        |x: Entry| x.timestamp > e.timestamp,
    )
}

/// `s` cut back to the capacity by one step: where it holds more than
/// [`MAX_ENTRIES`] entries, its first entry is dropped.
pub open spec fn trimmed(s: Seq<Entry>) -> Seq<Entry> {
    if s.len() > MAX_ENTRIES {
        s.skip(1)
    } else {
        s
    }
}

/// The log `s` after `e` has been recorded: an entry for the same query
/// gives way to `e`, `e` takes its place by time, and the oldest entry leaves
/// if the log has grown beyond its capacity.
pub open spec fn recorded(s: Seq<Entry>, e: Entry) -> Seq<Entry> {
    trimmed(placed(without_query(s, e.query), e))
}

/// The log that holds `entries` when they are read one after the other: each
/// is placed by time, except that an entry whose query is already held is
/// passed over.
pub open spec fn loaded(entries: Seq<Entry>) -> Seq<Entry>
    decreases entries.len(),
{
    if entries.len() == 0 {
        Seq::empty()
    } else {
        let before = loaded(entries.drop_last());
        if holds_query(before, entries.last().query) {
            before
        } else {
            placed(before, entries.last())
        }
    }
}

/// A filter that every element passes changes nothing.
proof fn lemma_filter_keeps(s: Seq<Entry>, pred: spec_fn(Entry) -> bool)
    requires
        forall|i: int| 0 <= i < s.len() ==> pred(s[i]),
    ensures
        s.filter(pred) == s,
    decreases s.len(),
{
    reveal(Seq::filter);
    if s.len() > 0 {
        lemma_filter_keeps(s.drop_last(), pred);
        assert(s.drop_last().push(s.last()) =~= s);
    }
}

/// A filter that no element passes leaves nothing.
proof fn lemma_filter_drops(s: Seq<Entry>, pred: spec_fn(Entry) -> bool)
    requires
        forall|i: int| 0 <= i < s.len() ==> !pred(s[i]),
    ensures
        s.filter(pred) == Seq::<Entry>::empty(),
    decreases s.len(),
{
    reveal(Seq::filter);
    if s.len() > 0 {
        lemma_filter_drops(s.drop_last(), pred);
    }
}

/// Placing `e` is an insertion at the index that parts the entries not newer
/// than `e` from the newer ones.
pub proof fn lemma_placed_at(s: Seq<Entry>, e: Entry, k: int)
    requires
        0 <= k <= s.len(),
        forall|i: int| 0 <= i < k ==> s[i].timestamp <= e.timestamp,
        forall|i: int| k <= i < s.len() ==> s[i].timestamp > e.timestamp,
    ensures
        placed(s, e) == s.insert(k, e),
{
    let older = |x: Entry| x.timestamp <= e.timestamp;
    let newer = |x: Entry| x.timestamp > e.timestamp;
    let front = s.take(k);
    let back = s.skip(k);
    assert(front + back =~= s);
    Seq::filter_distributes_over_add(front, back, older);
    Seq::filter_distributes_over_add(front, back, newer);
    lemma_filter_keeps(front, older);
    lemma_filter_drops(back, older);
    lemma_filter_drops(front, newer);
    lemma_filter_keeps(back, newer);
    assert(placed(s, e) =~= s.insert(k, e));
}

/// Where the entry at index `at` is the one for `query`, taking the query
/// out removes that entry and no other.
pub proof fn lemma_without_at(s: Seq<Entry>, query: Seq<char>, at: int)
    requires
        distinct(s),
        0 <= at < s.len(),
        s[at].query == query,
    ensures
        without_query(s, query) == s.remove(at),
{
    let other = |x: Entry| x.query != query;
    let front = s.take(at);
    let hit = seq![s[at]];
    let back = s.skip(at + 1);
    assert(front + hit + back =~= s);
    Seq::filter_distributes_over_add(front + hit, back, other);
    Seq::filter_distributes_over_add(front, hit, other);
    lemma_filter_keeps(front, other);
    lemma_filter_drops(hit, other);
    lemma_filter_keeps(back, other);
    assert(without_query(s, query) =~= s.remove(at));
}

/// Taking out a query that the log does not hold changes nothing.
pub proof fn lemma_without_absent(s: Seq<Entry>, query: Seq<char>)
    requires
        !holds_query(s, query),
    ensures
        without_query(s, query) == s,
{
    lemma_filter_keeps(s, |x: Entry| x.query != query);
}

/// An ordered log has an index that parts the entries not newer than
/// `timestamp` from the newer ones.
pub proof fn lemma_parting_index(s: Seq<Entry>, timestamp: u64) -> (k: int)
    requires
        ordered(s),
    ensures
        0 <= k <= s.len(),
        forall|i: int| 0 <= i < k ==> s[i].timestamp <= timestamp,
        forall|i: int| k <= i < s.len() ==> s[i].timestamp > timestamp,
    decreases s.len(),
{
    if s.len() == 0 {
        0
    } else if s.last().timestamp <= timestamp {
        assert forall|i: int| 0 <= i < s.len() implies s[i].timestamp <= timestamp by {
            assert(s[i].timestamp <= s[s.len() - 1].timestamp);
        }
        s.len() as int
    } else {
        let front = s.drop_last();
        assert forall|i: int, j: int| 0 <= i <= j < front.len() implies front[i].timestamp
            <= front[j].timestamp by {
            assert(s[i].timestamp <= s[j].timestamp);
        }
        let k = lemma_parting_index(front, timestamp);
        assert forall|i: int| 0 <= i < k implies s[i].timestamp <= timestamp by {
            assert(front[i].timestamp <= timestamp);
        }
        assert forall|i: int| k <= i < s.len() implies s[i].timestamp > timestamp by {
            if i < front.len() {
                assert(front[i].timestamp > timestamp);
            }
        }
        k
    }
}

/// Removing an entry keeps the log ordered and its queries distinct.
proof fn lemma_remove_keeps(s: Seq<Entry>, at: int)
    requires
        ordered(s),
        distinct(s),
        0 <= at < s.len(),
    ensures
        ordered(s.remove(at)),
        distinct(s.remove(at)),
        forall|i: int| 0 <= i < s.remove(at).len() ==> s.remove(at)[i].query != s[at].query,
{
    let r = s.remove(at);
    assert forall|i: int, j: int| 0 <= i <= j < r.len() implies r[i].timestamp
        <= r[j].timestamp by {
        let si = if i < at { i } else { i + 1 };
        let sj = if j < at { j } else { j + 1 };
        assert(s[si].timestamp <= s[sj].timestamp);
    }
    assert forall|i: int, j: int| 0 <= i < j < r.len() implies r[i].query != r[j].query by {
        let si = if i < at { i } else { i + 1 };
        let sj = if j < at { j } else { j + 1 };
        assert(s[si].query != s[sj].query);
    }
    assert forall|i: int| 0 <= i < r.len() implies r[i].query != s[at].query by {
        let si = if i < at { i } else { i + 1 };
        if si < at {
            assert(s[si].query != s[at].query);
        } else {
            assert(s[at].query != s[si].query);
        }
    }
}

/// Inserting an entry for a new query at the parting index of its timestamp
/// keeps the log ordered and its queries distinct.
proof fn lemma_insert_keeps(s: Seq<Entry>, e: Entry, k: int)
    requires
        ordered(s),
        distinct(s),
        !holds_query(s, e.query),
        0 <= k <= s.len(),
        forall|i: int| 0 <= i < k ==> s[i].timestamp <= e.timestamp,
        forall|i: int| k <= i < s.len() ==> s[i].timestamp > e.timestamp,
    ensures
        ordered(s.insert(k, e)),
        distinct(s.insert(k, e)),
{
    let r = s.insert(k, e);
    assert forall|i: int, j: int| 0 <= i <= j < r.len() implies r[i].timestamp
        <= r[j].timestamp by {
        let si = if i < k { i } else { i - 1 };
        let sj = if j < k { j } else { j - 1 };
        if i != k && j != k {
            assert(s[si].timestamp <= s[sj].timestamp);
        } else if i == k && j != k {
            assert(s[sj].timestamp > e.timestamp);
        } else if i != k && j == k {
            assert(s[si].timestamp <= e.timestamp);
        }
    }
    assert forall|i: int, j: int| 0 <= i < j < r.len() implies r[i].query != r[j].query by {
        let si = if i < k { i } else { i - 1 };
        let sj = if j < k { j } else { j - 1 };
        if i != k && j != k {
            assert(s[si].query != s[sj].query);
        } else if i == k {
            assert(s[sj].query != e.query);
        } else {
            assert(s[si].query != e.query);
        }
    }
}

/// How recording works out on an ordered log of distinct queries: the log
/// without the query of `e`, and the index in it at which `e` goes in.
proof fn lemma_recorded_shape(s: Seq<Entry>, e: Entry) -> (r: (Seq<Entry>, int))
    requires
        ordered(s),
        distinct(s),
    ensures
        r.0 == without_query(s, e.query),
        ordered(r.0),
        distinct(r.0),
        !holds_query(r.0, e.query),
        r.0.len() == if holds_query(s, e.query) {
            s.len() - 1
        } else {
            s.len() as int
        },
        0 <= r.1 <= r.0.len(),
        forall|i: int| 0 <= i < r.1 ==> r.0[i].timestamp <= e.timestamp,
        forall|i: int| r.1 <= i < r.0.len() ==> r.0[i].timestamp > e.timestamp,
        placed(r.0, e) == r.0.insert(r.1, e),
        ordered(placed(r.0, e)),
        distinct(placed(r.0, e)),
{
    let base = without_query(s, e.query);
    if holds_query(s, e.query) {
        let at = choose|i: int| 0 <= i < s.len() && s[i].query == e.query;
        lemma_without_at(s, e.query, at);
        lemma_remove_keeps(s, at);
    } else {
        lemma_without_absent(s, e.query);
    }
    assert(!holds_query(base, e.query));
    let k = lemma_parting_index(base, e.timestamp);
    lemma_placed_at(base, e, k);
    lemma_insert_keeps(base, e, k);
    (base, k)
}

/// Recording an entry keeps the log in order of time and its queries
/// distinct.
pub proof fn lemma_recorded_keeps_order(s: Seq<Entry>, e: Entry)
    requires
        ordered(s),
        distinct(s),
    ensures
        ordered(recorded(s, e)),
        distinct(recorded(s, e)),
{
    let base = lemma_recorded_shape(s, e).0;
    let full = placed(base, e);
    if full.len() > MAX_ENTRIES {
        let cut = full.skip(1);
        assert forall|i: int, j: int| 0 <= i <= j < cut.len() implies cut[i].timestamp
            <= cut[j].timestamp by {
            assert(full[i + 1].timestamp <= full[j + 1].timestamp);
        }
        assert forall|i: int, j: int| 0 <= i < j < cut.len() implies cut[i].query
            != cut[j].query by {
            assert(full[i + 1].query != full[j + 1].query);
        }
    }
}

/// Recording an entry adds at most one entry to the log, and none where
/// the query was held already or the log was at its capacity: a log that is
/// within its capacity stays within it, and a larger one does not grow.
pub proof fn lemma_recorded_len(s: Seq<Entry>, e: Entry)
    requires
        ordered(s),
        distinct(s),
    ensures
        recorded(s, e).len() <= s.len() + 1,
        holds_query(s, e.query) ==> recorded(s, e).len() <= s.len(),
        s.len() <= MAX_ENTRIES ==> recorded(s, e).len() <= MAX_ENTRIES,
        s.len() >= MAX_ENTRIES ==> recorded(s, e).len() <= s.len(),
{
    lemma_recorded_shape(s, e);
}

/// Whether `e` stays in the log `s` when it is recorded: the log has room
/// for it once its query is taken out, or holds an entry for another query
/// that is not newer than `e`, which leaves in its place.
pub open spec fn kept(s: Seq<Entry>, e: Entry) -> bool {
    let base = without_query(s, e.query);
    base.len() < MAX_ENTRIES || base[0].timestamp <= e.timestamp
}

/// After `e` has been recorded, the log holds no entry for the query of `e`
/// but `e` itself, with its timestamp; and it holds `e` exactly when `e` is
/// kept.
pub proof fn lemma_recorded_refreshes(s: Seq<Entry>, e: Entry)
    requires
        ordered(s),
        distinct(s),
    ensures
        forall|i: int|
            0 <= i < recorded(s, e).len() && recorded(s, e)[i].query == e.query ==> recorded(
                s,
                e,
            )[i] == e,
        kept(s, e) <==> recorded(s, e).contains(e),
{
    let (base, k) = lemma_recorded_shape(s, e);
    let full = base.insert(k, e);
    let r = recorded(s, e);
    assert forall|i: int| 0 <= i < full.len() && full[i].query == e.query implies full[i]
        == e by {
        if i < k {
            assert(base[i].query != e.query);
        } else if i > k {
            assert(base[i - 1].query != e.query);
        }
    }
    assert forall|i: int| 0 <= i < r.len() && r[i].query == e.query implies r[i] == e by {
        if full.len() > MAX_ENTRIES {
            assert(r[i] == full[i + 1]);
        }
    }
    if full.len() > MAX_ENTRIES {
        if base[0].timestamp <= e.timestamp {
            assert(k >= 1);
            assert(r[k - 1] == full[k]);
        } else {
            assert(k == 0);
            assert(r =~= base);
            if r.contains(e) {
                let i = choose|i: int| 0 <= i < r.len() && r[i] == e;
                assert(base[i].query == e.query);
            }
        }
    } else {
        assert(r[k] == e);
    }
}

/// Running the same query twice leaves exactly one entry for it, and that
/// entry has the time of the second run. Stated for the runs whose second
/// entry is kept: an entry older than everything in a full log leaves as
/// soon as it has come (see [`kept`]).
pub proof fn lemma_query_run_twice(s: Seq<Entry>, query: Seq<char>, first: u64, second: u64)
    requires
        ordered(s),
        distinct(s),
        kept(recorded(s, entry_at(first, query)), entry_at(second, query)),
    ensures
        ({
            let twice = recorded(recorded(s, entry_at(first, query)), entry_at(second, query));
            exists|i: int|
                {
                    &&& 0 <= i < twice.len()
                    &&& twice[i] == entry_at(second, query)
                    &&& forall|j: int| 0 <= j < twice.len() && twice[j].query == query ==> j == i
                }
        }),
{
    let once = recorded(s, entry_at(first, query));
    let e = entry_at(second, query);
    let twice = recorded(once, e);
    lemma_recorded_keeps_order(s, entry_at(first, query));
    lemma_recorded_keeps_order(once, e);
    lemma_recorded_refreshes(once, e);
    let i = choose|i: int| 0 <= i < twice.len() && twice[i] == e;
    assert forall|j: int| 0 <= j < twice.len() && twice[j].query == query implies j == i by {
        if j < i {
            assert(twice[j].query != twice[i].query);
        } else if i < j {
            assert(twice[i].query != twice[j].query);
        }
    }
}

/// A log with room left keeps whatever is recorded in it.
pub proof fn lemma_room_keeps(s: Seq<Entry>, e: Entry)
    requires
        s.len() < MAX_ENTRIES,
    ensures
        kept(s, e),
{
    s.lemma_filter_len(|x: Entry| x.query != e.query);
}

/// The log `s` after each of `entries` has been recorded, in their order.
pub open spec fn replayed(s: Seq<Entry>, entries: Seq<Entry>) -> Seq<Entry>
    decreases entries.len(),
{
    if entries.len() == 0 {
        s
    } else {
        recorded(replayed(s, entries.drop_last()), entries.last())
    }
}

/// Each entry of `entries` is newer than the ones before it.
pub open spec fn rising(entries: Seq<Entry>) -> bool {
    forall|i: int, j: int| 0 <= i < j < entries.len() ==> entries[i].timestamp < entries[j].timestamp
}

/// The last [`MAX_ENTRIES`] of `entries`, or all of them where they are
/// fewer.
pub open spec fn latest(entries: Seq<Entry>) -> Seq<Entry> {
    if entries.len() > MAX_ENTRIES {
        entries.skip(entries.len() - MAX_ENTRIES)
    } else {
        entries
    }
}

/// Recording an entry that is new and not older than any entry held moves
/// the window of the latest entries on by one.
proof fn lemma_latest_step(before: Seq<Entry>, e: Entry)
    requires
        forall|i: int| 0 <= i < before.len() ==> (#[trigger] before[i]).query != e.query,
        forall|i: int| 0 <= i < before.len() ==> (#[trigger] before[i]).timestamp <= e.timestamp,
    ensures
        recorded(latest(before), e) == latest(before.push(e)),
{
    let held = latest(before);
    let all = before.push(e);
    assert forall|i: int| 0 <= i < held.len() implies (#[trigger] held[i]).query != e.query
        && held[i].timestamp <= e.timestamp by {
        let at = i + (before.len() - held.len());
        assert(held[i] == before[at]);
    }
    lemma_without_absent(held, e.query);
    lemma_placed_at(held, e, held.len() as int);
    let full = held.insert(held.len() as int, e);
    assert(full =~= held.push(e));
    if before.len() < MAX_ENTRIES {
        assert(held == before);
        assert(recorded(held, e) == all);
    } else {
        assert(held.len() == MAX_ENTRIES);
        assert(full.len() == MAX_ENTRIES + 1);
        assert(recorded(held, e) == full.skip(1));
        assert(latest(all) == all.skip(all.len() - MAX_ENTRIES));
        assert(full.skip(1) =~= all.skip(all.len() - MAX_ENTRIES));
    }
}

/// An empty log in which distinct queries are recorded at rising times
/// holds the latest of them, in the order of the runs: as many as its
/// capacity, so that with one run more than that the first run is gone.
pub proof fn lemma_replayed_latest(entries: Seq<Entry>)
    requires
        rising(entries),
        distinct(entries),
    ensures
        replayed(Seq::empty(), entries) == latest(entries),
    decreases entries.len(),
{
    if entries.len() > 0 {
        let before = entries.drop_last();
        let e = entries.last();
        assert forall|i: int, j: int| 0 <= i < j < before.len() implies before[i].timestamp
            < before[j].timestamp by {
            assert(entries[i].timestamp < entries[j].timestamp);
        }
        assert forall|i: int, j: int| 0 <= i < j < before.len() implies before[i].query
            != before[j].query by {
            assert(entries[i].query != entries[j].query);
        }
        lemma_replayed_latest(before);
        assert forall|i: int| 0 <= i < before.len() implies (#[trigger] before[i]).query
            != e.query && before[i].timestamp <= e.timestamp by {
            assert(entries[i].query != entries[entries.len() - 1].query);
            assert(entries[i].timestamp < entries[entries.len() - 1].timestamp);
        }
        lemma_latest_step(before, e);
        assert(before.push(e) =~= entries);
    }
}

/// A log in order of time and of distinct queries is what loading its own
/// entries gives: nothing is lost, added or reordered by reading a log back.
pub proof fn lemma_loaded_own_entries(s: Seq<Entry>)
    requires
        ordered(s),
        distinct(s),
    ensures
        loaded(s) == s,
    decreases s.len(),
{
    if s.len() > 0 {
        let before = s.drop_last();
        let e = s.last();
        assert forall|i: int, j: int| 0 <= i <= j < before.len() implies before[i].timestamp
            <= before[j].timestamp by {
            assert(s[i].timestamp <= s[j].timestamp);
        }
        assert forall|i: int, j: int| 0 <= i < j < before.len() implies before[i].query
            != before[j].query by {
            assert(s[i].query != s[j].query);
        }
        lemma_loaded_own_entries(before);
        assert forall|i: int| 0 <= i < before.len() implies before[i].query != e.query
            && before[i].timestamp <= e.timestamp by {
            assert(s[i].query != s[s.len() - 1].query);
            assert(s[i].timestamp <= s[s.len() - 1].timestamp);
        }
        lemma_placed_at(before, e, before.len() as int);
        assert(before.insert(before.len() as int, e) =~= s);
    }
}

/// Opening a log on a text that the JSON engine reads as the document of
/// the log `s` gives `s` back.
pub proof fn lemma_reopened(s: Seq<Entry>, contents: Seq<char>)
    requires
        ordered(s),
        distinct(s),
        contents.len() > 0,
        parsed(contents) == Some(encoded(s)),
    ensures
        opened(contents) == Ok::<Seq<Entry>, LogError>(s),
{
    lemma_decoded_encoded(s);
    lemma_loaded_own_entries(s);
}

/// The index of the entry for `query`, if `logs` holds one.
fn position_of(logs: &Vec<QueryLog>, query: &String) -> (r: Option<usize>)
    ensures
        match r {
            Some(at) => at < logs.len() && logs[at as int].query@ == query@,
            None => !holds_query(views_of(logs@), query@),
        },
{
    let mut i: usize = 0;
    while i < logs.len()
        invariant
            i <= logs.len(),
            forall|j: int| 0 <= j < i ==> views_of(logs@)[j].query != query@,
        decreases logs.len() - i,
    {
        if logs[i].query == *query {
            return Some(i);
        }
        i += 1;
    }
    None
}

/// The index that parts the entries of `logs` that are not newer than
/// `timestamp` from the newer ones.
fn parting_index(logs: &Vec<QueryLog>, timestamp: u64) -> (k: usize)
    requires
        ordered(views_of(logs@)),
    ensures
        k <= logs.len(),
        forall|i: int| 0 <= i < k ==> views_of(logs@)[i].timestamp <= timestamp,
        forall|i: int| k <= i < logs.len() ==> views_of(logs@)[i].timestamp > timestamp,
{
    let mut k: usize = logs.len();
    while k > 0 && logs[k - 1].timestamp > timestamp
        invariant
            k <= logs.len(),
            forall|i: int| k <= i < logs.len() ==> views_of(logs@)[i].timestamp > timestamp,
        decreases k,
    {
        k -= 1;
    }
    proof {
        let s = views_of(logs@);
        assert forall|i: int| 0 <= i < k implies s[i].timestamp <= timestamp by {
            assert(s[i].timestamp <= s[k - 1].timestamp);
        }
    }
    k
}

/// Puts `entry`, whose query `logs` does not hold, at its place by time.
fn place(logs: &mut Vec<QueryLog>, entry: QueryLog)
    requires
        ordered(views_of(old(logs)@)),
        distinct(views_of(old(logs)@)),
        !holds_query(views_of(old(logs)@), entry.query@),
    ensures
        views_of(final(logs)@) == placed(views_of(old(logs)@), entry@),
        ordered(views_of(final(logs)@)),
        distinct(views_of(final(logs)@)),
{
    let k = parting_index(logs, entry.timestamp);
    let ghost before = views_of(logs@);
    let ghost e = entry@;
    logs.insert(k, entry);
    proof {
        assert(views_of(logs@) =~= before.insert(k as int, e));
        lemma_placed_at(before, e, k as int);
        lemma_insert_keeps(before, e, k as int);
    }
}

/// Records `entry` in `logs`: see [`recorded`].
fn record(logs: &mut Vec<QueryLog>, entry: QueryLog)
    requires
        ordered(views_of(old(logs)@)),
        distinct(views_of(old(logs)@)),
    ensures
        views_of(final(logs)@) == recorded(views_of(old(logs)@), entry@),
        ordered(views_of(final(logs)@)),
        distinct(views_of(final(logs)@)),
{
    let ghost before = views_of(logs@);
    match position_of(logs, &entry.query) {
        Some(at) => {
            logs.remove(at);
            proof {
                assert(views_of(logs@) =~= before.remove(at as int));
                lemma_without_at(before, entry.query@, at as int);
                lemma_remove_keeps(before, at as int);
            }
        },
        None => {
            proof {
                lemma_without_absent(before, entry.query@);
            }
        },
    }
    place(logs, entry);
    let ghost full = views_of(logs@);
    if logs.len() > MAX_ENTRIES {
        logs.remove(0);
        proof {
            assert(views_of(logs@) =~= full.skip(1));
        }
    }
    proof {
        lemma_recorded_keeps_order(before, entry@);
    }
}

/// What opening a log on the text `contents` of its backing file gives: an
/// empty log for an empty text; otherwise the log that holds the entries the
/// text stands for, or a serialization error where the text is not JSON or
/// stands for no list of entries.
pub open spec fn opened(contents: Seq<char>) -> Result<Seq<Entry>, LogError> {
    if contents.len() == 0 {
        Ok(Seq::empty())
    } else {
        match parsed(contents) {
            Some(doc) => match decoded(doc) {
                Some(entries) => Ok(loaded(entries)),
                None => Err(LogError::Serialization),
            },
            None => Err(LogError::Serialization),
        }
    }
}

/// The text to persist for the log `s`: its document, pretty-printed; or a
/// serialization error where the JSON engine fails to print it.
pub open spec fn persisted(s: Seq<Entry>) -> Result<Seq<char>, LogError> {
    match printed(encoded(s)) {
        Some(text) => Ok(text),
        None => Err(LogError::Serialization),
    }
}

/// A log of the queries that were run: at most one entry for each query
/// text, kept in order of time, oldest first.
pub struct QueryLogRepository {
    logs: Vec<QueryLog>,
}

impl View for QueryLogRepository {
    type V = Seq<Entry>;

    closed spec fn view(&self) -> Seq<Entry> {
        views_of(self.logs@)
    }
}

impl QueryLogRepository {
    #[verifier::type_invariant]
    spec fn well_formed(self) -> bool {
        ordered(views_of(self.logs@)) && distinct(views_of(self.logs@))
    }

    /// A log without entries.
    pub fn new() -> (log: Self)
        ensures
            log@ == Seq::<Entry>::empty(),
    {
        let logs: Vec<QueryLog> = Vec::new();
        assert(views_of(logs@) =~= Seq::<Entry>::empty());
        QueryLogRepository { logs }
    }

    /// The log that holds `entries`, read one after the other: see
    /// [`loaded`].
    pub fn from_entries(entries: &Vec<QueryLog>) -> (log: Self)
        ensures
            log@ == loaded(views_of(entries@)),
    {
        let mut logs: Vec<QueryLog> = Vec::new();
        let mut i: usize = 0;
        assert(views_of(logs@) =~= Seq::<Entry>::empty());
        assert(views_of(entries@).take(0).len() == 0);
        while i < entries.len()
            invariant
                i <= entries.len(),
                views_of(logs@) == loaded(views_of(entries@).take(i as int)),
                ordered(views_of(logs@)),
                distinct(views_of(logs@)),
            decreases entries.len() - i,
        {
            proof {
                let read = views_of(entries@).take(i + 1);
                assert(read.drop_last() =~= views_of(entries@).take(i as int));
                assert(read.last() == entries[i as int]@);
            }
            match position_of(&logs, &entries[i].query) {
                Some(at) => {
                    assert(views_of(logs@)[at as int].query == entries[i as int].query@);
                },
                None => {
                    place(&mut logs, entries[i].duplicate());
                },
            }
            i += 1;
        }
        assert(views_of(entries@).take(entries.len() as int) =~= views_of(entries@));
        QueryLogRepository { logs }
    }

    /// The log that a parsed JSON document stands for, or a serialization
    /// error where the document is no list of entries.
    pub fn from_document(doc: &serde_json::Value) -> (r: Result<Self, LogError>)
        ensures
            match decoded(json_of(*doc)) {
                Some(entries) => r matches Ok(log) && log@ == loaded(entries),
                None => r matches Err(e) && e == LogError::Serialization,
            },
    {
        match decode(doc) {
            Some(entries) => Ok(QueryLogRepository::from_entries(&entries)),
            None => Err(LogError::Serialization),
        }
    }

    /// Opens the log on the text that its backing file holds: see
    /// [`opened`].
    pub fn try_new(contents: &str) -> (r: Result<Self, LogError>)
        ensures
            match opened(contents@) {
                Ok(s) => r matches Ok(log) && log@ == s,
                Err(e) => r matches Err(f) && f == e,
            },
    {
        if contents.is_empty() {
            Ok(QueryLogRepository::new())
        } else {
            match parse(contents) {
                Ok(doc) => QueryLogRepository::from_document(&doc),
                Err(_) => Err(LogError::Serialization),
            }
        }
    }

    /// Records `entry`: see [`recorded`].
    pub fn add_entry(&mut self, entry: QueryLog)
        ensures
            final(self)@ == recorded(old(self)@, entry@),
            ordered(final(self)@),
            distinct(final(self)@),
            old(self)@.len() <= MAX_ENTRIES ==> final(self)@.len() <= MAX_ENTRIES,
            old(self)@.len() >= MAX_ENTRIES ==> final(self)@.len() <= old(self)@.len(),
    {
        proof {
            use_type_invariant(&*self);
            lemma_recorded_len(self@, entry@);
        }
        let mut logs: Vec<QueryLog> = Vec::new();
        assert(views_of(logs@) =~= Seq::<Entry>::empty());
        std::mem::swap(&mut self.logs, &mut logs);
        record(&mut logs, entry);
        self.logs = logs;
    }

    /// The text to write to the backing file for this log: see
    /// [`persisted`].
    pub fn to_json(&self) -> (r: Result<String, LogError>)
        ensures
            match persisted(self@) {
                Ok(text) => r matches Ok(written) && written@ == text,
                Err(e) => r matches Err(f) && f == e,
            },
    {
        let doc = encode(&self.logs);
        match print(&doc) {
            Ok(written) => Ok(written),
            Err(_) => Err(LogError::Serialization),
        }
    }

    /// Records that `query` was run now, and returns the text to write to
    /// the backing file.
    ///
    /// With a clock error the log is left as it was. Otherwise the log has
    /// recorded an entry for `query`, stamped with some reading of the clock,
    /// and the result is the text to persist for it, or a serialization
    /// error.
    pub fn add(&mut self, query: &str) -> (r: Result<String, LogError>)
        ensures
            r matches Err(LogError::Clock) ==> final(self)@ == old(self)@,
            !(r matches Err(LogError::Clock)) ==> {
                &&& exists|timestamp: u64|
                    final(self)@ == recorded(old(self)@, #[trigger] entry_at(timestamp, query@))
                &&& match persisted(final(self)@) {
                    Ok(text) => r matches Ok(written) && written@ == text,
                    Err(e) => r matches Err(f) && f == e,
                }
            },
            ordered(final(self)@),
            distinct(final(self)@),
            old(self)@.len() <= MAX_ENTRIES ==> final(self)@.len() <= MAX_ENTRIES,
            old(self)@.len() >= MAX_ENTRIES ==> final(self)@.len() <= old(self)@.len(),
    {
        proof {
            use_type_invariant(&*self);
        }
        match QueryLog::try_new(query) {
            Ok(entry) => {
                assert(entry@ == entry_at(entry.timestamp, query@));
                self.add_entry(entry);
                self.to_json()
            },
            Err(_) => Err(LogError::Clock),
        }
    }

    /// The number of entries.
    pub fn len(&self) -> (n: usize)
        ensures
            n == self@.len(),
    {
        self.logs.len()
    }

    /// Whether the log holds no entry.
    pub fn is_empty(&self) -> (empty: bool)
        ensures
            empty == (self@.len() == 0),
    {
        self.logs.len() == 0
    }

    /// The entries in stored order: timestamps never decrease along them,
    /// and no two have the same query text.
    pub fn entries(&self) -> (entries: &Vec<QueryLog>)
        ensures
            views_of(entries@) == self@,
            ordered(self@),
            distinct(self@),
    {
        proof {
            use_type_invariant(self);
        }
        &self.logs
    }
}

} // verus!
