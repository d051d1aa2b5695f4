//! Size-tiered compaction: merge several runs into one, keeping the newest value
//! per key and, when that is safe, dropping tombstones.
//!
//! The tables are scanned in parallel, since reading one does not depend on
//! another; the runs that come out are then merged pairwise.
use crate::api::{entry_views, Entry, EntryKind, EntryView};
use crate::error::StoreError;
use crate::order::{
    key_lt, key_order, lemma_key_lt_irreflexive, lemma_key_lt_transitive, KeyOrder,
};
use crate::run::{
    is_run, keys_of, latest, law_run_keys_ascend, lemma_entry_keys, lemma_latest_in_run,
    lemma_latest_is_there, lemma_latest_none, lemma_read_map, lemma_run_determined,
    lemma_run_insert, lemma_run_order, lemma_run_update, reversed, run_map, search,
};
use crate::sstable::SsTable;
use rayon::prelude::{IntoParallelRefIterator, ParallelIterator};
use vstd::prelude::*;

verus! {

/// The newer of two versions; the first of them where they are equally new.
pub open spec fn newer(a: Option<EntryView>, b: Option<EntryView>) -> Option<EntryView> {
    match (a, b) {
        (Some(x), Some(y)) => if x.seq >= y.seq {
            a
        } else {
            b
        },
        (Some(_), None) => a,
        (None, _) => b,
    }
}

/// The newest version of a key, the one with the highest `seq`; the first of
/// them where several are equally new.
pub open spec fn newest(entries: Seq<EntryView>, key: Seq<u8>) -> Option<EntryView>
    decreases entries.len(),
{
    if entries.len() == 0 {
        None
    } else {
        let last = entries.last();
        newer(
            newest(entries.drop_last(), key),
            if last.key == key {
                Some(last)
            } else {
                None
            },
        )
    }
}

/// `acc` is a run that holds the newest version of each key of `seen`.
pub open spec fn collapses(acc: Seq<EntryView>, seen: Seq<EntryView>) -> bool {
    &&& is_run(acc)
    &&& forall|key: Seq<u8>| #[trigger] latest(acc, key) == newest(seen, key)
}

/// What a merge keeps of a key.
pub open spec fn kept(version: Option<EntryView>, drop_tombstones: bool) -> Option<EntryView> {
    match version {
        Some(e) => if drop_tombstones && e.is_tombstone() {
            None
        } else {
            version
        },
        None => None,
    }
}

/// `merged` is a run that holds the newest version of each key of `seen`, or
/// nothing of the key where that version is a tombstone and those are dropped.
pub open spec fn merges(
    merged: Seq<EntryView>,
    seen: Seq<EntryView>,
    drop_tombstones: bool,
) -> bool {
    &&& is_run(merged)
    &&& forall|key: Seq<u8>| #[trigger]
        latest(merged, key) == kept(newest(seen, key), drop_tombstones)
}

pub proof fn lemma_newest_add(a: Seq<EntryView>, b: Seq<EntryView>, key: Seq<u8>)
    ensures
        newest(a + b, key) == newer(newest(a, key), newest(b, key)),
    decreases b.len(),
{
    if b.len() == 0 {
        assert(a + b =~= a);
    } else {
        assert((a + b).drop_last() =~= a + b.drop_last());
        lemma_newest_add(a, b.drop_last(), key);
    }
}

/// The newest version is one of the entries, and no other is newer.
pub proof fn lemma_newest_is_newest(entries: Seq<EntryView>, key: Seq<u8>)
    ensures
        newest(entries, key) matches Some(e) ==> {
            &&& e.key == key
            &&& entries.contains(e)
            &&& forall|i: int|
                0 <= i < entries.len() && (#[trigger] entries[i]).key == key ==> entries[i].seq
                    <= e.seq
        },
        newest(entries, key) is None ==> forall|i: int|
            0 <= i < entries.len() ==> (#[trigger] entries[i]).key != key,
    decreases entries.len(),
{
    if entries.len() > 0 {
        let front = entries.drop_last();
        let last = entries.last();
        lemma_newest_is_newest(front, key);
        assert(entries[entries.len() - 1] == last);
        if newest(front, key) is Some {
            let x = newest(front, key)->Some_0;
            let i = choose|i: int| 0 <= i < front.len() && front[i] == x;
            assert(entries[i] == x);
        }
        assert forall|i: int| 0 <= i < entries.len() && (#[trigger] entries[i]).key == key implies {
            newest(entries, key) matches Some(e) && entries[i].seq <= e.seq
        } by {
            if i < front.len() {
                assert(front[i] == entries[i]);
            }
        }
    }
}

/// In a run the newest version of a key is the only one.
pub proof fn lemma_newest_in_run(entries: Seq<EntryView>, key: Seq<u8>)
    requires
        is_run(entries),
    ensures
        newest(entries, key) == latest(entries, key),
{
    lemma_newest_is_newest(entries, key);
    lemma_latest_is_there(entries, key);
    if newest(entries, key) is Some {
        let e = newest(entries, key)->Some_0;
        let i = choose|i: int| 0 <= i < entries.len() && entries[i] == e;
        lemma_latest_in_run(entries, i);
    }
}

/// Adds one more entry to the newest versions.
fn absorb(acc: &mut Vec<Entry>, entry: Entry, Ghost(seen): Ghost<Seq<EntryView>>)
    requires
        collapses(entry_views(old(acc)@), seen),
    ensures
        collapses(entry_views(final(acc)@), seen.push(entry@)),
{
    let ghost before = entry_views(acc@);
    let ghost e = entry@;
    proof {
        lemma_entry_keys(acc@);
        assert(seen.push(e).drop_last() =~= seen);
    }
    match search(acc, entry.key.as_slice()) {
        Ok(i) => {
            proof {
                assert(before[i as int] == acc@[i as int]@);
                lemma_latest_in_run(before, i as int);
            }
            if acc[i].seq < entry.seq {
                proof {
                    lemma_run_update(before, i as int, e);
                    let after = before.update(i as int, e);
                    assert forall|key: Seq<u8>| #[trigger]
                        latest(after, key) == newest(seen.push(e), key) by {
                        lemma_read_map(before, after, e, key);
                    }
                }
                acc[i] = entry;
                assert(entry_views(acc@) =~= before.update(i as int, e));
            } else {
                assert forall|key: Seq<u8>| #[trigger]
                    latest(before, key) == newest(seen.push(e), key) by {
                    assert(latest(before, key) == newest(seen, key));
                }
            }
        },
        Err(i) => {
            proof {
                let keys = keys_of(before);
                assert forall|j: int| 0 <= j < i implies key_lt(
                    (#[trigger] before[j]).key,
                    e.key,
                ) by {
                    assert(keys[j] == before[j].key);
                }
                assert forall|j: int| i <= j < before.len() implies key_lt(
                    e.key,
                    (#[trigger] before[j]).key,
                ) by {
                    assert(keys[j] == before[j].key);
                }
                lemma_run_insert(before, i as int, e);
                let after = before.insert(i as int, e);
                assert forall|key: Seq<u8>| #[trigger]
                    latest(after, key) == newest(seen.push(e), key) by {
                    lemma_read_map(before, after, e, key);
                    assert(run_map(before).dom().contains(key) == (latest(before, key) is Some));
                    assert(latest(before, key) == newest(seen, key));
                }
            }
            acc.insert(i, entry);
            assert(entry_views(acc@) =~= before.insert(i as int, e));
        },
    }
}

/// Sorts a run's entries by key, keeping the newest version of each.
fn collapse(run: Vec<Entry>) -> (r: Vec<Entry>)
    ensures
        collapses(entry_views(r@), entry_views(run@)),
{
    let ghost all = entry_views(run@);
    let total: usize = run.len();
    let mut backward = reversed(run);
    assert forall|i: int| 0 <= i < backward@.len() implies (#[trigger] backward@[i])@ == all[total
        - 1 - i] by {
    }
    let mut acc: Vec<Entry> = Vec::new();
    let ghost mut seen: Seq<EntryView> = Seq::empty();
    assert(entry_views(acc@) =~= Seq::<EntryView>::empty());
    while backward.len() > 0
        invariant
            backward@.len() <= total,
            total == all.len(),
            seen == all.take(total - backward@.len()),
            forall|i: int|
                0 <= i < backward@.len() ==> (#[trigger] backward@[i])@ == all[total - 1 - i],
            collapses(entry_views(acc@), seen),
        decreases backward@.len(),
    {
        let ghost n = backward@.len() as int;
        assert(backward@[n - 1]@ == all[total - n]);
        if let Some(entry) = backward.pop() {
            absorb(&mut acc, entry, Ghost(seen));
            proof {
                seen = seen.push(all[total - n]);
                assert(seen =~= all.take(total - n + 1));
            }
        }
    }
    assert(all.take(total as int) =~= all);
    acc
}

/// Two runs half merged from the back: `out` holds, keys descending, what comes
/// of all keys beyond the first `m` of `a` and the first `n` of `b`.
spec fn merging(
    a: Seq<EntryView>,
    b: Seq<EntryView>,
    m: int,
    n: int,
    out: Seq<EntryView>,
) -> bool {
    &&& 0 <= m <= a.len()
    &&& 0 <= n <= b.len()
    &&& forall|i: int, j: int|
        0 <= i < j < out.len() ==> key_lt((#[trigger] out[j]).key, (#[trigger] out[i]).key)
    &&& forall|i: int, j: int|
        0 <= i < m && 0 <= j < out.len() ==> key_lt((#[trigger] a[i]).key, (#[trigger] out[j]).key)
    &&& forall|i: int, j: int|
        0 <= i < n && 0 <= j < out.len() ==> key_lt((#[trigger] b[i]).key, (#[trigger] out[j]).key)
    &&& forall|j: int|
        0 <= j < out.len() ==> newer(
            latest(a, (#[trigger] out[j]).key),
            latest(b, out[j].key),
        ) == Some(out[j])
    &&& forall|i: int| m <= i < a.len() ==> has_key(out, (#[trigger] a[i]).key)
    &&& forall|i: int| n <= i < b.len() ==> has_key(out, (#[trigger] b[i]).key)
}

spec fn has_key(out: Seq<EntryView>, key: Seq<u8>) -> bool {
    exists|j: int| 0 <= j < out.len() && (#[trigger] out[j]).key == key
}

proof fn lemma_has_key_push(out: Seq<EntryView>, e: EntryView, key: Seq<u8>)
    requires
        has_key(out, key) || e.key == key,
    ensures
        has_key(out.push(e), key),
{
    if has_key(out, key) {
        let j = choose|j: int| 0 <= j < out.len() && (#[trigger] out[j]).key == key;
        assert(out.push(e)[j].key == key);
    } else {
        assert(out.push(e)[out.len() as int].key == key);
    }
}

/// One step of the merge: the largest key left goes out.
proof fn lemma_merging_step(
    a: Seq<EntryView>,
    b: Seq<EntryView>,
    m: int,
    n: int,
    out: Seq<EntryView>,
    m2: int,
    n2: int,
    e: EntryView,
)
    requires
        is_run(a),
        is_run(b),
        merging(a, b, m, n, out),
        m2 == m || (m2 == m - 1 && m > 0 && a[m - 1].key == e.key),
        n2 == n || (n2 == n - 1 && n > 0 && b[n - 1].key == e.key),
        (m2 < m && e == a[m - 1]) || (n2 < n && e == b[n - 1]),
        m2 == m && m > 0 ==> key_lt(a[m - 1].key, e.key),
        n2 == n && n > 0 ==> key_lt(b[n - 1].key, e.key),
        m2 < m && n2 < n ==> newer(Some(a[m - 1]), Some(b[n - 1])) == Some(e),
    ensures
        merging(a, b, m2, n2, out.push(e)),
{
    let next = out.push(e);
    assert forall|j: int| 0 <= j < out.len() implies key_lt(e.key, (#[trigger] out[j]).key) by {
        if m2 < m {
            assert(key_lt(a[m - 1].key, out[j].key));
        } else {
            assert(key_lt(b[n - 1].key, out[j].key));
        }
    }
    assert forall|i: int| 0 <= i < m2 implies key_lt((#[trigger] a[i]).key, e.key) by {
        if i < m - 1 {
            lemma_run_order(a, i, m - 1);
            if m2 == m {
                lemma_key_lt_transitive(a[i].key, a[m - 1].key, e.key);
            }
        }
    }
    assert forall|i: int| 0 <= i < n2 implies key_lt((#[trigger] b[i]).key, e.key) by {
        if i < n - 1 {
            lemma_run_order(b, i, n - 1);
            if n2 == n {
                lemma_key_lt_transitive(b[i].key, b[n - 1].key, e.key);
            }
        }
    }
    lemma_key_lt_irreflexive(e.key);
    if m2 < m {
        lemma_latest_in_run(a, m - 1);
    } else {
        assert forall|i: int| 0 <= i < a.len() implies (#[trigger] a[i]).key != e.key by {
            if i >= m {
                assert(has_key(out, a[i].key));
                let j = choose|j: int| 0 <= j < out.len() && (#[trigger] out[j]).key == a[i].key;
                assert(key_lt(e.key, out[j].key));
            }
        }
        lemma_latest_none(a, e.key);
    }
    if n2 < n {
        lemma_latest_in_run(b, n - 1);
    } else {
        assert forall|i: int| 0 <= i < b.len() implies (#[trigger] b[i]).key != e.key by {
            if i >= n {
                assert(has_key(out, b[i].key));
                let j = choose|j: int| 0 <= j < out.len() && (#[trigger] out[j]).key == b[i].key;
                assert(key_lt(e.key, out[j].key));
            }
        }
        lemma_latest_none(b, e.key);
    }
    assert(newer(latest(a, e.key), latest(b, e.key)) == Some(e));
    assert forall|i: int| m2 <= i < a.len() implies has_key(next, (#[trigger] a[i]).key) by {
        lemma_has_key_push(out, e, a[i].key);
    }
    assert forall|i: int| n2 <= i < b.len() implies has_key(next, (#[trigger] b[i]).key) by {
        lemma_has_key_push(out, e, b[i].key);
    }
}

/// What a finished merge holds, put in ascending order.
proof fn lemma_merging_done(
    a: Seq<EntryView>,
    b: Seq<EntryView>,
    out: Seq<EntryView>,
    sorted: Seq<EntryView>,
)
    requires
        is_run(a),
        is_run(b),
        merging(a, b, 0, 0, out),
        sorted.len() == out.len(),
        forall|i: int| 0 <= i < out.len() ==> #[trigger] sorted[i] == out[out.len() - 1 - i],
    ensures
        is_run(sorted),
        forall|key: Seq<u8>| #[trigger]
            latest(sorted, key) == newer(latest(a, key), latest(b, key)),
{
    let keys = keys_of(sorted);
    assert forall|i: int, j: int| 0 <= i < j < keys.len() implies key_lt(
        #[trigger] keys[i],
        #[trigger] keys[j],
    ) by {
        assert(sorted[i] == out[out.len() - 1 - i]);
        assert(sorted[j] == out[out.len() - 1 - j]);
    }
    assert forall|key: Seq<u8>| #[trigger]
        latest(sorted, key) == newer(latest(a, key), latest(b, key)) by {
        lemma_latest_is_there(sorted, key);
        if latest(sorted, key) is Some {
            let e = latest(sorted, key)->Some_0;
            let i = choose|i: int| 0 <= i < sorted.len() && #[trigger] sorted[i] == e;
            assert(out[out.len() - 1 - i].key == key);
        } else {
            assert forall|i: int| 0 <= i < a.len() implies (#[trigger] a[i]).key != key by {
                assert(has_key(out, a[i].key));
                let j = choose|j: int| 0 <= j < out.len() && (#[trigger] out[j]).key == a[i].key;
                assert(sorted[out.len() - 1 - j] == out[j]);
            }
            assert forall|i: int| 0 <= i < b.len() implies (#[trigger] b[i]).key != key by {
                assert(has_key(out, b[i].key));
                let j = choose|j: int| 0 <= j < out.len() && (#[trigger] out[j]).key == b[i].key;
                assert(sorted[out.len() - 1 - j] == out[j]);
            }
            lemma_latest_none(a, key);
            lemma_latest_none(b, key);
        }
    }
}

/// Merges two runs into one that holds the newer version of each key, that of
/// `a` where they are equally new.
fn merge_two(a: Vec<Entry>, b: Vec<Entry>) -> (r: Vec<Entry>)
    requires
        is_run(entry_views(a@)),
        is_run(entry_views(b@)),
    ensures
        is_run(entry_views(r@)),
        forall|key: Seq<u8>| #[trigger]
            latest(entry_views(r@), key) == newer(
                latest(entry_views(a@), key),
                latest(entry_views(b@), key),
            ),
{
    let ghost av = entry_views(a@);
    let ghost bv = entry_views(b@);
    let mut left = a;
    let mut right = b;
    let mut out: Vec<Entry> = Vec::new();
    while left.len() > 0 || right.len() > 0
        invariant
            is_run(av),
            is_run(bv),
            av == entry_views(a@),
            bv == entry_views(b@),
            left@ == a@.take(left@.len() as int),
            right@ == b@.take(right@.len() as int),
            left@.len() <= a@.len(),
            right@.len() <= b@.len(),
            merging(av, bv, left@.len() as int, right@.len() as int, entry_views(out@)),
        decreases left@.len() + right@.len(),
    {
        let m: usize = left.len();
        let n: usize = right.len();
        let ghost done = entry_views(out@);
        let order = if n == 0 {
            KeyOrder::Greater
        } else if m == 0 {
            KeyOrder::Less
        } else {
            key_order(left[m - 1].key.as_slice(), right[n - 1].key.as_slice())
        };
        proof {
            if m > 0 {
                assert(left@[m - 1] == a@[m - 1]);
                assert(av[m - 1] == a@[m - 1]@);
            }
            if n > 0 {
                assert(right@[n - 1] == b@[n - 1]);
                assert(bv[n - 1] == b@[n - 1]@);
            }
        }
        match order {
            KeyOrder::Greater => {
                if let Some(x) = left.pop() {
                    proof {
                        lemma_merging_step(
                            av,
                            bv,
                            m as int,
                            n as int,
                            done,
                            m - 1,
                            n as int,
                            x@,
                        );
                        assert(entry_views(out@.push(x)) =~= done.push(x@));
                    }
                    out.push(x);
                }
            },
            KeyOrder::Less => {
                if let Some(y) = right.pop() {
                    proof {
                        lemma_merging_step(
                            av,
                            bv,
                            m as int,
                            n as int,
                            done,
                            m as int,
                            n - 1,
                            y@,
                        );
                        assert(entry_views(out@.push(y)) =~= done.push(y@));
                    }
                    out.push(y);
                }
            },
            KeyOrder::Equal => {
                if let (Some(x), Some(y)) = (left.pop(), right.pop()) {
                    let e = if x.seq >= y.seq {
                        x
                    } else {
                        y
                    };
                    proof {
                        lemma_merging_step(av, bv, m as int, n as int, done, m - 1, n - 1, e@);
                        assert(entry_views(out@.push(e)) =~= done.push(e@));
                    }
                    out.push(e);
                }
            },
        }
        assert(left@ =~= a@.take(left@.len() as int));
        assert(right@ =~= b@.take(right@.len() as int));
    }
    let ghost done = entry_views(out@);
    let r = reversed(out);
    proof {
        lemma_merging_done(av, bv, done, entry_views(r@));
    }
    r
}

/// The contents of some runs.
pub open spec fn run_views(runs: Seq<Vec<Entry>>) -> Seq<Seq<EntryView>> {
    runs.map_values(|run: Vec<Entry>| entry_views(run@))
}

/// All entries of some runs, one run after the other.
pub open spec fn concatenated(runs: Seq<Seq<EntryView>>) -> Seq<EntryView>
    decreases runs.len(),
{
    if runs.len() == 0 {
        Seq::empty()
    } else {
        runs[0] + concatenated(runs.skip(1))
    }
}

/// The entries that are not tombstones.
spec fn live(entries: Seq<EntryView>) -> Seq<EntryView>
    decreases entries.len(),
{
    if entries.len() == 0 {
        Seq::empty()
    } else if entries.last().is_tombstone() {
        live(entries.drop_last())
    } else {
        live(entries.drop_last()).push(entries.last())
    }
}

proof fn lemma_live(entries: Seq<EntryView>)
    requires
        is_run(entries),
    ensures
        is_run(live(entries)),
        forall|i: int|
            0 <= i < live(entries).len() ==> entries.contains(#[trigger] live(entries)[i]),
        forall|key: Seq<u8>| #[trigger]
            latest(live(entries), key) == kept(latest(entries, key), true),
    decreases entries.len(),
{
    if entries.len() > 0 {
        let front = entries.drop_last();
        let last = entries.last();
        let before = live(front);
        let after = live(entries);
        assert(keys_of(front) =~= keys_of(entries).drop_last());
        lemma_live(front);
        assert forall|i: int| 0 <= i < before.len() implies {
            &&& entries.contains(#[trigger] before[i])
            &&& key_lt(before[i].key, last.key)
        } by {
            assert(front.contains(before[i]));
            let j = choose|j: int| 0 <= j < front.len() && front[j] == before[i];
            assert(entries[j] == before[i]);
            lemma_run_order(entries, j, entries.len() - 1);
        }
        assert(entries[entries.len() - 1] == last);
        let keys = keys_of(after);
        assert forall|i: int, j: int| 0 <= i < j < keys.len() implies key_lt(
            #[trigger] keys[i],
            #[trigger] keys[j],
        ) by {
            if j < before.len() {
                lemma_run_order(before, i, j);
            }
            assert(keys[i] == before[i].key);
            assert(keys[j] == after[j].key);
        }
        assert forall|i: int| 0 <= i < after.len() implies entries.contains(
            #[trigger] after[i],
        ) by {
            if i < before.len() {
                assert(after[i] == before[i]);
            }
        }
        assert forall|key: Seq<u8>| #[trigger]
            latest(after, key) == kept(latest(entries, key), true) by {
            assert(latest(before, key) == kept(latest(front, key), true));
            if last.is_tombstone() {
                if key == last.key {
                    lemma_latest_is_there(before, key);
                    if latest(before, key) is Some {
                        let e = latest(before, key)->Some_0;
                        let i = choose|i: int|
                            0 <= i < before.len() && #[trigger] before[i] == e;
                        lemma_key_lt_irreflexive(key);
                    }
                }
            } else {
                assert(after.drop_last() =~= before);
            }
        }
    }
}

/// Merges `runs` into a single sorted run, keeping only the newest entry (the one
/// with the highest `seq`) of each key, and no entry of a key whose newest is a
/// tombstone when `drop_tombstones` is set.
pub fn merge_runs(runs: Vec<Vec<Entry>>, drop_tombstones: bool) -> (r: Vec<Entry>)
    ensures
        merges(entry_views(r@), concatenated(run_views(runs@)), drop_tombstones),
{
    let ghost all = run_views(runs@);
    let mut rest = runs;
    let mut acc: Vec<Entry> = Vec::new();
    assert(entry_views(acc@) =~= Seq::<EntryView>::empty());
    assert(all.skip(rest@.len() as int) =~= Seq::empty());
    while rest.len() > 0
        invariant
            rest@.len() <= all.len(),
            all == run_views(runs@),
            rest@ == runs@.take(rest@.len() as int),
            collapses(entry_views(acc@), concatenated(all.skip(rest@.len() as int))),
        decreases rest@.len(),
    {
        let ghost n = rest@.len() as int;
        let ghost seen = concatenated(all.skip(n));
        assert(rest@[n - 1] == runs@[n - 1]);
        if let Some(run) = rest.pop() {
            let ghost this = entry_views(run@);
            let sorted = collapse(run);
            let ghost newer_runs = entry_views(acc@);
            let ghost first = entry_views(sorted@);
            acc = merge_two(sorted, acc);
            proof {
                assert(all.skip(n - 1)[0] == this);
                assert(all.skip(n - 1).skip(1) =~= all.skip(n));
                let now = concatenated(all.skip(n - 1));
                assert(now == this + seen);
                assert forall|key: Seq<u8>| #[trigger]
                    latest(entry_views(acc@), key) == newest(now, key) by {
                    assert(latest(first, key) == newest(this, key));
                    assert(latest(newer_runs, key) == newest(seen, key));
                    lemma_newest_add(this, seen, key);
                }
            }
        }
        assert(rest@ =~= runs@.take(n - 1));
    }
    assert(all.skip(0) =~= all);
    let ghost seen = concatenated(all);
    let ghost collapsed = entry_views(acc@);
    if !drop_tombstones {
        assert forall|key: Seq<u8>| #[trigger]
            latest(collapsed, key) == kept(newest(seen, key), false) by {
        }
        return acc;
    }
    let total: usize = acc.len();
    let mut backward = reversed(acc);
    let mut merged: Vec<Entry> = Vec::new();
    assert(entry_views(merged@) =~= Seq::<EntryView>::empty());
    assert forall|i: int| 0 <= i < backward@.len() implies (#[trigger] backward@[i])@
        == collapsed[total - 1 - i] by {
    }
    while backward.len() > 0
        invariant
            backward@.len() <= total,
            total == collapsed.len(),
            forall|i: int|
                0 <= i < backward@.len() ==> (#[trigger] backward@[i])@ == collapsed[total - 1 - i],
            entry_views(merged@) == live(collapsed.take(total - backward@.len())),
        decreases backward@.len(),
    {
        let ghost n = backward@.len() as int;
        let ghost so_far = collapsed.take(total - n);
        assert(backward@[n - 1]@ == collapsed[total - n]);
        if let Some(entry) = backward.pop() {
            proof {
                let next = collapsed.take(total - n + 1);
                assert(next.drop_last() =~= so_far);
                assert(next.last() == entry@);
                assert(entry_views(merged@.push(entry)) =~= entry_views(merged@).push(entry@));
            }
            if !entry.is_tombstone() {
                merged.push(entry);
            }
        }
    }
    proof {
        assert(collapsed.take(total as int) =~= collapsed);
        lemma_live(collapsed);
        assert forall|key: Seq<u8>| #[trigger]
            latest(live(collapsed), key) == kept(newest(seen, key), true) by {
            assert(latest(collapsed, key) == newest(seen, key));
        }
    }
    merged
}

/// An open table together with the bytes of its file.
pub struct TableFile {
    pub table: SsTable,
    pub bytes: Vec<u8>,
}

impl TableFile {
    /// What a scan of the table yields.
    pub open spec fn scanned(self) -> Result<Seq<EntryView>, StoreError> {
        self.table@.scan(self.bytes@)
    }

    /// Reads every entry of the table, in key order.
    pub fn scan(&self) -> (r: Result<Vec<Entry>, StoreError>)
        ensures
            match r {
                Ok(entries) => self.scanned() == Ok::<Seq<EntryView>, StoreError>(
                    entry_views(entries@),
                ),
                Err(error) => self.scanned() == Err::<Seq<EntryView>, StoreError>(error),
            },
    {
        self.table.scan(self.bytes.as_slice())
    }
}

/// `runs` is what scanning each of `tables` yields.
pub open spec fn all_scanned(tables: Seq<TableFile>, runs: Seq<Seq<EntryView>>) -> bool {
    &&& runs.len() == tables.len()
    &&& forall|i: int|
        0 <= i < tables.len() ==> (#[trigger] tables[i]).scanned() == Ok::<
            Seq<EntryView>,
            StoreError,
        >(runs[i])
}

/// A scan of one of `tables` fails with `error`.
pub open spec fn some_scan_fails(tables: Seq<TableFile>, error: StoreError) -> bool {
    exists|i: int|
        0 <= i < tables.len() && (#[trigger] tables[i]).scanned() == Err::<
            Seq<EntryView>,
            StoreError,
        >(error)
}

/// Scans the tables in parallel: rayon's `par_iter` over a slice, `map`, and
/// `collect` into a `Result` of a `Vec`. Claimed of it: where every scan succeeds,
/// the runs come out in the order of the tables; where one fails, the error of
/// some failing scan does. Which one, if several fail, rayon leaves open.
#[verifier::external_body]
fn scan_all(tables: &[TableFile]) -> (r: Result<Vec<Vec<Entry>>, StoreError>)
    ensures
        match r {
            Ok(runs) => all_scanned(tables@, run_views(runs@)),
            Err(error) => some_scan_fails(tables@, error),
        },
{
    tables.par_iter().map(|table| table.scan()).collect()
}

/// Merges `tables` (in any order) into a single sorted run, keeping only the
/// newest entry (the one with the highest `seq`) of each key.
///
/// When `drop_tombstones` is set, deletions are removed outright. That is safe
/// only when `tables` holds the oldest table there is: otherwise an older value
/// could survive beneath the dropped tombstone and resurface.
///
/// If any scan fails, the whole merge fails.
pub fn merge_tables(tables: &[TableFile], drop_tombstones: bool) -> (r: Result<
    Vec<Entry>,
    StoreError,
>)
    ensures
        match r {
            Ok(merged) => exists|runs: Seq<Seq<EntryView>>|
                #![trigger concatenated(runs)]
                all_scanned(tables@, runs) && merges(
                    entry_views(merged@),
                    concatenated(runs),
                    drop_tombstones,
                ),
            Err(error) => some_scan_fails(tables@, error),
        },
{
    let runs = scan_all(tables)?;
    Ok(merge_runs(runs, drop_tombstones))
}

/// The newest version of a key wins: what a merge holds of a key is one of the
/// versions it saw, and no version it saw is newer. It holds nothing of a key only
/// where it saw none, or where the newest is a tombstone and those are dropped.
pub proof fn law_newest_version_wins(
    merged: Seq<EntryView>,
    seen: Seq<EntryView>,
    drop_tombstones: bool,
    key: Seq<u8>,
)
    requires
        merges(merged, seen, drop_tombstones),
    ensures
        latest(merged, key) matches Some(e) ==> {
            &&& e.key == key
            &&& seen.contains(e)
            &&& !(drop_tombstones && e.is_tombstone())
            &&& forall|i: int|
                0 <= i < seen.len() && (#[trigger] seen[i]).key == key ==> seen[i].seq <= e.seq
        },
        latest(merged, key) is None ==> {
            ||| forall|i: int| 0 <= i < seen.len() ==> (#[trigger] seen[i]).key != key
            ||| drop_tombstones && exists|i: int|
                #![trigger seen[i]]
                0 <= i < seen.len() && seen[i].key == key && seen[i].is_tombstone() && forall|j: int|
                    0 <= j < seen.len() && (#[trigger] seen[j]).key == key ==> seen[j].seq
                        <= seen[i].seq
        },
{
    lemma_newest_is_newest(seen, key);
    assert(latest(merged, key) == kept(newest(seen, key), drop_tombstones));
}

/// The newest version stands somewhere, and no version that stands before it is as new.
proof fn lemma_newest_is_first(entries: Seq<EntryView>, key: Seq<u8>)
    ensures
        newest(entries, key) matches Some(e) ==> exists|i: int|
            0 <= i < entries.len() && #[trigger] entries[i] == e && forall|j: int|
                0 <= j < i && (#[trigger] entries[j]).key == key ==> entries[j].seq < e.seq,
    decreases entries.len(),
{
    if entries.len() > 0 {
        let front = entries.drop_last();
        let last = entries.last();
        lemma_newest_is_first(front, key);
        lemma_newest_is_newest(front, key);
        if newest(entries, key) is Some {
            let e = newest(entries, key)->Some_0;
            if newest(front, key) == Some(e) {
                let i = choose|i: int|
                    0 <= i < front.len() && #[trigger] front[i] == e && forall|j: int|
                        0 <= j < i && (#[trigger] front[j]).key == key ==> front[j].seq < e.seq;
                assert(entries[i] == e);
                assert forall|j: int| 0 <= j < i && (#[trigger] entries[j]).key
                    == key implies entries[j].seq < e.seq by {
                    assert(front[j] == entries[j]);
                }
            } else {
                let n = entries.len() - 1;
                assert(entries[n] == e);
                assert forall|j: int| 0 <= j < n && (#[trigger] entries[j]).key
                    == key implies entries[j].seq < e.seq by {
                    assert(front[j] == entries[j]);
                }
            }
        }
    }
}

/// A version that no other is newer than, and that none before it is as new as, is the
/// newest.
proof fn lemma_newest_at(entries: Seq<EntryView>, i: int)
    requires
        0 <= i < entries.len(),
        forall|j: int|
            0 <= j < entries.len() && (#[trigger] entries[j]).key == entries[i].key
                ==> entries[j].seq <= entries[i].seq && (j < i ==> entries[j].seq < entries[i].seq),
    ensures
        newest(entries, entries[i].key) == Some(entries[i]),
    decreases entries.len(),
{
    let key = entries[i].key;
    let front = entries.drop_last();
    if i < front.len() {
        assert(front[i] == entries[i]);
        assert forall|j: int| 0 <= j < front.len() && (#[trigger] front[j]).key
            == front[i].key implies front[j].seq <= front[i].seq && (j < i ==> front[j].seq
            < front[i].seq) by {
            assert(front[j] == entries[j]);
        }
        lemma_newest_at(front, i);
        assert(entries[entries.len() - 1] == entries.last());
    } else {
        lemma_newest_is_newest(front, key);
        if newest(front, key) is Some {
            let x = newest(front, key)->Some_0;
            let h = choose|h: int| 0 <= h < front.len() && front[h] == x;
            assert(entries[h] == x);
        }
    }
}

proof fn lemma_merge_holds(
    merged: Seq<EntryView>,
    seen: Seq<EntryView>,
    drop_tombstones: bool,
    e: EntryView,
)
    requires
        merges(merged, seen, drop_tombstones),
    ensures
        merged.contains(e) <==> {
            &&& !(drop_tombstones && e.kind == EntryKind::Delete)
            &&& exists|i: int|
                0 <= i < seen.len() && #[trigger] seen[i] == e && forall|j: int|
                    0 <= j < seen.len() && (#[trigger] seen[j]).key == e.key ==> seen[j].seq
                        <= e.seq && (j < i ==> seen[j].seq < e.seq)
        },
{
    let key = e.key;
    assert(latest(merged, key) == kept(newest(seen, key), drop_tombstones));
    if merged.contains(e) {
        let a = choose|a: int| 0 <= a < merged.len() && merged[a] == e;
        lemma_latest_in_run(merged, a);
        lemma_newest_is_newest(seen, key);
        lemma_newest_is_first(seen, key);
        let i = choose|i: int|
            0 <= i < seen.len() && #[trigger] seen[i] == e && forall|j: int|
                0 <= j < i && (#[trigger] seen[j]).key == key ==> seen[j].seq < e.seq;
        assert(seen[i] == e);
    } else if !(drop_tombstones && e.kind == EntryKind::Delete) {
        assert forall|i: int| 0 <= i < seen.len() && #[trigger] seen[i] == e implies !(forall|j: int|
            0 <= j < seen.len() && (#[trigger] seen[j]).key == e.key ==> seen[j].seq <= e.seq && (j
                < i ==> seen[j].seq < e.seq)) by {
            if forall|j: int|
                0 <= j < seen.len() && (#[trigger] seen[j]).key == e.key ==> seen[j].seq <= e.seq
                    && (j < i ==> seen[j].seq < e.seq) {
                lemma_newest_at(seen, i);
                lemma_latest_is_there(merged, key);
            }
        }
    }
}

/// What a merge holds: keys in order, none twice, and of each key that it saw the version
/// with the highest sequence number, the first of them where there are several, as it was,
/// key and value whole. Where tombstones are dropped, a key whose newest version is one is
/// not there; nothing else is left out, and nothing comes in.
pub proof fn law_what_a_merge_holds(
    merged: Seq<EntryView>,
    seen: Seq<EntryView>,
    drop_tombstones: bool,
    e: EntryView,
)
    requires
        merges(merged, seen, drop_tombstones),
    ensures
        forall|i: int, j: int|
            0 <= i < j < merged.len() ==> key_lt(
                (#[trigger] merged[i]).key,
                (#[trigger] merged[j]).key,
            ),
        merged.contains(e) <==> {
            &&& !(drop_tombstones && e.kind == EntryKind::Delete)
            &&& exists|i: int|
                0 <= i < seen.len() && #[trigger] seen[i] == e && forall|j: int|
                    0 <= j < seen.len() && (#[trigger] seen[j]).key == e.key ==> seen[j].seq
                        <= e.seq && (j < i ==> seen[j].seq < e.seq)
        },
{
    law_run_keys_ascend(merged);
    lemma_merge_holds(merged, seen, drop_tombstones, e);
}

proof fn lemma_concatenated_push(runs: Seq<Seq<EntryView>>, run: Seq<EntryView>)
    ensures
        concatenated(runs.push(run)) == concatenated(runs) + run,
    decreases runs.len(),
{
    let more = runs.push(run);
    if runs.len() == 0 {
        assert(more.skip(1) =~= runs);
        assert(concatenated(more) =~= concatenated(runs) + run);
    } else {
        lemma_concatenated_push(runs.skip(1), run);
        assert(more.skip(1) =~= runs.skip(1).push(run));
        assert(more[0] == runs[0]);
        assert(concatenated(more) =~= concatenated(runs) + run);
    }
}

/// What was seen of some runs is everything in them, one run behind the other.
pub proof fn law_merge_sees_every_run(runs: Seq<Seq<EntryView>>, run: Seq<EntryView>)
    ensures
        concatenated(Seq::empty()).len() == 0,
        concatenated(runs.push(run)) == concatenated(runs) + run,
{
    lemma_concatenated_push(runs, run);
}

/// An entry was seen where one of the runs holds it, and only there.
pub proof fn law_merge_sees_every_entry(runs: Seq<Seq<EntryView>>, e: EntryView)
    ensures
        concatenated(runs).contains(e) <==> exists|i: int|
            0 <= i < runs.len() && #[trigger] runs[i].contains(e),
    decreases runs.len(),
{
    let all = concatenated(runs);
    if runs.len() > 0 {
        let front = runs.drop_last();
        let last = runs.last();
        let before = concatenated(front);
        law_merge_sees_every_entry(front, e);
        lemma_concatenated_push(front, last);
        assert(runs =~= front.push(last));
        assert(all == before + last);
        if all.contains(e) {
            let at = choose|at: int| 0 <= at < all.len() && all[at] == e;
            if at < before.len() {
                assert(before[at] == e);
                let i = choose|i: int| 0 <= i < front.len() && #[trigger] front[i].contains(e);
                assert(runs[i].contains(e));
            } else {
                assert(last[at - before.len()] == e);
                assert(runs[runs.len() - 1].contains(e));
            }
        }
        if exists|i: int| 0 <= i < runs.len() && #[trigger] runs[i].contains(e) {
            let i = choose|i: int| 0 <= i < runs.len() && #[trigger] runs[i].contains(e);
            if i < front.len() {
                assert(front[i].contains(e));
                let at = choose|at: int| 0 <= at < before.len() && before[at] == e;
                assert(all[at] == e);
            } else {
                let at = choose|at: int| 0 <= at < last.len() && last[at] == e;
                assert(all[before.len() + at] == e);
            }
        }
    }
}

/// Runs are viewed one by one, and each of them entry by entry.
pub proof fn law_runs_are_viewed_one_by_one(runs: Seq<Vec<Entry>>)
    ensures
        run_views(runs).len() == runs.len(),
        forall|i: int|
            0 <= i < runs.len() ==> #[trigger] run_views(runs)[i] == entry_views(runs[i]@),
{
}

/// A table is scanned in its own file; tables are all scanned where each of them is, and a
/// scan fails where that of one of them does.
pub proof fn law_tables_are_scanned_one_by_one(
    tables: Seq<TableFile>,
    runs: Seq<Seq<EntryView>>,
    i: int,
)
    requires
        0 <= i < tables.len(),
    ensures
        tables[i].scanned() == tables[i].table@.scan(tables[i].bytes@),
        all_scanned(tables, runs) ==> runs.len() == tables.len() && tables[i].table@.scan(
            tables[i].bytes@,
        ) == Ok::<Seq<EntryView>, StoreError>(runs[i]),
        tables[i].scanned() matches Err(error) ==> some_scan_fails(tables, error)
            && !all_scanned(tables, runs),
{
    if tables[i].scanned() is Err {
        let error = tables[i].scanned()->Err_0;
        assert(tables[i].scanned() == Err::<Seq<EntryView>, StoreError>(error));
    }
}

/// No two different entries among `seen` are versions of one key with one `seq`.
pub open spec fn versions_distinct(seen: Seq<EntryView>) -> bool {
    forall|i: int, j: int|
        0 <= i < seen.len() && 0 <= j < seen.len() && (#[trigger] seen[i]).key == (
        #[trigger] seen[j]).key && seen[i].seq == seen[j].seq ==> seen[i] == seen[j]
}

/// The order in which tables are merged does not matter: two merges that saw the
/// same entries, in whatever order, come out the same.
pub proof fn law_merge_order_does_not_matter(
    first: Seq<EntryView>,
    second: Seq<EntryView>,
    one: Seq<EntryView>,
    other: Seq<EntryView>,
    drop_tombstones: bool,
)
    requires
        versions_distinct(first),
        forall|e: EntryView| #[trigger] first.contains(e) <==> second.contains(e),
        merges(one, first, drop_tombstones),
        merges(other, second, drop_tombstones),
    ensures
        one == other,
{
    assert forall|key: Seq<u8>| newest(first, key) == newest(second, key) by {
        lemma_newest_is_newest(first, key);
        lemma_newest_is_newest(second, key);
        if newest(first, key) is Some {
            let e = newest(first, key)->Some_0;
            let i = choose|i: int| 0 <= i < first.len() && first[i] == e;
            assert(first.contains(e));
            let j = choose|j: int| 0 <= j < second.len() && second[j] == e;
            assert(second[j].key == key);
            let x = newest(second, key)->Some_0;
            assert(second.contains(x));
            assert(first.contains(x));
            let h = choose|h: int| 0 <= h < first.len() && first[h] == x;
            assert(first[i].seq == first[h].seq);
        } else if newest(second, key) is Some {
            let x = newest(second, key)->Some_0;
            assert(first.contains(x));
        }
    }
    assert forall|key: Seq<u8>| #[trigger] latest(one, key) == latest(other, key) by {
    }
    assert(run_map(one) =~= run_map(other));
    lemma_run_determined(one, other);
}

} // verus!
