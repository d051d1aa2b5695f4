//! Layers of runs, the oldest first: what a reader sees of them, and what merging
//! the oldest of them changes.
use crate::api::{EntryKind, EntryView, Operation};
use crate::compaction::{
    concatenated, kept, lemma_newest_add, lemma_newest_in_run, lemma_newest_is_newest, merges, newest,
};
use crate::run::{
    is_run, latest, law_latest_is_the_last, lemma_latest_in_run, lemma_latest_is_there,
    lemma_latest_none, lemma_upserted, lemma_upserted_latest, upserted,
};
use crate::store::{executed, stored};
use vstd::prelude::*;

verus! {

/// What a reader sees of the version that was found.
pub open spec fn resolved(found: Option<EntryView>) -> Option<Seq<u8>> {
    match found {
        Some(e) => e.resolved(),
        None => None,
    }
}

/// The version of `key` in the newest layer that holds one. Layers are runs, the
/// oldest first.
pub open spec fn layered(layers: Seq<Seq<EntryView>>, key: Seq<u8>) -> Option<EntryView>
    decreases layers.len(),
{
    if layers.len() == 0 {
        None
    } else {
        match latest(layers.last(), key) {
            Some(e) => Some(e),
            None => layered(layers.drop_last(), key),
        }
    }
}

/// What a reader sees of some layers.
pub open spec fn visible(layers: Seq<Seq<EntryView>>) -> Map<Seq<u8>, Seq<u8>> {
    Map::new(
        |key: Seq<u8>| resolved(layered(layers, key)) is Some,
        |key: Seq<u8>| resolved(layered(layers, key))->Some_0,
    )
}

/// Layers are runs, and a version in a newer layer is newer than one in an older
/// layer, or the same.
pub open spec fn layers_ordered(layers: Seq<Seq<EntryView>>) -> bool {
    &&& forall|i: int| 0 <= i < layers.len() ==> is_run(#[trigger] layers[i])
    &&& forall|i: int, j: int, x: EntryView, y: EntryView|
        0 <= i < j < layers.len() && #[trigger] layers[i].contains(x)
            && #[trigger] layers[j].contains(y) && x.key == y.key ==> x.seq < y.seq || x == y
}

/// No version in these layers has a higher sequence number.
pub open spec fn seqs_within(layers: Seq<Seq<EntryView>>, seq: u64) -> bool {
    forall|i: int, x: EntryView|
        0 <= i < layers.len() && #[trigger] layers[i].contains(x) ==> x.seq <= seq
}

/// One of these layers holds a version with this sequence number, or it is zero, the
/// number of no version.
pub open spec fn seq_held(layers: Seq<Seq<EntryView>>, seq: u64) -> bool {
    seq == 0 || exists|i: int, x: EntryView|
        0 <= i < layers.len() && #[trigger] layers[i].contains(x) && x.seq == seq
}

pub proof fn lemma_layered_add(a: Seq<Seq<EntryView>>, b: Seq<Seq<EntryView>>, key: Seq<u8>)
    ensures
        layered(a + b, key) == match layered(b, key) {
            Some(e) => Some(e),
            None => layered(a, key),
        },
    decreases b.len(),
{
    if b.len() == 0 {
        assert(a + b =~= a);
    } else {
        assert((a + b).drop_last() =~= a + b.drop_last());
        assert((a + b).last() == b.last());
        lemma_layered_add(a, b.drop_last(), key);
    }
}

pub proof fn lemma_layered_one(run: Seq<EntryView>, key: Seq<u8>)
    ensures
        layered(seq![run], key) == latest(run, key),
{
    assert(seq![run].drop_last().len() == 0);
    assert(seq![run].last() == run);
    assert(layered(seq![run].drop_last(), key) is None);
}

pub proof fn lemma_layered_push(layers: Seq<Seq<EntryView>>, run: Seq<EntryView>, key: Seq<u8>)
    ensures
        layered(layers.push(run), key) == match latest(run, key) {
            Some(e) => Some(e),
            None => layered(layers, key),
        },
{
    assert(layers.push(run).drop_last() =~= layers);
    assert(layers.push(run).last() == run);
}

/// A version that the layers yield is in one of them.
pub proof fn lemma_layered_is_there(layers: Seq<Seq<EntryView>>, key: Seq<u8>)
    ensures
        layered(layers, key) matches Some(e) ==> e.key == key && exists|i: int|
            0 <= i < layers.len() && #[trigger] layers[i].contains(e),
    decreases layers.len(),
{
    if layers.len() > 0 {
        let last = layers.last();
        let front = layers.drop_last();
        lemma_latest_is_there(last, key);
        if latest(last, key) is Some {
            assert(layers[layers.len() - 1].contains(latest(last, key)->Some_0));
        } else {
            lemma_layered_is_there(front, key);
            if layered(front, key) is Some {
                let e = layered(front, key)->Some_0;
                let i = choose|i: int| 0 <= i < front.len() && #[trigger] front[i].contains(e);
                assert(layers[i].contains(e));
            }
        }
    }
}

/// Layers that yield the same look the same to a reader.
pub proof fn lemma_same_view(a: Seq<Seq<EntryView>>, b: Seq<Seq<EntryView>>)
    requires
        forall|key: Seq<u8>| resolved(#[trigger] layered(a, key)) == resolved(layered(b, key)),
    ensures
        visible(a) == visible(b),
{
    assert forall|key: Seq<u8>| #[trigger]
        visible(a).dom().contains(key) == visible(b).dom().contains(key) by {
        assert(resolved(layered(a, key)) == resolved(layered(b, key)));
    }
    assert forall|key: Seq<u8>| #[trigger] visible(a).dom().contains(key) implies visible(a)[key]
        == visible(b)[key] by {
        assert(resolved(layered(a, key)) == resolved(layered(b, key)));
    }
    assert(visible(a) =~= visible(b));
}

/// What a reader finds under a key is what the layers yield.
pub proof fn lemma_visible(layers: Seq<Seq<EntryView>>, key: Seq<u8>)
    ensures
        stored(visible(layers), key) == resolved(layered(layers, key)),
{
}

/// The older ones of ordered layers are ordered.
pub proof fn lemma_older_layers_ordered(layers: Seq<Seq<EntryView>>, n: int)
    requires
        layers_ordered(layers),
        0 <= n <= layers.len(),
    ensures
        layers_ordered(layers.take(n)),
{
    let older = layers.take(n);
    assert forall|a: int| 0 <= a < older.len() implies is_run(#[trigger] older[a]) by {
        assert(is_run(layers[a]));
    }
    assert forall|a: int, b: int, x: EntryView, y: EntryView|
        0 <= a < b < older.len() && #[trigger] older[a].contains(x)
            && #[trigger] older[b].contains(y) && x.key == y.key implies x.seq < y.seq || x == y by {
        assert(layers[a].contains(x));
        assert(layers[b].contains(y));
    }
}

/// The version with the highest sequence number is the live one.
pub proof fn law_highest_seq_is_live(
    layers: Seq<Seq<EntryView>>,
    key: Seq<u8>,
    i: int,
    version: EntryView,
)
    requires
        layers_ordered(layers),
        0 <= i < layers.len(),
        layers[i].contains(version),
        version.key == key,
    ensures
        layered(layers, key) matches Some(e) && version.seq <= e.seq,
    decreases layers.len(),
{
    let n = layers.len() as int;
    let last = layers.last();
    lemma_latest_is_there(last, key);
    assert(last == layers[n - 1]);
    if latest(last, key) is Some {
        let e = latest(last, key)->Some_0;
        assert(layers[n - 1].contains(e));
        if i == n - 1 {
            let a = choose|a: int| 0 <= a < last.len() && last[a] == version;
            lemma_latest_in_run(last, a);
        }
    } else {
        if i == n - 1 {
            let a = choose|a: int| 0 <= a < last.len() && last[a] == version;
            assert(last[a].key == key);
        }
        let front = layers.drop_last();
        assert(front[i].contains(version));
        assert(layers_ordered(front)) by {
            assert forall|a: int| 0 <= a < front.len() implies is_run(#[trigger] front[a]) by {
                assert(is_run(layers[a]));
            }
            assert forall|a: int, b: int, x: EntryView, y: EntryView|
                0 <= a < b < front.len() && #[trigger] front[a].contains(x)
                    && #[trigger] front[b].contains(y) && x.key == y.key implies x.seq < y.seq || x
                == y by {
                assert(layers[a].contains(x));
                assert(layers[b].contains(y));
            }
        }
        law_highest_seq_is_live(front, key, i, version);
    }
}

/// The newest layer that holds a key decides, and what it holds of it, the last entry with
/// that key, is what is found; where no layer holds the key, nothing is.
pub proof fn law_newest_layer_decides(layers: Seq<Seq<EntryView>>, key: Seq<u8>, i: int, a: int)
    requires
        0 <= i < layers.len(),
        0 <= a < layers[i].len(),
        layers[i][a].key == key,
        forall|b: int| a < b < layers[i].len() ==> (#[trigger] layers[i][b]).key != key,
        forall|j: int, b: int|
            #![trigger layers[j][b]]
            i < j < layers.len() && 0 <= b < layers[j].len() ==> layers[j][b].key != key,
    ensures
        layered(layers, key) == Some(layers[i][a]),
    decreases layers.len(),
{
    let last = layers.last();
    let n = layers.len() - 1;
    if i == n {
        law_latest_is_the_last(last, key, a);
    } else {
        let front = layers.drop_last();
        assert forall|b: int| 0 <= b < last.len() implies (#[trigger] last[b]).key != key by {
            assert(layers[n][b].key != key);
        }
        lemma_latest_none(last, key);
        assert(front[i] == layers[i]);
        assert forall|j: int, b: int|
            #![trigger front[j][b]]
            i < j < front.len() && 0 <= b < front[j].len() implies front[j][b].key != key by {
            assert(layers[j][b].key != key);
        }
        law_newest_layer_decides(front, key, i, a);
    }
}

/// What a reader sees of some layers: of each key all of the value that was found, where a
/// live entry was found, and nothing otherwise.
pub proof fn law_what_is_visible(layers: Seq<Seq<EntryView>>, key: Seq<u8>)
    ensures
        layered(layers, key) matches Some(e) ==> e.kind == EntryKind::Put ==> visible(
            layers,
        ).dom().contains(key) && visible(layers)[key] == e.value,
        layered(layers, key) matches Some(e) ==> e.kind == EntryKind::Delete ==> !visible(
            layers,
        ).dom().contains(key),
        layered(layers, key) is None ==> !visible(layers).dom().contains(key),
        resolved(layered(layers, key)) is Some <==> visible(layers).dom().contains(key),
{
}

/// What a record is to a client: one that is live puts its whole value under its whole key,
/// and a tombstone deletes its key.
pub proof fn law_what_a_record_means(e: EntryView)
    ensures
        e.kind == EntryKind::Put ==> operation_of(e) == Operation::Put(e.key, e.value),
        e.kind == EntryKind::Delete ==> operation_of(e) == Operation::Delete(e.key),
{
}

/// The operation that a record makes durable.
pub open spec fn operation_of(e: EntryView) -> Operation {
    match e.resolved() {
        Some(value) => Operation::Put(e.key, value),
        None => Operation::Delete(e.key),
    }
}

/// A read after a write sees it, and sees every other key as before: setting a key
/// gives it the value, deleting it takes it away, whatever older layers hold.
pub proof fn law_read_your_writes(
    runs: Seq<Seq<EntryView>>,
    active: Seq<EntryView>,
    e: EntryView,
)
    requires
        is_run(active),
    ensures
        visible(runs.push(upserted(active, e))) == executed(
            visible(runs.push(active)),
            operation_of(e),
        ),
{
    let before = runs.push(active);
    let after = runs.push(upserted(active, e));
    let expected = executed(visible(before), operation_of(e));
    assert forall|key: Seq<u8>| #[trigger] layered(after, key) == if key == e.key {
        Some(e)
    } else {
        layered(before, key)
    } by {
        lemma_layered_push(runs, active, key);
        lemma_layered_push(runs, upserted(active, e), key);
        lemma_upserted_latest(active, e, key);
    }
    assert forall|key: Seq<u8>| #[trigger]
        visible(after).dom().contains(key) == expected.dom().contains(key) by {
        assert(layered(after, key) == if key == e.key {
            Some(e)
        } else {
            layered(before, key)
        });
    }
    assert forall|key: Seq<u8>| #[trigger] visible(after).dom().contains(key) implies visible(
        after,
    )[key] == expected[key] by {
        assert(layered(after, key) == if key == e.key {
            Some(e)
        } else {
            layered(before, key)
        });
    }
    assert(visible(after) =~= expected);
}

/// What the versions in a run became of.
pub proof fn lemma_upserted_holds(run: Seq<EntryView>, e: EntryView, x: EntryView)
    requires
        is_run(run),
        upserted(run, e).contains(x),
    ensures
        x == e || run.contains(x),
        x.key == e.key ==> x == e,
{
    let new = upserted(run, e);
    lemma_upserted(run, e);
    let i = choose|i: int| 0 <= i < new.len() && new[i] == x;
    lemma_latest_in_run(new, i);
    lemma_upserted_latest(run, e, x.key);
    if x.key != e.key {
        lemma_latest_is_there(run, x.key);
    }
}

pub proof fn lemma_concatenated_holds(runs: Seq<Seq<EntryView>>, x: EntryView)
    requires
        concatenated(runs).contains(x),
    ensures
        exists|i: int| 0 <= i < runs.len() && #[trigger] runs[i].contains(x),
    decreases runs.len(),
{
    let all = concatenated(runs);
    let at = choose|at: int| 0 <= at < all.len() && all[at] == x;
    if runs.len() > 0 {
        let first = runs[0];
        let rest = runs.skip(1);
        if at < first.len() {
            assert(first[at] == x);
            assert(runs[0].contains(x));
        } else {
            assert(concatenated(rest)[at - first.len()] == x);
            lemma_concatenated_holds(rest, x);
            let i = choose|i: int| 0 <= i < rest.len() && #[trigger] rest[i].contains(x);
            assert(runs[i + 1].contains(x));
        }
    }
}

/// In layers whose newer versions stand above older ones, the version with the
/// highest sequence number is the one in the newest layer.
proof fn lemma_newest_is_layered(runs: Seq<Seq<EntryView>>, key: Seq<u8>)
    requires
        layers_ordered(runs),
    ensures
        newest(concatenated(runs), key) == layered(runs, key),
    decreases runs.len(),
{
    if runs.len() > 0 {
        let first = runs[0];
        let rest = runs.skip(1);
        assert(layers_ordered(rest)) by {
            assert forall|a: int| 0 <= a < rest.len() implies is_run(#[trigger] rest[a]) by {
                assert(is_run(runs[a + 1]));
            }
            assert forall|a: int, b: int, x: EntryView, y: EntryView|
                0 <= a < b < rest.len() && #[trigger] rest[a].contains(x)
                    && #[trigger] rest[b].contains(y) && x.key == y.key implies x.seq < y.seq || x
                == y by {
                assert(runs[a + 1].contains(x));
                assert(runs[b + 1].contains(y));
            }
        }
        lemma_newest_is_layered(rest, key);
        lemma_newest_add(first, concatenated(rest), key);
        assert(is_run(runs[0]));
        lemma_newest_in_run(first, key);
        lemma_layered_add(seq![first], rest, key);
        lemma_layered_one(first, key);
        assert(seq![first] + rest =~= runs);
        lemma_layered_is_there(rest, key);
        lemma_latest_is_there(first, key);
        if latest(first, key) is Some && layered(rest, key) is Some {
            let x = latest(first, key)->Some_0;
            let y = layered(rest, key)->Some_0;
            let j = choose|j: int| 0 <= j < rest.len() && #[trigger] rest[j].contains(y);
            assert(runs[j + 1].contains(y));
            assert(runs[0].contains(x));
        }
    }
}

/// What a merge of the oldest layers holds was in one of them.
pub proof fn lemma_merged_holds(
    layers: Seq<Seq<EntryView>>,
    n: int,
    merged: Seq<EntryView>,
    x: EntryView,
)
    requires
        0 <= n <= layers.len(),
        merges(merged, concatenated(layers.take(n)), true),
        merged.contains(x),
    ensures
        exists|i: int| 0 <= i < n && #[trigger] layers[i].contains(x),
{
    let inputs = layers.take(n);
    let seen = concatenated(inputs);
    let a = choose|a: int| 0 <= a < merged.len() && merged[a] == x;
    lemma_latest_in_run(merged, a);
    assert(latest(merged, x.key) == kept(newest(seen, x.key), true));
    lemma_newest_is_newest(seen, x.key);
    lemma_concatenated_holds(inputs, x);
    let i = choose|i: int| 0 <= i < inputs.len() && #[trigger] inputs[i].contains(x);
    assert(layers[i].contains(x));
}

/// Merging the oldest layers, tombstones dropped, changes nothing that a reader
/// sees: beneath them there is nothing that a tombstone would have to hide.
pub proof fn law_merge_keeps_contents(
    layers: Seq<Seq<EntryView>>,
    n: int,
    merged: Seq<EntryView>,
    seq: u64,
)
    requires
        layers_ordered(layers),
        seqs_within(layers, seq),
        0 <= n <= layers.len(),
        merges(merged, concatenated(layers.take(n)), true),
    ensures
        visible(seq![merged] + layers.skip(n)) == visible(layers),
        layers_ordered(seq![merged] + layers.skip(n)),
        seqs_within(seq![merged] + layers.skip(n), seq),
{
    let inputs = layers.take(n);
    let later = layers.skip(n);
    let after = seq![merged] + later;
    lemma_older_layers_ordered(layers, n);
    assert forall|x: EntryView| #[trigger] merged.contains(x) implies exists|i: int|
        0 <= i < n && #[trigger] layers[i].contains(x) by {
        lemma_merged_holds(layers, n, merged, x);
    }
    assert forall|i: int, x: EntryView|
        0 <= i < after.len() && #[trigger] after[i].contains(x) implies exists|j: int|
        0 <= j < layers.len() && #[trigger] layers[j].contains(x) && (i == 0 ==> j < n) && (i > 0
            ==> j == n + i - 1) by {
        if i == 0 {
            assert(merged.contains(x));
            let j = choose|j: int| 0 <= j < n && #[trigger] layers[j].contains(x);
            assert(layers[j].contains(x));
        } else {
            assert(layers[n + i - 1].contains(x));
        }
    }
    assert forall|i: int, x: EntryView|
        0 <= i < after.len() && #[trigger] after[i].contains(x) implies x.seq <= seq by {
        let j = choose|j: int|
            0 <= j < layers.len() && #[trigger] layers[j].contains(x) && (i == 0 ==> j < n) && (i
                > 0 ==> j == n + i - 1);
        assert(layers[j].contains(x));
    }
    assert forall|i: int| 0 <= i < after.len() implies is_run(#[trigger] after[i]) by {
        if i > 0 {
            assert(is_run(layers[n + i - 1]));
        }
    }
    assert forall|i: int, j: int, x: EntryView, y: EntryView|
        0 <= i < j < after.len() && #[trigger] after[i].contains(x)
            && #[trigger] after[j].contains(y) && x.key == y.key implies x.seq < y.seq || x
        == y by {
        let a = choose|a: int|
            0 <= a < layers.len() && #[trigger] layers[a].contains(x) && (i == 0 ==> a < n) && (i
                > 0 ==> a == n + i - 1);
        assert(layers[a].contains(x));
        assert(layers[n + j - 1].contains(y));
    }
    assert forall|key: Seq<u8>| resolved(#[trigger] layered(after, key)) == resolved(
        layered(layers, key),
    ) by {
        lemma_layered_add(seq![merged], later, key);
        lemma_layered_one(merged, key);
        lemma_layered_add(inputs, later, key);
        assert(inputs + later =~= layers);
        lemma_newest_is_layered(inputs, key);
        assert(latest(merged, key) == kept(newest(concatenated(inputs), key), true));
    }
    lemma_same_view(after, layers);
}

} // verus!
