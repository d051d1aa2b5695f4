//! Runs: sequences of entries, and vectors kept in key order.
use crate::api::{entry_views, Entry, EntryView};
use crate::order::{
    ascending, key_lt, key_order, lemma_key_lt_asymmetric, lemma_key_lt_irreflexive,
    lemma_key_lt_total, lemma_key_lt_transitive, KeyOrder,
};
use vstd::prelude::*;

verus! {

/// The keys of some entries, in their order.
pub open spec fn keys_of(entries: Seq<EntryView>) -> Seq<Seq<u8>> {
    entries.map_values(|e: EntryView| e.key)
}

/// Strictly ascending keys: in order, and no key twice.
pub open spec fn is_run(entries: Seq<EntryView>) -> bool {
    ascending(keys_of(entries))
}

/// The last entry with this key.
pub open spec fn latest(entries: Seq<EntryView>, key: Seq<u8>) -> Option<EntryView>
    decreases entries.len(),
{
    if entries.len() == 0 {
        None
    } else if entries.last().key == key {
        Some(entries.last())
    } else {
        latest(entries.drop_last(), key)
    }
}

/// What is known of each key once the entries were applied one by one.
pub open spec fn run_map(entries: Seq<EntryView>) -> Map<Seq<u8>, EntryView> {
    Map::new(
        |key: Seq<u8>| latest(entries, key) is Some,
        |key: Seq<u8>| latest(entries, key)->Some_0,
    )
}

pub proof fn lemma_latest_is_there(entries: Seq<EntryView>, key: Seq<u8>)
    ensures
        latest(entries, key) matches Some(e) ==> e.key == key && exists|i: int|
            0 <= i < entries.len() && #[trigger] entries[i] == e,
        latest(entries, key) is None ==> forall|i: int|
            0 <= i < entries.len() ==> (#[trigger] entries[i]).key != key,
    decreases entries.len(),
{
    if entries.len() > 0 && entries.last().key != key {
        let front = entries.drop_last();
        lemma_latest_is_there(front, key);
        if latest(entries, key) is Some {
            let e = latest(entries, key)->Some_0;
            let i = choose|i: int| 0 <= i < front.len() && #[trigger] front[i] == e;
            assert(entries[i] == e);
        } else {
            assert forall|i: int| 0 <= i < entries.len() implies (#[trigger] entries[i]).key
                != key by {
                if i < front.len() {
                    assert(front[i].key != key);
                }
            }
        }
    } else if entries.len() > 0 {
        assert(entries[entries.len() - 1] == entries.last());
    }
}

/// The latest entry with a key is one of the entries, has that very key, and no entry
/// behind it has; there is none where no entry has the key.
pub proof fn law_latest_is_the_last(entries: Seq<EntryView>, key: Seq<u8>, i: int)
    ensures
        latest(entries, key) is None <==> forall|j: int|
            0 <= j < entries.len() ==> (#[trigger] entries[j]).key != key,
        0 <= i < entries.len() && entries[i].key == key && (forall|j: int|
            i < j < entries.len() ==> (#[trigger] entries[j]).key != key) ==> latest(entries, key)
            == Some(entries[i]),
    decreases entries.len(),
{
    lemma_latest_is_there(entries, key);
    if entries.len() > 0 && i < entries.len() - 1 {
        let front = entries.drop_last();
        law_latest_is_the_last(front, key, i);
        if 0 <= i && entries[i].key == key && (forall|j: int|
            i < j < entries.len() ==> (#[trigger] entries[j]).key != key) {
            assert(entries[entries.len() - 1].key != key);
            assert forall|j: int| i < j < front.len() implies (#[trigger] front[j]).key
                != key by {
                assert(front[j] == entries[j]);
            }
        }
    }
}

/// A run's keys ascend, byte by byte, so that no two entries of it have one key.
pub proof fn law_run_keys_ascend(entries: Seq<EntryView>)
    ensures
        is_run(entries) <==> forall|i: int, j: int|
            0 <= i < j < entries.len() ==> key_lt(
                (#[trigger] entries[i]).key,
                (#[trigger] entries[j]).key,
            ),
{
    let keys = keys_of(entries);
    assert(keys.len() == entries.len());
    assert forall|i: int| 0 <= i < entries.len() implies #[trigger] keys[i] == entries[i].key by {
    }
    if is_run(entries) {
        assert forall|i: int, j: int| 0 <= i < j < entries.len() implies key_lt(
            (#[trigger] entries[i]).key,
            (#[trigger] entries[j]).key,
        ) by {
            assert(key_lt(keys[i], keys[j]));
        }
    }
    if forall|i: int, j: int|
        0 <= i < j < entries.len() ==> key_lt(
            (#[trigger] entries[i]).key,
            (#[trigger] entries[j]).key,
        ) {
        assert forall|i: int, j: int| 0 <= i < j < keys.len() implies key_lt(
            #[trigger] keys[i],
            #[trigger] keys[j],
        ) by {
            assert(key_lt(entries[i].key, entries[j].key));
        }
    }
}

/// In a run, the entry with a key is the only one.
pub proof fn lemma_latest_in_run(entries: Seq<EntryView>, i: int)
    requires
        is_run(entries),
        0 <= i < entries.len(),
    ensures
        latest(entries, entries[i].key) == Some(entries[i]),
{
    let key = entries[i].key;
    lemma_latest_is_there(entries, key);
    let e = latest(entries, key)->Some_0;
    let j = choose|j: int| 0 <= j < entries.len() && #[trigger] entries[j] == e;
    if j != i {
        assert(keys_of(entries)[i] == keys_of(entries)[j]);
        lemma_key_lt_irreflexive(key);
    }
}

/// In a run, keys stand in the order of their places.
pub proof fn lemma_run_order(entries: Seq<EntryView>, i: int, j: int)
    requires
        is_run(entries),
        0 <= i < j < entries.len(),
    ensures
        key_lt(entries[i].key, entries[j].key),
{
    assert(keys_of(entries)[i] == entries[i].key);
    assert(keys_of(entries)[j] == entries[j].key);
}

/// A key that no entry has is not known.
pub proof fn lemma_latest_none(entries: Seq<EntryView>, key: Seq<u8>)
    requires
        forall|i: int| 0 <= i < entries.len() ==> (#[trigger] entries[i]).key != key,
    ensures
        latest(entries, key) is None,
{
    lemma_latest_is_there(entries, key);
}

/// Applying one more entry.
pub proof fn lemma_run_map_push(entries: Seq<EntryView>, e: EntryView)
    ensures
        run_map(entries.push(e)) == run_map(entries).insert(e.key, e),
{
    assert(entries.push(e).drop_last() =~= entries);
    assert(run_map(entries.push(e)) =~= run_map(entries).insert(e.key, e));
}

pub proof fn lemma_run_map_empty()
    ensures
        run_map(Seq::empty()) == Map::<Seq<u8>, EntryView>::empty(),
{
    assert(run_map(Seq::empty()) =~= Map::<Seq<u8>, EntryView>::empty());
}

/// A run maps as many keys as it has entries.
pub proof fn lemma_run_map_len(entries: Seq<EntryView>)
    requires
        is_run(entries),
    ensures
        run_map(entries).dom().finite(),
        run_map(entries).len() == entries.len(),
    decreases entries.len(),
{
    if entries.len() == 0 {
        assert(entries =~= Seq::empty());
        lemma_run_map_empty();
    } else {
        let front = entries.drop_last();
        let e = entries.last();
        assert(keys_of(front) =~= keys_of(entries).drop_last());
        lemma_run_map_len(front);
        assert(entries =~= front.push(e));
        lemma_run_map_push(front, e);
        lemma_latest_is_there(front, e.key);
        if latest(front, e.key) is Some {
            let i = choose|i: int|
                0 <= i < front.len() && #[trigger] front[i] == latest(front, e.key)->Some_0;
            lemma_run_order(entries, i, entries.len() - 1);
            lemma_key_lt_irreflexive(e.key);
        }
        assert(!run_map(front).dom().contains(e.key));
    }
}

/// Two runs that map keys alike are the same.
pub proof fn lemma_run_determined(a: Seq<EntryView>, b: Seq<EntryView>)
    requires
        is_run(a),
        is_run(b),
        run_map(a) == run_map(b),
    ensures
        a == b,
    decreases a.len(),
{
    lemma_run_map_len(a);
    lemma_run_map_len(b);
    if a.len() == 0 {
        assert(a =~= b);
    } else {
        let x = a.last();
        let y = b.last();
        lemma_latest_in_run(a, a.len() - 1);
        lemma_latest_in_run(b, b.len() - 1);
        assert(run_map(a).dom().contains(x.key));
        assert(run_map(b).dom().contains(y.key));
        assert(run_map(b).dom().contains(x.key));
        assert(run_map(a).dom().contains(y.key));
        lemma_latest_is_there(b, x.key);
        lemma_latest_is_there(a, y.key);
        let i = choose|i: int| 0 <= i < b.len() && #[trigger] b[i] == latest(b, x.key)->Some_0;
        let j = choose|j: int| 0 <= j < a.len() && #[trigger] a[j] == latest(a, y.key)->Some_0;
        if i < b.len() - 1 && j < a.len() - 1 {
            lemma_run_order(b, i, b.len() - 1);
            lemma_run_order(a, j, a.len() - 1);
            lemma_key_lt_asymmetric(x.key, y.key);
        }
        assert(run_map(a)[x.key] == x);
        assert(run_map(b)[y.key] == y);
        assert(x.key == y.key);
        assert(x == y);
        let fa = a.drop_last();
        let fb = b.drop_last();
        assert(keys_of(fa) =~= keys_of(a).drop_last());
        assert(keys_of(fb) =~= keys_of(b).drop_last());
        assert forall|k: Seq<u8>| latest(fa, k) == latest(fb, k) by {
            if k == x.key {
                lemma_not_in_front(a);
                lemma_not_in_front(b);
            } else {
                assert(latest(a, k) == latest(fa, k));
                assert(latest(b, k) == latest(fb, k));
                assert(run_map(a).dom().contains(k) == run_map(b).dom().contains(k));
                if latest(a, k) is Some {
                    assert(run_map(a)[k] == run_map(b)[k]);
                }
            }
        }
        assert(run_map(fa) =~= run_map(fb));
        lemma_run_determined(fa, fb);
        assert(a =~= fa.push(x));
        assert(b =~= fb.push(x));
    }
}

proof fn lemma_not_in_front(a: Seq<EntryView>)
    requires
        is_run(a),
        a.len() > 0,
    ensures
        latest(a.drop_last(), a.last().key) is None,
{
    let front = a.drop_last();
    assert forall|i: int| 0 <= i < front.len() implies (#[trigger] front[i]).key
        != a.last().key by {
        lemma_run_order(a, i, a.len() - 1);
        lemma_key_lt_irreflexive(a.last().key);
    }
    lemma_latest_none(front, a.last().key);
}

/// Items that a sorted vector finds by key.
pub trait Keyed {
    spec fn key_view(&self) -> Seq<u8>;

    fn key_bytes(&self) -> (r: &[u8])
        ensures
            r@ == self.key_view(),
    ;
}

impl Keyed for Entry {
    open spec fn key_view(&self) -> Seq<u8> {
        self.key@
    }

    fn key_bytes(&self) -> (r: &[u8]) {
        self.key.as_slice()
    }
}

impl Keyed for (Vec<u8>, u64) {
    open spec fn key_view(&self) -> Seq<u8> {
        self.0@
    }

    fn key_bytes(&self) -> (r: &[u8]) {
        self.0.as_slice()
    }
}

impl Keyed for (Vec<u8>, Vec<u8>) {
    open spec fn key_view(&self) -> Seq<u8> {
        self.0@
    }

    fn key_bytes(&self) -> (r: &[u8]) {
        self.0.as_slice()
    }
}

/// The keys of some items, in their order.
pub open spec fn item_keys<T: Keyed>(items: Seq<T>) -> Seq<Seq<u8>> {
    items.map_values(|item: T| item.key_view())
}

/// `r` tells where `key` is among ascending `keys`, or where it belongs.
pub open spec fn search_result(keys: Seq<Seq<u8>>, key: Seq<u8>, r: Result<usize, usize>) -> bool {
    match r {
        Ok(i) => i < keys.len() && keys[i as int] == key,
        Err(i) => {
            &&& i <= keys.len()
            &&& forall|j: int| 0 <= j < i ==> key_lt(#[trigger] keys[j], key)
            &&& forall|j: int| i <= j < keys.len() ==> key_lt(key, #[trigger] keys[j])
        },
    }
}

/// Binary search: `Ok` with the place of the item that has this key, or `Err`
/// with the place where one would keep the order. Among items that are out of
/// order the place means nothing.
pub fn search<T: Keyed>(items: &Vec<T>, key: &[u8]) -> (r: Result<usize, usize>)
    ensures
        ascending(item_keys(items@)) ==> search_result(item_keys(items@), key@, r),
        r matches Ok(i) ==> i < items@.len() && items@[i as int].key_view() == key@,
        r matches Err(i) ==> i <= items@.len(),
        r is Err && ascending(item_keys(items@)) ==> forall|j: int|
            0 <= j < items@.len() ==> (#[trigger] items@[j]).key_view() != key@,
{
    let ghost keys = item_keys(items@);
    let mut low: usize = 0;
    let mut high: usize = items.len();
    while low < high
        invariant
            low <= high <= items@.len(),
            keys == item_keys(items@),
            ascending(keys) ==> forall|j: int| 0 <= j < low ==> key_lt(#[trigger] keys[j], key@),
            ascending(keys) ==> forall|j: int|
                high <= j < keys.len() ==> key_lt(key@, #[trigger] keys[j]),
        decreases high - low,
    {
        let mid: usize = low + (high - low) / 2;
        assert(keys[mid as int] == items@[mid as int].key_view());
        match key_order(items[mid].key_bytes(), key) {
            KeyOrder::Equal => {
                return Ok(mid);
            },
            KeyOrder::Less => {
                proof {
                    assert forall|j: int| ascending(keys) && 0 <= j < mid + 1 implies key_lt(
                        #[trigger] keys[j],
                        key@,
                    ) by {
                        if j < mid {
                            lemma_key_lt_transitive(keys[j], keys[mid as int], key@);
                        }
                    }
                }
                low = mid + 1;
            },
            KeyOrder::Greater => {
                proof {
                    assert forall|j: int| ascending(keys) && mid <= j < keys.len() implies key_lt(
                        key@,
                        #[trigger] keys[j],
                    ) by {
                        if mid < j {
                            lemma_key_lt_transitive(key@, keys[mid as int], keys[j]);
                        }
                    }
                }
                high = mid;
            },
        }
    }
    proof {
        if ascending(keys) {
            assert forall|j: int| 0 <= j < items@.len() implies (#[trigger] items@[j]).key_view()
                != key@ by {
                assert(keys[j] == items@[j].key_view());
                lemma_key_lt_irreflexive(key@);
            }
        }
    }
    Err(low)
}

/// The keys stay ascending when a new one goes where it belongs.
pub proof fn lemma_insert_ascending(keys: Seq<Seq<u8>>, at: int, key: Seq<u8>)
    requires
        ascending(keys),
        0 <= at <= keys.len(),
        forall|j: int| 0 <= j < at ==> key_lt(#[trigger] keys[j], key),
        forall|j: int| at <= j < keys.len() ==> key_lt(key, #[trigger] keys[j]),
    ensures
        ascending(keys.insert(at, key)),
{
    let new = keys.insert(at, key);
    assert forall|i: int, j: int| 0 <= i < j < new.len() implies key_lt(
        #[trigger] new[i],
        #[trigger] new[j],
    ) by {
        if i < at {
            assert(new[i] == keys[i]);
        } else if i > at {
            assert(new[i] == keys[i - 1]);
        }
        if j < at {
            assert(new[j] == keys[j]);
        } else if j > at {
            assert(new[j] == keys[j - 1]);
        }
    }
}

/// A new entry in its place.
pub proof fn lemma_run_insert(entries: Seq<EntryView>, at: int, e: EntryView)
    requires
        is_run(entries),
        0 <= at <= entries.len(),
        forall|j: int| 0 <= j < at ==> key_lt((#[trigger] entries[j]).key, e.key),
        forall|j: int| at <= j < entries.len() ==> key_lt(e.key, (#[trigger] entries[j]).key),
    ensures
        is_run(entries.insert(at, e)),
        run_map(entries.insert(at, e)) == run_map(entries).insert(e.key, e),
        !run_map(entries).dom().contains(e.key),
{
    let new = entries.insert(at, e);
    assert(keys_of(new) =~= keys_of(entries).insert(at, e.key));
    lemma_insert_ascending(keys_of(entries), at, e.key);
    assert forall|j: int| 0 <= j < entries.len() implies (#[trigger] entries[j]).key != e.key by {
        lemma_key_lt_irreflexive(e.key);
    }
    lemma_latest_none(entries, e.key);
    assert(new[at] == e);
    assert forall|i: int| 0 <= i < new.len() implies #[trigger] new[i] == e || entries.contains(
        new[i],
    ) by {
        if i < at {
            assert(new[i] == entries[i]);
        } else if i > at {
            assert(new[i] == entries[i - 1]);
        }
    }
    assert forall|i: int| 0 <= i < entries.len() implies new.contains(#[trigger] entries[i]) by {
        if i < at {
            assert(new[i] == entries[i]);
        } else {
            assert(new[i + 1] == entries[i]);
        }
    }
    lemma_run_replaced(entries, new, e);
}

/// An entry in the place of the one with the same key.
pub proof fn lemma_run_update(entries: Seq<EntryView>, at: int, e: EntryView)
    requires
        is_run(entries),
        0 <= at < entries.len(),
        entries[at].key == e.key,
    ensures
        is_run(entries.update(at, e)),
        run_map(entries.update(at, e)) == run_map(entries).insert(e.key, e),
{
    let new = entries.update(at, e);
    assert(keys_of(new) =~= keys_of(entries));
    assert(new[at] == e);
    assert forall|i: int| 0 <= i < new.len() implies #[trigger] new[i] == e || entries.contains(
        new[i],
    ) by {
        if i != at {
            assert(new[i] == entries[i]);
        }
    }
    assert forall|i: int| 0 <= i < entries.len() implies (#[trigger] entries[i]).key == e.key
        || new.contains(entries[i]) by {
        if i != at {
            assert(new[i] == entries[i]);
        }
    }
    lemma_run_replaced(entries, new, e);
}

proof fn lemma_run_replaced(entries: Seq<EntryView>, new: Seq<EntryView>, e: EntryView)
    requires
        is_run(entries),
        is_run(new),
        exists|i: int| 0 <= i < new.len() && #[trigger] new[i] == e,
        forall|i: int| 0 <= i < new.len() ==> #[trigger] new[i] == e || entries.contains(new[i]),
        forall|i: int|
            0 <= i < entries.len() ==> (#[trigger] entries[i]).key == e.key || new.contains(
                entries[i],
            ),
    ensures
        run_map(new) == run_map(entries).insert(e.key, e),
{
    let i = choose|i: int| 0 <= i < new.len() && #[trigger] new[i] == e;
    lemma_latest_in_run(new, i);
    assert forall|k: Seq<u8>| k != e.key implies latest(new, k) == latest(entries, k) by {
        lemma_latest_is_there(new, k);
        lemma_latest_is_there(entries, k);
        if latest(new, k) is Some {
            let x = latest(new, k)->Some_0;
            let j = choose|j: int| 0 <= j < new.len() && #[trigger] new[j] == x;
            assert(entries.contains(new[j]));
            let h = choose|h: int| 0 <= h < entries.len() && entries[h] == x;
            lemma_latest_in_run(entries, h);
        } else if latest(entries, k) is Some {
            let x = latest(entries, k)->Some_0;
            let j = choose|j: int| 0 <= j < entries.len() && #[trigger] entries[j] == x;
            assert(new.contains(entries[j]));
            let h = choose|h: int| 0 <= h < new.len() && new[h] == x;
            assert(new[h].key == k);
        }
    }
    assert(run_map(new) =~= run_map(entries).insert(e.key, e));
}

pub proof fn lemma_entry_keys(entries: Seq<Entry>)
    ensures
        item_keys(entries) == keys_of(entry_views(entries)),
{
    assert(item_keys(entries) =~= keys_of(entry_views(entries)));
}

/// The run with `e` in the place of any other version of its key.
pub open spec fn upserted(entries: Seq<EntryView>, e: EntryView) -> Seq<EntryView>
    decreases entries.len(),
{
    if entries.len() == 0 || key_lt(entries.last().key, e.key) {
        entries.push(e)
    } else if entries.last().key == e.key {
        entries.drop_last().push(e)
    } else {
        upserted(entries.drop_last(), e).push(entries.last())
    }
}

/// The run that comes of putting entries into it one by one.
pub open spec fn applied(run: Seq<EntryView>, entries: Seq<EntryView>) -> Seq<EntryView>
    decreases entries.len(),
{
    if entries.len() == 0 {
        run
    } else {
        upserted(applied(run, entries.drop_last()), entries.last())
    }
}

/// Putting an entry into a run leaves a run, which maps the entry's key to the
/// entry and every other key as before.
pub proof fn lemma_upserted(entries: Seq<EntryView>, e: EntryView)
    requires
        is_run(entries),
    ensures
        is_run(upserted(entries, e)),
        run_map(upserted(entries, e)) == run_map(entries).insert(e.key, e),
    decreases entries.len(),
{
    let n = entries.len() as int;
    if n == 0 || key_lt(entries.last().key, e.key) {
        assert forall|j: int| 0 <= j < n implies key_lt((#[trigger] entries[j]).key, e.key) by {
            if j < n - 1 {
                lemma_run_order(entries, j, n - 1);
                lemma_key_lt_transitive(entries[j].key, entries[n - 1].key, e.key);
            }
        }
        lemma_run_insert(entries, n, e);
        assert(entries.insert(n, e) =~= entries.push(e));
    } else if entries.last().key == e.key {
        lemma_run_update(entries, n - 1, e);
        assert(entries.update(n - 1, e) =~= entries.drop_last().push(e));
    } else {
        let front = entries.drop_last();
        let last = entries.last();
        assert(keys_of(front) =~= keys_of(entries).drop_last());
        lemma_upserted(front, e);
        let new = upserted(front, e);
        lemma_key_lt_total(last.key, e.key);
        assert forall|j: int| 0 <= j < new.len() implies key_lt(
            (#[trigger] new[j]).key,
            last.key,
        ) by {
            lemma_latest_in_run(new, j);
            let k = new[j].key;
            assert(run_map(new).dom().contains(k));
            if k != e.key {
                assert(run_map(front).dom().contains(k));
                lemma_latest_is_there(front, k);
                let i = choose|i: int|
                    0 <= i < front.len() && #[trigger] front[i] == latest(front, k)->Some_0;
                lemma_run_order(entries, i, n - 1);
            }
        }
        lemma_run_insert(new, new.len() as int, last);
        assert(new.insert(new.len() as int, last) =~= new.push(last));
        assert(entries =~= front.push(last));
        lemma_run_map_push(front, last);
        lemma_key_lt_irreflexive(e.key);
        assert(run_map(front).insert(e.key, e).insert(last.key, last) =~= run_map(front).insert(
            last.key,
            last,
        ).insert(e.key, e));
    }
}

/// What is known of a key once the map of what is known took in an entry.
pub proof fn lemma_read_map(
    before: Seq<EntryView>,
    after: Seq<EntryView>,
    e: EntryView,
    key: Seq<u8>,
)
    requires
        run_map(after) == run_map(before).insert(e.key, e),
    ensures
        latest(after, key) == if key == e.key {
            Some(e)
        } else {
            latest(before, key)
        },
{
    assert(run_map(after).dom().contains(key) == (latest(after, key) is Some));
    assert(run_map(before).dom().contains(key) == (latest(before, key) is Some));
    if latest(after, key) is Some {
        assert(run_map(after)[key] == latest(after, key)->Some_0);
    }
    if latest(before, key) is Some {
        assert(run_map(before)[key] == latest(before, key)->Some_0);
    }
}

/// What a run knows of a key after an entry was put into it.
pub proof fn lemma_upserted_latest(entries: Seq<EntryView>, e: EntryView, key: Seq<u8>)
    requires
        is_run(entries),
    ensures
        latest(upserted(entries, e), key) == if key == e.key {
            Some(e)
        } else {
            latest(entries, key)
        },
{
    lemma_upserted(entries, e);
    lemma_read_map(entries, upserted(entries, e), e, key);
}

pub proof fn lemma_applied(run: Seq<EntryView>, entries: Seq<EntryView>)
    requires
        is_run(run),
    ensures
        is_run(applied(run, entries)),
    decreases entries.len(),
{
    if entries.len() > 0 {
        lemma_applied(run, entries.drop_last());
        lemma_upserted(applied(run, entries.drop_last()), entries.last());
    }
}

/// What a run knows of a key after entries were put into it one by one: the last of
/// them with that key.
pub proof fn lemma_applied_latest(run: Seq<EntryView>, entries: Seq<EntryView>, key: Seq<u8>)
    requires
        is_run(run),
    ensures
        latest(applied(run, entries), key) == match latest(entries, key) {
            Some(e) => Some(e),
            None => latest(run, key),
        },
    decreases entries.len(),
{
    if entries.len() > 0 {
        let front = entries.drop_last();
        lemma_applied(run, front);
        lemma_applied_latest(run, front, key);
        lemma_upserted_latest(applied(run, front), entries.last(), key);
    }
}

/// The last entry with a key, among some entries and others behind them.
pub proof fn lemma_latest_add(a: Seq<EntryView>, b: Seq<EntryView>, key: Seq<u8>)
    ensures
        latest(a + b, key) == match latest(b, key) {
            Some(e) => Some(e),
            None => latest(a, key),
        },
    decreases b.len(),
{
    if b.len() == 0 {
        assert(a + b =~= a);
    } else {
        assert((a + b).drop_last() =~= a + b.drop_last());
        lemma_latest_add(a, b.drop_last(), key);
    }
}

/// An entry that is put into a run is in it afterwards, whatever its key and its value;
/// every entry with another key stays, one with the same key does not, and nothing else
/// comes in.
pub proof fn law_put_replaces_one_key(run: Seq<EntryView>, e: EntryView, x: EntryView)
    requires
        is_run(run),
    ensures
        upserted(run, e).contains(e),
        x.key != e.key ==> (upserted(run, e).contains(x) <==> run.contains(x)),
        x.key == e.key ==> (upserted(run, e).contains(x) <==> x == e),
{
    let new = upserted(run, e);
    lemma_upserted(run, e);
    lemma_upserted_latest(run, e, e.key);
    lemma_upserted_latest(run, e, x.key);
    lemma_latest_is_there(new, e.key);
    lemma_latest_is_there(new, x.key);
    lemma_latest_is_there(run, x.key);
    if new.contains(x) {
        let i = choose|i: int| 0 <= i < new.len() && new[i] == x;
        lemma_latest_in_run(new, i);
    }
    if run.contains(x) {
        let i = choose|i: int| 0 <= i < run.len() && run[i] == x;
        lemma_latest_in_run(run, i);
    }
}

/// Putting an entry into a run makes it longer by one, unless the key was there.
pub proof fn law_put_length(run: Seq<EntryView>, e: EntryView)
    requires
        is_run(run),
    ensures
        upserted(run, e).len() == if exists|i: int|
            0 <= i < run.len() && (#[trigger] run[i]).key == e.key {
            run.len()
        } else {
            run.len() + 1
        },
{
    lemma_upserted(run, e);
    lemma_run_map_len(run);
    lemma_run_map_len(upserted(run, e));
    lemma_latest_is_there(run, e.key);
    assert(run_map(run).dom().contains(e.key) == (latest(run, e.key) is Some));
}

/// Putting entries into a run one by one leaves of each key the last that was put, and
/// what the run held of the keys that none of them has.
pub proof fn law_last_put_stays(run: Seq<EntryView>, entries: Seq<EntryView>, e: EntryView)
    requires
        is_run(run),
    ensures
        is_run(applied(run, entries)),
        applied(run, Seq::empty()) == run,
        latest(applied(run, entries.push(e)), e.key) == Some(e),
        forall|key: Seq<u8>|
            key != e.key ==> #[trigger] latest(applied(run, entries.push(e)), key) == latest(
                applied(run, entries),
                key,
            ),
{
    let before = applied(run, entries);
    lemma_applied(run, entries);
    assert(entries.push(e).drop_last() =~= entries);
    assert(applied(run, entries.push(e)) == upserted(before, e));
    assert forall|key: Seq<u8>| #[trigger]
        latest(applied(run, entries.push(e)), key) == if key == e.key {
        Some(e)
    } else {
        latest(before, key)
    } by {
        lemma_upserted_latest(before, e, key);
    }
}

/// Moves the items over in the opposite order.
pub fn reversed<T>(from: Vec<T>) -> (r: Vec<T>)
    ensures
        r@.len() == from@.len(),
        forall|i: int| 0 <= i < r@.len() ==> #[trigger] r@[i] == from@[from@.len() - 1 - i],
{
    let mut rest = from;
    let mut r: Vec<T> = Vec::new();
    while rest.len() > 0
        invariant
            rest@.len() + r@.len() == from@.len(),
            rest@ == from@.take(rest@.len() as int),
            forall|i: int| 0 <= i < r@.len() ==> #[trigger] r@[i] == from@[from@.len() - 1 - i],
        decreases rest@.len(),
    {
        let ghost n = rest@.len() as int;
        assert(rest@[n - 1] == from@[n - 1]);
        if let Some(item) = rest.pop() {
            r.push(item);
        }
        assert(rest@ =~= from@.take(n - 1));
    }
    r
}

} // verus!
