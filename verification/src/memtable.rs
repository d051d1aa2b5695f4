//! The memtable: an in-memory, **sorted** table of the most recent writes.
//!
//! Each key maps to a full [`Entry`], so a delete is stored as a *tombstone*
//! rather than removing the key: the tombstone must remain to shadow any older
//! value of that key in a table on disk. Entries are kept in key order, which is
//! what lets a flush produce a sorted table in a single pass.
use crate::api::{entry_views, Entry, EntryView};
use crate::run::{
    is_run, lemma_entry_keys, lemma_latest_in_run, lemma_latest_none, lemma_run_insert,
    lemma_run_determined, lemma_run_map_empty, lemma_run_map_len, lemma_run_update, lemma_upserted,
    run_map, search, upserted,
};
use vstd::prelude::*;
use vstd::std_specs::iter::IteratorSpec;

verus! {

/// Bytes that an entry contributes to the size estimate.
pub open spec fn entry_bytes(e: EntryView) -> nat {
    e.key.len() + e.value.len()
}

/// Bytes that some entries contribute together.
pub open spec fn run_bytes(entries: Seq<EntryView>) -> nat
    decreases entries.len(),
{
    if entries.len() == 0 {
        0
    } else {
        run_bytes(entries.drop_last()) + entry_bytes(entries.last())
    }
}

pub proof fn lemma_run_bytes_insert(entries: Seq<EntryView>, at: int, e: EntryView)
    requires
        0 <= at <= entries.len(),
    ensures
        run_bytes(entries.insert(at, e)) == run_bytes(entries) + entry_bytes(e),
    decreases entries.len(),
{
    let new = entries.insert(at, e);
    if at == entries.len() {
        assert(new.drop_last() =~= entries);
    } else {
        assert(new.drop_last() =~= entries.drop_last().insert(at, e));
        assert(new.last() == entries.last());
        lemma_run_bytes_insert(entries.drop_last(), at, e);
    }
}

pub proof fn lemma_run_bytes_update(entries: Seq<EntryView>, at: int, e: EntryView)
    requires
        0 <= at < entries.len(),
    ensures
        run_bytes(entries.update(at, e)) == run_bytes(entries) - entry_bytes(entries[at])
            + entry_bytes(e),
        entry_bytes(entries[at]) <= run_bytes(entries),
    decreases entries.len(),
{
    let new = entries.update(at, e);
    if at == entries.len() - 1 {
        assert(new.drop_last() =~= entries.drop_last());
    } else {
        assert(new.drop_last() =~= entries.drop_last().update(at, e));
        lemma_run_bytes_update(entries.drop_last(), at, e);
    }
}

/// The size of some entries is the sum of the lengths of their keys and of their values:
/// every byte counts, however long a key or a value is.
pub proof fn law_size_is_the_sum_of_lengths(entries: Seq<EntryView>)
    ensures
        run_bytes(entries) == entries.fold_left(
            0int,
            |sum: int, e: EntryView| sum + e.key.len() + e.value.len(),
        ),
    decreases entries.len(),
{
    if entries.len() > 0 {
        law_size_is_the_sum_of_lengths(entries.drop_last());
    }
}

/// Putting an entry with a new key into a run makes it larger by the lengths of the key
/// and of the value, whatever they are.
pub proof fn law_size_grows_by_a_new_entry(run: Seq<EntryView>, e: EntryView)
    requires
        is_run(run),
        forall|i: int| 0 <= i < run.len() ==> (#[trigger] run[i]).key != e.key,
    ensures
        run_bytes(upserted(run, e)) == run_bytes(run) + e.key.len() + e.value.len(),
    decreases run.len(),
{
    let new = upserted(run, e);
    if run.len() == 0 || crate::order::key_lt(run.last().key, e.key) {
        assert(new.drop_last() =~= run);
    } else {
        let front = run.drop_last();
        assert(run[run.len() - 1].key != e.key);
        assert(crate::run::keys_of(front) =~= crate::run::keys_of(run).drop_last());
        assert forall|i: int| 0 <= i < front.len() implies (#[trigger] front[i]).key != e.key by {
            assert(front[i] == run[i]);
        }
        law_size_grows_by_a_new_entry(front, e);
        assert(new.drop_last() =~= upserted(front, e));
    }
}

/// Overwriting a key changes the size by the difference of the values' lengths: what the
/// old value took up no longer counts, and the key counts once.
pub proof fn law_size_changes_by_an_overwrite(run: Seq<EntryView>, i: int, e: EntryView)
    requires
        is_run(run),
        0 <= i < run.len(),
        run[i].key == e.key,
    ensures
        run_bytes(upserted(run, e)) == run_bytes(run) - run[i].value.len() + e.value.len(),
{
    lemma_run_update(run, i, e);
    lemma_upserted(run, e);
    lemma_run_determined(upserted(run, e), run.update(i, e));
    lemma_run_bytes_update(run, i, e);
}

pub struct MemTable {
    /// Ascending by key, one entry per key.
    entries: Vec<Entry>,
    /// Approximate live size in bytes, which decides when to flush.
    bytes: usize,
}

/// Bytes an entry contributes to the size estimate.
pub fn entry_size(entry: &Entry) -> (r: usize)
    requires
        entry_bytes(entry@) <= usize::MAX,
    ensures
        r == entry_bytes(entry@),
        r == entry.key@.len() + entry.value@.len(),
{
    entry.key.len() + entry.value.len()
}

impl View for MemTable {
    type V = Map<Seq<u8>, EntryView>;

    open spec fn view(&self) -> Map<Seq<u8>, EntryView> {
        run_map(self.run())
    }
}

impl Default for MemTable {
    fn default() -> (r: Self)
        ensures
            r.wf(),
            r.run() == Seq::<EntryView>::empty(),
            r@ == Map::<Seq<u8>, EntryView>::empty(),
    {
        MemTable::new()
    }
}

impl MemTable {
    /// The entries in ascending key order.
    pub closed spec fn run(&self) -> Seq<EntryView> {
        entry_views(self.entries@)
    }

    /// Entries are in key order, no key twice, and the size estimate is the sum
    /// over them.
    pub closed spec fn wf(&self) -> bool {
        &&& is_run(self.run())
        &&& self.bytes == run_bytes(self.run())
    }

    pub fn new() -> (r: Self)
        ensures
            r.wf(),
            r.run() == Seq::<EntryView>::empty(),
            r@ == Map::<Seq<u8>, EntryView>::empty(),
    {
        let r = MemTable { entries: Vec::new(), bytes: 0 };
        assert(r.run() =~= Seq::<EntryView>::empty());
        proof {
            lemma_run_map_empty();
        }
        r
    }

    /// What every well-formed table keeps to.
    pub proof fn lemma_wf(&self)
        requires
            self.wf(),
        ensures
            is_run(self.run()),
            run_bytes(self.run()) <= usize::MAX,
    {
    }

    /// Inserts `entry`, overwriting any existing version of the same key.
    pub fn put(&mut self, entry: Entry)
        requires
            old(self).wf(),
            run_bytes(old(self).run()) + entry_bytes(entry@) <= usize::MAX,
        ensures
            final(self).wf(),
            final(self).run() == upserted(old(self).run(), entry@),
            final(self)@ == old(self)@.insert(entry.key@, entry@),
            final(self).run().contains(entry@),
    {
        let added: usize = entry_size(&entry);
        let ghost e = entry@;
        let ghost before = self.run();
        proof {
            lemma_entry_keys(self.entries@);
        }
        match search(&self.entries, entry.key.as_slice()) {
            Ok(i) => {
                proof {
                    assert(before[i as int] == self.entries@[i as int]@);
                    lemma_run_update(before, i as int, e);
                    lemma_run_bytes_update(before, i as int, e);
                }
                let removed: usize = entry_size(&self.entries[i]);
                self.entries[i] = entry;
                self.bytes = self.bytes - removed;
                assert(self.run() =~= before.update(i as int, e));
            },
            Err(i) => {
                proof {
                    let keys = crate::run::keys_of(before);
                    assert forall|j: int| 0 <= j < i implies crate::order::key_lt(
                        (#[trigger] before[j]).key,
                        e.key,
                    ) by {
                        assert(keys[j] == before[j].key);
                    }
                    assert forall|j: int| i <= j < before.len() implies crate::order::key_lt(
                        e.key,
                        (#[trigger] before[j]).key,
                    ) by {
                        assert(keys[j] == before[j].key);
                    }
                    lemma_run_insert(before, i as int, e);
                    lemma_run_bytes_insert(before, i as int, e);
                }
                self.entries.insert(i, entry);
                assert(self.run() =~= before.insert(i as int, e));
            },
        }
        self.bytes = self.bytes + added;
        proof {
            lemma_upserted(before, e);
            lemma_run_determined(self.run(), upserted(before, e));
            crate::run::law_put_replaces_one_key(before, e, e);
        }
    }

    /// The stored entry for `key`, tombstone or not. Callers inspect `kind` to
    /// tell a live value from a deletion.
    pub fn get(&self, key: &[u8]) -> (r: Option<&Entry>)
        requires
            self.wf(),
        ensures
            match r {
                Some(e) => self@.dom().contains(key@) && self@[key@] == e@,
                None => !self@.dom().contains(key@),
            },
            r matches Some(e) ==> e.key@ == key@ && self.run().contains(e@),
            r is None ==> forall|i: int|
                0 <= i < self.run().len() ==> (#[trigger] self.run()[i]).key != key@,
    {
        proof {
            lemma_entry_keys(self.entries@);
        }
        match search(&self.entries, key) {
            Ok(i) => {
                proof {
                    assert(self.run()[i as int] == self.entries@[i as int]@);
                    lemma_latest_in_run(self.run(), i as int);
                }
                Some(&self.entries[i])
            },
            Err(i) => {
                proof {
                    let run = self.run();
                    let keys = crate::run::keys_of(run);
                    assert forall|j: int| 0 <= j < run.len() implies (#[trigger] run[j]).key
                        != key@ by {
                        assert(keys[j] == run[j].key);
                        crate::order::lemma_key_lt_irreflexive(key@);
                    }
                    lemma_latest_none(run, key@);
                }
                None
            },
        }
    }

    pub fn is_empty(&self) -> (r: bool)
        requires
            self.wf(),
        ensures
            r == (self@.len() == 0),
            r == (self.run().len() == 0),
    {
        proof {
            lemma_run_map_len(self.run());
        }
        self.entries.is_empty()
    }

    pub fn len(&self) -> (r: usize)
        requires
            self.wf(),
        ensures
            r == self@.len(),
            r == self.run().len(),
    {
        proof {
            lemma_run_map_len(self.run());
        }
        self.entries.len()
    }

    /// Current approximate size in bytes.
    pub fn size_bytes(&self) -> (r: usize)
        requires
            self.wf(),
        ensures
            r == run_bytes(self.run()),
            r == self.run().fold_left(
                0int,
                |sum: int, e: EntryView| sum + e.key.len() + e.value.len(),
            ),
    {
        proof {
            law_size_is_the_sum_of_lengths(self.run());
        }
        self.bytes
    }

    /// Entries in ascending key order. A flush writes these straight to a table.
    pub fn iter(&self) -> (r: std::slice::Iter<'_, Entry>)
        ensures
            entry_views(r.remaining().unref()) == self.run(),
    {
        self.entries.iter()
    }

    /// A copy of the entries, in ascending key order.
    pub fn to_entries(&self) -> (r: Vec<Entry>)
        ensures
            entry_views(r@) == self.run(),
    {
        let mut copies: Vec<Entry> = Vec::new();
        let total: usize = self.entries.len();
        let mut i: usize = 0;
        while i < total
            invariant
                i <= total,
                total == self.entries@.len(),
                copies@.len() == i,
                forall|j: int| 0 <= j < i ==> (#[trigger] copies@[j])@ == self.entries@[j]@,
            decreases total - i,
        {
            copies.push(self.entries[i].clone());
            i = i + 1;
        }
        assert(entry_views(copies@) =~= self.run());
        copies
    }
}

} // verus!
