//! The storage interface, and an in-memory backend behind it.
//!
//! With a single mutable map there is no older layer to shadow, so the in-memory
//! backend's `delete` just removes the key: a reader cannot tell "deleted" from
//! "never set", and need not.
use crate::api::{clone_bytes, option_bytes, Key, Operation, Request, Response, Value};
use crate::order::{ascending, key_lt, lemma_key_lt_irreflexive};
use crate::run::{item_keys, lemma_insert_ascending, search};
use std::io;
use vstd::prelude::*;

verus! {

/// The error type of fallible backends, carried but never looked into.
#[verifier::external_type_specification]
#[verifier::external_body]
pub struct ExIoError(io::Error);

/// What a store that holds `contents` has under `key`.
pub open spec fn stored(contents: Map<Seq<u8>, Seq<u8>>, key: Seq<u8>) -> Option<Seq<u8>> {
    if contents.dom().contains(key) {
        Some(contents[key])
    } else {
        None
    }
}

/// What an operation makes of a store's contents.
pub open spec fn executed(contents: Map<Seq<u8>, Seq<u8>>, op: Operation) -> Map<Seq<u8>, Seq<u8>> {
    match op {
        Operation::Get(_) => contents,
        Operation::Put(key, value) => contents.insert(key, value),
        Operation::Delete(key) => contents.remove(key),
    }
}

/// `response` answers `op`, put to a store with these contents.
pub open spec fn answers(
    contents: Map<Seq<u8>, Seq<u8>>,
    op: Operation,
    response: Response,
) -> bool {
    match op {
        Operation::Get(key) => response matches Response::Value(value) && option_bytes(value)
            == stored(contents, key),
        _ => response is Done,
    }
}

/// The operations every storage backend must support.
///
/// They return [`io::Result`] because a durable store touches the disk: mutations
/// must persist before reporting success, and a `get` may have to read tables.
pub trait Store: Sized {
    /// The live keys and their values.
    open spec fn contents(&self) -> Map<Seq<u8>, Seq<u8>> {
        Map::empty()
    }

    /// The backend's own invariant. It never holds of a backend that does not state
    /// what its contents are, so nothing is claimed of one.
    open spec fn valid(&self) -> bool {
        false
    }

    /// Whether `op` can fail with `error` and leave the backend as `after`. Of an
    /// operation for which this never holds, success is owed.
    open spec fn may_fail(&self, op: Operation, error: io::Error, after: &Self) -> bool {
        true
    }

    /// The value of `key`, or `None` if it was never set or has been deleted.
    fn get(&self, key: &[u8]) -> (r: io::Result<Option<Value>>)
        requires
            self.valid(),
        ensures
            r matches Ok(value) ==> option_bytes(value) == stored(self.contents(), key@),
            r matches Ok(Some(value)) ==> self.contents().dom().contains(key@)
                && self.contents()[key@] == value@,
            r matches Ok(None) ==> !self.contents().dom().contains(key@),
            r matches Err(error) ==> self.may_fail(Operation::Get(key@), error, self),
    ;

    /// Inserts or overwrites `key` with `value`.
    fn set(&mut self, key: Key, value: Value) -> (r: io::Result<()>)
        requires
            old(self).valid(),
        ensures
            final(self).valid(),
            r is Ok ==> final(self).contents() == old(self).contents().insert(key@, value@),
            r matches Err(error) ==> old(self).may_fail(
                Operation::Put(key@, value@),
                error,
                final(self),
            ),
    ;

    /// Removes `key`. A subsequent `get` returns `None`.
    fn delete(&mut self, key: &[u8]) -> (r: io::Result<()>)
        requires
            old(self).valid(),
        ensures
            final(self).valid(),
            r is Ok ==> final(self).contents() == old(self).contents().remove(key@),
            r matches Err(error) ==> old(self).may_fail(
                Operation::Delete(key@),
                error,
                final(self),
            ),
    ;

    /// Dispatch over the command surface: hands the request to the operation it
    /// names, and hands on what comes back, a failure included. A `Get` changes
    /// nothing.
    fn execute(&mut self, req: Request) -> (r: io::Result<Response>)
        requires
            old(self).valid(),
        ensures
            final(self).valid(),
            r matches Ok(response) ==> {
                &&& answers(old(self).contents(), req@, response)
                &&& final(self).contents() == executed(old(self).contents(), req@)
            },
            req matches Request::Get(key) ==> r is Ok ==> {
                &&& r->Ok_0 matches Response::Value(value)
                &&& value matches Some(v) ==> old(self).contents().dom().contains(key@) && old(
                    self,
                ).contents()[key@] == v@
                &&& value is None ==> !old(self).contents().dom().contains(key@)
            },
            req matches Request::Put(key, value) ==> r is Ok ==> {
                &&& r->Ok_0 is Done
                &&& final(self).contents() == old(self).contents().insert(key@, value@)
            },
            req matches Request::Delete(key) ==> r is Ok ==> {
                &&& r->Ok_0 is Done
                &&& final(self).contents() == old(self).contents().remove(key@)
            },
            r matches Err(error) ==> old(self).may_fail(req@, error, final(self)),
            req is Get ==> *final(self) == *old(self),
    {
        match req {
            Request::Get(key) => match self.get(key.as_slice()) {
                Ok(value) => Ok(Response::Value(value)),
                Err(error) => Err(error),
            },
            Request::Put(key, value) => match self.set(key, value) {
                Ok(()) => Ok(Response::Done),
                Err(error) => Err(error),
            },
            Request::Delete(key) => match self.delete(key.as_slice()) {
                Ok(()) => Ok(Response::Done),
                Err(error) => Err(error),
            },
        }
    }
}

/// In-memory store: a plain map from keys to values.
pub struct MemStore {
    /// Ascending by key, one slot per key.
    slots: Vec<(Key, Value)>,
}

/// Slot `i` is the slot of `key`.
pub open spec fn holds(slots: Seq<(Key, Value)>, key: Seq<u8>, i: int) -> bool {
    0 <= i < slots.len() && slots[i].0@ == key
}

pub closed spec fn slot_map(slots: Seq<(Key, Value)>) -> Map<Seq<u8>, Seq<u8>> {
    Map::new(
        |key: Seq<u8>| exists|i: int| holds(slots, key, i),
        |key: Seq<u8>| slots[choose|i: int| holds(slots, key, i)].1@,
    )
}

proof fn lemma_slot(slots: Seq<(Key, Value)>, i: int)
    requires
        ascending(item_keys(slots)),
        0 <= i < slots.len(),
    ensures
        slot_map(slots).dom().contains(slots[i].0@),
        slot_map(slots)[slots[i].0@] == slots[i].1@,
{
    let key = slots[i].0@;
    assert(holds(slots, key, i));
    let j = choose|j: int| holds(slots, key, j);
    let keys = item_keys(slots);
    assert(keys[i] == keys[j]);
    lemma_key_lt_irreflexive(key);
    assert(i == j);
}

/// Two vectors of slots that differ in one key only.
proof fn lemma_slots_agree(a: Seq<(Key, Value)>, b: Seq<(Key, Value)>, key: Seq<u8>)
    requires
        ascending(item_keys(a)),
        ascending(item_keys(b)),
        forall|i: int|
            0 <= i < a.len() && (#[trigger] a[i]).0@ != key ==> exists|j: int|
                0 <= j < b.len() && #[trigger] b[j] == a[i],
        forall|j: int|
            0 <= j < b.len() && (#[trigger] b[j]).0@ != key ==> exists|i: int|
                0 <= i < a.len() && #[trigger] a[i] == b[j],
    ensures
        slot_map(a).remove(key) == slot_map(b).remove(key),
{
    let ma = slot_map(a).remove(key);
    let mb = slot_map(b).remove(key);
    assert forall|k: Seq<u8>| #[trigger] ma.dom().contains(k) implies mb.dom().contains(k) && ma[k]
        == mb[k] by {
        let i = choose|i: int| holds(a, k, i);
        assert(a[i].0@ != key);
        let j = choose|j: int| 0 <= j < b.len() && #[trigger] b[j] == a[i];
        lemma_slot(a, i);
        lemma_slot(b, j);
    }
    assert forall|k: Seq<u8>| #[trigger] mb.dom().contains(k) implies ma.dom().contains(k) by {
        let j = choose|j: int| holds(b, k, j);
        assert(b[j].0@ != key);
        let i = choose|i: int| 0 <= i < a.len() && #[trigger] a[i] == b[j];
        lemma_slot(a, i);
    }
    assert(ma =~= mb);
}

proof fn lemma_key_absent(slots: Seq<(Key, Value)>, key: Seq<u8>, at: int)
    requires
        0 <= at <= slots.len(),
        forall|j: int| 0 <= j < at ==> key_lt(#[trigger] item_keys(slots)[j], key),
        forall|j: int| at <= j < slots.len() ==> key_lt(key, #[trigger] item_keys(slots)[j]),
    ensures
        !slot_map(slots).dom().contains(key),
{
    assert forall|i: int| !holds(slots, key, i) by {
        if holds(slots, key, i) {
            assert(item_keys(slots)[i] == key);
            lemma_key_lt_irreflexive(key);
        }
    }
}

impl Default for MemStore {
    fn default() -> (r: Self)
        ensures
            r.valid(),
            r.contents() == Map::<Seq<u8>, Seq<u8>>::empty(),
    {
        MemStore::new()
    }
}

impl MemStore {
    /// An empty store.
    pub fn new() -> (r: Self)
        ensures
            r.valid(),
            r.contents() == Map::<Seq<u8>, Seq<u8>>::empty(),
    {
        let r = MemStore { slots: Vec::new() };
        assert(r.contents() =~= Map::<Seq<u8>, Seq<u8>>::empty());
        r
    }
}

impl Store for MemStore {
    closed spec fn contents(&self) -> Map<Seq<u8>, Seq<u8>> {
        slot_map(self.slots@)
    }

    closed spec fn valid(&self) -> bool {
        ascending(item_keys(self.slots@))
    }

    /// No operation in memory fails.
    open spec fn may_fail(&self, op: Operation, error: io::Error, after: &Self) -> bool {
        false
    }

    fn get(&self, key: &[u8]) -> (r: io::Result<Option<Value>>) {
        match search(&self.slots, key) {
            Ok(i) => {
                proof {
                    lemma_slot(self.slots@, i as int);
                }
                Ok(Some(clone_bytes(&self.slots[i].1)))
            },
            Err(i) => {
                proof {
                    lemma_key_absent(self.slots@, key@, i as int);
                }
                Ok(None)
            },
        }
    }

    fn set(&mut self, key: Key, value: Value) -> (r: io::Result<()>) {
        let ghost before = self.slots@;
        let ghost keys = item_keys(before);
        let ghost slot = (key, value);
        match search(&self.slots, key.as_slice()) {
            Ok(i) => {
                self.slots[i] = (key, value);
                proof {
                    let after = self.slots@;
                    assert(item_keys(after) =~= keys);
                    assert(after[i as int] == slot);
                    assert forall|j: int| 0 <= j < before.len() && (#[trigger] before[j]).0@
                        != key@ implies exists|h: int|
                        0 <= h < after.len() && #[trigger] after[h] == before[j] by {
                        assert(after[j] == before[j]);
                    }
                    assert forall|j: int| 0 <= j < after.len() && (#[trigger] after[j]).0@
                        != key@ implies exists|h: int|
                        0 <= h < before.len() && #[trigger] before[h] == after[j] by {
                        assert(before[j] == after[j]);
                    }
                    lemma_slots_agree(before, after, key@);
                    lemma_slot(after, i as int);
                    lemma_insert_from_rest(slot_map(before), slot_map(after), key@, value@);
                }
            },
            Err(i) => {
                self.slots.insert(i, (key, value));
                proof {
                    let after = self.slots@;
                    assert(item_keys(after) =~= keys.insert(i as int, key@));
                    lemma_insert_ascending(keys, i as int, key@);
                    assert(after[i as int] == slot);
                    assert forall|j: int| 0 <= j < before.len() && (#[trigger] before[j]).0@
                        != key@ implies exists|h: int|
                        0 <= h < after.len() && #[trigger] after[h] == before[j] by {
                        if j < i {
                            assert(after[j] == before[j]);
                        } else {
                            assert(after[j + 1] == before[j]);
                        }
                    }
                    assert forall|j: int| 0 <= j < after.len() && (#[trigger] after[j]).0@
                        != key@ implies exists|h: int|
                        0 <= h < before.len() && #[trigger] before[h] == after[j] by {
                        if j < i {
                            assert(before[j] == after[j]);
                        } else {
                            assert(before[j - 1] == after[j]);
                        }
                    }
                    lemma_slots_agree(before, after, key@);
                    lemma_slot(after, i as int);
                    lemma_insert_from_rest(slot_map(before), slot_map(after), key@, value@);
                }
            },
        }
        Ok(())
    }

    fn delete(&mut self, key: &[u8]) -> (r: io::Result<()>) {
        let ghost before = self.slots@;
        let ghost keys = item_keys(before);
        match search(&self.slots, key) {
            Ok(i) => {
                let _ = self.slots.remove(i);
                proof {
                    let after = self.slots@;
                    let rest = item_keys(after);
                    assert(rest =~= keys.remove(i as int));
                    assert forall|a: int, b: int| 0 <= a < b < rest.len() implies key_lt(
                        #[trigger] rest[a],
                        #[trigger] rest[b],
                    ) by {
                        let x = if a < i {
                            a
                        } else {
                            a + 1
                        };
                        let y = if b < i {
                            b
                        } else {
                            b + 1
                        };
                        assert(rest[a] == keys[x]);
                        assert(rest[b] == keys[y]);
                    }
                    assert forall|j: int| 0 <= j < before.len() && (#[trigger] before[j]).0@
                        != key@ implies exists|h: int|
                        0 <= h < after.len() && #[trigger] after[h] == before[j] by {
                        if j < i {
                            assert(after[j] == before[j]);
                        } else {
                            assert(after[j - 1] == before[j]);
                        }
                    }
                    assert forall|j: int| 0 <= j < after.len() && (#[trigger] after[j]).0@
                        != key@ implies exists|h: int|
                        0 <= h < before.len() && #[trigger] before[h] == after[j] by {
                        if j < i {
                            assert(before[j] == after[j]);
                        } else {
                            assert(before[j + 1] == after[j]);
                        }
                    }
                    lemma_slots_agree(before, after, key@);
                    assert forall|j: int| !holds(after, key@, j) by {
                        if holds(after, key@, j) {
                            assert(keys[i as int] == key@);
                            lemma_key_lt_irreflexive(key@);
                            if j < i {
                                assert(after[j] == before[j]);
                                assert(keys[j] == key@);
                            } else {
                                assert(after[j] == before[j + 1]);
                                assert(keys[j + 1] == key@);
                            }
                        }
                    }
                    assert(slot_map(after) =~= slot_map(before).remove(key@));
                }
            },
            Err(i) => {
                proof {
                    lemma_key_absent(before, key@, i as int);
                    assert(slot_map(before) =~= slot_map(before).remove(key@));
                }
            },
        }
        Ok(())
    }
}

/// What is stored under a key is what the contents map it to, whole.
pub proof fn law_stored_is_what_the_contents_hold(
    contents: Map<Seq<u8>, Seq<u8>>,
    key: Seq<u8>,
    value: Seq<u8>,
)
    ensures
        stored(contents, key) == Some(value) <==> contents.dom().contains(key) && contents[key]
            == value,
        stored(contents, key) is None <==> !contents.dom().contains(key),
{
}

/// A read after a write sees it, whatever the key and the value: what was put is stored
/// whole, what was deleted is not, and no other key is touched. A read changes nothing.
pub proof fn law_read_after_operation(
    contents: Map<Seq<u8>, Seq<u8>>,
    key: Seq<u8>,
    value: Seq<u8>,
    other: Seq<u8>,
)
    ensures
        executed(contents, Operation::Get(key)) == contents,
        stored(executed(contents, Operation::Put(key, value)), key) == Some(value),
        stored(executed(contents, Operation::Delete(key)), key) is None,
        other != key ==> {
            &&& stored(executed(contents, Operation::Put(key, value)), other) == stored(
                contents,
                other,
            )
            &&& stored(executed(contents, Operation::Delete(key)), other) == stored(contents, other)
        },
{
}

/// A response to a read carries the value that is there, whole, or nothing where there is
/// none; one to a write just acknowledges it.
pub proof fn law_response_carries_the_value(
    contents: Map<Seq<u8>, Seq<u8>>,
    key: Seq<u8>,
    value: Seq<u8>,
    response: Response,
)
    ensures
        answers(contents, Operation::Get(key), response) ==> {
            &&& response matches Response::Value(found)
            &&& found matches Some(v) ==> contents.dom().contains(key) && contents[key] == v@
            &&& found is None ==> !contents.dom().contains(key)
        },
        answers(contents, Operation::Put(key, value), response) <==> response is Done,
        answers(contents, Operation::Delete(key), response) <==> response is Done,
{
}

/// The in-memory store never fails.
pub proof fn law_memory_does_not_fail(
    store: &MemStore,
    op: Operation,
    error: io::Error,
    after: &MemStore,
)
    ensures
        !store.may_fail(op, error, after),
{
}

proof fn lemma_insert_from_rest(
    before: Map<Seq<u8>, Seq<u8>>,
    after: Map<Seq<u8>, Seq<u8>>,
    key: Seq<u8>,
    value: Seq<u8>,
)
    requires
        before.remove(key) == after.remove(key),
        after.dom().contains(key),
        after[key] == value,
    ensures
        after == before.insert(key, value),
{
    let expected = before.insert(key, value);
    assert forall|k: Seq<u8>| #[trigger]
        after.dom().contains(k) == expected.dom().contains(k) by {
        if k != key {
            assert(before.remove(key).dom() == before.dom().remove(key));
            assert(after.remove(key).dom() == after.dom().remove(key));
            assert(before.dom().contains(k) == before.dom().remove(key).contains(k));
            assert(after.dom().contains(k) == after.dom().remove(key).contains(k));
        }
    }
    assert forall|k: Seq<u8>| #[trigger] after.dom().contains(k) implies after[k]
        == expected[k] by {
        if k != key {
            assert(after.remove(key)[k] == before.remove(key)[k]);
        }
    }
    assert(after =~= expected);
}

} // verus!
