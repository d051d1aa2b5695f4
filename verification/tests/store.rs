use cairn::api::{Key, Request, Response};
use cairn::store::{MemStore, Store};

fn k(s: &str) -> Key {
    s.as_bytes().to_vec()
}

#[test]
fn put_then_get() {
    let mut s = MemStore::new();
    s.set(k("a"), k("1")).unwrap();
    assert_eq!(s.get(b"a").unwrap(), Some(k("1")));
}

#[test]
fn get_missing_is_none() {
    let s = MemStore::new();
    assert_eq!(s.get(b"nope").unwrap(), None);
}

#[test]
fn overwrite_keeps_newest() {
    let mut s = MemStore::new();
    s.set(k("a"), k("1")).unwrap();
    s.set(k("a"), k("2")).unwrap();
    assert_eq!(s.get(b"a").unwrap(), Some(k("2")));
}

#[test]
fn delete_hides_value() {
    let mut s = MemStore::new();
    s.set(k("a"), k("1")).unwrap();
    s.delete(b"a").unwrap();
    assert_eq!(s.get(b"a").unwrap(), None);
}

#[test]
fn delete_missing_is_noop() {
    let mut s = MemStore::new();
    s.delete(b"ghost").unwrap();
    assert_eq!(s.get(b"ghost").unwrap(), None);
}

#[test]
fn delete_then_reput() {
    let mut s = MemStore::new();
    s.set(k("a"), k("1")).unwrap();
    s.delete(b"a").unwrap();
    s.set(k("a"), k("2")).unwrap();
    assert_eq!(s.get(b"a").unwrap(), Some(k("2")));
}

#[test]
fn execute_dispatches_requests() {
    let mut s = MemStore::new();
    assert_eq!(
        s.execute(Request::Put(k("a"), k("1"))).unwrap(),
        Response::Done
    );
    assert_eq!(
        s.execute(Request::Get(k("a"))).unwrap(),
        Response::Value(Some(k("1")))
    );
    assert_eq!(s.execute(Request::Delete(k("a"))).unwrap(), Response::Done);
    assert_eq!(
        s.execute(Request::Get(k("a"))).unwrap(),
        Response::Value(None)
    );
}

#[test]
fn put_overwrite_delete_lifecycle() {
    let mut store = MemStore::new();

    store.set(b"name".to_vec(), b"ada".to_vec()).unwrap();
    store.set(b"lang".to_vec(), b"rust".to_vec()).unwrap();
    assert_eq!(store.get(b"name").unwrap(), Some(b"ada".to_vec()));
    assert_eq!(store.get(b"lang").unwrap(), Some(b"rust".to_vec()));

    // Overwrite wins.
    store.set(b"name".to_vec(), b"grace".to_vec()).unwrap();
    assert_eq!(store.get(b"name").unwrap(), Some(b"grace".to_vec()));

    // Delete hides the value.
    store.delete(b"name").unwrap();
    assert_eq!(store.get(b"name").unwrap(), None);

    // Unrelated key is untouched.
    assert_eq!(store.get(b"lang").unwrap(), Some(b"rust".to_vec()));

    // Re-inserting after delete works.
    store.set(b"name".to_vec(), b"linus".to_vec()).unwrap();
    assert_eq!(store.get(b"name").unwrap(), Some(b"linus".to_vec()));
}

/// A backend that fails, and tells what it was asked.
#[derive(Default)]
struct Failing {
    calls: std::cell::RefCell<Vec<String>>,
}

impl Store for Failing {
    fn get(&self, key: &[u8]) -> std::io::Result<Option<Vec<u8>>> {
        self.calls.borrow_mut().push(format!("get {key:?}"));
        Err(std::io::ErrorKind::NotFound.into())
    }

    fn set(&mut self, key: Vec<u8>, value: Vec<u8>) -> std::io::Result<()> {
        self.calls.borrow_mut().push(format!("set {key:?} {value:?}"));
        Err(std::io::ErrorKind::InvalidData.into())
    }

    fn delete(&mut self, key: &[u8]) -> std::io::Result<()> {
        self.calls.borrow_mut().push(format!("delete {key:?}"));
        Err(std::io::ErrorKind::Other.into())
    }
}

#[test]
fn execute_calls_one_operation_and_hands_its_error_on() {
    let cases = [
        (Request::Get(vec![1]), std::io::ErrorKind::NotFound, "get [1]"),
        (
            Request::Put(vec![1], vec![2]),
            std::io::ErrorKind::InvalidData,
            "set [1] [2]",
        ),
        (Request::Delete(vec![1]), std::io::ErrorKind::Other, "delete [1]"),
    ];
    for (request, kind, call) in cases {
        let mut store = Failing::default();
        assert_eq!(store.execute(request).unwrap_err().kind(), kind);
        assert_eq!(store.calls.into_inner(), vec![call.to_string()]);
    }
}
