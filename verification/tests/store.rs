use wedb_object_lsm::file::check_object_key;
use wedb_object_lsm::store::{byte_range, MemoryStore, Store};

#[test]
fn memory_cas_sanity() {
    let mut s = MemoryStore::new();
    s.put("cas/k", b"a").unwrap();
    assert!(s.put_if_matches("cas/k", b"a", b"b").unwrap());
    assert!(!s.put_if_matches("cas/k", b"a", b"c").unwrap());
    assert_eq!(s.get("cas/k").unwrap().unwrap(), b"b");
}

#[test]
fn memory_store_create_is_create_if_absent() {
    let mut s = MemoryStore::new();
    assert!(s.create("k", b"one").unwrap());
    assert!(!s.create("k", b"two").unwrap());
    assert_eq!(s.get("k").unwrap().unwrap(), b"one");
}

#[test]
fn memory_store_put_overwrites_and_delete_removes() {
    let mut s = MemoryStore::new();
    s.put("a/b", b"1").unwrap();
    s.put("a/b", b"2").unwrap();
    assert_eq!(s.get("a/b").unwrap().unwrap(), b"2");
    s.delete("a/b").unwrap();
    assert_eq!(s.get("a/b").unwrap(), None);
    // deleting a missing key is a no-op
    s.delete("a/b").unwrap();
    assert!(!s.put_if_matches("a/b", b"2", b"3").unwrap());
}

#[test]
fn memory_store_list_is_sorted_and_prefix_filtered() {
    let mut s = MemoryStore::new();
    for k in ["p/c", "p/a", "q/z", "p/b"] {
        s.put(k, b"x").unwrap();
    }
    assert_eq!(s.list("p/").unwrap(), vec!["p/a", "p/b", "p/c"]);
    assert_eq!(s.list("").unwrap().len(), 4);
    assert!(s.list("r").unwrap().is_empty());
}

#[test]
fn memory_store_get_range_clamps_to_object() {
    let mut s = MemoryStore::new();
    s.put("o", b"0123456789").unwrap();
    assert_eq!(s.get_range("o", 2, 3).unwrap().unwrap(), b"234");
    assert_eq!(s.get_range("o", 8, 100).unwrap().unwrap(), b"89");
    assert_eq!(s.get_range("o", 20, 5).unwrap().unwrap(), b"");
    assert_eq!(s.get_range("missing", 0, 1).unwrap(), None);
}

#[test]
fn byte_range_saturates_the_end() {
    let data = b"abcdef";
    assert_eq!(byte_range(data, 1, u64::MAX), b"bcdef".to_vec());
    assert_eq!(byte_range(data, 0, 0), Vec::<u8>::new());
    assert_eq!(byte_range(data, 6, 1), Vec::<u8>::new());
}

#[test]
fn object_keys_inside_the_root_are_accepted() {
    assert!(check_object_key("prefix/seg/data/00000000000000000001").is_ok());
    assert!(check_object_key("a").is_ok());
    assert!(check_object_key("a/.hidden/b..c").is_ok());
}

#[test]
fn object_keys_that_escape_the_root_are_refused() {
    for bad in ["", "a//b", "/a", "a/", "a/./b", "a/../b", "..", "a\\b"] {
        let e = check_object_key(bad).unwrap_err();
        assert_eq!(
            e.message(),
            format!("object store error: unsafe object key {:?}", bad)
        );
    }
}

/// A store offering only the plain operations.
struct PlainStore;

impl Store for PlainStore {
    fn get(&self, _key: &str) -> Result<Option<Vec<u8>>, wedb_object_lsm::error::Error> {
        Ok(None)
    }

    fn get_range(
        &self,
        _key: &str,
        _offset: u64,
        _len: u64,
    ) -> Result<Option<Vec<u8>>, wedb_object_lsm::error::Error> {
        Ok(None)
    }

    fn put(&mut self, _key: &str, _data: &[u8]) -> Result<(), wedb_object_lsm::error::Error> {
        Ok(())
    }

    fn delete(&mut self, _key: &str) -> Result<(), wedb_object_lsm::error::Error> {
        Ok(())
    }

    fn list(&self, _prefix: &str) -> Result<Vec<String>, wedb_object_lsm::error::Error> {
        Ok(Vec::new())
    }
}

#[test]
fn store_without_atomic_primitives_reports_them_unsupported() {
    let mut s = PlainStore;
    let e = s.create("k", b"v").unwrap_err();
    assert_eq!(e.message(), "object store error: create-if-absent not supported by this store");
    let e = s.put_if_matches("k", b"a", b"b").unwrap_err();
    assert_eq!(e.message(), "object store error: compare-and-swap not supported by this store");
}
