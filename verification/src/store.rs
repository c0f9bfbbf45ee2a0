//! Object-storage abstraction and an in-memory implementation.
use vstd::prelude::*;

use crate::error::Error;
use crate::keys::str_chars;
use crate::state::{
    lemma_named_get_absent, lemma_named_get_at, lemma_named_get_idx, named_get, names_of,
    names_sorted, name_lt, search_name,
};
use vstd::utf8::encode_utf8;

verus! {

/// Minimal object-storage interface required by the engine. Implementations
/// (remote object stores, local directories, memory) are free to fail or to be
/// changed by other writers at any time, so callers rely on nothing about the results.
pub trait Store {
    /// Fetch an object; `None` when the key does not exist.
    fn get(&self, key: &str) -> Result<Option<Vec<u8>>, Error>;

    /// Fetch a byte range `[offset, offset + len)` of an object; `None` when the
    /// key does not exist. Reads past the end return the available tail bytes.
    fn get_range(&self, key: &str, offset: u64, len: u64) -> Result<Option<Vec<u8>>, Error>;

    /// Atomically create or overwrite an object.
    fn put(&mut self, key: &str, data: &[u8]) -> Result<(), Error>;

    /// Delete an object; deleting a missing key is a no-op.
    fn delete(&mut self, key: &str) -> Result<(), Error>;

    /// Atomically create an object only if it does not exist yet; `true` when
    /// created. Stores without the primitive report an error.
    fn create(&mut self, key: &str, data: &[u8]) -> (r: Result<bool, Error>)
        default_ensures
            r matches Err(Error::Store(m)) && m@ == "create-if-absent not supported by this store"@,
    {
        Err(Error::store("create-if-absent not supported by this store"))
    }

    /// Atomically replace an object only if its current content equals
    /// `expected`; returns whether the replacement happened.
    fn put_if_matches(&mut self, key: &str, expected: &[u8], new: &[u8]) -> (r: Result<
        bool,
        Error,
    >)
        default_ensures
            r matches Err(Error::Store(m)) && m@ == "compare-and-swap not supported by this store"@,
    {
        Err(Error::store("compare-and-swap not supported by this store"))
    }

    /// List object keys under `prefix` in lexicographic order.
    fn list(&self, prefix: &str) -> Result<Vec<String>, Error>;
}

/// In-memory [`Store`], used for tests and offline development.
pub struct MemoryStore {
    objects: Vec<(String, Vec<u8>)>,
}

/// The byte range a ranged read returns from an object of `n` bytes.
pub open spec fn range_bounds(n: nat, offset: u64, len: u64) -> (int, int) {
    let start = if offset < n {
        offset as int
    } else {
        n as int
    };
    let end_raw = if start + len > u64::MAX {
        u64::MAX as int
    } else {
        start + len
    };
    let end = if end_raw < n {
        end_raw
    } else {
        n as int
    };
    (start, end)
}

/// The bytes a ranged read of `len` bytes at `offset` returns from `data`:
/// the part of the range that lies inside the object.
pub fn byte_range(data: &[u8], offset: u64, len: u64) -> (out: Vec<u8>)
    ensures
        ({
            let (s, e) = range_bounds(data@.len(), offset, len);
            out@ == data@.subrange(s, e)
        }),
{
    let n = data.len() as u64;
    let start: u64 = if offset < n {
        offset
    } else {
        n
    };
    let end_raw = start.saturating_add(len);
    let end: u64 = if end_raw < n {
        end_raw
    } else {
        n
    };
    vstd::slice::slice_to_vec(&data[start as usize..end as usize])
}

impl MemoryStore {
    /// Stored objects by key.
    pub closed spec fn objects(&self) -> Map<Seq<char>, Seq<u8>> {
        Map::new(
            |k: Seq<char>| named_get(self.objects@, k) is Some,
            |k: Seq<char>| named_get(self.objects@, k).unwrap()@,
        )
    }

    /// All keys in lexicographic order.
    pub closed spec fn keys(&self) -> Seq<Seq<char>> {
        names_of(self.objects@)
    }

    /// Keys are unique and sorted.
    #[verifier::type_invariant]
    spec fn wf(&self) -> bool {
        names_sorted(names_of(self.objects@))
    }

    /// Create an empty in-memory store.
    pub fn new() -> (s: Self)
        ensures
            s.objects() == Map::<Seq<char>, Seq<u8>>::empty(),
            s.keys().len() == 0,
    {
        let s = MemoryStore { objects: Vec::new() };
        assert(s.objects() =~= Map::<Seq<char>, Seq<u8>>::empty());
        s
    }

    fn find(&self, key: &str) -> (r: Option<usize>)
        ensures
            match r {
                Some(i) => i < self.objects@.len() && self.objects@[i as int].0@ == key@
                    && self.objects().contains_key(key@) && self.objects()[key@]
                    == self.objects@[i as int].1@,
                None => !self.objects().contains_key(key@),
            },
    {
        proof {
            use_type_invariant(self);
        }
        let (found, pos) = search_name(&self.objects, key);
        if found {
            proof {
                lemma_named_get_at(self.objects@, pos as int);
            }
            Some(pos)
        } else {
            proof {
                assert forall|i: int| 0 <= i < self.objects@.len() implies (#[trigger] self.objects@[
                    i
                ]).0@ != key@ by {
                    assert(names_of(self.objects@)[i] == self.objects@[i].0@);
                    crate::order::lemma_lex_irreflexive(encode_utf8(key@));
                }
                lemma_named_get_absent(self.objects@, key@);
            }
            None
        }
    }

    /// Store `data` under `key`, replacing any previous object.
    fn set(&mut self, key: &str, data: &[u8])
        ensures
            final(self).objects() == old(self).objects().insert(key@, data@),
    {
        proof {
            use_type_invariant(&*self);
        }
        let mut v: Vec<(String, Vec<u8>)> = Vec::new();
        std::mem::swap(&mut v, &mut self.objects);
        let ghost before = v@;
        set_sorted(&mut v, key, data);
        self.objects = v;
        proof {
            assert(self.objects() =~= old(self).objects().insert(key@, data@)) by {
                assert forall|k: Seq<char>| #[trigger] self.objects().contains_key(k) == old(
                    self,
                ).objects().insert(key@, data@).contains_key(k) by {}
            }
        }
    }

    /// Whether `prefix` is a prefix of `s`, compared character by character.
    fn starts_with(s: &Vec<char>, prefix: &Vec<char>) -> (r: bool)
        ensures
            r == prefix@.is_prefix_of(s@),
    {
        if prefix.len() > s.len() {
            return false;
        }
        let mut i: usize = 0;
        while i < prefix.len()
            invariant
                0 <= i <= prefix@.len() <= s@.len(),
                forall|j: int| 0 <= j < i ==> prefix@[j] == s@[j],
            decreases prefix@.len() - i,
        {
            if prefix[i] != s[i] {
                return false;
            }
            i = i + 1;
        }
        proof {
            assert(s@.subrange(0, prefix@.len() as int) =~= prefix@);
        }
        true
    }
}

/// Store `data` under `key`, replacing any previous object.
fn set_sorted(objects: &mut Vec<(String, Vec<u8>)>, key: &str, data: &[u8])
requires
    names_sorted(names_of(old(objects)@)),
ensures
    names_sorted(names_of(final(objects)@)),
    forall|k: Seq<char>| #[trigger] named_get(final(objects)@, k) matches Some(v) ==> (k == key@ ==> v@ == data@),
    forall|k: Seq<char>| (#[trigger] named_get(final(objects)@, k) is Some) == (k == key@ || named_get(old(objects)@, k) is Some),
    forall|k: Seq<char>| k != key@ ==> #[trigger] named_get(final(objects)@, k) == named_get(old(objects)@, k),
{
    let ghost old_p = objects@;
    let (found, pos) = search_name(&*objects, key);
    if found {
        let _ = objects.remove(pos);
    }
    objects.insert(pos, (key.to_string(), vstd::slice::slice_to_vec(data)));
    proof {
        let new_p = objects@;
        let on = names_of(old_p);
        let nn = names_of(new_p);
        let ts = if found { pos + 1 } else { pos as int };
        assert(nn =~= on.take(pos as int).push(key@) + on.skip(ts));
        assert(names_sorted(nn)) by {
            assert forall|i: int, j: int| 0 <= i < j < nn.len() implies name_lt(
                #[trigger] nn[i],
                #[trigger] nn[j],
            ) by {
                if j < pos {
                    assert(nn[i] == on[i] && nn[j] == on[j]);
                } else if j == pos {
                    assert(nn[i] == on[i]);
                } else if i < pos {
                    assert(nn[i] == on[i] && nn[j] == on[j - pos - 1 + ts]);
                    if found {
                        assert(name_lt(on[pos as int], on[j - pos - 1 + ts]));
                    }
                    crate::order::lemma_lex_transitive(
                        encode_utf8(on[i]),
                        encode_utf8(key@),
                        encode_utf8(on[j - pos - 1 + ts]),
                    );
                } else if i == pos {
                    assert(nn[j] == on[j - pos - 1 + ts]);
                    if found {
                        assert(name_lt(on[pos as int], on[j - pos - 1 + ts]));
                    }
                } else {
                    assert(nn[i] == on[i - pos - 1 + ts] && nn[j] == on[j - pos - 1 + ts]);
                }
            }
        }
        assert forall|k: Seq<char>| #[trigger] named_get(new_p, k) == (if k == key@ {
            Some(new_p[pos as int].1)
        } else {
            named_get(old_p, k)
        }) by {
            lemma_named_get_idx(old_p, k);
            lemma_named_get_idx(new_p, k);
            if k == key@ {
                lemma_named_get_at(new_p, pos as int);
            } else {
                if let Some(v) = named_get(old_p, k) {
                    let i = choose|i: int| 0 <= i < old_p.len() && (#[trigger] old_p[i]).0@ == k
                        && old_p[i].1 == v;
                    assert(on[i] == k);
                    if i < pos {
                        assert(new_p[i] == old_p[i]);
                        lemma_named_get_at(new_p, i);
                    } else {
                        if found && i == pos {
                            assert(false);
                        }
                        let ni = i - ts + pos + 1;
                        assert(new_p[ni] == old_p[i]);
                        lemma_named_get_at(new_p, ni);
                    }
                } else {
                    if let Some(v) = named_get(new_p, k) {
                        let i = choose|i: int| 0 <= i < new_p.len() && (#[trigger] new_p[i]).0@
                            == k && new_p[i].1 == v;
                        assert(nn[i] == k);
                        if i < pos {
                            assert(new_p[i] == old_p[i]);
                            lemma_named_get_at(old_p, i);
                        } else if i > pos {
                            let oi = i - pos - 1 + ts;
                            assert(new_p[i] == old_p[oi]);
                            lemma_named_get_at(old_p, oi);
                        }
                    }
                }
            }
        }
        assert(new_p[pos as int].1@ == data@);
    }
}


impl Store for MemoryStore {
    fn get(&self, key: &str) -> (r: Result<Option<Vec<u8>>, Error>)
        ensures
            r matches Ok(o) && match o {
                Some(v) => self.objects().contains_key(key@) && v@ == self.objects()[key@],
                None => !self.objects().contains_key(key@),
            },
    {
        proof {
            use_type_invariant(self);
        }
        match self.find(key) {
            Some(i) => Ok(Some(vstd::slice::slice_to_vec(self.objects[i].1.as_slice()))),
            None => Ok(None),
        }
    }

    fn get_range(&self, key: &str, offset: u64, len: u64) -> (r: Result<Option<Vec<u8>>, Error>)
        ensures
            r matches Ok(o) && match o {
                Some(v) => self.objects().contains_key(key@) && ({
                    let (s, e) = range_bounds(self.objects()[key@].len(), offset, len);
                    v@ == self.objects()[key@].subrange(s, e)
                }),
                None => !self.objects().contains_key(key@),
            },
    {
        proof {
            use_type_invariant(self);
        }
        match self.find(key) {
            Some(i) => {
                let out = byte_range(self.objects[i].1.as_slice(), offset, len);
                Ok(Some(out))
            },
            None => Ok(None),
        }
    }

    fn put(&mut self, key: &str, data: &[u8]) -> (r: Result<(), Error>)
        ensures
            r is Ok,
            final(self).objects() == old(self).objects().insert(key@, data@),
    {
        self.set(key, data);
        Ok(())
    }

    fn delete(&mut self, key: &str) -> (r: Result<(), Error>)
        ensures
            r is Ok,
            final(self).objects() == old(self).objects().remove(key@),
    {
        proof {
            use_type_invariant(&*self);
        }
        match self.find(key) {
            Some(i) => {
                let mut v: Vec<(String, Vec<u8>)> = Vec::new();
                std::mem::swap(&mut v, &mut self.objects);
                let ghost old_p = v@;
                let _ = v.remove(i);
                let ghost new_p = v@;
                proof {
                    let on = names_of(old_p);
                    let nn = names_of(new_p);
                    assert(nn =~= on.take(i as int) + on.skip(i + 1));
                    assert(names_sorted(nn)) by {
                        assert forall|a: int, b: int| 0 <= a < b < nn.len() implies name_lt(
                            #[trigger] nn[a],
                            #[trigger] nn[b],
                        ) by {
                            let oa = if a < i { a } else { a + 1 };
                            let ob = if b < i { b } else { b + 1 };
                            assert(nn[a] == on[oa] && nn[b] == on[ob]);
                        }
                    }
                    assert forall|k: Seq<char>| #[trigger] named_get(new_p, k) == (if k == key@ {
                        None
                    } else {
                        named_get(old_p, k)
                    }) by {
                        lemma_named_get_idx(old_p, k);
                        lemma_named_get_idx(new_p, k);
                        if k == key@ {
                            assert forall|j: int| 0 <= j < new_p.len() implies (#[trigger] new_p[
                                j
                            ]).0@ != k by {
                                let oj = if j < i { j } else { j + 1 };
                                assert(new_p[j] == old_p[oj]);
                                assert(on[oj] != on[i as int]) by {
                                    if oj < i {
                                        assert(name_lt(on[oj], on[i as int]));
                                    } else {
                                        assert(name_lt(on[i as int], on[oj]));
                                    }
                                    crate::order::lemma_lex_irreflexive(encode_utf8(on[oj]));
                                }
                            }
                            lemma_named_get_absent(new_p, k);
                        } else {
                            if let Some(v) = named_get(old_p, k) {
                                let j = choose|j: int| 0 <= j < old_p.len() && (#[trigger] old_p[
                                    j
                                ]).0@ == k && old_p[j].1 == v;
                                assert(on[j] == k);
                                let nj = if j < i { j } else { j - 1 };
                                assert(new_p[nj] == old_p[j]);
                                lemma_named_get_at(new_p, nj);
                            } else if let Some(v) = named_get(new_p, k) {
                                let j = choose|j: int| 0 <= j < new_p.len() && (#[trigger] new_p[
                                    j
                                ]).0@ == k && new_p[j].1 == v;
                                assert(nn[j] == k);
                                let oj = if j < i { j } else { j + 1 };
                                assert(new_p[j] == old_p[oj]);
                                lemma_named_get_at(old_p, oj);
                            }
                        }
                    }
                }
                self.objects = v;
                proof {
                    assert(self.objects() =~= old(self).objects().remove(key@));
                }
            },
            None => {
                proof {
                    assert(self.objects() =~= old(self).objects().remove(key@));
                }
            },
        }
        Ok(())
    }

    fn create(&mut self, key: &str, data: &[u8]) -> (r: Result<bool, Error>)
        ensures
            match r {
                Ok(true) => !old(self).objects().contains_key(key@) && final(self).objects() == old(
                    self,
                ).objects().insert(key@, data@),
                Ok(false) => old(self).objects().contains_key(key@) && final(self).objects()
                    == old(self).objects(),
                Err(_) => false,
            },
    {
        match self.find(key) {
            Some(_) => Ok(false),
            None => {
                self.set(key, data);
                Ok(true)
            },
        }
    }

    fn put_if_matches(&mut self, key: &str, expected: &[u8], new: &[u8]) -> (r: Result<
        bool,
        Error,
    >)
        ensures
            match r {
                Ok(true) => old(self).objects().contains_key(key@) && old(self).objects()[key@]
                    == expected@ && final(self).objects() == old(self).objects().insert(
                    key@,
                    new@,
                ),
                Ok(false) => !(old(self).objects().contains_key(key@) && old(self).objects()[key@]
                    == expected@) && final(self).objects() == old(self).objects(),
                Err(_) => false,
            },
    {
        match self.find(key) {
            Some(i) => {
                let c = crate::order::compare_bytes(self.objects[i].1.as_slice(), expected);
                if c == 0 {
                    self.set(key, new);
                    Ok(true)
                } else {
                    Ok(false)
                }
            },
            None => Ok(false),
        }
    }

    fn list(&self, prefix: &str) -> (r: Result<Vec<String>, Error>)
        ensures
            r matches Ok(v) && v@.map_values(|s: String| s@) == self.keys().filter(
                |k: Seq<char>| prefix@.is_prefix_of(k),
            ),
            names_sorted(self.keys()),
            forall|k: Seq<char>| #[trigger] self.keys().contains(k) <==> self.objects().contains_key(k),
    {
        proof {
            use_type_invariant(self);
            let os = self.objects@;
            assert forall|k: Seq<char>| #[trigger] self.keys().contains(k) <==> self.objects().contains_key(k) by {
                if self.keys().contains(k) {
                    let i = choose|i: int| 0 <= i < self.keys().len() && self.keys()[i] == k;
                    lemma_named_get_at(os, i);
                }
                if self.objects().contains_key(k) {
                    lemma_named_get_idx(os, k);
                    let i = choose|i: int| 0 <= i < os.len() && (#[trigger] os[i]).0@ == k && os[i].1 == named_get(
                        os,
                        k,
                    ).unwrap();
                    assert(self.keys()[i] == k);
                }
            }
        }
        let pc = str_chars(prefix);
        let ghost pred = |k: Seq<char>| prefix@.is_prefix_of(k);
        let ghost ks = self.keys();
        let mut out: Vec<String> = Vec::new();
        let mut i: usize = 0;
        while i < self.objects.len()
            invariant
                0 <= i <= self.objects@.len(),
                ks == self.keys(),
                ks == names_of(self.objects@),
                pc@ == prefix@,
                pred == (|k: Seq<char>| prefix@.is_prefix_of(k)),
                out@.map_values(|s: String| s@) == ks.take(i as int).filter(pred),
            decreases self.objects@.len() - i,
        {
            let kc = str_chars(self.objects[i].0.as_str());
            proof {
                assert(ks.take(i + 1) =~= ks.take(i as int).push(ks[i as int]));
                assert(ks.take(i + 1).drop_last() =~= ks.take(i as int));
                reveal(Seq::filter);
                assert(ks[i as int] == self.objects@[i as int].0@);
            }
            if Self::starts_with(&kc, &pc) {
                let s = self.objects[i].0.clone();
                proof {
                    assert(out@.push(s).map_values(|s: String| s@) =~= out@.map_values(
                        |s: String| s@,
                    ).push(s@));
                }
                out.push(s);
            }
            i = i + 1;
        }
        proof {
            assert(ks.take(i as int) =~= ks);
        }
        Ok(out)
    }
}

} // verus!
