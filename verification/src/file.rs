//! Object keys of a directory-backed store: a key maps to a relative path,
//! one path component per `/`-separated part, and keys that could escape the
//! store's root directory are refused. The file I/O itself belongs to the
//! embedding application.
use vstd::prelude::*;

use crate::error::Error;
use crate::keys::str_chars;
use vstd::string::StringExecFns;

verus! {

/// The parts of `s` between occurrences of `c`, as `str::split` hands them
/// out (always at least one, possibly empty).
pub open spec fn split_fields(s: Seq<char>, c: char) -> Seq<Seq<char>>
    decreases s.len(),
{
    if s.len() == 0 {
        seq![Seq::empty()]
    } else {
        let r = split_fields(s.drop_last(), c);
        if s.last() == c {
            r.push(Seq::empty())
        } else {
            r.update(r.len() - 1, r.last().push(s.last()))
        }
    }
}

/// A path component that stays inside its directory: non-empty, not `.` or
/// `..`, and free of backslashes.
pub open spec fn safe_component(p: Seq<char>) -> bool {
    &&& p.len() > 0
    &&& p != seq!['.']
    &&& p != seq!['.', '.']
    &&& !p.contains('\\')
}

/// Whether every `/`-separated part of `key` is a safe path component.
pub open spec fn safe_key(key: Seq<char>) -> bool {
    let parts = split_fields(key, '/');
    forall|i: int| 0 <= i < parts.len() ==> #[trigger] safe_component(parts[i])
}

/// Splitting always yields at least one part.
proof fn lemma_split_nonempty(s: Seq<char>, c: char)
    ensures
        split_fields(s, c).len() >= 1,
    decreases s.len(),
{
    if s.len() > 0 {
        lemma_split_nonempty(s.drop_last(), c);
    }
}

/// Names the text `format!("{:?}", s)` produces for a string: `s` quoted,
/// with special characters escaped.
pub uninterp spec fn debug_str(s: Seq<char>) -> Seq<char>;

/// Formats `s` with `format!("{:?}")` (the `Debug` form of a string).
#[verifier::external_body]
fn fmt_debug_str(s: &str) -> (r: String)
    ensures
        r@ == debug_str(s@),
{
    format!("{:?}", s)
}

/// Whether `cs[lo..hi]` is a safe path component.
fn component_safe(cs: &Vec<char>, lo: usize, hi: usize) -> (r: bool)
    requires
        lo <= hi <= cs@.len(),
    ensures
        r == safe_component(cs@.subrange(lo as int, hi as int)),
{
    let ghost p = cs@.subrange(lo as int, hi as int);
    if lo == hi {
        return false;
    }
    if hi - lo == 1 && cs[lo] == '.' {
        assert(p =~= seq!['.']);
        return false;
    }
    if hi - lo == 2 && cs[lo] == '.' && cs[lo + 1] == '.' {
        assert(p =~= seq!['.', '.']);
        return false;
    }
    proof {
        if hi - lo == 1 {
            assert(p[0] == cs@[lo as int]);
            assert(p != seq!['.']);
        }
        if hi - lo == 2 {
            assert(p[0] == cs@[lo as int] && p[1] == cs@[lo + 1]);
            assert(p != seq!['.', '.']);
        }
    }
    let mut i = lo;
    while i < hi
        invariant
            lo <= i <= hi <= cs@.len(),
            p == cs@.subrange(lo as int, hi as int),
            forall|j: int| lo <= j < i ==> cs@[j] != '\\',
        decreases hi - i,
    {
        if cs[i] == '\\' {
            assert(p[i - lo] == '\\');
            return false;
        }
        i = i + 1;
    }
    proof {
        assert forall|j: int| 0 <= j < p.len() implies p[j] != '\\' by {
            assert(p[j] == cs@[lo + j]);
        }
    }
    true
}

/// Check that `key` names a path inside the store's root: every
/// `/`-separated part must be non-empty, not `.` or `..`, and free of
/// backslashes.
pub fn check_object_key(key: &str) -> (r: Result<(), Error>)
    ensures
        match r {
            Ok(()) => safe_key(key@),
            Err(e) => !safe_key(key@) && (e matches Error::Store(m) && m@ == "unsafe object key "@
                + debug_str(key@)),
        },
{
    let cs = str_chars(key);
    let n = cs.len();
    let mut ok = true;
    let mut start: usize = 0;
    let mut i: usize = 0;
    while i < n
        invariant
            0 <= start <= i <= n,
            n == cs@.len(),
            cs@ == key@,
            split_fields(cs@.take(i as int), '/').len() >= 1,
            split_fields(cs@.take(i as int), '/').last() == cs@.subrange(start as int, i as int),
            ok == (forall|k: int|
                0 <= k < split_fields(cs@.take(i as int), '/').len() - 1
                    ==> #[trigger] safe_component(split_fields(cs@.take(i as int), '/')[k])),
        decreases n - i,
    {
        let ghost before = split_fields(cs@.take(i as int), '/');
        proof {
            assert(cs@.take(i + 1).drop_last() =~= cs@.take(i as int));
            assert(cs@.take(i + 1).last() == cs@[i as int]);
        }
        if cs[i] == '/' {
            let safe = component_safe(&cs, start, i);
            proof {
                let after = split_fields(cs@.take(i + 1), '/');
                assert(after == before.push(Seq::empty()));
                assert(after.last() =~= cs@.subrange(i + 1, i + 1));
                assert forall|k: int| 0 <= k < after.len() - 1 implies #[trigger] after[k]
                    == before[k] by {}
                if ok && safe {
                    assert forall|k: int| 0 <= k < after.len() - 1 implies #[trigger] safe_component(
                        after[k],
                    ) by {
                        assert(after[k] == before[k]);
                    }
                }
                if !(ok && safe) {
                    if !safe {
                        assert(!safe_component(after[before.len() - 1]));
                    } else {
                        let k = choose|k: int|
                            0 <= k < before.len() - 1 && !#[trigger] safe_component(before[k]);
                        assert(after[k] == before[k]);
                        assert(!safe_component(after[k]));
                    }
                }
            }
            ok = ok && safe;
            start = i + 1;
        } else {
            proof {
                let after = split_fields(cs@.take(i + 1), '/');
                assert(after == before.update(before.len() - 1, before.last().push(cs@[i as int])));
                assert(after.last() =~= cs@.subrange(start as int, i + 1));
                assert forall|k: int| 0 <= k < after.len() - 1 implies #[trigger] after[k]
                    == before[k] by {}
                if ok {
                    assert forall|k: int| 0 <= k < after.len() - 1 implies #[trigger] safe_component(
                        after[k],
                    ) by {
                        assert(after[k] == before[k]);
                    }
                } else {
                    let k = choose|k: int|
                        0 <= k < before.len() - 1 && !#[trigger] safe_component(before[k]);
                    assert(after[k] == before[k]);
                    assert(!safe_component(after[k]));
                }
            }
        }
        i = i + 1;
    }
    let last_safe = component_safe(&cs, start, n);
    proof {
        assert(cs@.take(n as int) =~= cs@);
        let parts = split_fields(key@, '/');
        if ok && last_safe {
            assert forall|k: int| 0 <= k < parts.len() implies #[trigger] safe_component(
                parts[k],
            ) by {
                if k == parts.len() - 1 {
                    assert(parts[k] == parts.last());
                }
            }
        } else if !last_safe {
            assert(!safe_component(parts[parts.len() - 1]));
        } else {
            let k = choose|k: int| 0 <= k < parts.len() - 1 && !#[trigger] safe_component(parts[k]);
            assert(!safe_component(parts[k]));
        }
    }
    if ok && last_safe {
        Ok(())
    } else {
        let mut m = String::from_str("unsafe object key ");
        let d = fmt_debug_str(key);
        m.append(d.as_str());
        Err(Error::Store(m))
    }
}

} // verus!
