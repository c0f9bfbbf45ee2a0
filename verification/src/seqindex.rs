//! Sorted vectors of journal sequence numbers and of per-sequence sizes,
//! used as an ordered set and an ordered map keyed by sequence.
use vstd::prelude::*;

use crate::state::{seqs_sorted, sizes_sorted};

verus! {

/// The map a sorted `(seq, size)` list denotes.
pub open spec fn size_map(s: Seq<(u64, u64)>) -> Map<u64, u64> {
    Map::new(
        |k: u64| exists|i: int| 0 <= i < s.len() && (#[trigger] s[i]).0 == k,
        |k: u64| s[choose|i: int| 0 <= i < s.len() && (#[trigger] s[i]).0 == k].1,
    )
}

/// In a sorted list the entry at `i` is what the map holds for its key.
pub proof fn lemma_size_map_at(s: Seq<(u64, u64)>, i: int)
    requires
        sizes_sorted(s),
        0 <= i < s.len(),
    ensures
        size_map(s).contains_key(s[i].0),
        size_map(s)[s[i].0] == s[i].1,
{
    let k = s[i].0;
    assert(exists|j: int| 0 <= j < s.len() && (#[trigger] s[j]).0 == k);
    let j = choose|j: int| 0 <= j < s.len() && (#[trigger] s[j]).0 == k;
    if j < i {
        assert(s[j].0 < s[i].0);
    } else if j > i {
        assert(s[i].0 < s[j].0);
    }
}

/// The sum of the sizes, saturating at `u64::MAX`.
pub open spec fn sizes_total(s: Seq<(u64, u64)>) -> nat
    decreases s.len(),
{
    if s.len() == 0 {
        0
    } else {
        sizes_total(s.drop_last()) + (s.last().1 as nat)
    }
}

/// Insert `x` into a sorted set of sequence numbers.
pub fn insert_seq(v: &mut Vec<u64>, x: u64)
    requires
        seqs_sorted(old(v)@),
    ensures
        seqs_sorted(final(v)@),
        final(v)@.to_set() == old(v)@.to_set().insert(x),
{
    let mut i: usize = 0;
    while i < v.len() && v[i] < x
        invariant
            0 <= i <= v@.len(),
            forall|j: int| 0 <= j < i ==> #[trigger] v@[j] < x,
        decreases v@.len() - i,
    {
        i = i + 1;
    }
    if i < v.len() && v[i] == x {
        proof {
            assert(v@.to_set() =~= v@.to_set().insert(x)) by {
                assert(v@.contains(x)) by {
                    assert(v@[i as int] == x);
                }
            }
        }
        return;
    }
    let ghost o = v@;
    v.insert(i, x);
    proof {
        let n = v@;
        assert(n =~= o.take(i as int).push(x) + o.skip(i as int));
        assert forall|a: int, b: int| 0 <= a < b < n.len() implies #[trigger] n[a] < #[trigger] n[b] by {
            if b < i {
                assert(n[a] == o[a] && n[b] == o[b]);
            } else if b == i {
                assert(n[a] == o[a]);
            } else if a < i {
                assert(n[a] == o[a] && n[b] == o[b - 1]);
                if b - 1 > i {
                    assert(o[i as int] < o[b - 1]);
                }
            } else if a == i {
                assert(n[b] == o[b - 1]);
                if b - 1 > i {
                    assert(o[i as int] < o[b - 1]);
                }
            } else {
                assert(n[a] == o[a - 1] && n[b] == o[b - 1]);
            }
        }
        assert forall|y: u64| n.to_set().contains(y) <==> o.to_set().insert(x).contains(y) by {
            if n.to_set().contains(y) {
                let j = choose|j: int| 0 <= j < n.len() && n[j] == y;
                if j < i {
                    assert(o[j] == y);
                } else if j > i {
                    assert(o[j - 1] == y);
                }
            }
            if o.to_set().contains(y) {
                let j = choose|j: int| 0 <= j < o.len() && o[j] == y;
                if j < i {
                    assert(n[j] == y);
                } else {
                    assert(n[j + 1] == y);
                }
            }
            if y == x {
                assert(n[i as int] == y);
            }
        }
        assert(n.to_set() =~= o.to_set().insert(x));
    }
}

/// Remove `x` from a sorted set of sequence numbers.
pub fn remove_seq(v: &mut Vec<u64>, x: u64)
    requires
        seqs_sorted(old(v)@),
    ensures
        seqs_sorted(final(v)@),
        final(v)@.to_set() == old(v)@.to_set().remove(x),
{
    let mut i: usize = 0;
    while i < v.len() && v[i] < x
        invariant
            0 <= i <= v@.len(),
            forall|j: int| 0 <= j < i ==> #[trigger] v@[j] < x,
        decreases v@.len() - i,
    {
        i = i + 1;
    }
    let ghost o = v@;
    if !(i < v.len() && v[i] == x) {
        proof {
            assert forall|j: int| 0 <= j < o.len() implies #[trigger] o[j] != x by {
                if j > i {
                    assert(o[i as int] < o[j]);
                }
            }
            assert(o.to_set() =~= o.to_set().remove(x));
        }
        return;
    }
    let _ = v.remove(i);
    proof {
        let n = v@;
        assert(n =~= o.take(i as int) + o.skip(i + 1));
        assert forall|a: int, b: int| 0 <= a < b < n.len() implies #[trigger] n[a] < #[trigger] n[b] by {
            if b < i {
                assert(n[a] == o[a] && n[b] == o[b]);
            } else if a < i {
                assert(n[a] == o[a] && n[b] == o[b + 1]);
            } else {
                assert(n[a] == o[a + 1] && n[b] == o[b + 1]);
            }
        }
        assert forall|y: u64| n.to_set().contains(y) <==> o.to_set().remove(x).contains(y) by {
            if n.to_set().contains(y) {
                let j = choose|j: int| 0 <= j < n.len() && n[j] == y;
                if j < i {
                    assert(o[j] == y);
                    assert(o[j] < o[i as int]);
                } else {
                    assert(o[j + 1] == y);
                    assert(o[i as int] < o[j + 1]);
                }
            }
            if o.to_set().remove(x).contains(y) {
                let j = choose|j: int| 0 <= j < o.len() && o[j] == y;
                if j < i {
                    assert(n[j] == y);
                } else if j > i {
                    assert(n[j - 1] == y);
                }
            }
        }
        assert(n.to_set() =~= o.to_set().remove(x));
    }
}

/// Record the size of sequence `x` in a sorted size list.
pub fn insert_size(v: &mut Vec<(u64, u64)>, x: u64, size: u64)
    requires
        sizes_sorted(old(v)@),
    ensures
        sizes_sorted(final(v)@),
        size_map(final(v)@) == size_map(old(v)@).insert(x, size),
{
    let mut i: usize = 0;
    while i < v.len() && v[i].0 < x
        invariant
            0 <= i <= v@.len(),
            forall|j: int| 0 <= j < i ==> (#[trigger] v@[j]).0 < x,
        decreases v@.len() - i,
    {
        i = i + 1;
    }
    let ghost o = v@;
    let found = i < v.len() && v[i].0 == x;
    if found {
        let _ = v.remove(i);
    }
    v.insert(i, (x, size));
    proof {
        let n = v@;
        let ts: int = if found { i + 1 } else { i as int };
        assert(n =~= o.take(i as int).push((x, size)) + o.skip(ts));
        assert forall|a: int, b: int| 0 <= a < b < n.len() implies #[trigger] n[a].0 < #[trigger] n[b].0 by {
            if b < i {
                assert(n[a] == o[a] && n[b] == o[b]);
            } else if b == i {
                assert(n[a] == o[a]);
            } else if a < i {
                assert(n[a] == o[a] && n[b] == o[b - i - 1 + ts]);
                if b - i - 1 + ts > i {
                    assert(o[i as int].0 < o[b - i - 1 + ts].0);
                }
            } else if a == i {
                assert(n[b] == o[b - i - 1 + ts]);
                if b - i - 1 + ts > i {
                    assert(o[i as int].0 < o[b - i - 1 + ts].0);
                }
            } else {
                assert(n[a] == o[a - i - 1 + ts] && n[b] == o[b - i - 1 + ts]);
            }
        }
        assert forall|k: u64| #[trigger] size_map(n).contains_key(k) == size_map(o).insert(
            x,
            size,
        ).contains_key(k) && (size_map(n).contains_key(k) ==> size_map(n)[k] == size_map(o).insert(
            x,
            size,
        )[k]) by {
            if k == x {
                assert(n[i as int].0 == x);
                lemma_size_map_at(n, i as int);
            } else {
                if size_map(n).contains_key(k) {
                    let j = choose|j: int| 0 <= j < n.len() && (#[trigger] n[j]).0 == k;
                    lemma_size_map_at(n, j);
                    let oj = if j < i { j } else { j - i - 1 + ts };
                    assert(j != i);
                    assert(n[j] == o[oj]);
                    lemma_size_map_at(o, oj);
                }
                if size_map(o).contains_key(k) {
                    let j = choose|j: int| 0 <= j < o.len() && (#[trigger] o[j]).0 == k;
                    lemma_size_map_at(o, j);
                    assert(!(found && j == i));
                    let nj = if j < i { j } else { j + i + 1 - ts };
                    assert(n[nj] == o[j]);
                    lemma_size_map_at(n, nj);
                }
            }
        }
        assert(size_map(n) =~= size_map(o).insert(x, size));
    }
}

/// Forget the size of sequence `x`.
pub fn remove_size(v: &mut Vec<(u64, u64)>, x: u64)
    requires
        sizes_sorted(old(v)@),
    ensures
        sizes_sorted(final(v)@),
        size_map(final(v)@) == size_map(old(v)@).remove(x),
        sizes_total(final(v)@) <= sizes_total(old(v)@),
{
    let mut i: usize = 0;
    while i < v.len() && v[i].0 < x
        invariant
            0 <= i <= v@.len(),
            forall|j: int| 0 <= j < i ==> (#[trigger] v@[j]).0 < x,
        decreases v@.len() - i,
    {
        i = i + 1;
    }
    let ghost o = v@;
    if !(i < v.len() && v[i].0 == x) {
        proof {
            assert forall|k: u64| #[trigger] size_map(o).contains_key(k) ==> k != x by {
                if size_map(o).contains_key(k) {
                    let j = choose|j: int| 0 <= j < o.len() && (#[trigger] o[j]).0 == k;
                    if j > i {
                        assert(o[i as int].0 < o[j].0);
                    }
                }
            }
            assert(size_map(o) =~= size_map(o).remove(x));
        }
        return;
    }
    let _ = v.remove(i);
    proof {
        let n = v@;
        assert(n =~= o.take(i as int) + o.skip(i + 1));
        assert forall|a: int, b: int| 0 <= a < b < n.len() implies #[trigger] n[a].0 < #[trigger] n[b].0 by {
            if b < i {
                assert(n[a] == o[a] && n[b] == o[b]);
            } else if a < i {
                assert(n[a] == o[a] && n[b] == o[b + 1]);
            } else {
                assert(n[a] == o[a + 1] && n[b] == o[b + 1]);
            }
        }
        assert forall|k: u64| #[trigger] size_map(n).contains_key(k) == size_map(o).remove(
            x,
        ).contains_key(k) && (size_map(n).contains_key(k) ==> size_map(n)[k] == size_map(o)[k]) by {
            if size_map(n).contains_key(k) {
                let j = choose|j: int| 0 <= j < n.len() && (#[trigger] n[j]).0 == k;
                lemma_size_map_at(n, j);
                let oj = if j < i { j } else { j + 1 };
                assert(n[j] == o[oj]);
                lemma_size_map_at(o, oj);
                if oj < i {
                    assert(o[oj].0 < o[i as int].0);
                } else {
                    assert(o[i as int].0 < o[oj].0);
                }
            }
            if size_map(o).contains_key(k) && k != x {
                let j = choose|j: int| 0 <= j < o.len() && (#[trigger] o[j]).0 == k;
                lemma_size_map_at(o, j);
                assert(j != i);
                let nj = if j < i { j } else { j - 1 };
                assert(n[nj] == o[j]);
                lemma_size_map_at(n, nj);
            }
        }
        assert(size_map(n) =~= size_map(o).remove(x));
        lemma_sizes_total_split(o, i as int);
        lemma_sizes_total_split(n, i as int);
        assert(n.take(i as int) =~= o.take(i as int));
        assert(n.skip(i as int) =~= o.skip(i + 1));
        lemma_sizes_total_split(o.skip(i as int), 1);
        assert(o.skip(i as int).skip(1) =~= o.skip(i + 1));
    }
}

/// The total of a list is the total of a prefix plus the total of the rest.
pub proof fn lemma_sizes_total_split(s: Seq<(u64, u64)>, k: int)
    requires
        0 <= k <= s.len(),
    ensures
        sizes_total(s) == sizes_total(s.take(k)) + sizes_total(s.skip(k)),
    decreases s.len(),
{
    if k < s.len() {
        lemma_sizes_total_split(s.drop_last(), k);
        assert(s.drop_last().take(k) =~= s.take(k));
        assert(s.skip(k).drop_last() =~= s.drop_last().skip(k));
        assert(s.skip(k).last() == s.last());
    } else {
        assert(s.take(k) =~= s);
        assert(s.skip(k).len() == 0);
    }
}

/// The sequence numbers at or below `wm`, in increasing order.
pub fn seqs_upto(v: &Vec<u64>, wm: u64) -> (r: Vec<u64>)
    requires
        seqs_sorted(v@),
    ensures
        seqs_sorted(r@),
        r@.to_set() == v@.to_set().filter(|s: u64| s <= wm),
{
    let mut r: Vec<u64> = Vec::new();
    let mut i: usize = 0;
    while i < v.len() && v[i] <= wm
        invariant
            0 <= i <= v@.len(),
            r@ == v@.take(i as int),
            forall|j: int| 0 <= j < i ==> #[trigger] v@[j] <= wm,
        decreases v@.len() - i,
    {
        r.push(v[i]);
        proof {
            assert(v@.take(i + 1) =~= v@.take(i as int).push(v@[i as int]));
        }
        i = i + 1;
    }
    proof {
        assert forall|y: u64| r@.to_set().contains(y) <==> v@.to_set().filter(|s: u64| s <= wm).contains(
            y,
        ) by {
            if r@.to_set().contains(y) {
                let j = choose|j: int| 0 <= j < r@.len() && r@[j] == y;
                assert(v@[j] == y);
            }
            if v@.to_set().filter(|s: u64| s <= wm).contains(y) {
                let j = choose|j: int| 0 <= j < v@.len() && v@[j] == y;
                if j >= i {
                    if j > i {
                        assert(v@[i as int] < v@[j]);
                    }
                } else {
                    assert(r@[j] == y);
                }
            }
        }
        assert(r@.to_set() =~= v@.to_set().filter(|s: u64| s <= wm));
    }
    r
}

/// The total size, saturating at `u64::MAX`.
pub fn total_size(v: &Vec<(u64, u64)>) -> (r: u64)
    ensures
        r == (if sizes_total(v@) > u64::MAX {
            u64::MAX as nat
        } else {
            sizes_total(v@)
        }),
{
    let mut acc: u64 = 0;
    let mut i: usize = 0;
    while i < v.len()
        invariant
            0 <= i <= v@.len(),
            acc == (if sizes_total(v@.take(i as int)) > u64::MAX {
                u64::MAX as nat
            } else {
                sizes_total(v@.take(i as int))
            }),
        decreases v@.len() - i,
    {
        proof {
            assert(v@.take(i + 1).drop_last() =~= v@.take(i as int));
        }
        acc = acc.saturating_add(v[i].1);
        i = i + 1;
    }
    proof {
        assert(v@.take(i as int) =~= v@);
    }
    acc
}

} // verus!
