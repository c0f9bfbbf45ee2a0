//! Newest-wins merge of sorted entry runs, used by merge compaction.
use vstd::prelude::*;

use crate::order::{compare_bytes, lex_lt};
use crate::segment::{entries_view, strictly_sorted, EntryV, SegmentEntries};
use crate::state::{entries_map, lemma_seq_get_absent, lemma_seq_get_at, lemma_seq_get_some, seq_get};

verus! {

/// The entry for `k` in an entry list: its first occurrence.
pub open spec fn first_get(s: Seq<EntryV>, k: Seq<u8>) -> Option<Option<Seq<u8>>>
    decreases s.len(),
{
    if s.len() == 0 {
        None
    } else if s[0].0 == k {
        Some(s[0].1)
    } else {
        first_get(s.drop_first(), k)
    }
}

/// The entry for `k` in the newest run that holds it; runs are ordered oldest
/// first, so a later run overrides every earlier one.
pub open spec fn newest(all: Seq<Seq<EntryV>>, k: Seq<u8>) -> Option<Option<Seq<u8>>>
    decreases all.len(),
{
    if all.len() == 0 {
        None
    } else {
        match newest(all.drop_first(), k) {
            Some(v) => Some(v),
            None => first_get(all[0], k),
        }
    }
}

/// The map from each key to its newest entry (a value or a tombstone).
pub open spec fn newest_map(all: Seq<Seq<EntryV>>) -> Map<Seq<u8>, Option<Seq<u8>>> {
    Map::new(|k: Seq<u8>| newest(all, k) is Some, |k: Seq<u8>| newest(all, k).unwrap())
}

/// The live part of an entry map: the keys whose entry is a value.
pub open spec fn live_map(m: Map<Seq<u8>, Option<Seq<u8>>>) -> Map<Seq<u8>, Option<Seq<u8>>> {
    Map::new(|k: Seq<u8>| m.contains_key(k) && m[k] is Some, |k: Seq<u8>| m[k])
}

/// Views of a list of runs.
pub open spec fn runs_view(all: Seq<SegmentEntries>) -> Seq<Seq<EntryV>> {
    all.map_values(|r: SegmentEntries| entries_view(r@))
}

/// An entry `first_get` finds is an entry of the run.
pub proof fn lemma_first_get_member(s: Seq<EntryV>, k: Seq<u8>)
    requires
        first_get(s, k) is Some,
    ensures
        exists|i: int| 0 <= i < s.len() && (#[trigger] s[i]).0 == k,
    decreases s.len(),
{
    if s[0].0 != k {
        lemma_first_get_member(s.drop_first(), k);
        let i = choose|i: int| 0 <= i < s.drop_first().len() && (#[trigger] s.drop_first()[i]).0 == k;
        assert(s[i + 1] == s.drop_first()[i]);
    }
}

/// A key some run holds: the newest entry of a key comes from one of the runs.
pub proof fn lemma_newest_member(all: Seq<Seq<EntryV>>, k: Seq<u8>)
    requires
        newest(all, k) is Some,
    ensures
        exists|r: int, i: int| 0 <= r < all.len() && 0 <= i < all[r].len() && (#[trigger] all[r][i]).0 == k,
    decreases all.len(),
{
    match newest(all.drop_first(), k) {
        Some(_) => {
            lemma_newest_member(all.drop_first(), k);
            let (r, i) = choose|r: int, i: int|
                0 <= r < all.drop_first().len() && 0 <= i < all.drop_first()[r].len() && (
                #[trigger] all.drop_first()[r][i]).0 == k;
            assert(all[r + 1] == all.drop_first()[r]);
            assert(all[r + 1][i].0 == k);
        },
        None => {
            lemma_first_get_member(all[0], k);
            let i = choose|i: int| 0 <= i < all[0].len() && (#[trigger] all[0][i]).0 == k;
            assert(all[0][i].0 == k);
        },
    }
}

/// Appending an entry makes it the value of its key.
pub proof fn lemma_entries_map_push(s: Seq<EntryV>, e: EntryV)
    ensures
        entries_map(s.push(e)) == entries_map(s).insert(e.0, e.1),
{
    assert forall|k: Seq<u8>| seq_get(s.push(e), k) == (if k == e.0 {
        Some(e.1)
    } else {
        seq_get(s, k)
    }) by {
        assert(s.push(e).drop_last() =~= s);
    }
    assert(entries_map(s.push(e)) =~= entries_map(s).insert(e.0, e.1));
}

fn copy_entry(e: &(Vec<u8>, Option<Vec<u8>>)) -> (r: (Vec<u8>, Option<Vec<u8>>))
    ensures
        crate::segment::entry_view(r) == crate::segment::entry_view(*e),
{
    let v = match &e.1 {
        Some(v) => Some(vstd::slice::slice_to_vec(v.as_slice())),
        None => None,
    };
    (vstd::slice::slice_to_vec(e.0.as_slice()), v)
}

/// Whether a run's keys strictly increase.
fn run_sorted(run: &SegmentEntries) -> (r: bool)
    ensures
        r == strictly_sorted(entries_view(run@)),
{
    let ghost v = entries_view(run@);
    if run.len() < 2 {
        return true;
    }
    let mut i: usize = 1;
    while i < run.len()
        invariant
            1 <= i <= run@.len(),
            v == entries_view(run@),
            strictly_sorted(v.take(i as int)),
        decreases run@.len() - i,
    {
        let c = compare_bytes(run[i - 1].0.as_slice(), run[i].0.as_slice());
        proof {
            assert(v[i - 1].0 == run@[i - 1].0@);
            assert(v[i as int].0 == run@[i as int].0@);
        }
        if c >= 0 {
            proof {
                crate::order::lemma_lex_asymmetric(v[i - 1].0, v[i as int].0);
                crate::order::lemma_lex_irreflexive(v[i as int].0);
                assert(!lex_lt(v[i - 1].0, v[i as int].0));
            }
            return false;
        }
        proof {
            let t = v.take(i + 1);
            assert forall|a: int, b: int| 0 <= a < b < t.len() implies lex_lt(
                #[trigger] t[a].0,
                #[trigger] t[b].0,
            ) by {
                if b < i {
                    assert(t[a] == v.take(i as int)[a] && t[b] == v.take(i as int)[b]);
                } else if a < i - 1 {
                    assert(t[a] == v.take(i as int)[a]);
                    assert(lex_lt(v.take(i as int)[a].0, v.take(i as int)[i - 1].0));
                    crate::order::lemma_lex_transitive(v[a].0, v[i - 1].0, v[i as int].0);
                }
            }
        }
        i = i + 1;
    }
    proof {
        assert(v.take(i as int) =~= v);
    }
    true
}

/// Merge two sorted runs; `newer` wins on equal keys.
fn merge_two(newer: &SegmentEntries, older: &SegmentEntries) -> (out: SegmentEntries)
    requires
        strictly_sorted(entries_view(newer@)),
        strictly_sorted(entries_view(older@)),
    ensures
        strictly_sorted(entries_view(out@)),
        entries_map(entries_view(out@)) == entries_map(entries_view(older@)).union_prefer_right(
            entries_map(entries_view(newer@)),
        ),
{
    let ghost a = entries_view(newer@);
    let ghost b = entries_view(older@);
    let mut out: SegmentEntries = Vec::new();
    let mut i: usize = 0;
    let mut j: usize = 0;
    while i < newer.len() || j < older.len()
        invariant
            0 <= i <= newer@.len(),
            0 <= j <= older@.len(),
            a == entries_view(newer@),
            b == entries_view(older@),
            strictly_sorted(a),
            strictly_sorted(b),
            strictly_sorted(entries_view(out@)),
            entries_map(entries_view(out@)) == entries_map(b.take(j as int)).union_prefer_right(
                entries_map(a.take(i as int)),
            ),
            out@.len() > 0 ==> (i < newer@.len() ==> lex_lt(
                entries_view(out@).last().0,
                a[i as int].0,
            )) && (j < older@.len() ==> lex_lt(entries_view(out@).last().0, b[j as int].0)),
        decreases newer@.len() + older@.len() - i - j,
    {
        let ghost ov = entries_view(out@);
        let c: i8 = if i == newer.len() {
            1
        } else if j == older.len() {
            -1
        } else {
            compare_bytes(newer[i].0.as_slice(), older[j].0.as_slice())
        };
        let ghost pick_a = c <= 0;
        let e = if c <= 0 {
            copy_entry(&newer[i])
        } else {
            copy_entry(&older[j])
        };
        proof {
            if c <= 0 {
                assert(a[i as int] == crate::segment::entry_view(newer@[i as int]));
            } else {
                assert(b[j as int] == crate::segment::entry_view(older@[j as int]));
            }
        }
        let ghost ev = crate::segment::entry_view(e);
        out.push(e);
        proof {
            assert(entries_view(out@) =~= ov.push(ev));
            lemma_entries_map_push(ov, ev);
            let nv = entries_view(out@);
            assert(strictly_sorted(nv)) by {
                assert forall|x: int, y: int| 0 <= x < y < nv.len() implies lex_lt(
                    #[trigger] nv[x].0,
                    #[trigger] nv[y].0,
                ) by {
                    if y < ov.len() {
                        assert(nv[x] == ov[x] && nv[y] == ov[y]);
                    } else if x < ov.len() - 1 {
                        assert(nv[x] == ov[x]);
                        assert(lex_lt(ov[x].0, ov[ov.len() - 1].0));
                        crate::order::lemma_lex_transitive(ov[x].0, ov.last().0, ev.0);
                    } else {
                        assert(nv[x] == ov.last());
                    }
                }
            }
        }
        if c < 0 {
            proof {
                let ai = a.take(i as int);
                let bj = b.take(j as int);
                assert(a.take(i + 1) =~= ai.push(a[i as int]));
                lemma_entries_map_push(ai, a[i as int]);
                assert(entries_map(bj).union_prefer_right(entries_map(ai.push(a[i as int])))
                    =~= entries_map(bj).union_prefer_right(entries_map(ai)).insert(
                    a[i as int].0,
                    a[i as int].1,
                ));
            }
            i = i + 1;
        } else if c > 0 {
            proof {
                let ai = a.take(i as int);
                let bj = b.take(j as int);
                assert(b.take(j + 1) =~= bj.push(b[j as int]));
                lemma_entries_map_push(bj, b[j as int]);
                // the key is in no processed newer entry: all of them are at most out's last key
                assert(!entries_map(ai).contains_key(b[j as int].0)) by {
                    if entries_map(ai).contains_key(b[j as int].0) {
                        lemma_seq_get_some(ai, b[j as int].0);
                        let x = choose|x: int| 0 <= x < ai.len() && (#[trigger] ai[x]).0 == b[j as int].0
                            && ai[x].1 == seq_get(ai, b[j as int].0).unwrap();
                        lemma_key_below_last(ov, ai, bj, b[j as int].0, x);
                        assert(lex_lt(ov.last().0, b[j as int].0));
                        if b[j as int].0 != ov.last().0 {
                            crate::order::lemma_lex_transitive(b[j as int].0, ov.last().0, b[j as int].0);
                        }
                        crate::order::lemma_lex_irreflexive(b[j as int].0);
                    }
                }
                assert(entries_map(bj.push(b[j as int])).union_prefer_right(entries_map(ai))
                    =~= entries_map(bj).union_prefer_right(entries_map(ai)).insert(
                    b[j as int].0,
                    b[j as int].1,
                ));
            }
            j = j + 1;
        } else {
            proof {
                let ai = a.take(i as int);
                let bj = b.take(j as int);
                assert(a.take(i + 1) =~= ai.push(a[i as int]));
                assert(b.take(j + 1) =~= bj.push(b[j as int]));
                lemma_entries_map_push(ai, a[i as int]);
                lemma_entries_map_push(bj, b[j as int]);
                assert(a[i as int].0 == b[j as int].0);
                assert(entries_map(bj.push(b[j as int])).union_prefer_right(
                    entries_map(ai.push(a[i as int])),
                ) =~= entries_map(bj).union_prefer_right(entries_map(ai)).insert(
                    a[i as int].0,
                    a[i as int].1,
                ));
            }
            i = i + 1;
            j = j + 1;
        }
        proof {
            let nv = entries_view(out@);
            assert(nv.last() == ev);
            if pick_a {
                assert(ev == a[i - 1]);
                if i < newer@.len() {
                    assert(lex_lt(a[i - 1].0, a[i as int].0));
                }
                if j < older@.len() {
                    if c == 0 {
                        assert(a[i - 1].0 == b[j - 1].0);
                        assert(lex_lt(b[j - 1].0, b[j as int].0));
                    } else {
                        assert(a[i - 1].0 == newer@[i - 1].0@);
                        assert(b[j as int].0 == older@[j as int].0@);
                    }
                }
            } else {
                assert(ev == b[j - 1]);
                if j < older@.len() {
                    assert(lex_lt(b[j - 1].0, b[j as int].0));
                }
                if i < newer@.len() {
                    assert(a[i as int].0 == newer@[i as int].0@);
                    assert(b[j - 1].0 == older@[j - 1].0@);
                }
            }
        }
    }
    proof {
        assert(a.take(i as int) =~= a);
        assert(b.take(j as int) =~= b);
    }
    out
}

/// A key carried by a processed newer entry is at most the last output key.
proof fn lemma_key_below_last(
    ov: Seq<EntryV>,
    ai: Seq<EntryV>,
    bj: Seq<EntryV>,
    k: Seq<u8>,
    x: int,
)
    requires
        0 <= x < ai.len(),
        ai[x].0 == k,
        entries_map(ov) == entries_map(bj).union_prefer_right(entries_map(ai)),
        strictly_sorted(ov),
    ensures
        ov.len() > 0,
        k == ov.last().0 || lex_lt(k, ov.last().0),
{
    lemma_seq_get_at_any(ai, x);
    assert(entries_map(ov).contains_key(k));
    lemma_seq_get_some(ov, k);
    let y = choose|y: int| 0 <= y < ov.len() && (#[trigger] ov[y]).0 == k && ov[y].1 == seq_get(
        ov,
        k,
    ).unwrap();
    if y < ov.len() - 1 {
        assert(lex_lt(ov[y].0, ov[ov.len() - 1].0));
    }
}

/// Some value is found for a key that an entry carries.
proof fn lemma_seq_get_at_any(s: Seq<EntryV>, x: int)
    requires
        0 <= x < s.len(),
    ensures
        seq_get(s, s[x].0) is Some,
    decreases s.len(),
{
    if s.last().0 != s[x].0 {
        assert(x < s.len() - 1);
        assert(s.drop_last()[x] == s[x]);
        lemma_seq_get_at_any(s.drop_last(), x);
    }
}

/// Dropping a first entry for another key does not change a lookup.
proof fn lemma_seq_get_drop_first(s: Seq<EntryV>, k: Seq<u8>)
    requires
        s.len() > 0,
        s[0].0 != k,
    ensures
        seq_get(s, k) == seq_get(s.drop_first(), k),
    decreases s.len(),
{
    let t = s.drop_first();
    if s.len() == 1 {
        assert(s.drop_last().len() == 0);
        assert(t.len() == 0);
    } else if s.last().0 == k {
        assert(t.last() == s.last());
    } else {
        assert(t.last() == s.last());
        assert(s.drop_last()[0] == s[0]);
        assert(s.drop_last().drop_first() =~= t.drop_last());
        lemma_seq_get_drop_first(s.drop_last(), k);
    }
}

/// In a sorted list the first and the last occurrence of a key coincide.
pub proof fn lemma_sorted_first_get(s: Seq<EntryV>, k: Seq<u8>)
    requires
        strictly_sorted(s),
    ensures
        seq_get(s, k) == first_get(s, k),
    decreases s.len(),
{
    if s.len() > 0 {
        if s[0].0 == k {
            lemma_seq_get_at(s, 0);
        } else {
            lemma_seq_get_drop_first(s, k);
            assert(strictly_sorted(s.drop_first())) by {
                assert forall|i: int, j: int| 0 <= i < j < s.drop_first().len() implies lex_lt(
                    #[trigger] s.drop_first()[i].0,
                    #[trigger] s.drop_first()[j].0,
                ) by {
                    assert(s.drop_first()[i] == s[i + 1] && s.drop_first()[j] == s[j + 1]);
                }
            }
            lemma_sorted_first_get(s.drop_first(), k);
        }
    }
}

/// Appending an entry only matters for a key not seen before.
proof fn lemma_first_get_push(s: Seq<EntryV>, e: EntryV, k: Seq<u8>)
    ensures
        first_get(s.push(e), k) == (match first_get(s, k) {
            Some(v) => Some(v),
            None => if e.0 == k {
                Some(e.1)
            } else {
                None
            },
        }),
    decreases s.len(),
{
    let p = s.push(e);
    if s.len() > 0 {
        assert(p[0] == s[0]);
        assert(p.drop_first() =~= s.drop_first().push(e));
        lemma_first_get_push(s.drop_first(), e, k);
    } else {
        assert(p[0] == e);
        assert(p.drop_first() =~= Seq::<EntryV>::empty());
        assert(first_get(p.drop_first(), k) is None);
    }
}

/// An entry map of a single entry.
proof fn lemma_entries_map_single(e: EntryV)
    ensures
        entries_map(seq![e]) == Map::<Seq<u8>, Option<Seq<u8>>>::empty().insert(e.0, e.1),
{
    lemma_entries_map_push(Seq::<EntryV>::empty(), e);
    assert(Seq::<EntryV>::empty().push(e) =~= seq![e]);
    assert(entries_map(Seq::<EntryV>::empty()) =~= Map::<Seq<u8>, Option<Seq<u8>>>::empty());
}

/// Newest-wins merge of entry runs (ordered oldest first) into one sorted,
/// tombstone-free list: each key keeps the entry of the newest run holding it
/// (its first occurrence there), and keys whose newest entry is a tombstone
/// are dropped.
pub fn merge_entries(all: Vec<SegmentEntries>) -> (out: SegmentEntries)
    ensures
        strictly_sorted(entries_view(out@)),
        forall|i: int| 0 <= i < out@.len() ==> (#[trigger] out@[i]).1 is Some,
        entries_map(entries_view(out@)) == live_map(newest_map(runs_view(all@))),
{
    let ghost rv = runs_view(all@);
    let n = all.len();
    let mut acc: SegmentEntries = Vec::new();
    let mut idx: usize = n;
    proof {
        assert(entries_map(entries_view(acc@)) =~= newest_map(rv.subrange(n as int, n as int)));
    }
    while idx > 0
        invariant
            idx <= n,
            n == all@.len(),
            rv == runs_view(all@),
            strictly_sorted(entries_view(acc@)),
            entries_map(entries_view(acc@)) == newest_map(rv.subrange(idx as int, n as int)),
        decreases idx,
    {
        let ghost rest = rv.subrange(idx as int, n as int);
        let ghost full = rv.subrange(idx - 1, n as int);
        let run = &all[idx - 1];
        let ghost r = entries_view(run@);
        proof {
            assert(rv[idx - 1] == r);
            assert(full.drop_first() =~= rest);
            assert(full[0] == r);
        }
        if run_sorted(run) {
            let merged = merge_two(&acc, run);
            proof {
                assert forall|k: Seq<u8>| true implies #[trigger] seq_get(r, k) == first_get(r, k) by {
                    lemma_sorted_first_get(r, k);
                }
                assert(entries_map(entries_view(merged@)) =~= newest_map(full));
            }
            acc = merged;
        } else {
            let mut t: usize = 0;
            while t < run.len()
                invariant
                    0 <= t <= run@.len(),
                    r == entries_view(run@),
                    strictly_sorted(entries_view(acc@)),
                    entries_map(entries_view(acc@)) == Map::new(
                        |k: Seq<u8>|
                            (match newest(rest, k) {
                                Some(v) => Some(v),
                                None => first_get(r.take(t as int), k),
                            }) is Some,
                        |k: Seq<u8>|
                            (match newest(rest, k) {
                                Some(v) => Some(v),
                                None => first_get(r.take(t as int), k),
                            }).unwrap(),
                    ),
                decreases run@.len() - t,
            {
                let mut single: SegmentEntries = Vec::new();
                single.push(copy_entry(&run[t]));
                let ghost e = r[t as int];
                proof {
                    assert(entries_view(single@) =~= seq![e]);
                    lemma_entries_map_single(e);
                }
                let merged = merge_two(&acc, &single);
                proof {
                    assert(r.take(t + 1) =~= r.take(t as int).push(e));
                    assert forall|k: Seq<u8>| true implies #[trigger] first_get(r.take(t + 1), k) == (
                    match first_get(r.take(t as int), k) {
                        Some(v) => Some(v),
                        None => if e.0 == k {
                            Some(e.1)
                        } else {
                            None
                        },
                    }) by {
                        lemma_first_get_push(r.take(t as int), e, k);
                    }
                    assert(entries_map(entries_view(merged@)) =~= Map::new(
                        |k: Seq<u8>|
                            (match newest(rest, k) {
                                Some(v) => Some(v),
                                None => first_get(r.take(t + 1), k),
                            }) is Some,
                        |k: Seq<u8>|
                            (match newest(rest, k) {
                                Some(v) => Some(v),
                                None => first_get(r.take(t + 1), k),
                            }).unwrap(),
                    ));
                }
                acc = merged;
                t = t + 1;
            }
            proof {
                assert(r.take(t as int) =~= r);
                assert(entries_map(entries_view(acc@)) =~= newest_map(full));
            }
        }
        idx = idx - 1;
    }
    proof {
        assert(rv.subrange(0, n as int) =~= rv);
    }
    let ghost av = entries_view(acc@);
    let mut out: SegmentEntries = Vec::new();
    let mut i: usize = 0;
    proof {
        assert(entries_map(entries_view(out@)) =~= live_map(entries_map(av.take(0))));
    }
    while i < acc.len()
        invariant
            0 <= i <= acc@.len(),
            av == entries_view(acc@),
            strictly_sorted(av),
            strictly_sorted(entries_view(out@)),
            forall|x: int| 0 <= x < out@.len() ==> (#[trigger] out@[x]).1 is Some,
            forall|x: int|
                0 <= x < out@.len() ==> exists|y: int|
                    0 <= y < i && av[y] == #[trigger] entries_view(out@)[x],
            entries_map(entries_view(out@)) == live_map(entries_map(av.take(i as int))),
        decreases acc@.len() - i,
    {
        let ghost ov = entries_view(out@);
        let ghost e = av[i as int];
        proof {
            assert(av.take(i + 1) =~= av.take(i as int).push(e));
            lemma_entries_map_push(av.take(i as int), e);
        }
        if acc[i].1.is_some() {
            let c = copy_entry(&acc[i]);
            out.push(c);
            proof {
                let nv = entries_view(out@);
                assert(nv =~= ov.push(e));
                lemma_entries_map_push(ov, e);
                assert forall|x: int, z: int| 0 <= x < z < nv.len() implies lex_lt(
                    #[trigger] nv[x].0,
                    #[trigger] nv[z].0,
                ) by {
                    if z < ov.len() {
                        assert(nv[x] == ov[x] && nv[z] == ov[z]);
                    } else {
                        assert(nv[x] == ov[x]);
                        let y = choose|y: int| 0 <= y < i && av[y] == ov[x];
                        assert(lex_lt(av[y].0, av[i as int].0));
                    }
                }
                assert forall|x: int| 0 <= x < out@.len() implies exists|y: int|
                    0 <= y < i + 1 && av[y] == #[trigger] nv[x] by {
                    if x < ov.len() {
                        assert(nv[x] == ov[x]);
                        let y = choose|y: int| 0 <= y < i && av[y] == ov[x];
                        assert(av[y] == nv[x]);
                    } else {
                        assert(av[i as int] == nv[x]);
                    }
                }
                assert(entries_map(nv) =~= live_map(entries_map(av.take(i + 1))));
            }
        } else {
            proof {
                assert(!entries_map(av.take(i as int)).contains_key(e.0)) by {
                    assert forall|y: int| 0 <= y < av.take(i as int).len() implies (
                    #[trigger] av.take(i as int)[y]).0 != e.0 by {
                        assert(lex_lt(av[y].0, av[i as int].0));
                        crate::order::lemma_lex_irreflexive(e.0);
                    }
                    lemma_seq_get_absent(av.take(i as int), e.0);
                }
                assert(entries_map(ov) =~= live_map(entries_map(av.take(i + 1))));
            }
        }
        i = i + 1;
    }
    proof {
        assert(av.take(i as int) =~= av);
    }
    out
}

/// Newest wins: when the newest run holds `k`, its entry is the merged entry
/// for `k`, whatever older runs hold; a tombstone there hides every older
/// value, and a key that no run holds stays absent.
pub proof fn lemma_newest_run_wins(all: Seq<Seq<EntryV>>, k: Seq<u8>)
    requires
        all.len() > 0,
    ensures
        first_get(all.last(), k) is Some ==> newest(all, k) == first_get(all.last(), k),
        first_get(all.last(), k) == Some(None::<Seq<u8>>) ==> !live_map(
            newest_map(all),
        ).contains_key(k),
        (forall|i: int| 0 <= i < all.len() ==> first_get(#[trigger] all[i], k) is None) ==> !newest_map(
            all,
        ).contains_key(k),
    decreases all.len(),
{
    if all.len() > 1 {
        assert(all.drop_first().last() == all.last());
        lemma_newest_run_wins(all.drop_first(), k);
        if forall|i: int| 0 <= i < all.len() ==> first_get(#[trigger] all[i], k) is None {
            assert forall|i: int| 0 <= i < all.drop_first().len() implies first_get(
                #[trigger] all.drop_first()[i],
                k,
            ) is None by {
                assert(all.drop_first()[i] == all[i + 1]);
            }
            assert(first_get(all[0], k) is None);
        }
    } else {
        assert(all.drop_first().len() == 0);
        assert(newest(all.drop_first(), k) is None);
        assert(all.last() == all[0]);
        if forall|i: int| 0 <= i < all.len() ==> first_get(#[trigger] all[i], k) is None {
            assert(first_get(all[0], k) is None);
        }
    }
}

/// An equal copy of an entry list.
pub fn copy_entries(v: &SegmentEntries) -> (r: SegmentEntries)
    ensures
        entries_view(r@) == entries_view(v@),
{
    let mut out: SegmentEntries = Vec::new();
    let mut i: usize = 0;
    while i < v.len()
        invariant
            0 <= i <= v@.len(),
            entries_view(out@) == entries_view(v@).take(i as int),
        decreases v@.len() - i,
    {
        let e = copy_entry(&v[i]);
        proof {
            assert(entries_view(v@).take(i + 1) =~= entries_view(v@).take(i as int).push(
                crate::segment::entry_view(v@[i as int]),
            ));
            assert(entries_view(out@.push(e)) =~= entries_view(out@).push(
                crate::segment::entry_view(e),
            ));
        }
        out.push(e);
        i = i + 1;
    }
    proof {
        assert(entries_view(v@).take(i as int) =~= entries_view(v@));
    }
    out
}

/// An equal copy of one entry.
pub fn copy_entry_pub(e: &(Vec<u8>, Option<Vec<u8>>)) -> (r: (Vec<u8>, Option<Vec<u8>>))
    ensures
        crate::segment::entry_view(r) == crate::segment::entry_view(*e),
{
    copy_entry(e)
}

} // verus!
