//! The partition table: runtime partition states keyed by name, sorted.
use vstd::prelude::*;

use crate::state::{
    lemma_named_get_absent, lemma_named_get_at, lemma_named_get_idx, name_lt, named_get, names_of,
    names_sorted, search_name, sat_add, sat_sub, capped, spec_contribution, PartitionState,
};
use vstd::utf8::encode_utf8;
use crate::manifest::PartitionMeta;

verus! {

/// A well-formed table: names sorted and unique, each entry named after its
/// partition, each memtable sorted.
pub open spec fn table_wf(t: Seq<(String, PartitionState)>) -> bool {
    &&& names_sorted(names_of(t))
    &&& forall|i: int| 0 <= i < t.len() ==> (#[trigger] t[i]).0@ == t[i].1.name@ && t[i].1.wf()
}

/// Find the partition named `name`.
pub fn table_find(t: &Vec<(String, PartitionState)>, name: &str) -> (r: Option<usize>)
    requires
        table_wf(t@),
    ensures
        match r {
            Some(i) => i < t@.len() && t@[i as int].0@ == name@ && named_get(t@, name@) == Some(
                t@[i as int].1,
            ),
            None => named_get(t@, name@) is None,
        },
{
    let (found, pos) = search_name(t, name);
    if found {
        proof {
            assert(names_of(t@)[pos as int] == t@[pos as int].0@);
            lemma_named_get_at(t@, pos as int);
        }
        Some(pos)
    } else {
        proof {
            assert forall|i: int| 0 <= i < t@.len() implies (#[trigger] t@[i]).0@ != name@ by {
                crate::order::lemma_lex_irreflexive(encode_utf8(name@));
                assert(names_of(t@)[i] == t@[i].0@);
            }
            lemma_named_get_absent(t@, name@);
        }
        None
    }
}

/// The partition named `name`, created empty when missing; returns its
/// position. Every other partition is left as it was.
pub fn table_create(t: &mut Vec<(String, PartitionState)>, name: &str) -> (idx: usize)
    requires
        table_wf(old(t)@),
    ensures
        table_wf(final(t)@),
        idx < final(t)@.len(),
        final(t)@[idx as int].0@ == name@,
        named_get(final(t)@, name@) == Some(final(t)@[idx as int].1),
        named_get(old(t)@, name@) is Some ==> final(t)@ == old(t)@,
        named_get(old(t)@, name@) is None ==> {
            let p = final(t)@[idx as int].1;
            &&& p.mem@.len() == 0
            &&& p.mem_bytes == 0
            &&& p.meta.segments@.len() == 0
            &&& p.meta.watermark == 0
            &&& !p.meta.dropped
            &&& !p.compacting
        },
        forall|n: Seq<char>|
            n != name@ ==> named_get(final(t)@, n) == named_get(old(t)@, n),
        names_of(final(t)@).to_set() == names_of(old(t)@).to_set().insert(name@),
{
    let (found, pos) = search_name(t, name);
    let ghost old_p = t@;
    if found {
        proof {
            assert(names_of(old_p)[pos as int] == old_p[pos as int].0@);
            lemma_named_get_at(old_p, pos as int);
            assert(names_of(old_p).to_set() =~= names_of(old_p).to_set().insert(name@));
        }
        return pos;
    }
    let ps = PartitionState::new(name.to_string());
    t.insert(pos, (name.to_string(), ps));
    proof {
        let new_p = t@;
        let on = names_of(old_p);
        let nn = names_of(new_p);
        assert(nn =~= on.take(pos as int).push(name@) + on.skip(pos as int));
        assert(names_sorted(nn)) by {
            assert forall|i: int, j: int| 0 <= i < j < nn.len() implies name_lt(
                #[trigger] nn[i],
                #[trigger] nn[j],
            ) by {
                if j < pos {
                    assert(nn[i] == on[i] && nn[j] == on[j]);
                } else if j == pos {
                    assert(nn[i] == on[i]);
                } else if i < pos {
                    assert(nn[i] == on[i] && nn[j] == on[j - 1]);
                    crate::order::lemma_lex_transitive(
                        encode_utf8(on[i]),
                        encode_utf8(name@),
                        encode_utf8(on[j - 1]),
                    );
                } else if i == pos {
                    assert(nn[j] == on[j - 1]);
                } else {
                    assert(nn[i] == on[i - 1] && nn[j] == on[j - 1]);
                }
            }
        }
        assert forall|i: int| 0 <= i < new_p.len() implies (#[trigger] new_p[i]).0@
            == new_p[i].1.name@ && new_p[i].1.wf() by {
            if i < pos {
                assert(new_p[i] == old_p[i]);
            } else if i > pos {
                assert(new_p[i] == old_p[i - 1]);
            }
        }
        assert(nn[pos as int] == name@);
        lemma_named_get_at(new_p, pos as int);
        assert forall|i: int| 0 <= i < old_p.len() implies (#[trigger] old_p[i]).0@ != name@ by {
            crate::order::lemma_lex_irreflexive(encode_utf8(name@));
            assert(on[i] == old_p[i].0@);
        }
        lemma_named_get_absent(old_p, name@);
        assert forall|n: Seq<char>| n != name@ implies named_get(new_p, n) == named_get(old_p, n) by {
            lemma_named_get_idx(old_p, n);
            lemma_named_get_idx(new_p, n);
            if let Some(v) = named_get(old_p, n) {
                let i = choose|i: int|
                    0 <= i < old_p.len() && (#[trigger] old_p[i]).0@ == n && old_p[i].1 == v;
                let ni = if i < pos {
                    i
                } else {
                    i + 1
                };
                assert(new_p[ni] == old_p[i]);
                assert(names_of(old_p)[i] == n);
                lemma_named_get_at(new_p, ni);
            } else {
                if let Some(v) = named_get(new_p, n) {
                    let i = choose|i: int|
                        0 <= i < new_p.len() && (#[trigger] new_p[i]).0@ == n && new_p[i].1 == v;
                    let oi = if i < pos {
                        i
                    } else {
                        i - 1
                    };
                    assert(new_p[i] == old_p[oi]);
                    assert(names_of(old_p)[oi] == n);
                    lemma_named_get_at(old_p, oi);
                }
            }
        }
        assert(names_of(new_p).to_set() =~= names_of(old_p).to_set().insert(name@)) by {
            assert forall|x: Seq<char>| names_of(new_p).to_set().contains(x) <==> names_of(
                old_p,
            ).to_set().insert(name@).contains(x) by {
                if names_of(new_p).to_set().contains(x) {
                    let i = choose|i: int| 0 <= i < nn.len() && nn[i] == x;
                    if i < pos {
                        assert(on[i] == x);
                    } else if i > pos {
                        assert(on[i - 1] == x);
                    }
                }
                if names_of(old_p).to_set().contains(x) {
                    let i = choose|i: int| 0 <= i < on.len() && on[i] == x;
                    if i < pos {
                        assert(nn[i] == x);
                    } else {
                        assert(nn[i + 1] == x);
                    }
                }
                if x == name@ {
                    assert(nn[pos as int] == x);
                }
            }
        }
    }
    pos
}

/// Replace the partition at `idx` by `ps`, which carries the same name.
pub fn table_set(t: &mut Vec<(String, PartitionState)>, idx: usize, ps: PartitionState)
    requires
        table_wf(old(t)@),
        idx < old(t)@.len(),
        ps.name@ == old(t)@[idx as int].0@,
        ps.wf(),
    ensures
        table_wf(final(t)@),
        final(t)@ == old(t)@.update(idx as int, (old(t)@[idx as int].0, ps)),
        names_of(final(t)@) == names_of(old(t)@),
        named_get(final(t)@, ps.name@) == Some(ps),
        forall|n: Seq<char>|
            n != ps.name@ ==> named_get(final(t)@, n) == named_get(old(t)@, n),
{
    let ghost old_p = t@;
    let name = t[idx].0.clone();
    t.set(idx, (name, ps));
    proof {
        let new_p = t@;
        assert(new_p =~= old_p.update(idx as int, (old_p[idx as int].0, ps)));
        assert(names_of(new_p) =~= names_of(old_p)) by {
            assert forall|i: int| 0 <= i < new_p.len() implies #[trigger] names_of(new_p)[i]
                == names_of(old_p)[i] by {
                if i != idx {
                    assert(new_p[i] == old_p[i]);
                }
            }
        }
        assert(names_of(new_p)[idx as int] == ps.name@);
        lemma_named_get_at(new_p, idx as int);
        assert forall|n: Seq<char>| n != ps.name@ implies named_get(new_p, n) == named_get(old_p, n) by {
            lemma_named_get_idx(old_p, n);
            lemma_named_get_idx(new_p, n);
            if let Some(v) = named_get(old_p, n) {
                let i = choose|i: int|
                    0 <= i < old_p.len() && (#[trigger] old_p[i]).0@ == n && old_p[i].1 == v;
                assert(i != idx);
                assert(new_p[i] == old_p[i]);
                assert(names_of(new_p)[i] == n);
                lemma_named_get_at(new_p, i);
            } else if let Some(v) = named_get(new_p, n) {
                let i = choose|i: int|
                    0 <= i < new_p.len() && (#[trigger] new_p[i]).0@ == n && new_p[i].1 == v;
                assert(i != idx);
                assert(new_p[i] == old_p[i]);
                assert(names_of(old_p)[i] == n);
                lemma_named_get_at(old_p, i);
            }
        }
    }
}

/// Take the partition at `idx` out of the table, leaving an empty partition
/// of the same name in its place (put it back with [`table_set`]).
pub fn table_take(t: &mut Vec<(String, PartitionState)>, idx: usize) -> (ps: PartitionState)
    requires
        table_wf(old(t)@),
        idx < old(t)@.len(),
    ensures
        table_wf(final(t)@),
        ps == old(t)@[idx as int].1,
        final(t)@.len() == old(t)@.len(),
        names_of(final(t)@) == names_of(old(t)@),
        final(t)@[idx as int].0 == old(t)@[idx as int].0,
        forall|i: int| 0 <= i < old(t)@.len() && i != idx ==> final(t)@[i] == old(t)@[i],
        forall|n: Seq<char>|
            n != ps.name@ ==> named_get(final(t)@, n) == named_get(old(t)@, n),
{
    let ghost old_p = t@;
    let (name, ps) = t.remove(idx);
    let placeholder = PartitionState::new(name.clone());
    t.insert(idx, (name, placeholder));
    proof {
        let new_p = t@;
        assert(new_p =~= old_p.update(idx as int, (old_p[idx as int].0, placeholder)));
        assert(names_of(new_p) =~= names_of(old_p)) by {
            assert forall|i: int| 0 <= i < new_p.len() implies #[trigger] names_of(new_p)[i]
                == names_of(old_p)[i] by {
                if i != idx {
                    assert(new_p[i] == old_p[i]);
                }
            }
        }
        assert forall|i: int| 0 <= i < new_p.len() implies (#[trigger] new_p[i]).0@
            == new_p[i].1.name@ && new_p[i].1.wf() by {
            if i != idx {
                assert(new_p[i] == old_p[i]);
            }
        }
        assert forall|n: Seq<char>| n != ps.name@ implies named_get(new_p, n) == named_get(old_p, n) by {
            lemma_named_get_idx(old_p, n);
            lemma_named_get_idx(new_p, n);
            if let Some(v) = named_get(old_p, n) {
                let i = choose|i: int|
                    0 <= i < old_p.len() && (#[trigger] old_p[i]).0@ == n && old_p[i].1 == v;
                assert(i != idx);
                assert(new_p[i] == old_p[i]);
                assert(names_of(new_p)[i] == n);
                lemma_named_get_at(new_p, i);
            } else if let Some(v) = named_get(new_p, n) {
                let i = choose|i: int|
                    0 <= i < new_p.len() && (#[trigger] new_p[i]).0@ == n && new_p[i].1 == v;
                assert(i != idx);
                assert(new_p[i] == old_p[i]);
                assert(names_of(old_p)[i] == n);
                lemma_named_get_at(old_p, i);
            }
        }
    }
    ps
}

/// The position of `name` in a name-sorted list.
pub fn named_find<V>(t: &Vec<(String, V)>, name: &str) -> (r: Option<usize>)
    requires
        names_sorted(names_of(t@)),
    ensures
        match r {
            Some(i) => i < t@.len() && t@[i as int].0@ == name@ && named_get(t@, name@) == Some(
                t@[i as int].1,
            ),
            None => named_get(t@, name@) is None,
        },
{
    let (found, pos) = search_name(t, name);
    if found {
        proof {
            assert(names_of(t@)[pos as int] == t@[pos as int].0@);
            lemma_named_get_at(t@, pos as int);
        }
        Some(pos)
    } else {
        proof {
            assert forall|i: int| 0 <= i < t@.len() implies (#[trigger] t@[i]).0@ != name@ by {
                crate::order::lemma_lex_irreflexive(encode_utf8(name@));
                assert(names_of(t@)[i] == t@[i].0@);
            }
            lemma_named_get_absent(t@, name@);
        }
        None
    }
}

/// The recorded watermark of partition `name`, if it has metadata.
pub fn named_meta_watermark(parts: &Vec<(String, PartitionMeta)>, name: &str) -> (r: Option<u64>)
    requires
        names_sorted(names_of(parts@)),
    ensures
        r == (match named_get(parts@, name@) {
            Some(m) => Some(m.watermark),
            None => None,
        }),
{
    match named_find(parts, name) {
        Some(i) => Some(parts[i].1.watermark),
        None => None,
    }
}

} // verus!
