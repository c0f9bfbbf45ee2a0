//! Rebuilding engine state from the durable manifest and journal tail.
use vstd::prelude::*;
use vstd::utf8::encode_utf8;
use crate::engine::anchored;

use crate::journal::{dec_stream, decode_group_stream, Group, GroupV, OpV};
use crate::cache::IndexCache;
use crate::config::Config;
use crate::engine::{
    compact_partition_locked, flush_partition, gc_foreign_journals, gc_journal, min_watermark_of,
    min_live_watermark, parse_current,
};
use crate::error::Error;
use crate::keys::{
    current_key, journal_prefix, journal_prefix_epoch, manifest_key, manifest_prefix,
    segment_key, segment_root,
};
use crate::manifest::ManifestCodec;
use crate::seqindex::{insert_seq, insert_size};
use crate::store::Store;
use crate::table::{named_find, table_find};
use crate::manifest::PartitionMeta;
use crate::state::{named_get, names_of, EngineState, PartitionState};
use crate::table::{table_create, table_set, table_take, table_wf};
use crate::keys::{
    parse_journal_tail, parse_tail_seq, parse_uint, parse_uint_range, rfind_char,
    spec_parse_journal_tail, spec_parse_tail_seq, str_chars,
};

verus! {

/// The journal watermark of partition `n` (`0` when it has no metadata).
pub open spec fn wm_of(parts: Seq<(String, PartitionMeta)>, n: Seq<char>) -> u64 {
    match named_get(parts, n) {
        Some(m) => m.watermark,
        None => 0,
    }
}

/// The memtable map of partition `n` (empty when it has no runtime state).
pub open spec fn mem_of(t: Seq<(String, PartitionState)>, n: Seq<char>) -> Map<
    Seq<u8>,
    Option<Seq<u8>>,
> {
    match named_get(t, n) {
        Some(p) => p.mem_map(),
        None => Map::empty(),
    }
}

/// `m` after applying, in order, the ops of `ops` that target partition `n`.
pub open spec fn ops_into(m: Map<Seq<u8>, Option<Seq<u8>>>, ops: Seq<OpV>, n: Seq<char>) -> Map<
    Seq<u8>,
    Option<Seq<u8>>,
>
    decreases ops.len(),
{
    if ops.len() == 0 {
        m
    } else {
        let prev = ops_into(m, ops.drop_last(), n);
        if ops.last().part == n {
            prev.insert(ops.last().key, ops.last().value)
        } else {
            prev
        }
    }
}

/// Whether some op of `ops` targets partition `n`.
pub open spec fn targets(ops: Seq<OpV>, n: Seq<char>) -> bool {
    exists|i: int| 0 <= i < ops.len() && (#[trigger] ops[i]).part == n
}

/// Apply a committed group while rebuilding state: every op whose partition
/// has not folded the group yet (group seq above the partition's watermark)
/// goes into that partition's memtable, creating the partition (and its
/// metadata) when missing. Partitions that already hold the group are left
/// alone.
pub fn apply_group_recover(
    st: &mut EngineState,
    t: &mut Vec<(String, PartitionState)>,
    group: &Group,
)
    requires
        old(st).wf(),
        table_wf(old(t)@),
    ensures
        final(st).wf(),
        table_wf(final(t)@),
        forall|n: Seq<char>|
            group.seq > wm_of(old(st).partitions@, n) && #[trigger] targets(group@.ops, n) ==> named_get(
                final(t)@,
                n,
            ) is Some && mem_of(final(t)@, n) == ops_into(mem_of(old(t)@, n), group@.ops, n)
                && named_get(final(st).partitions@, n) is Some,
        forall|n: Seq<char>|
            !(group.seq > wm_of(old(st).partitions@, n) && targets(group@.ops, n)) ==> #[trigger] named_get(
                final(t)@,
                n,
            ) == named_get(old(t)@, n),
        forall|n: Seq<char>|
            #[trigger] named_get(old(st).partitions@, n) is Some ==> named_get(
                final(st).partitions@,
                n,
            ) == named_get(old(st).partitions@, n),
        forall|n: Seq<char>|
            #[trigger] wm_of(final(st).partitions@, n) == wm_of(old(st).partitions@, n),
        forall|n: Seq<char>|
            #[trigger] named_get(old(t)@, n) is Some ==> named_get(final(t)@, n) is Some
                && named_get(final(t)@, n).unwrap().meta == named_get(old(t)@, n).unwrap().meta
                && named_get(final(t)@, n).unwrap().compacting == named_get(
                old(t)@,
                n,
            ).unwrap().compacting,
        final(st).cfg == old(st).cfg,
        final(st).journal_seq == old(st).journal_seq,
        final(st).fence_epoch == old(st).fence_epoch,
        final(st).journal_seqs == old(st).journal_seqs,
        final(st).journal_sizes == old(st).journal_sizes,
        final(st).current_bytes == old(st).current_bytes,
        final(st).published_min_wm == old(st).published_min_wm,
        final(st).manifest_seq == old(st).manifest_seq,
        final(st).next_segment_id == old(st).next_segment_id,
{
    let ghost ops = group@.ops;
    let ghost st0 = *st;
    let ghost t0 = t@;
    let mut j: usize = 0;
    while j < group.ops.len()
        invariant
            0 <= j <= group.ops@.len(),
            ops == group@.ops,
            st.wf(),
            table_wf(t@),
            forall|n: Seq<char>|
                group.seq > wm_of(st0.partitions@, n) && #[trigger] targets(ops.take(j as int), n)
                    ==> named_get(t@, n) is Some && mem_of(t@, n) == ops_into(
                    mem_of(t0, n),
                    ops.take(j as int),
                    n,
                ) && named_get(st.partitions@, n) is Some,
            forall|n: Seq<char>|
                !(group.seq > wm_of(st0.partitions@, n) && targets(ops.take(j as int), n))
                    ==> #[trigger] named_get(t@, n) == named_get(t0, n),
            forall|n: Seq<char>|
                #[trigger] named_get(st0.partitions@, n) is Some ==> named_get(st.partitions@, n)
                    == named_get(st0.partitions@, n),
            forall|n: Seq<char>| #[trigger] wm_of(st.partitions@, n) == wm_of(st0.partitions@, n),
            forall|n: Seq<char>|
                #[trigger] named_get(t0, n) is Some ==> named_get(t@, n) is Some && named_get(
                    t@,
                    n,
                ).unwrap().meta == named_get(t0, n).unwrap().meta && named_get(
                    t@,
                    n,
                ).unwrap().compacting == named_get(t0, n).unwrap().compacting,
            st.cfg == st0.cfg,
            st.journal_seq == st0.journal_seq,
            st.fence_epoch == st0.fence_epoch,
            st.journal_seqs == st0.journal_seqs,
            st.journal_sizes == st0.journal_sizes,
            st.current_bytes == st0.current_bytes,
            st.published_min_wm == st0.published_min_wm,
            st.manifest_seq == st0.manifest_seq,
            st.next_segment_id == st0.next_segment_id,
        decreases group.ops@.len() - j,
    {
        let op = &group.ops[j];
        let ghost o = ops[j as int];
        proof {
            assert(o == op@);
            assert(ops.take(j + 1).drop_last() =~= ops.take(j as int));
            assert(ops.take(j + 1).last() == o);
        }
        let wm = match crate::table::named_meta_watermark(&st.partitions, op.part.as_str()) {
            Some(w) => w,
            None => 0,
        };
        proof {
            assert(wm == wm_of(st.partitions@, o.part));
            assert(wm_of(st.partitions@, o.part) == wm_of(st0.partitions@, o.part));
        }
        if group.seq <= wm {
            proof {
                assert(ops.take(j + 1)[j as int] == o);
                assert forall|n: Seq<char>|
                    group.seq > wm_of(st0.partitions@, n) && #[trigger] targets(ops.take(j + 1), n) implies named_get(
                    t@,
                    n,
                ) is Some && mem_of(t@, n) == ops_into(mem_of(t0, n), ops.take(j + 1), n)
                    && named_get(st.partitions@, n) is Some by {
                    assert(n != o.part);
                    let i = choose|i: int| 0 <= i < ops.take(j + 1).len() && (#[trigger] ops.take(
                        j + 1,
                    )[i]).part == n;
                    assert(i != j);
                    assert(ops.take(j as int)[i] == ops.take(j + 1)[i]);
                    assert(targets(ops.take(j as int), n));
                }
                assert forall|n: Seq<char>|
                    !(group.seq > wm_of(st0.partitions@, n) && targets(ops.take(j + 1), n)) implies named_get(
                    t@,
                    n,
                ) == named_get(t0, n) by {
                    if targets(ops.take(j as int), n) {
                        let i = choose|i: int| 0 <= i < ops.take(j as int).len() && (#[trigger] ops.take(
                            j as int,
                        )[i]).part == n;
                        assert(ops.take(j + 1)[i] == ops.take(j as int)[i]);
                    }
                }
            }
        } else {
            let ghost t_pre = t@;
            let ghost st_pre = *st;
            let idx = table_create(t, op.part.as_str());
            let ghost t1 = t@;
            let mut ps = table_take(t, idx);
            let ghost ps_old = ps;
            let v: Option<&[u8]> = match &op.value {
                Some(v) => Some(v.as_slice()),
                None => None,
            };
            proof {
                assert((match v {
                    Some(x) => Some(x@),
                    None => None,
                }) == o.value);
            }
            ps.apply(op.key.as_slice(), v);
            let ghost ps_new = ps;
            table_set(t, idx, ps);
            st.ensure_meta(op.part.as_str());
            proof {
                let n0 = o.part;
                assert(ops.take(j + 1)[j as int] == o);
                assert(named_get(t1, n0) == Some(ps_old));
                assert(ps_old.mem_map() == ops_into(mem_of(t0, n0), ops.take(j as int), n0)) by {
                    if targets(ops.take(j as int), n0) {
                        assert(group.seq > wm_of(st0.partitions@, n0));
                        assert(named_get(t_pre, n0) is Some);
                        assert(t1 == t_pre);
                    } else {
                        assert forall|i: int| 0 <= i < ops.take(j as int).len() implies (
                        #[trigger] ops.take(j as int)[i]).part != n0 by {}
                        lemma_ops_into_untargeted(mem_of(t0, n0), ops.take(j as int), n0);
                        if named_get(t_pre, n0) is Some {
                            assert(t1 == t_pre);
                        } else {
                            assert(crate::state::mem_view(ps_old.mem@) =~= Seq::<
                                crate::segment::EntryV,
                            >::empty());
                            assert(ps_old.mem_map() =~= Map::<Seq<u8>, Option<Seq<u8>>>::empty());
                        }
                    }
                }
                assert(wm_of(st.partitions@, n0) == wm_of(st_pre.partitions@, n0));
                assert forall|n: Seq<char>| #[trigger] wm_of(st.partitions@, n) == wm_of(
                    st0.partitions@,
                    n,
                ) by {
                    assert(wm_of(st_pre.partitions@, n) == wm_of(st0.partitions@, n));
                }
                assert forall|n: Seq<char>|
                    group.seq > wm_of(st0.partitions@, n) && #[trigger] targets(ops.take(j + 1), n) implies named_get(
                    t@,
                    n,
                ) is Some && mem_of(t@, n) == ops_into(mem_of(t0, n), ops.take(j + 1), n)
                    && named_get(st.partitions@, n) is Some by {
                    if n != n0 {
                        let i = choose|i: int| 0 <= i < ops.take(j + 1).len() && (#[trigger] ops.take(
                            j + 1,
                        )[i]).part == n;
                        assert(i != j);
                        assert(ops.take(j as int)[i] == ops.take(j + 1)[i]);
                        assert(targets(ops.take(j as int), n));
                        assert(named_get(t@, n) == named_get(t_pre, n));
                    } else {
                        assert(ps_new.name@ == n0);
                        assert(named_get(t@, n0) == Some(ps_new));
                        assert(mem_of(t@, n0) == ps_new.mem_map());
                    }
                }
                assert forall|n: Seq<char>|
                    !(group.seq > wm_of(st0.partitions@, n) && targets(ops.take(j + 1), n)) implies named_get(
                    t@,
                    n,
                ) == named_get(t0, n) by {
                    if targets(ops.take(j as int), n) {
                        let i = choose|i: int| 0 <= i < ops.take(j as int).len() && (#[trigger] ops.take(
                            j as int,
                        )[i]).part == n;
                        assert(ops.take(j + 1)[i] == ops.take(j as int)[i]);
                    }
                    if n == n0 {
                        assert(targets(ops.take(j + 1), n));
                    } else {
                        assert(named_get(t@, n) == named_get(t_pre, n));
                    }
                }
                assert forall|n: Seq<char>|
                    #[trigger] named_get(t0, n) is Some implies named_get(t@, n) is Some && named_get(
                        t@,
                        n,
                    ).unwrap().meta == named_get(t0, n).unwrap().meta && named_get(
                        t@,
                        n,
                    ).unwrap().compacting == named_get(t0, n).unwrap().compacting by {
                    if n == n0 {
                        assert(t1 == t_pre);
                    } else {
                        assert(named_get(t@, n) == named_get(t_pre, n));
                    }
                }
                assert forall|n: Seq<char>|
                    #[trigger] named_get(st0.partitions@, n) is Some implies named_get(
                    st.partitions@,
                    n,
                ) == named_get(st0.partitions@, n) by {
                    assert(named_get(st_pre.partitions@, n) == named_get(st0.partitions@, n));
                }
            }
        }
        j = j + 1;
    }
    proof {
        assert(ops.take(j as int) =~= ops);
    }
}

/// Ops that do not target `n` leave its map unchanged.
pub proof fn lemma_ops_into_untargeted(m: Map<Seq<u8>, Option<Seq<u8>>>, ops: Seq<OpV>, n: Seq<char>)
    requires
        forall|i: int| 0 <= i < ops.len() ==> (#[trigger] ops[i]).part != n,
    ensures
        ops_into(m, ops, n) == m,
    decreases ops.len(),
{
    if ops.len() > 0 {
        assert forall|i: int| 0 <= i < ops.drop_last().len() implies (
        #[trigger] ops.drop_last()[i]).part != n by {
            assert(ops.drop_last()[i] == ops[i]);
        }
        lemma_ops_into_untargeted(m, ops.drop_last(), n);
        assert(ops[ops.len() - 1].part != n);
    }
}

/// The sequence a journal object key names: below `root` (any epoch) when a
/// root is given, else the trailing number of the key.
pub open spec fn spec_journal_seq_of(key: Seq<char>, root: Option<Seq<char>>) -> Option<u64> {
    match root {
        Some(r) => match spec_parse_journal_tail(key, r) {
            Some((_, s)) => Some(s),
            None => None,
        },
        None => spec_parse_tail_seq(key),
    }
}

/// The sequence a listed journal object key names, if it is one.
pub fn journal_seq_of(key: &str, root: Option<&str>) -> (r: Option<u64>)
    ensures
        r == spec_journal_seq_of(
            key@,
            match root {
                Some(x) => Some(x@),
                None => None,
            },
        ),
{
    match root {
        Some(rt) => match parse_journal_tail(key, rt) {
            Some((_, s)) => Some(s),
            None => None,
        },
        None => parse_tail_seq(key),
    }
}

/// Keys ordered by non-decreasing sequence.
pub open spec fn by_seq(v: Seq<(String, u64)>) -> bool {
    forall|i: int, j: int| 0 <= i < j < v.len() ==> #[trigger] v[i].1 <= #[trigger] v[j].1
}

/// Stable sort by sequence: the same keys, ordered by sequence, equal
/// sequences keeping their order.
pub fn sort_by_seq(v: Vec<(String, u64)>) -> (r: Vec<(String, u64)>)
    ensures
        by_seq(r@),
        r@.to_multiset() == v@.to_multiset(),
{
    broadcast use vstd::seq_lib::group_to_multiset_ensures;

    let mut out: Vec<(String, u64)> = Vec::new();
    let mut j: usize = 0;
    let n = v.len();
    let mut src = v;
    let ghost orig = src@;
    proof {
        assert(orig.take(0) =~= Seq::<(String, u64)>::empty());
        assert(orig.skip(0) =~= orig);
    }
    while j < n
        invariant
            0 <= j <= n,
            n == orig.len(),
            src@ == orig.skip(j as int),
            by_seq(out@),
            out@.to_multiset() == orig.take(j as int).to_multiset(),
        decreases n - j,
    {
        let x = src.remove(0);
        proof {
            assert(x == orig[j as int]);
            assert(src@ =~= orig.skip(j + 1));
        }
        let mut i: usize = out.len();
        while i > 0 && out[i - 1].1 > x.1
            invariant
                0 <= i <= out@.len(),
                forall|k: int| i <= k < out@.len() ==> (#[trigger] out@[k]).1 > x.1,
            decreases i,
        {
            i = i - 1;
        }
        let ghost o = out@;
        let ghost xv = x;
        out.insert(i, x);
        proof {
            assert(out@ =~= o.insert(i as int, xv));
            assert(out@.remove(i as int) =~= o);
            assert(out@[i as int] == xv);
            out@.to_multiset_ensures();
            o.to_multiset_ensures();
            assert(out@.contains(xv));
            assert(out@.to_multiset().count(xv) > 0);
            assert(o.to_multiset() == out@.to_multiset().remove(xv));
            assert(out@.to_multiset() =~= o.to_multiset().insert(xv));
            assert(orig.take(j + 1) =~= orig.take(j as int).push(xv));
            orig.take(j as int).to_multiset_ensures();
            assert(orig.take(j + 1).to_multiset() =~= orig.take(j as int).to_multiset().insert(xv));
            assert forall|a: int, b: int| 0 <= a < b < out@.len() implies #[trigger] out@[a].1
                <= #[trigger] out@[b].1 by {
                if b < i {
                    assert(out@[a] == o[a] && out@[b] == o[b]);
                } else if b == i {
                    assert(out@[a] == o[a]);
                    assert(o[i - 1].1 <= xv.1);
                    if a < i - 1 {
                        assert(o[a].1 <= o[i - 1].1);
                    }
                } else if a < i {
                    assert(out@[a] == o[a] && out@[b] == o[b - 1]);
                    assert(o[i - 1].1 <= xv.1);
                    if a < i - 1 {
                        assert(o[a].1 <= o[i - 1].1);
                    }
                } else if a == i {
                    assert(out@[b] == o[b - 1]);
                } else {
                    assert(out@[a] == o[a - 1] && out@[b] == o[b - 1]);
                }
            }
        }
        j = j + 1;
    }
    proof {
        assert(orig.take(n as int) =~= orig);
    }
    out
}

/// Record `pm` as the durable metadata of partition `name`, replacing any
/// previous entry.
pub fn set_partition_meta(st: &mut EngineState, name: &str, pm: PartitionMeta)
    requires
        old(st).wf(),
    ensures
        final(st).wf(),
        named_get(final(st).partitions@, name@) == Some(pm),
        forall|n: Seq<char>|
            n != name@ ==> named_get(final(st).partitions@, n) == named_get(old(st).partitions@, n),
        crate::engine::same_globals(*final(st), *old(st)),
{
    st.ensure_meta(name);
    let idx = match named_find(&st.partitions, name) {
        Some(i) => i,
        None => {
            return;
        },
    };
    let ghost old_p = st.partitions@;
    let key = st.partitions[idx].0.clone();
    st.partitions.set(idx, (key, pm));
    proof {
        let new_p = st.partitions@;
        assert(names_of(new_p) =~= names_of(old_p)) by {
            assert forall|i: int| 0 <= i < new_p.len() implies #[trigger] names_of(new_p)[i]
                == names_of(old_p)[i] by {
                if i != idx {
                    assert(new_p[i] == old_p[i]);
                }
            }
        }
        assert(names_of(new_p)[idx as int] == name@);
        crate::state::lemma_named_get_at(new_p, idx as int);
        assert forall|n: Seq<char>| n != name@ implies named_get(new_p, n) == named_get(old_p, n) by {
            crate::state::lemma_named_get_idx(old_p, n);
            crate::state::lemma_named_get_idx(new_p, n);
            if let Some(v) = named_get(old_p, n) {
                let i = choose|i: int|
                    0 <= i < old_p.len() && (#[trigger] old_p[i]).0@ == n && old_p[i].1 == v;
                assert(i != idx);
                assert(new_p[i] == old_p[i]);
                assert(names_of(new_p)[i] == n);
                crate::state::lemma_named_get_at(new_p, i);
            } else if let Some(v) = named_get(new_p, n) {
                let i = choose|i: int|
                    0 <= i < new_p.len() && (#[trigger] new_p[i]).0@ == n && new_p[i].1 == v;
                assert(i != idx);
                assert(new_p[i] == old_p[i]);
                assert(names_of(old_p)[i] == n);
                crate::state::lemma_named_get_at(old_p, i);
            }
        }
    }
}

/// The state of a prefix where nothing was ever published: no partition,
/// no journal, no manifest, epoch 0.
pub open spec fn fresh_state(st: EngineState) -> bool {
    &&& st.partitions@.len() == 0
    &&& st.journal_seq == 0
    &&& st.manifest_seq == 0
    &&& st.next_segment_id == 0
    &&& st.journal_seqs@.len() == 0
    &&& st.journal_sizes@.len() == 0
    &&& st.pending@.len() == 0
    &&& st.pending_flushes@.len() == 0
    &&& st.fence_epoch == 0
    &&& st.current_bytes is None
    &&& st.published_min_wm == 0
}

/// Load the published state named by the `current` pointer, if any: the
/// fencing epoch, the manifest it names and every partition the manifest
/// lists (their metadata goes both into the global table and into the
/// runtime partitions; embedded block indexes are cached). Returns whether a
/// manifest was found. A pointer that does not parse, or that names a
/// missing manifest, is corrupt state.
pub fn load_published<S: Store, C: ManifestCodec>(
    store: &S,
    codec: &C,
    st: &mut EngineState,
    t: &mut Vec<(String, PartitionState)>,
    index_cache: &mut IndexCache,
) -> (r: Result<bool, Error>)
    requires
        old(st).wf(),
        table_wf(old(t)@),
        old(index_cache).wf(),
    ensures
        final(st).wf(),
        table_wf(final(t)@),
        final(index_cache).wf(),
        final(st).cfg == old(st).cfg,
        r matches Ok(false) ==> *final(st) == *old(st) && final(t)@ == old(t)@ && *final(index_cache)
            == *old(index_cache),
        r matches Ok(true) ==> (final(st).current_bytes matches Some(b) && crate::engine::current_names_epoch(
            b@,
            final(st).fence_epoch,
        )),
{
    let ckey = current_key(st.cfg.prefix.as_str());
    let cur = match store.get(ckey.as_str())? {
        None => {
            return Ok(false);
        },
        Some(c) => c,
    };
    let (mseq, epoch) = parse_current(cur.as_slice())?;
    let ghost cb = cur@;
    proof {
        let t = choose|t: Seq<char>|
            encode_utf8(t) == cb && crate::engine::spec_parse_current(t) == Some((mseq, epoch));
        assert(crate::engine::current_names_epoch(cb, epoch));
    }
    let mkey = manifest_key(st.cfg.prefix.as_str(), mseq);
    let man_bytes = match store.get(mkey.as_str())? {
        None => {
            return Err(Error::corrupt("manifest named by current is missing"));
        },
        Some(b) => b,
    };
    let man = codec.decode_manifest(man_bytes.as_slice())?;
    st.fence_epoch = epoch;
    st.current_bytes = Some(cur);
    st.manifest_seq = man.seq;
    st.next_segment_id = man.next_segment_id;
    st.journal_seq = man.next_journal_seq;
    let parts = man.partitions;
    let mut i: usize = 0;
    while i < parts.len()
        invariant
            0 <= i <= parts@.len(),
            st.wf(),
            table_wf(t@),
            index_cache.wf(),
            st.cfg == old(st).cfg,
            st.current_bytes matches Some(b) && b@ == cb,
            st.fence_epoch == epoch,
            crate::engine::current_names_epoch(cb, epoch),
        decreases parts@.len() - i,
    {
        let name = parts[i].0.as_str();
        let pm = &parts[i].1;
        let mut k: usize = 0;
        while k < pm.segments.len()
            invariant
                0 <= k <= pm.segments@.len(),
                index_cache.wf(),
            decreases pm.segments@.len() - k,
        {
            match &pm.segments[k].index {
                Some(ix) => index_cache.insert(pm.segments[k].id, ix.clone_index()),
                None => {},
            }
            k = k + 1;
        }
        let idx = table_create(t, name);
        let mut ps = table_take(t, idx);
        ps.meta = pm.copy_meta();
        table_set(t, idx, ps);
        set_partition_meta(st, name, pm.copy_meta());
        i = i + 1;
    }
    st.published_min_wm = min_live_watermark(st);
    Ok(true)
}

/// The listed keys that name a journal sequence below `root`, each with
/// its sequence, in listing order.
pub open spec fn journal_tail(keys: Seq<String>, root: Option<Seq<char>>) -> Seq<(String, u64)>
    decreases keys.len(),
{
    if keys.len() == 0 {
        Seq::empty()
    } else {
        let rest = journal_tail(keys.drop_last(), root);
        match spec_journal_seq_of(keys.last()@, root) {
            Some(s) => rest.push((keys.last(), s)),
            None => rest,
        }
    }
}

/// The greatest sequence among `v` and `base`.
pub open spec fn max_seq(v: Seq<(String, u64)>, base: u64) -> u64
    decreases v.len(),
{
    if v.len() == 0 {
        base
    } else {
        let m = max_seq(v.drop_last(), base);
        if v.last().1 > m {
            v.last().1
        } else {
            m
        }
    }
}

/// The view of an optional string.
pub open spec fn opt_str_view(o: Option<&str>) -> Option<Seq<char>> {
    match o {
        Some(x) => Some(x@),
        None => None,
    }
}

/// The sequences named in `v`.
pub open spec fn seqs_named(v: Seq<(String, u64)>) -> Set<u64> {
    Set::new(|x: u64| exists|j: int| 0 <= j < v.len() && (#[trigger] v[j]).1 == x)
}

/// List the journal objects to replay: for each listed key naming a
/// sequence, that sequence becomes tracked and raises the last journal
/// sequence; those keys are returned with their sequences, by non-decreasing
/// sequence.
pub fn collect_journal_tail(
    st: &mut EngineState,
    keys: &Vec<String>,
    root: Option<&str>,
) -> (pending: Vec<(String, u64)>)
    requires
        old(st).wf(),
    ensures
        final(st).wf(),
        by_seq(pending@),
        final(st).journal_seq >= old(st).journal_seq,
        final(st).cfg == old(st).cfg,
        final(st).fence_epoch == old(st).fence_epoch,
        final(st).partitions == old(st).partitions,
        final(st).current_bytes == old(st).current_bytes,
        final(st).published_min_wm == old(st).published_min_wm,
        forall|i: int| 0 <= i < pending@.len() ==> final(st).journal_seqs@.to_set().contains(
            #[trigger] pending@[i].1,
        ),
        pending@.to_multiset() == journal_tail(keys@, opt_str_view(root)).to_multiset(),
        final(st).journal_seq == max_seq(journal_tail(keys@, opt_str_view(root)), old(st).journal_seq),
        final(st).journal_seqs@.to_set() == old(st).journal_seqs@.to_set().union(
            seqs_named(journal_tail(keys@, opt_str_view(root))),
        ),
{
    let ghost rt = opt_str_view(root);
    let mut pending: Vec<(String, u64)> = Vec::new();
    let mut max_seq = st.journal_seq;
    let mut i: usize = 0;
    while i < keys.len()
        invariant
            0 <= i <= keys@.len(),
            rt == opt_str_view(root),
            pending@ == journal_tail(keys@.take(i as int), rt),
            max_seq == crate::recovery::max_seq(pending@, old(st).journal_seq),
            st.journal_seqs@.to_set() == old(st).journal_seqs@.to_set().union(seqs_named(pending@)),
            st.wf(),
            max_seq >= st.journal_seq,
            st.journal_seq == old(st).journal_seq,
            st.cfg == old(st).cfg,
            st.fence_epoch == old(st).fence_epoch,
            st.partitions == old(st).partitions,
            st.current_bytes == old(st).current_bytes,
            st.published_min_wm == old(st).published_min_wm,
            forall|j: int| 0 <= j < pending@.len() ==> st.journal_seqs@.to_set().contains(
                #[trigger] pending@[j].1,
            ),
        decreases keys@.len() - i,
    {
        proof {
            assert(keys@.take(i + 1).drop_last() =~= keys@.take(i as int));
            assert(keys@.take(i + 1).last() == keys@[i as int]);
            assert(root matches Some(x) ==> rt == Some(x@));
        }
        match journal_seq_of(keys[i].as_str(), root) {
            Some(s) => {
                if s > max_seq {
                    max_seq = s;
                }
                let ghost before = st.journal_seqs@.to_set();
                let ghost p0 = pending@;
                insert_seq(&mut st.journal_seqs, s);
                pending.push((keys[i].clone(), s));
                proof {
                    assert(pending@.drop_last() =~= p0);
                    assert(seqs_named(pending@) =~= seqs_named(p0).insert(s)) by {
                        assert forall|x: u64| seqs_named(pending@).contains(x) implies seqs_named(p0).insert(
                            s,
                        ).contains(x) by {
                            let j = choose|j: int| 0 <= j < pending@.len() && (#[trigger] pending@[j]).1 == x;
                            if j < p0.len() {
                                assert(pending@[j] == p0[j]);
                            }
                        }
                        assert forall|x: u64| seqs_named(p0).insert(s).contains(x) implies seqs_named(
                            pending@,
                        ).contains(x) by {
                            if x == s {
                                assert(pending@[p0.len() as int].1 == x);
                            } else {
                                let j = choose|j: int| 0 <= j < p0.len() && (#[trigger] p0[j]).1 == x;
                                assert(pending@[j] == p0[j]);
                            }
                        }
                    }
                    assert(st.journal_seqs@.to_set() =~= old(st).journal_seqs@.to_set().union(
                        seqs_named(pending@),
                    ));
                    assert forall|j: int| 0 <= j < pending@.len() implies st.journal_seqs@.to_set().contains(
                        #[trigger] pending@[j].1,
                    ) by {
                        if j < pending@.len() - 1 {
                            assert(before.contains(pending@[j].1));
                        }
                    }
                }
            },
            None => {},
        }
        i = i + 1;
    }
    proof {
        assert(keys@.take(i as int) =~= keys@);
    }
    st.journal_seq = max_seq;
    let ghost unsorted = pending@;
    let sorted = sort_by_seq(pending);
    proof {
        assert forall|j: int| 0 <= j < sorted@.len() implies st.journal_seqs@.to_set().contains(
            #[trigger] sorted@[j].1,
        ) by {
            sorted@.to_multiset_ensures();
            unsorted.to_multiset_ensures();
            assert(sorted@.contains(sorted@[j]));
            assert(sorted@.to_multiset().count(sorted@[j]) > 0);
            assert(unsorted.contains(sorted@[j]));
        }
    }
    sorted
}

/// Fetch and apply the listed journal objects in order. A vanished object
/// is skipped; each object read has its size recorded and its groups
/// applied, skipping groups of another epoch when `fenced` is set. Anything
/// that does not decode is corrupt.
pub fn replay_journal<S: Store>(
    store: &S,
    st: &mut EngineState,
    t: &mut Vec<(String, PartitionState)>,
    to_read: &Vec<(String, u64)>,
    fenced: bool,
) -> (r: Result<(), Error>)
    requires
        old(st).wf(),
        table_wf(old(t)@),
    ensures
        final(st).wf(),
        table_wf(final(t)@),
        final(st).cfg == old(st).cfg,
        final(st).fence_epoch == old(st).fence_epoch,
        final(st).journal_seq == old(st).journal_seq,
        final(st).current_bytes == old(st).current_bytes,
        to_read@.len() == 0 ==> r is Ok && *final(st) == *old(st) && final(t)@ == old(t)@,
        r is Ok ==> exists|objs: Seq<Option<Seq<u8>>>|
            #[trigger] objs.len() == to_read@.len() && replayed_objects(
                objs,
                old(t)@,
                final(t)@,
                old(st).partitions@,
                fenced,
                old(st).fence_epoch,
            ),
{
    let ghost objs: Seq<Option<Seq<u8>>> = Seq::empty();
    proof {
        assert(groups_of(objs) =~= Seq::<GroupV>::empty());
    }
    let mut i: usize = 0;
    while i < to_read.len()
        invariant
            0 <= i <= to_read@.len(),
            objs.len() == i,
            replayed_objects(objs, old(t)@, t@, old(st).partitions@, fenced, old(st).fence_epoch),
            forall|n: Seq<char>| #[trigger] wm_of(st.partitions@, n) == wm_of(old(st).partitions@, n),
            to_read@.len() == 0 ==> *st == *old(st) && t@ == old(t)@,
            st.wf(),
            table_wf(t@),
            st.cfg == old(st).cfg,
            st.fence_epoch == old(st).fence_epoch,
            st.journal_seq == old(st).journal_seq,
            st.current_bytes == old(st).current_bytes,
        decreases to_read@.len() - i,
    {
        let bytes = match store.get(to_read[i].0.as_str())? {
            None => {
                proof {
                    assert(objs.push(None).drop_last() =~= objs);
                    assert(groups_of(objs.push(None)) =~= groups_of(objs));
                    objs = objs.push(None);
                }
                i = i + 1;
                continue;
            },
            Some(b) => b,
        };
        let groups = decode_group_stream(bytes.as_slice())?;
        let ghost gv = groups@.map_values(|g: Group| g@);
        let ghost base = groups_of(objs);
        insert_size(&mut st.journal_sizes, to_read[i].1, bytes.len() as u64);
        let mut g: usize = 0;
        proof {
            assert(base + gv.take(0) =~= base);
        }
        while g < groups.len()
            invariant
                0 <= g <= groups@.len(),
                gv == groups@.map_values(|g: Group| g@),
                base == groups_of(objs),
                objs.len() == i,
                forall|j: int| 0 <= j < objs.len() ==> (#[trigger] objs[j] matches Some(b) ==> dec_stream(b) is Some),
                forall|n: Seq<char>|
                    #[trigger] mem_of(t@, n) == replayed(
                        mem_of(old(t)@, n),
                        base + gv.take(g as int),
                        wm_of(old(st).partitions@, n),
                        n,
                        fenced,
                        old(st).fence_epoch,
                    ),
                forall|n: Seq<char>| #[trigger] wm_of(st.partitions@, n) == wm_of(old(st).partitions@, n),
                st.wf(),
                table_wf(t@),
                st.cfg == old(st).cfg,
                st.fence_epoch == old(st).fence_epoch,
                st.journal_seq == old(st).journal_seq,
                st.current_bytes == old(st).current_bytes,
            decreases groups@.len() - g,
        {
            let ghost t0 = t@;
            let ghost gg = groups@[g as int]@;
            proof {
                assert(gv[g as int] == gg);
                assert((base + gv.take(g + 1)).drop_last() =~= base + gv.take(g as int));
                assert((base + gv.take(g + 1)).last() == gg);
            }
            if !(fenced && groups[g].epoch != st.fence_epoch) {
                apply_group_recover(st, t, &groups[g]);
                proof {
                    assert forall|n: Seq<char>| #[trigger] mem_of(t@, n) == replayed(
                        mem_of(old(t)@, n),
                        base + gv.take(g + 1),
                        wm_of(old(st).partitions@, n),
                        n,
                        fenced,
                        old(st).fence_epoch,
                    ) by {
                        let s1 = base + gv.take(g + 1);
                        assert(s1.drop_last() =~= base + gv.take(g as int));
                        assert(s1.last() == gg);
                        assert(mem_of(t0, n) == replayed(
                            mem_of(old(t)@, n),
                            base + gv.take(g as int),
                            wm_of(old(st).partitions@, n),
                            n,
                            fenced,
                            old(st).fence_epoch,
                        ));
                        if !(gg.seq > wm_of(old(st).partitions@, n) && targets(gg.ops, n)) {
                            assert(named_get(t@, n) == named_get(t0, n));
                            if gg.seq > wm_of(old(st).partitions@, n) {
                                assert forall|k: int| 0 <= k < gg.ops.len() implies (#[trigger] gg.ops[k]).part
                                    != n by {
                                    if gg.ops[k].part == n {
                                        assert(targets(gg.ops, n));
                                    }
                                }
                                lemma_ops_into_untargeted(mem_of(t0, n), gg.ops, n);
                            }
                        }
                    }
                }
            }
            else {
                proof {
                    assert forall|n: Seq<char>| #[trigger] mem_of(t@, n) == replayed(
                        mem_of(old(t)@, n),
                        base + gv.take(g + 1),
                        wm_of(old(st).partitions@, n),
                        n,
                        fenced,
                        old(st).fence_epoch,
                    ) by {
                        let s1 = base + gv.take(g + 1);
                        assert(s1.drop_last() =~= base + gv.take(g as int));
                        assert(s1.last() == gg);
                    }
                }
            }
            g = g + 1;
        }
        proof {
            assert(gv.take(g as int) =~= gv);
            assert(dec_stream(bytes@) == Some(gv));
            let no = objs.push(Some(bytes@));
            assert(no.drop_last() =~= objs);
            assert(groups_of(no) == base + gv);
            objs = no;
        }
        i = i + 1;
    }
    Ok(())
}

/// The groups decoded from the journal objects read, in order; an object
/// that vanished contributes none.
pub open spec fn groups_of(objs: Seq<Option<Seq<u8>>>) -> Seq<GroupV>
    decreases objs.len(),
{
    if objs.len() == 0 {
        Seq::empty()
    } else {
        groups_of(objs.drop_last()) + match objs.last() {
            Some(b) => dec_stream(b).unwrap(),
            None => Seq::empty(),
        }
    }
}

/// The memtable of partition `n` after replaying `gs` in order onto `mem`:
/// a group is applied when its sequence is above the partition's watermark
/// `wm` and, when `fenced`, it belongs to `epoch`.
pub open spec fn replayed(
    mem: Map<Seq<u8>, Option<Seq<u8>>>,
    gs: Seq<GroupV>,
    wm: u64,
    n: Seq<char>,
    fenced: bool,
    epoch: u128,
) -> Map<Seq<u8>, Option<Seq<u8>>>
    decreases gs.len(),
{
    if gs.len() == 0 {
        mem
    } else {
        let m = replayed(mem, gs.drop_last(), wm, n, fenced, epoch);
        let g = gs.last();
        if (fenced && g.epoch != epoch) || g.seq <= wm {
            m
        } else {
            ops_into(m, g.ops, n)
        }
    }
}

/// Every object read decodes, and each partition's memtable in `now` is
/// its memtable in `before` with the decoded groups replayed onto it.
pub open spec fn replayed_objects(
    objs: Seq<Option<Seq<u8>>>,
    before: Seq<(String, PartitionState)>,
    now: Seq<(String, PartitionState)>,
    meta: Seq<(String, PartitionMeta)>,
    fenced: bool,
    epoch: u128,
) -> bool {
    &&& forall|j: int| 0 <= j < objs.len() ==> (#[trigger] objs[j] matches Some(b) ==> dec_stream(b) is Some)
    &&& forall|n: Seq<char>|
        #[trigger] mem_of(now, n) == replayed(mem_of(before, n), groups_of(objs), wm_of(meta, n), n, fenced, epoch)
}

/// Flush every live replayed memtable that already exceeds the byte budget.
pub fn flush_over_budget<S: Store, C: ManifestCodec>(
    store: &mut S,
    codec: &C,
    st: &mut EngineState,
    t: &mut Vec<(String, PartitionState)>,
) -> (r: Result<(), Error>)
    requires
        old(st).wf(),
        table_wf(old(t)@),
    ensures
        final(st).wf(),
        table_wf(final(t)@),
        final(st).cfg == old(st).cfg,
        within_budget(old(t)@, old(st).cfg.max_memtable_bytes) ==> r is Ok && *final(st) == *old(st)
            && final(t)@ == old(t)@,
        r is Ok ==> forall|i: int|
            0 <= i < final(t)@.len() ==> fits_budget(#[trigger] final(t)@[i].1, old(st).cfg.max_memtable_bytes)
                || final(t)@[i].1.mem@.len() == 0,
        anchored(*old(st)) ==> anchored(*final(st)),
{
    let ghost quiet = within_budget(old(t)@, old(st).cfg.max_memtable_bytes);
    let mut i: usize = 0;
    while i < t.len()
        invariant
            0 <= i <= t@.len(),
            st.wf(),
            table_wf(t@),
            st.cfg == old(st).cfg,
            t@.len() == old(t)@.len(),
            quiet == within_budget(old(t)@, old(st).cfg.max_memtable_bytes),
            quiet ==> *st == *old(st) && t@ == old(t)@,
            anchored(*old(st)) ==> anchored(*st),
            forall|j: int| 0 <= j < i ==> #[trigger] fits_budget(t@[j].1, st.cfg.max_memtable_bytes)
                || t@[j].1.mem@.len() == 0,
        decreases t@.len() - i,
    {
        if !t[i].1.meta.dropped && t[i].1.mem_bytes > st.cfg.max_memtable_bytes {
            proof {
                if quiet {
                    assert(fits_budget(old(t)@[i as int].1, old(st).cfg.max_memtable_bytes));
                }
            }
            if st.manifest_seq == u64::MAX || st.next_segment_id == u64::MAX {
                return Err(Error::store("sequence space exhausted"));
            }
            let ghost t0 = t@;
            let mut ps = table_take(t, i);
            let r = flush_partition(store, codec, st, &mut ps);
            table_set(t, i, ps);
            if r.is_err() {
                return r;
            }
            proof {
                assert forall|j: int| 0 <= j < i + 1 implies #[trigger] fits_budget(
                    t@[j].1,
                    st.cfg.max_memtable_bytes,
                ) || t@[j].1.mem@.len() == 0 by {
                    if j < i {
                        assert(t@[j] == t0[j]);
                    }
                }
            }
        }
        i = i + 1;
    }
    Ok(())
}

/// A memtable that needs no flush: the partition is dropped, or its
/// memtable is within the byte budget.
pub open spec fn fits_budget(p: PartitionState, budget: u64) -> bool {
    p.meta.dropped || p.mem_bytes <= budget
}

/// Every partition of the table fits the budget.
pub open spec fn within_budget(t: Seq<(String, PartitionState)>, budget: u64) -> bool {
    forall|i: int| 0 <= i < t.len() ==> #[trigger] fits_budget(t[i].1, budget)
}

/// Merge-compact every live partition that reached the segment limit, when
/// replaced segment objects are deleted eagerly; the replaced objects are
/// deleted right away (failures ignored).
pub fn maybe_compact_all_state<S: Store, C: ManifestCodec>(
    store: &mut S,
    codec: &C,
    st: &mut EngineState,
    t: &mut Vec<(String, PartitionState)>,
) -> (r: Result<(), Error>)
    requires
        old(st).wf(),
        table_wf(old(t)@),
    ensures
        final(st).wf(),
        table_wf(final(t)@),
        final(st).cfg == old(st).cfg,
        !old(st).cfg.eager_object_delete || below_segment_limit(
            old(t)@,
            old(st).cfg.max_segments_before_compact,
        ) ==> r is Ok && *final(st) == *old(st) && final(t)@ == old(t)@ && *final(store) == *old(store),
        anchored(*old(st)) ==> anchored(*final(st)),
{
    let ghost quiet = !old(st).cfg.eager_object_delete || below_segment_limit(
        old(t)@,
        old(st).cfg.max_segments_before_compact,
    );
    let limit = st.cfg.max_segments_before_compact;
    let mut i: usize = 0;
    while i < t.len()
        invariant
            0 <= i <= t@.len(),
            st.wf(),
            table_wf(t@),
            st.cfg == old(st).cfg,
            limit == st.cfg.max_segments_before_compact,
            quiet == (!old(st).cfg.eager_object_delete || below_segment_limit(
                old(t)@,
                old(st).cfg.max_segments_before_compact,
            )),
            quiet ==> *st == *old(st) && t@ == old(t)@ && *store == *old(store),
            anchored(*old(st)) ==> anchored(*st),
        decreases t@.len() - i,
    {
        if !t[i].1.meta.dropped && t[i].1.meta.segments.len() >= limit
            && st.cfg.eager_object_delete {
            proof {
                if quiet {
                    assert(below_limit(old(t)@[i as int].1, limit));
                }
            }
            if st.manifest_seq >= u64::MAX - 1 || st.next_segment_id >= u64::MAX - 1 {
                return Err(Error::store("sequence space exhausted"));
            }
            let mut ps = table_take(t, i);
            let r = compact_partition_locked(store, codec, st, &mut ps);
            let name = ps.name.clone();
            table_set(t, i, ps);
            match r {
                Err(e) => {
                    return Err(e);
                },
                Ok(None) => {},
                Ok(Some(old_segs)) => {
                    let mut k: usize = 0;
                    while k < old_segs.len()
                        invariant
                            0 <= k <= old_segs@.len(),
                        decreases old_segs@.len() - k,
                    {
                        let key = segment_key(st.cfg.prefix.as_str(), name.as_str(), old_segs[k].id);
                        let _ = store.delete(key.as_str());
                        k = k + 1;
                    }
                },
            }
        }
        i = i + 1;
    }
    Ok(())
}

/// A partition that needs no compaction at open: dropped, or holding fewer
/// segments than the limit.
pub open spec fn below_limit(p: PartitionState, limit: usize) -> bool {
    p.meta.dropped || p.meta.segments@.len() < limit
}

/// Every partition of the table is below the segment limit.
pub open spec fn below_segment_limit(t: Seq<(String, PartitionState)>, limit: usize) -> bool {
    forall|i: int| 0 <= i < t.len() ==> #[trigger] below_limit(t[i].1, limit)
}

/// The partition and id a segment object key names below the segment root
/// `root` (`<root><part>/<id>`), if it is one.
pub open spec fn spec_segment_key_parts(key: Seq<char>, root: Seq<char>) -> Option<(Seq<char>, u64)> {
    if root.len() > key.len() || key.take(root.len() as int) != root {
        None
    } else {
        let rest = key.skip(root.len() as int);
        match rfind_char(rest, '/') {
            None => None,
            Some(p) => match parse_uint(rest.skip(p + 1), u64::MAX as nat) {
                Some(id) => Some((rest.take(p), id as u64)),
                None => None,
            },
        }
    }
}

/// Split a segment object key into its partition name and segment id.
pub fn segment_key_parts(key: &str, root: &str) -> (r: Option<(Vec<char>, u64)>)
    ensures
        match r {
            Some((part, id)) => spec_segment_key_parts(key@, root@) == Some((part@, id)),
            None => spec_segment_key_parts(key@, root@) is None,
        },
{
    let ks = str_chars(key);
    let rs = str_chars(root);
    if rs.len() > ks.len() {
        return None;
    }
    let mut j: usize = 0;
    while j < rs.len()
        invariant
            0 <= j <= rs@.len() <= ks@.len(),
            ks@ == key@,
            rs@ == root@,
            ks@.take(j as int) == rs@.take(j as int),
        decreases rs@.len() - j,
    {
        if ks[j] != rs[j] {
            proof {
                assert(ks@.take(rs@.len() as int)[j as int] == ks@[j as int]);
            }
            return None;
        }
        proof {
            assert(ks@.take(j + 1) =~= ks@.take(j as int).push(ks@[j as int]));
            assert(rs@.take(j + 1) =~= rs@.take(j as int).push(rs@[j as int]));
        }
        j = j + 1;
    }
    proof {
        assert(rs@.take(j as int) =~= rs@);
    }
    let lo = rs.len();
    let n = ks.len();
    let ghost rest = ks@.skip(lo as int);
    let mut i = n;
    proof {
        assert(rest.take((i - lo) as int) =~= rest);
    }
    while i > lo
        invariant
            lo <= i <= n,
            n == ks@.len(),
            lo == rs@.len(),
            ks@ == key@,
            rs@ == root@,
            ks@.take(lo as int) == rs@,
            rest == ks@.skip(lo as int),
            rfind_char(rest, '/') == rfind_char(rest.take((i - lo) as int), '/'),
        decreases i,
    {
        if ks[i - 1] == '/' {
            proof {
                assert(rest.take((i - lo) as int).last() == '/');
                assert(rest[i - 1 - lo] == ks@[i - 1]);
            }
            let v = parse_uint_range(&ks, i, n);
            proof {
                assert(ks@.subrange(i as int, n as int) =~= rest.skip(i - lo));
                crate::engine::lemma_parse_uint_bound(rest.skip(i - lo));
            }
            let id = match v {
                Some(x) => if x <= 0xffff_ffff_ffff_ffffu128 {
                    x as u64
                } else {
                    return None;
                },
                None => {
                    return None;
                },
            };
            let mut part: Vec<char> = Vec::new();
            let mut k = lo;
            while k < i - 1
                invariant
                    lo <= k <= i - 1,
                    i <= n,
                    n == ks@.len(),
                    part@ == ks@.subrange(lo as int, k as int),
                decreases i - 1 - k,
            {
                part.push(ks[k]);
                proof {
                    assert(ks@.subrange(lo as int, k + 1) =~= ks@.subrange(lo as int, k as int).push(
                        ks@[k as int],
                    ));
                }
                k = k + 1;
            }
            proof {
                assert(part@ =~= rest.take(i - 1 - lo));
            }
            return Some((part, id));
        }
        proof {
            assert(rest.take((i - lo) as int).drop_last() =~= rest.take(i - 1 - lo));
            assert(rest.take((i - lo) as int).last() == ks@[i - 1]);
        }
        i = i - 1;
    }
    None
}

/// Whether a live partition named `part` lists segment `id`.
pub open spec fn spec_referenced(parts: Seq<(String, PartitionMeta)>, part: Seq<char>, id: u64) -> bool {
    exists|i: int|
        0 <= i < parts.len() && (#[trigger] parts[i]).0@ == part && !parts[i].1.dropped
            && crate::engine::ids_of(crate::segment::segments_view(parts[i].1.segments@)).contains(id)
}

/// Whether the characters of `s` are `cs`.
fn chars_equal(s: &str, cs: &Vec<char>) -> (r: bool)
    ensures
        r == (s@ == cs@),
{
    let a = str_chars(s);
    if a.len() != cs.len() {
        return false;
    }
    let mut i: usize = 0;
    while i < a.len()
        invariant
            0 <= i <= a@.len(),
            a@.len() == cs@.len(),
            a@ == s@,
            forall|j: int| 0 <= j < i ==> a@[j] == cs@[j],
        decreases a@.len() - i,
    {
        if a[i] != cs[i] {
            return false;
        }
        i = i + 1;
    }
    proof {
        assert(a@ =~= cs@);
    }
    true
}

/// Whether some live partition named `part` lists segment `id`.
pub fn segment_referenced(st: &EngineState, part: &Vec<char>, id: u64) -> (r: bool)
    ensures
        r == spec_referenced(st.partitions@, part@, id),
{
    let mut i: usize = 0;
    while i < st.partitions.len()
        invariant
            0 <= i <= st.partitions@.len(),
            forall|j: int|
                0 <= j < i ==> !((#[trigger] st.partitions@[j]).0@ == part@ && !st.partitions@[
                    j
                ].1.dropped && crate::engine::ids_of(
                    crate::segment::segments_view(st.partitions@[j].1.segments@),
                ).contains(id)),
        decreases st.partitions@.len() - i,
    {
        let e = &st.partitions[i];
        if chars_equal(e.0.as_str(), part) && !e.1.dropped {
            let ids = crate::engine::segment_ids(&e.1.segments);
            if crate::engine::contains_id(&ids, id) {
                return true;
            }
        }
        i = i + 1;
    }
    false
}

/// The listed segment object keys below `root` that name a segment no live
/// partition of `parts` lists, in listing order.
pub open spec fn orphan_keys(keys: Seq<String>, root: Seq<char>, parts: Seq<(String, PartitionMeta)>) -> Seq<
    Seq<char>,
>
    decreases keys.len(),
{
    if keys.len() == 0 {
        Seq::empty()
    } else {
        let rest = orphan_keys(keys.drop_last(), root, parts);
        match spec_segment_key_parts(keys.last()@, root) {
            Some((p, id)) => if !spec_referenced(parts, p, id) {
                rest.push(keys.last()@)
            } else {
                rest
            },
            None => rest,
        }
    }
}

/// The listed manifest keys whose sequence is not `cur`, in listing order.
pub open spec fn stale_manifest_keys(keys: Seq<String>, cur: u64) -> Seq<Seq<char>>
    decreases keys.len(),
{
    if keys.len() == 0 {
        Seq::empty()
    } else {
        let rest = stale_manifest_keys(keys.drop_last(), cur);
        match spec_parse_tail_seq(keys.last()@) {
            Some(s) => if s != cur {
                rest.push(keys.last()@)
            } else {
                rest
            },
            None => rest,
        }
    }
}

/// The views of a list of keys.
pub open spec fn keys_view(v: Seq<String>) -> Seq<Seq<char>> {
    v.map_values(|k: String| k@)
}

/// The segment objects among `keys` that no live partition lists.
pub fn find_orphan_segments(keys: &Vec<String>, root: &str, st: &EngineState) -> (r: Vec<String>)
    ensures
        keys_view(r@) == orphan_keys(keys@, root@, st.partitions@),
{
    let mut out: Vec<String> = Vec::new();
    let mut i: usize = 0;
    while i < keys.len()
        invariant
            0 <= i <= keys@.len(),
            keys_view(out@) == orphan_keys(keys@.take(i as int), root@, st.partitions@),
        decreases keys@.len() - i,
    {
        proof {
            assert(keys@.take(i + 1).drop_last() =~= keys@.take(i as int));
            assert(keys@.take(i + 1).last() == keys@[i as int]);
        }
        match segment_key_parts(keys[i].as_str(), root) {
            Some((part, id)) => {
                if !segment_referenced(st, &part, id) {
                    let k = keys[i].clone();
                    proof {
                        assert(keys_view(out@.push(k)) =~= keys_view(out@).push(k@));
                    }
                    out.push(k);
                }
            },
            None => {},
        }
        i = i + 1;
    }
    proof {
        assert(keys@.take(i as int) =~= keys@);
    }
    out
}

/// The manifest snapshots among `keys` other than manifest `cur`.
pub fn find_stale_manifests(keys: &Vec<String>, cur: u64) -> (r: Vec<String>)
    ensures
        keys_view(r@) == stale_manifest_keys(keys@, cur),
{
    let mut out: Vec<String> = Vec::new();
    let mut i: usize = 0;
    while i < keys.len()
        invariant
            0 <= i <= keys@.len(),
            keys_view(out@) == stale_manifest_keys(keys@.take(i as int), cur),
        decreases keys@.len() - i,
    {
        proof {
            assert(keys@.take(i + 1).drop_last() =~= keys@.take(i as int));
            assert(keys@.take(i + 1).last() == keys@[i as int]);
        }
        match parse_tail_seq(keys[i].as_str()) {
            Some(seq) => {
                if seq != cur {
                    let k = keys[i].clone();
                    proof {
                        assert(keys_view(out@.push(k)) =~= keys_view(out@).push(k@));
                    }
                    out.push(k);
                }
            },
            None => {},
        }
        i = i + 1;
    }
    proof {
        assert(keys@.take(i as int) =~= keys@);
    }
    out
}

/// Startup garbage collection: when replaced segment objects are deleted
/// eagerly, delete segment objects that no live partition lists; always
/// delete manifest snapshots other than the current one. Which keys are
/// deleted is decided by [`find_orphan_segments`] and
/// [`find_stale_manifests`] on the store's listings. Failed deletes are
/// ignored; a failed listing is returned.
pub fn gc_objects_at_open<S: Store>(store: &mut S, st: &EngineState) -> (r: Result<(), Error>) {
    if st.cfg.eager_object_delete {
        let root = segment_root(st.cfg.prefix.as_str());
        let keys = store.list(root.as_str())?;
        let doomed = find_orphan_segments(&keys, root.as_str(), st);
        let mut i: usize = 0;
        while i < doomed.len()
            invariant
                0 <= i <= doomed@.len(),
            decreases doomed@.len() - i,
        {
            let _ = store.delete(doomed[i].as_str());
            i = i + 1;
        }
    }
    let mroot = manifest_prefix(st.cfg.prefix.as_str());
    let keys = store.list(mroot.as_str())?;
    let doomed = find_stale_manifests(&keys, st.manifest_seq);
    let mut i: usize = 0;
    while i < doomed.len()
        invariant
            0 <= i <= doomed@.len(),
        decreases doomed@.len() - i,
    {
        let _ = store.delete(doomed[i].as_str());
        i = i + 1;
    }
    Ok(())
}

/// The listed journal objects whose sequence is above `wm`, in order.
pub fn above_watermark(pending: &Vec<(String, u64)>, wm: u64) -> (r: Vec<(String, u64)>)
    ensures
        r@.len() <= pending@.len(),
        forall|i: int| 0 <= i < r@.len() ==> (#[trigger] r@[i]).1 > wm,
        by_seq(pending@) ==> by_seq(r@),
        forall|i: int|
            0 <= i < pending@.len() && (#[trigger] pending@[i]).1 > wm ==> exists|j: int|
                0 <= j < r@.len() && r@[j].0@ == pending@[i].0@ && r@[j].1 == pending@[i].1,
{
    let mut r: Vec<(String, u64)> = Vec::new();
    let mut i: usize = 0;
    let ghost idx: Seq<int> = Seq::empty();
    while i < pending.len()
        invariant
            0 <= i <= pending@.len(),
            r@.len() <= i,
            idx.len() == r@.len(),
            forall|k: int| 0 <= k < r@.len() ==> (#[trigger] r@[k]).1 > wm,
            forall|k: int|
                0 <= k < r@.len() ==> 0 <= #[trigger] idx[k] < i && r@[k].1 == pending@[idx[k]].1,
            forall|a: int, b: int| 0 <= a < b < r@.len() ==> #[trigger] idx[a] < #[trigger] idx[b],
            forall|k: int|
                0 <= k < i && (#[trigger] pending@[k]).1 > wm ==> exists|j: int|
                    0 <= j < r@.len() && r@[j].0@ == pending@[k].0@ && r@[j].1 == pending@[k].1,
        decreases pending@.len() - i,
    {
        let ghost r0 = r@;
        if pending[i].1 > wm {
            let e = (pending[i].0.clone(), pending[i].1);
            r.push(e);
            proof {
                idx = idx.push(i as int);
                assert(r@[r@.len() - 1] == e);
            }
        }
        proof {
            assert forall|k: int|
                0 <= k < i + 1 && (#[trigger] pending@[k]).1 > wm implies exists|j: int|
                    0 <= j < r@.len() && r@[j].0@ == pending@[k].0@ && r@[j].1 == pending@[k].1 by {
                if k < i {
                    let j = choose|j: int|
                        0 <= j < r0.len() && r0[j].0@ == pending@[k].0@ && r0[j].1 == pending@[k].1;
                    assert(r@[j] == r0[j]);
                } else {
                    assert(r@[r@.len() - 1].0@ == pending@[k].0@);
                }
            }
        }
        i = i + 1;
    }
    proof {
        if by_seq(pending@) {
            assert forall|a: int, b: int| 0 <= a < b < r@.len() implies #[trigger] r@[a].1
                <= #[trigger] r@[b].1 by {
                assert(idx[a] < idx[b]);
                assert(pending@[idx[a]].1 <= pending@[idx[b]].1);
            }
        }
    }
    r
}

/// Rebuild the engine state from the durable manifest and journal tail,
/// then run startup maintenance (over-budget flushes, compaction, journal
/// and object garbage collection).
///
/// With a manifest, only the journals of the epoch it records are replayed,
/// so a stale writer's objects never become visible again after a takeover.
/// Without one (the previous writer crashed before its first flush), every
/// journal object of every epoch is replayed in sequence order, so a
/// successor recovers all acknowledged writes. Objects whose sequence is at
/// or below every partition watermark are already folded and skipped.
pub fn recover<S: Store, C: ManifestCodec>(
    store: &mut S,
    codec: &C,
    cfg: Config,
    index_cache: &mut IndexCache,
    t: &mut Vec<(String, PartitionState)>,
) -> (r: Result<EngineState, Error>)
    requires
        table_wf(old(t)@),
        old(index_cache).wf(),
    ensures
        table_wf(final(t)@),
        final(index_cache).wf(),
        r matches Ok(st) ==> st.wf() && st.cfg == cfg,
        r matches Ok(st) ==> anchored(st),
{
    let mut st = EngineState::new(cfg);
    let has_manifest = load_published(&*store, codec, &mut st, t, index_cache)?;
    let list: Vec<String>;
    let root: Option<String>;
    if has_manifest {
        let p = journal_prefix_epoch(st.cfg.prefix.as_str(), st.fence_epoch);
        list = store.list(p.as_str())?;
        root = None;
    } else {
        let p = journal_prefix(st.cfg.prefix.as_str());
        list = store.list(p.as_str())?;
        root = Some(p);
    }
    let root_str: Option<&str> = match &root {
        Some(x) => Some(x.as_str()),
        None => None,
    };
    let pending = collect_journal_tail(&mut st, &list, root_str);
    let min_wm = min_watermark_of(&st, false);
    let to_read = above_watermark(&pending, min_wm);
    replay_journal(&*store, &mut st, t, &to_read, has_manifest)?;
    flush_over_budget(store, codec, &mut st, t)?;
    maybe_compact_all_state(store, codec, &mut st, t)?;
    gc_journal(store, &mut st);
    gc_objects_at_open(store, &st)?;
    gc_foreign_journals(store, &mut st)?;
    Ok(st)
}

/// Read-only snapshot of a leader's prefix for a follower: load the
/// published state and replay that epoch's journal tail above the published
/// watermark. Never writes. A prefix with no manifest yields an empty state.
pub fn load_readonly_snapshot<S: Store, C: ManifestCodec>(
    store: &S,
    codec: &C,
    cfg: Config,
    index_cache: &mut IndexCache,
    t: &mut Vec<(String, PartitionState)>,
) -> (r: Result<EngineState, Error>)
    requires
        table_wf(old(t)@),
        old(index_cache).wf(),
    ensures
        table_wf(final(t)@),
        final(index_cache).wf(),
        r matches Ok(st) ==> st.wf() && st.cfg == cfg,
        r matches Ok(st) ==> anchored(st),
        r is Ok && r->Ok_0.current_bytes is None ==> fresh_state(r->Ok_0) && final(t)@ == old(t)@
            && *final(index_cache) == *old(index_cache),
{
    let mut st = EngineState::new(cfg);
    let has_manifest = load_published(store, codec, &mut st, t, index_cache)?;
    if !has_manifest {
        return Ok(st);
    }
    let p = journal_prefix_epoch(st.cfg.prefix.as_str(), st.fence_epoch);
    let list = store.list(p.as_str())?;
    let pending = collect_journal_tail(&mut st, &list, None);
    let to_read = above_watermark(&pending, st.published_min_wm);
    replay_journal(store, &mut st, t, &to_read, true)?;
    Ok(st)
}

} // verus!
