//! The engine handle: runtime partitions, global metadata, caches and the
//! store, with the commit, read and maintenance operations.
use vstd::prelude::*;

use crate::cache::{has_key_at, BlockCache, IndexCache, IndexV};
use crate::config::Config;
use crate::lease::{spec_effective_ttl, spec_lease_key, HeldLease, LeaseOptions};
use crate::error::Error;
use crate::manifest::ManifestCodec;
use crate::metrics::{Metrics, MetricsSnapshot};
use crate::recovery::{load_readonly_snapshot, mem_of, ops_into, recover, targets, lemma_ops_into_untargeted};
use crate::journal::{encode_group, enc_group, ops_fit, ops_view, Group, Op, OpV};
use crate::engine::{flush_journal_pending, flush_partition, take_partition_flush, gc_foreign_journals};
use vstd::string::StringExecFns;
use crate::keys::{journal_key_epoch, spec_journal_key_epoch};
use crate::seqindex::{insert_seq, insert_size, size_map};
use crate::table::table_create;
use crate::seqindex::{sizes_total, total_size};
use crate::state::{capped, name_lt, named_get, names_of, names_sorted, EngineState, PartitionState};
use vstd::utf8::encode_utf8;
use crate::store::Store;
use crate::table::{table_find, table_wf};
use crate::engine::{
    copy_flush, detach_flush, encode_segment_pub, finish_partition_flush, find_flush, has_flush,
    memtable_entries,
};
use crate::table::{table_set, table_take};
use crate::engine::{
    apply_compaction, gc_journal, publish_manifest, read_segments, segment_ids, ids_of,
    sync_partition_meta,
};
use crate::keys::segment_key;
use crate::merge::{first_get, copy_entries};
use crate::order::{compare_bytes, lex_lt};
use crate::segment::{
    copy_segments, segments_view, decode_block, decode_index, entries_view, find_block, parse_tail,
    strictly_sorted, BlockMeta, EntryV, SegmentEntries, SegmentIndex, SegmentMeta,
};
use crate::state::{lemma_seq_get_absent, lemma_seq_get_at, mem_entry_view, seq_get, MemEntry};

verus! {

/// An object-storage-backed LSM engine over store `S`, with manifests
/// encoded by `C`.
///
/// Every commit first makes one immutable journal group durable (strict
/// mode) or buffers it for a group-commit flush, then applies it to the
/// partition memtables; full memtables spill into immutable block-indexed
/// segment objects; a manifest chain records live segments and per-partition
/// journal watermarks; opening replays the journal tail above the
/// watermarks.
pub struct ObjectLsm<S: Store, C: ManifestCodec> {
    pub store: S,
    pub codec: C,
    /// Global metadata.
    pub st: EngineState,
    /// Runtime partitions, sorted by name.
    pub parts: Vec<(String, PartitionState)>,
    pub block_cache: BlockCache,
    pub index_cache: IndexCache,
    pub metrics: Metrics,
    /// A read-only follower never writes to the store.
    pub read_only: bool,
    /// The writer lease was lost; writes are refused.
    pub lease_lost: bool,
}

/// Sum of the memtable byte estimates.
pub open spec fn mem_total(t: Seq<(String, PartitionState)>) -> nat
    decreases t.len(),
{
    if t.len() == 0 {
        0
    } else {
        mem_total(t.drop_last()) + (t.last().1.mem_bytes as nat)
    }
}

/// Sum of the encoded sizes of a segment list.
pub open spec fn seg_bytes(s: Seq<crate::segment::SegmentMeta>) -> nat
    decreases s.len(),
{
    if s.len() == 0 {
        0
    } else {
        seg_bytes(s.drop_last()) + (s.last().bytes as nat)
    }
}

/// Sum over partitions of segment bytes plus memtable bytes.
pub open spec fn stored_total(t: Seq<(String, PartitionState)>) -> nat
    decreases t.len(),
{
    if t.len() == 0 {
        0
    } else {
        stored_total(t.drop_last()) + seg_bytes(t.last().1.meta.segments@) + (t.last().1.mem_bytes as nat)
    }
}

/// Sum over partitions of segment bytes.
pub open spec fn seg_total(t: Seq<(String, PartitionState)>) -> nat
    decreases t.len(),
{
    if t.len() == 0 {
        0
    } else {
        seg_total(t.drop_last()) + seg_bytes(t.last().1.meta.segments@)
    }
}

/// Number of segments over all partitions.
pub open spec fn segment_count(t: Seq<(String, PartitionState)>) -> nat
    decreases t.len(),
{
    if t.len() == 0 {
        0
    } else {
        segment_count(t.drop_last()) + t.last().1.meta.segments@.len()
    }
}

/// Names of the partitions that are not dropped, in table order.
pub open spec fn live_names(t: Seq<(String, PartitionState)>) -> Seq<Seq<char>>
    decreases t.len(),
{
    if t.len() == 0 {
        Seq::empty()
    } else if t.last().1.meta.dropped {
        live_names(t.drop_last())
    } else {
        live_names(t.drop_last()).push(t.last().0@)
    }
}

/// In a table with sorted, unique names, the listed names are exactly the
/// names of the partitions that exist and are not dropped: each listed name
/// finds a partition that is not dropped, each such partition's name is
/// listed (so a dropped partition's name never is), every listed name comes
/// from a table entry, and the list is in strictly increasing name order.
pub proof fn lemma_live_names(t: Seq<(String, PartitionState)>)
    requires
        names_sorted(names_of(t)),
    ensures
        forall|i: int|
            0 <= i < live_names(t).len() ==> (named_get(t, #[trigger] live_names(t)[i]) matches Some(
                p,
            ) && !p.meta.dropped),
        forall|n: Seq<char>|
            (named_get(t, n) matches Some(p) && !p.meta.dropped) ==> #[trigger] live_names(t).contains(
                n,
            ),
        forall|n: Seq<char>|
            (named_get(t, n) matches Some(p) && p.meta.dropped) ==> !#[trigger] live_names(t).contains(
                n,
            ),
        forall|i: int|
            0 <= i < live_names(t).len() ==> exists|j: int|
                0 <= j < t.len() && (#[trigger] t[j]).0@ == #[trigger] live_names(t)[i],
        names_sorted(live_names(t)),
    decreases t.len(),
{
    if t.len() > 0 {
        let dl = t.drop_last();
        let last = t.last();
        let nt = names_of(t);
        assert(names_of(dl) =~= nt.drop_last());
        lemma_live_names(dl);
        let ld = live_names(dl);
        let lt = live_names(t);
        // every name listed for `dl` sorts before the last name
        assert forall|i: int| 0 <= i < ld.len() implies name_lt(#[trigger] ld[i], last.0@) by {
            let j = choose|j: int| 0 <= j < dl.len() && (#[trigger] dl[j]).0@ == ld[i];
            assert(dl[j] == t[j]);
            assert(nt[j] == t[j].0@);
            assert(nt[t.len() - 1] == last.0@);
        }
        assert forall|i: int| 0 <= i < ld.len() implies ld[i] != last.0@ && named_get(t, ld[i])
            == named_get(dl, #[trigger] ld[i]) by {
            assert(name_lt(ld[i], last.0@));
            crate::order::lemma_lex_irreflexive(encode_utf8(last.0@));
        }
        assert forall|i: int|
            0 <= i < lt.len() implies (named_get(t, #[trigger] lt[i]) matches Some(p)
            && !p.meta.dropped) by {
            if i < ld.len() {
                assert(lt[i] == ld[i]);
            }
        }
        assert forall|n: Seq<char>|
            (named_get(t, n) matches Some(p) && !p.meta.dropped) implies #[trigger] lt.contains(
            n,
        ) by {
            if last.0@ == n {
                assert(lt[lt.len() - 1] == n);
            } else {
                assert(ld.contains(n));
                let k = choose|k: int| 0 <= k < ld.len() && ld[k] == n;
                assert(lt[k] == ld[k]);
            }
        }
        assert forall|n: Seq<char>|
            (named_get(t, n) matches Some(p) && p.meta.dropped) implies !#[trigger] lt.contains(
            n,
        ) by {
            if lt.contains(n) {
                let k = choose|k: int| 0 <= k < lt.len() && lt[k] == n;
                assert(named_get(t, lt[k]) matches Some(p) && !p.meta.dropped);
            }
        }
        assert forall|i: int| 0 <= i < lt.len() implies exists|j: int|
            0 <= j < t.len() && (#[trigger] t[j]).0@ == #[trigger] lt[i] by {
            if i < ld.len() {
                assert(lt[i] == ld[i]);
                let j = choose|j: int| 0 <= j < dl.len() && (#[trigger] dl[j]).0@ == ld[i];
                assert(t[j] == dl[j]);
            } else {
                assert(t[t.len() - 1] == last);
            }
        }
        assert forall|i: int, j: int| 0 <= i < j < lt.len() implies name_lt(
            #[trigger] lt[i],
            #[trigger] lt[j],
        ) by {
            assert(lt[i] == ld[i]);
            if j < ld.len() {
                assert(lt[j] == ld[j]);
            }
        }
    }
}

/// `n` as a `u64`, saturated.
pub open spec fn sat(n: nat) -> u64 {
    capped(n)
}

impl<S: Store, C: ManifestCodec> ObjectLsm<S, C> {
    /// The engine's structural invariant.
    pub open spec fn wf(&self) -> bool {
        &&& self.st.wf()
        &&& table_wf(self.parts@)
        &&& self.block_cache.wf()
        &&& self.index_cache.wf()
    }

    /// Open (or create) an engine in `store` under `cfg.prefix`: recover the
    /// published state and journal tail, then run startup maintenance.
    pub fn open(store: S, codec: C, cfg: Config) -> (r: Result<Self, Error>)
        ensures
            r matches Ok(e) ==> e.wf() && e.st.cfg == cfg && !e.read_only && !e.lease_lost,
            r matches Ok(e) ==> crate::engine::anchored(e.st) && e.metrics.spec_counters()
                == Metrics::new_counters() && e.block_cache.blocks().len() == 0
                && e.block_cache.spec_capacity() == cfg.cache_capacity,
    {
        let mut store = store;
        let mut index_cache = IndexCache::new(4096);
        let mut parts: Vec<(String, PartitionState)> = Vec::new();
        let block_cache = BlockCache::new(cfg.cache_capacity);
        let st = recover(&mut store, &codec, cfg, &mut index_cache, &mut parts)?;
        Ok(ObjectLsm {
            store,
            codec,
            st,
            parts,
            block_cache,
            index_cache,
            metrics: Metrics::new(),
            read_only: false,
            lease_lost: false,
        })
    }

    /// Open a read-only follower of `cfg.prefix`: load the leader's published
    /// state and durable journal tail. Group commit and background flushes
    /// are turned off; every store-mutating call fails.
    pub fn open_follower(store: S, codec: C, cfg: Config) -> (r: Result<Self, Error>)
        ensures
            r matches Ok(e) ==> e.wf() && e.read_only && e.st.cfg.journal_window_ms is None
                && !e.st.cfg.background_flush,
            r matches Ok(e) ==> crate::engine::anchored(e.st) && e.metrics.spec_counters()
                == Metrics::new_counters() && e.block_cache.blocks().len() == 0 && e.st.cfg.prefix@
                == cfg.prefix@,
            r is Ok && r->Ok_0.st.current_bytes is None ==> crate::recovery::fresh_state(r->Ok_0.st)
                && r->Ok_0.parts@.len() == 0,
    {
        let fcfg = cfg.journal_window_ms(None).background_flush(false);
        let mut index_cache = IndexCache::new(4096);
        let mut parts: Vec<(String, PartitionState)> = Vec::new();
        let block_cache = BlockCache::new(fcfg.cache_capacity);
        let st = load_readonly_snapshot(&store, &codec, fcfg, &mut index_cache, &mut parts)?;
        Ok(ObjectLsm {
            store,
            codec,
            st,
            parts,
            block_cache,
            index_cache,
            metrics: Metrics::new(),
            read_only: true,
            lease_lost: false,
        })
    }

    /// Fencing epoch of this instance (`0` for unfenced engines).
    pub fn fence_epoch(&self) -> (e: u128)
        ensures
            e == self.st.fence_epoch,
    {
        self.st.fence_epoch
    }

    /// Whether a partition named `name` exists and is not dropped.
    pub fn partition_exists(&self, name: &str) -> (r: bool)
        requires
            self.wf(),
        ensures
            r == (named_get(self.parts@, name@) matches Some(p) && !p.meta.dropped),
    {
        match table_find(&self.parts, name) {
            Some(i) => !self.parts[i].1.meta.dropped,
            None => false,
        }
    }

    /// Names of the partitions that are not dropped, in name order.
    pub fn list_partitions(&self) -> (r: Vec<String>)
        ensures
            r@.map_values(|s: String| s@) == live_names(self.parts@),
            table_wf(self.parts@) ==> forall|i: int|
                0 <= i < r@.len() ==> (named_get(self.parts@, (#[trigger] r@[i])@) matches Some(p)
                    && !p.meta.dropped),
            table_wf(self.parts@) ==> forall|n: Seq<char>|
                (#[trigger] named_get(self.parts@, n) matches Some(p) && !p.meta.dropped) ==> exists|
                    i: int,
                | 0 <= i < r@.len() && (#[trigger] r@[i])@ == n,
            table_wf(self.parts@) ==> forall|n: Seq<char>|
                (#[trigger] named_get(self.parts@, n) matches Some(p) && p.meta.dropped) ==> forall|
                    i: int,
                | 0 <= i < r@.len() ==> (#[trigger] r@[i])@ != n,
            table_wf(self.parts@) ==> forall|i: int, j: int|
                0 <= i < j < r@.len() ==> name_lt((#[trigger] r@[i])@, (#[trigger] r@[j])@),
    {
        let mut out: Vec<String> = Vec::new();
        let mut i: usize = 0;
        while i < self.parts.len()
            invariant
                0 <= i <= self.parts@.len(),
                out@.map_values(|s: String| s@) == live_names(self.parts@.take(i as int)),
            decreases self.parts@.len() - i,
        {
            proof {
                assert(self.parts@.take(i + 1).drop_last() =~= self.parts@.take(i as int));
                assert(self.parts@.take(i + 1).last() == self.parts@[i as int]);
            }
            if !self.parts[i].1.meta.dropped {
                let n = self.parts[i].0.clone();
                proof {
                    assert(out@.push(n).map_values(|s: String| s@) =~= out@.map_values(
                        |s: String| s@,
                    ).push(n@));
                }
                out.push(n);
            }
            i = i + 1;
        }
        proof {
            assert(self.parts@.take(i as int) =~= self.parts@);
            if table_wf(self.parts@) {
                lemma_live_names(self.parts@);
                let l = live_names(self.parts@);
                assert forall|k: int| 0 <= k < out@.len() implies (#[trigger] out@[k])@ == l[k] by {
                    assert(out@.map_values(|s: String| s@)[k] == out@[k]@);
                }
                assert forall|n: Seq<char>|
                    (#[trigger] named_get(self.parts@, n) matches Some(p) && !p.meta.dropped)
                        implies exists|k: int| 0 <= k < out@.len() && (#[trigger] out@[k])@ == n by {
                    assert(l.contains(n));
                    let k = choose|k: int| 0 <= k < l.len() && l[k] == n;
                    assert(out@[k]@ == l[k]);
                }
            }
        }
        out
    }

    /// Total memtable byte estimate over all partitions (saturating).
    pub fn write_buffer_size(&self) -> (r: u64)
        ensures
            r == sat(mem_total(self.parts@)),
    {
        let mut acc: u64 = 0;
        let mut i: usize = 0;
        while i < self.parts.len()
            invariant
                0 <= i <= self.parts@.len(),
                acc == sat(mem_total(self.parts@.take(i as int))),
            decreases self.parts@.len() - i,
        {
            proof {
                assert(self.parts@.take(i + 1).drop_last() =~= self.parts@.take(i as int));
            }
            acc = acc.saturating_add(self.parts[i].1.mem_bytes);
            i = i + 1;
        }
        proof {
            assert(self.parts@.take(i as int) =~= self.parts@);
        }
        acc
    }

    /// Number of live journal objects.
    pub fn journal_count(&self) -> (r: usize)
        ensures
            r == self.st.journal_seqs@.len(),
    {
        self.st.journal_seqs.len()
    }

    /// Bytes held by live journal objects (saturating).
    pub fn journal_disk_space(&self) -> (r: Result<u64, Error>)
        ensures
            r == Ok::<u64, Error>(sat(sizes_total(self.st.journal_sizes@))),
    {
        Ok(total_size(&self.st.journal_sizes))
    }

    /// Bytes used by the block cache.
    pub fn cache_size(&self) -> (r: u64)
        ensures
            r == self.block_cache.spec_used(),
    {
        self.block_cache.used()
    }

    /// Capacity of the block cache.
    pub fn cache_capacity(&self) -> (r: u64)
        ensures
            r == self.block_cache.spec_capacity(),
    {
        self.block_cache.capacity()
    }

    /// Completed merge compactions.
    pub fn compactions_completed(&self) -> (r: usize)
        ensures
            r as int == (if self.st.compactions_completed > usize::MAX {
                usize::MAX as int
            } else {
                self.st.compactions_completed as int
            }),
    {
        if self.st.compactions_completed > usize::MAX as u64 {
            usize::MAX
        } else {
            self.st.compactions_completed as usize
        }
    }

    /// Segment bytes plus memtable bytes over all partitions, plus journal
    /// bytes and the latest manifest's size (saturating).
    pub fn disk_space(&self) -> (r: Result<u64, Error>)
        ensures
            r == Ok::<u64, Error>(
                sat(stored_total(self.parts@) + sizes_total(self.st.journal_sizes@)
                    + (self.st.manifest_bytes as nat)),
            ),
    {
        let mut acc: u64 = 0;
        let mut i: usize = 0;
        while i < self.parts.len()
            invariant
                0 <= i <= self.parts@.len(),
                acc == sat(stored_total(self.parts@.take(i as int))),
            decreases self.parts@.len() - i,
        {
            proof {
                assert(self.parts@.take(i + 1).drop_last() =~= self.parts@.take(i as int));
            }
            let segs = &self.parts[i].1.meta.segments;
            let mut s: u64 = 0;
            let mut k: usize = 0;
            while k < segs.len()
                invariant
                    0 <= k <= segs@.len(),
                    s == sat(seg_bytes(segs@.take(k as int))),
                decreases segs@.len() - k,
            {
                proof {
                    assert(segs@.take(k + 1).drop_last() =~= segs@.take(k as int));
                }
                s = s.saturating_add(segs[k].bytes);
                k = k + 1;
            }
            proof {
                assert(segs@.take(k as int) =~= segs@);
            }
            acc = acc.saturating_add(s).saturating_add(self.parts[i].1.mem_bytes);
            i = i + 1;
        }
        proof {
            assert(self.parts@.take(i as int) =~= self.parts@);
        }
        let j = total_size(&self.st.journal_sizes);
        Ok(acc.saturating_add(j).saturating_add(self.st.manifest_bytes))
    }

    /// Counters plus the current storage state: live journal objects and
    /// their bytes, segments and their bytes, memtable bytes (sums
    /// saturating).
    pub fn metrics(&self) -> (m: MetricsSnapshot)
        ensures
            m.commits == self.metrics.spec_counters().commits,
            m.commit_failures == self.metrics.spec_counters().commit_failures,
            m.puts == self.metrics.spec_counters().puts,
            m.deletes == self.metrics.spec_counters().deletes,
            m.gets == self.metrics.spec_counters().gets,
            m.refreshes == self.metrics.spec_counters().refreshes,
            m.journal_count == self.st.journal_seqs@.len(),
            m.journal_bytes == sat(sizes_total(self.st.journal_sizes@)),
            m.memtable_bytes == sat(mem_total(self.parts@)),
            m.segment_bytes == sat(seg_total(self.parts@)),
            m.segments as nat == (if segment_count(self.parts@) > usize::MAX {
                usize::MAX as nat
            } else {
                segment_count(self.parts@)
            }),
    {
        let mut m = self.metrics.counters();
        m.journal_count = self.st.journal_seqs.len();
        m.journal_bytes = total_size(&self.st.journal_sizes);
        let mut segments: usize = 0;
        let mut i: usize = 0;
        while i < self.parts.len()
            invariant
                0 <= i <= self.parts@.len(),
                segments as nat == (if segment_count(self.parts@.take(i as int)) > usize::MAX {
                    usize::MAX as nat
                } else {
                    segment_count(self.parts@.take(i as int))
                }),
            decreases self.parts@.len() - i,
        {
            proof {
                assert(self.parts@.take(i + 1).drop_last() =~= self.parts@.take(i as int));
            }
            segments = segments.saturating_add(self.parts[i].1.meta.segments.len());
            i = i + 1;
        }
        proof {
            assert(self.parts@.take(i as int) =~= self.parts@);
        }
        m.segments = segments;
        m.segment_bytes = self.segment_bytes_total();
        m.memtable_bytes = self.write_buffer_size();
        m
    }

    /// Segment bytes over all partitions (saturating).
    fn segment_bytes_total(&self) -> (r: u64)
        ensures
            r == sat(seg_total(self.parts@)),
    {
        let mut acc: u64 = 0;
        let mut i: usize = 0;
        while i < self.parts.len()
            invariant
                0 <= i <= self.parts@.len(),
                acc == sat(seg_total(self.parts@.take(i as int))),
            decreases self.parts@.len() - i,
        {
            proof {
                assert(self.parts@.take(i + 1).drop_last() =~= self.parts@.take(i as int));
            }
            let segs = &self.parts[i].1.meta.segments;
            let mut s: u64 = 0;
            let mut k: usize = 0;
            while k < segs.len()
                invariant
                    0 <= k <= segs@.len(),
                    s == sat(seg_bytes(segs@.take(k as int))),
                decreases segs@.len() - k,
            {
                proof {
                    assert(segs@.take(k + 1).drop_last() =~= segs@.take(k as int));
                }
                s = s.saturating_add(segs[k].bytes);
                k = k + 1;
            }
            proof {
                assert(segs@.take(k as int) =~= segs@);
            }
            acc = acc.saturating_add(s);
            i = i + 1;
        }
        proof {
            assert(self.parts@.take(i as int) =~= self.parts@);
        }
        acc
    }
}

/// Find `key` in a decoded block by binary search: its entry (a value or a
/// tombstone) or `None`. On a sorted block this is exactly the entry stored
/// for `key`; on any block a found entry carries `key`.
pub fn block_lookup(entries: &SegmentEntries, key: &[u8]) -> (r: Option<Option<Vec<u8>>>)
    ensures
        strictly_sorted(entries_view(entries@)) ==> (match r {
            Some(v) => seq_get(entries_view(entries@), key@) == Some(
                crate::journal::opt_bytes(v),
            ),
            None => seq_get(entries_view(entries@), key@) is None,
        }),
        r matches Some(v) ==> exists|i: int|
            0 <= i < entries@.len() && #[trigger] entries_view(entries@)[i] == (
                key@,
                crate::journal::opt_bytes(v),
            ),
{
    let ghost ev = entries_view(entries@);
    let n = entries.len();
    let mut lo: usize = 0;
    let mut hi: usize = n;
    while lo < hi
        invariant
            0 <= lo <= hi <= n,
            n == entries@.len(),
            ev == entries_view(entries@),
            strictly_sorted(ev) ==> forall|i: int| 0 <= i < lo ==> lex_lt(#[trigger] ev[i].0, key@),
            strictly_sorted(ev) ==> forall|i: int|
                hi <= i < n ==> !lex_lt(#[trigger] ev[i].0, key@),
        decreases hi - lo,
    {
        let mid = lo + (hi - lo) / 2;
        let c = compare_bytes(entries[mid].0.as_slice(), key);
        proof {
            assert(ev[mid as int].0 == entries@[mid as int].0@);
        }
        if c < 0 {
            proof {
                if strictly_sorted(ev) {
                    assert forall|i: int| 0 <= i < mid + 1 implies lex_lt(#[trigger] ev[i].0, key@) by {
                        if i < mid {
                            assert(lex_lt(ev[i].0, ev[mid as int].0));
                            crate::order::lemma_lex_transitive(ev[i].0, ev[mid as int].0, key@);
                        }
                    }
                }
            }
            lo = mid + 1;
        } else {
            proof {
                if strictly_sorted(ev) {
                    assert forall|i: int| mid <= i < n implies !lex_lt(#[trigger] ev[i].0, key@) by {
                        if i > mid {
                            assert(lex_lt(ev[mid as int].0, ev[i].0));
                            crate::order::lemma_lex_asymmetric(ev[mid as int].0, key@);
                            if lex_lt(ev[i].0, key@) {
                                crate::order::lemma_lex_total(ev[mid as int].0, key@);
                                if ev[mid as int].0 == key@ {
                                    crate::order::lemma_lex_asymmetric(ev[mid as int].0, ev[i].0);
                                } else {
                                    crate::order::lemma_lex_transitive(key@, ev[mid as int].0, ev[i].0);
                                    crate::order::lemma_lex_asymmetric(key@, ev[i].0);
                                }
                            }
                        }
                    }
                }
            }
            hi = mid;
        }
    }
    if lo < n && compare_bytes(entries[lo].0.as_slice(), key) == 0 {
        let v = match &entries[lo].1 {
            Some(x) => Some(vstd::slice::slice_to_vec(x.as_slice())),
            None => None,
        };
        proof {
            assert(ev[lo as int] == (key@, crate::journal::opt_bytes(v)));
            if strictly_sorted(ev) {
                lemma_seq_get_at(ev, lo as int);
            }
        }
        return Some(v);
    }
    proof {
        if strictly_sorted(ev) {
            assert forall|i: int| 0 <= i < ev.len() implies (#[trigger] ev[i]).0 != key@ by {
                crate::order::lemma_lex_irreflexive(key@);
                if i > lo {
                    assert(lex_lt(ev[lo as int].0, ev[i].0));
                    crate::order::lemma_lex_total(ev[lo as int].0, key@);
                    if ev[i].0 == key@ {
                        crate::order::lemma_lex_asymmetric(ev[lo as int].0, key@);
                    }
                }
                if i == lo {
                    assert(ev[lo as int].0 == entries@[lo as int].0@);
                }
            }
            lemma_seq_get_absent(ev, key@);
        }
    }
    None
}

/// The first entry for `key` in an entry list (linear scan).
pub fn entries_find(entries: &SegmentEntries, key: &[u8]) -> (r: Option<Option<Vec<u8>>>)
    ensures
        match r {
            Some(v) => first_get(entries_view(entries@), key@) == Some(crate::journal::opt_bytes(v)),
            None => first_get(entries_view(entries@), key@) is None,
        },
{
    let ghost ev = entries_view(entries@);
    let mut i: usize = 0;
    proof {
        assert(ev.skip(0) =~= ev);
    }
    while i < entries.len()
        invariant
            0 <= i <= entries@.len(),
            ev == entries_view(entries@),
            first_get(ev, key@) == first_get(ev.skip(i as int), key@),
        decreases entries@.len() - i,
    {
        proof {
            assert(ev.skip(i as int)[0] == ev[i as int]);
            assert(ev.skip(i as int).drop_first() =~= ev.skip(i + 1));
            assert(ev[i as int].0 == entries@[i as int].0@);
        }
        if compare_bytes(entries[i].0.as_slice(), key) == 0 {
            let v = match &entries[i].1 {
                Some(x) => Some(vstd::slice::slice_to_vec(x.as_slice())),
                None => None,
            };
            return Some(v);
        }
        i = i + 1;
    }
    None
}

impl<S: Store, C: ManifestCodec> ObjectLsm<S, C> {
    /// The block index of a segment: from the index cache, else the index
    /// embedded in the metadata, else read through the object's trailer and
    /// index (two ranged reads). A fetched or embedded index is cached.
    pub fn load_index(&mut self, prefix: &str, part: &str, seg: &SegmentMeta) -> (r: Result<
        SegmentIndex,
        Error,
    >)
        requires
            old(self).wf(),
        ensures
            final(self).metrics == old(self).metrics,
            final(self).wf(),
            final(self).st == old(self).st,
            final(self).parts == old(self).parts,
            final(self).read_only == old(self).read_only,
            final(self).lease_lost == old(self).lease_lost,
            final(self).block_cache == old(self).block_cache,
            (exists|i: int|
                0 <= i < old(self).index_cache.entries().len() && #[trigger] old(
                    self,
                ).index_cache.entries()[i].0 == seg.id) ==> (r matches Ok(ix) && old(
                self,
            ).index_cache.entries().contains((seg.id, ix@))),
            (forall|i: int|
                0 <= i < old(self).index_cache.entries().len() ==> #[trigger] old(
                    self,
                ).index_cache.entries()[i].0 != seg.id) ==> (seg.index matches Some(e) ==> (
            r matches Ok(ix) && ix@ == e@)),
    {
        match self.index_cache.get(seg.id) {
            Some(ix) => {
                proof {
                    let i = choose|i: int|
                        0 <= i < self.index_cache.entries().len()
                            && #[trigger] self.index_cache.entries()[i] == (seg.id, ix@);
                    assert(self.index_cache.entries()[i].0 == seg.id);
                    assert(self.index_cache.entries().contains((seg.id, ix@)));
                }
                return Ok(ix.clone_index());
            },
            None => {},
        }
        match &seg.index {
            Some(ix) => {
                self.index_cache.insert(seg.id, ix.clone_index());
                return Ok(ix.clone_index());
            },
            None => {},
        }
        let key = segment_key(prefix, part, seg.id);
        let tail_raw = match self.store.get_range(key.as_str(), seg.bytes.saturating_sub(20), 20)? {
            Some(b) => b,
            None => {
                return Err(Error::corrupt("segment tail missing"));
            },
        };
        let tail = parse_tail(tail_raw.as_slice())?;
        let idx_raw = match self.store.get_range(
            key.as_str(),
            tail.index_offset as u64,
            tail.index_len as u64,
        )? {
            Some(b) => b,
            None => {
                return Err(Error::corrupt("segment index missing"));
            },
        };
        let index = decode_index(idx_raw.as_slice())?;
        self.index_cache.insert(seg.id, index.clone_index());
        Ok(index)
    }

    /// One decoded block of a segment: from the block cache, else read with a
    /// ranged read, decoded and cached (when the cache can account for it).
    pub fn load_block(
        &mut self,
        prefix: &str,
        part: &str,
        seg: &SegmentMeta,
        block: &BlockMeta,
    ) -> (r: Result<SegmentEntries, Error>)
        requires
            old(self).wf(),
        ensures
            final(self).metrics == old(self).metrics,
            final(self).wf(),
            final(self).st == old(self).st,
            final(self).parts == old(self).parts,
            final(self).read_only == old(self).read_only,
            final(self).lease_lost == old(self).lease_lost,
            final(self).index_cache == old(self).index_cache,
            (exists|i: int| has_key_at(old(self).block_cache.blocks(), i, seg.id, block.offset)) ==> (
            r matches Ok(es) && exists|i: int|
                has_key_at(old(self).block_cache.blocks(), i, seg.id, block.offset) && #[trigger] old(
                    self,
                ).block_cache.blocks()[i].2 == entries_view(es@)),
    {
        match self.block_cache.get(seg.id, block.offset) {
            Some(es) => {
                return Ok(copy_entries(es));
            },
            None => {},
        }
        let key = segment_key(prefix, part, seg.id);
        let raw = match self.store.get_range(key.as_str(), block.offset as u64, block.len as u64)? {
            Some(b) => b,
            None => {
                return Err(Error::corrupt("segment block missing"));
            },
        };
        if raw.len() < 8 {
            return Err(Error::corrupt("block shorter than header"));
        }
        let entries = decode_block(raw.as_slice())?;
        if self.block_cache.used() <= u64::MAX - block.len as u64 {
            self.block_cache.insert(seg.id, block.offset, copy_entries(&entries), block.len as u64);
        }
        Ok(entries)
    }

    /// Point lookup: the partition's memtable, then its detached (uploading)
    /// memtable, then its segments newest to oldest, reading only the
    /// candidate block of each segment whose key range covers `key`. A
    /// tombstone hides every older value.
    pub fn lookup(&mut self, name: &str, key: &[u8]) -> (r: Result<Option<Vec<u8>>, Error>)
        requires
            old(self).wf(),
        ensures
            final(self).wf(),
            final(self).st == old(self).st,
            final(self).parts == old(self).parts,
            final(self).read_only == old(self).read_only,
            final(self).lease_lost == old(self).lease_lost,
            named_get(old(self).parts@, name@) is None ==> r == Ok::<Option<Vec<u8>>, Error>(None),
            named_get(old(self).parts@, name@) is Some && mem_of(old(self).parts@, name@).contains_key(
                key@,
            ) ==> (r matches Ok(v) && crate::journal::opt_bytes(v) == mem_of(
                old(self).parts@,
                name@,
            )[key@]),
            named_get(old(self).parts@, name@) is Some && !mem_of(
                old(self).parts@,
                name@,
            ).contains_key(key@) && crate::engine::has_flush(old(self).st.pending_flushes@, name@) ==> {
                let i = choose|i: int|
                    0 <= i < old(self).st.pending_flushes@.len() && (#[trigger] old(
                        self,
                    ).st.pending_flushes@[i]).partition@ == name@;
                first_get(entries_view(old(self).st.pending_flushes@[i].entries@), key@) matches Some(
                    e,
                ) ==> (r matches Ok(v) && crate::journal::opt_bytes(v) == e)
            },
            final(self).metrics.spec_counters() == (crate::metrics::MetricsSnapshot {
                gets: crate::metrics::bump(old(self).metrics.spec_counters().gets, 1),
                ..old(self).metrics.spec_counters()
            }),
            named_get(old(self).parts@, name@) is Some && !mem_of(old(self).parts@, name@).contains_key(key@)
                && !flush_holds(old(self).st.pending_flushes@, name@, key@) && key_outside_segments(
                segments_view(named_get(old(self).parts@, name@).unwrap().meta.segments@),
                key@,
            ) ==> r == Ok::<Option<Vec<u8>>, Error>(None),
    {
        self.metrics.bump_get();
        let ghost m1 = self.metrics.spec_counters();
        let idx = match table_find(&self.parts, name) {
            Some(i) => i,
            None => {
                return Ok(None);
            },
        };
        match self.parts[idx].1.get(key) {
            Some(e) => {
                return Ok(
                    match e {
                        MemEntry::Value(v) => Some(vstd::slice::slice_to_vec(v.as_slice())),
                        MemEntry::Tombstone => None,
                    },
                );
            },
            None => {},
        }
        let segs = copy_segments(&self.parts[idx].1.meta.segments);
        match find_flush(&self.st.pending_flushes, name) {
            Some(fi) => {
                proof {
                    let ps = self.st.pending_flushes@;
                    let p = choose|i: int|
                        0 <= i < ps.len() && (#[trigger] ps[i]).partition@ == name@;
                    if p != fi {
                        if p < fi {
                            assert(ps[p].partition@ != ps[fi as int].partition@);
                        } else {
                            assert(ps[fi as int].partition@ != ps[p].partition@);
                        }
                    }
                }
                match entries_find(&self.st.pending_flushes[fi].entries, key) {
                    Some(v) => {
                        return Ok(v);
                    },
                    None => {},
                }
            },
            None => {},
        }
        let prefix = self.st.cfg.prefix.clone();
        let mut i = segs.len();
        let ghost fl = old(self).st.pending_flushes@;
        proof {
            assert(segments_view(segs@).take(i as int) =~= segments_view(segs@));
            assert(named_get(old(self).parts@, name@) is Some);
            assert(!mem_of(old(self).parts@, name@).contains_key(key@));
        }
        while i > 0
            invariant
                i <= segs@.len(),
                named_get(old(self).parts@, name@) is Some,
                !mem_of(old(self).parts@, name@).contains_key(key@),
                fl == old(self).st.pending_flushes@,
                crate::engine::has_flush(fl, name@) ==> first_get(
                    entries_view(
                        fl[choose|i: int|
                            0 <= i < fl.len() && (#[trigger] fl[i]).partition@ == name@].entries@,
                    ),
                    key@,
                ) is None,
                self.wf(),
                self.st == old(self).st,
                self.parts == old(self).parts,
                self.read_only == old(self).read_only,
                self.lease_lost == old(self).lease_lost,
                self.metrics.spec_counters() == m1,
                m1 == (crate::metrics::MetricsSnapshot {
                    gets: crate::metrics::bump(old(self).metrics.spec_counters().gets, 1),
                    ..old(self).metrics.spec_counters()
                }),
                segments_view(segs@) == segments_view(named_get(old(self).parts@, name@).unwrap().meta.segments@),
                key_outside_segments(segments_view(segs@), key@) ==> key_outside_segments(
                    segments_view(segs@).take(i as int),
                    key@,
                ),
            decreases i,
        {
            proof {
                assert(segments_view(segs@).take(i as int)[i - 1] == segs@[i - 1]@);
            }
            i = i - 1;
            let seg = &segs[i];
            if compare_bytes(seg.first.as_slice(), key) > 0 || compare_bytes(seg.last.as_slice(), key)
                < 0 {
                continue;
            }
            let index = self.load_index(prefix.as_str(), name, seg)?;
            let bi = match find_block(&index, key) {
                Some(b) => b,
                None => {
                    continue;
                },
            };
            let entries = self.load_block(prefix.as_str(), name, seg, &index.blocks[bi])?;
            match block_lookup(&entries, key) {
                Some(v) => {
                    return Ok(v);
                },
                None => {},
            }
        }
        Ok(None)
    }
}

/// `key` lies outside the key range of every segment.
pub open spec fn key_outside_segments(segs: Seq<crate::segment::SegmentMetaV>, key: Seq<u8>) -> bool {
    forall|i: int| 0 <= i < segs.len() ==> lex_lt(key, (#[trigger] segs[i]).first) || lex_lt(segs[i].last, key)
}

/// A pending upload of partition `name` holds an entry for `key`.
pub open spec fn flush_holds(fl: Seq<crate::state::PendingFlush>, name: Seq<char>, key: Seq<u8>) -> bool {
    exists|i: int|
        0 <= i < fl.len() && (#[trigger] fl[i]).partition@ == name && first_get(entries_view(fl[i].entries@), key)
            is Some
}

/// Only the partition named `name` may differ between the two tables.
pub open spec fn others_kept(
    a: Seq<(String, PartitionState)>,
    b: Seq<(String, PartitionState)>,
    name: Seq<char>,
) -> bool {
    forall|n: Seq<char>| n != name ==> #[trigger] named_get(a, n) == named_get(b, n)
}

/// The memtable of `name` in `a` is the one in `b`, or empty.
pub open spec fn mem_kept_or_cleared(
    a: Seq<(String, PartitionState)>,
    b: Seq<(String, PartitionState)>,
    name: Seq<char>,
) -> bool {
    mem_of(a, name) == mem_of(b, name) || mem_of(a, name) == Map::<Seq<u8>, Option<Seq<u8>>>::empty()
}

/// An empty memtable denotes the empty map.
pub proof fn lemma_empty_mem(p: PartitionState)
    requires
        p.mem@.len() == 0,
    ensures
        p.mem_map() == Map::<Seq<u8>, Option<Seq<u8>>>::empty(),
{
    assert(crate::state::mem_view(p.mem@) =~= Seq::<EntryV>::empty());
    assert(p.mem_map() =~= Map::<Seq<u8>, Option<Seq<u8>>>::empty());
}

/// Taking a partition out and putting a changed one back changes only it.
proof fn lemma_take_set(
    t0: Seq<(String, PartitionState)>,
    t2: Seq<(String, PartitionState)>,
    idx: int,
    p0: PartitionState,
    p1: PartitionState,
)
    requires
        table_wf(t0),
        0 <= idx < t0.len(),
        t0[idx].1 == p0,
        p1.name == p0.name,
        t2 == t0.update(idx, (t0[idx].0, p1)),
    ensures
        others_kept(t2, t0, p0.name@),
        named_get(t2, p0.name@) == Some(p1),
        named_get(t0, p0.name@) == Some(p0),
        names_of(t2) == names_of(t0),
{
    crate::state::lemma_named_get_at(t0, idx);
    assert(names_of(t2) =~= names_of(t0)) by {
        assert forall|i: int| 0 <= i < t2.len() implies #[trigger] names_of(t2)[i] == names_of(t0)[i] by {
            if i != idx {
                assert(t2[i] == t0[i]);
            }
        }
    }
    assert(names_of(t0)[idx] == t0[idx].0@);
    crate::state::lemma_named_get_at(t2, idx);
    assert forall|n: Seq<char>| n != p0.name@ implies #[trigger] named_get(t2, n) == named_get(t0, n) by {
        crate::state::lemma_named_get_idx(t0, n);
        crate::state::lemma_named_get_idx(t2, n);
        if let Some(v) = named_get(t0, n) {
            let i = choose|i: int| 0 <= i < t0.len() && (#[trigger] t0[i]).0@ == n && t0[i].1 == v;
            assert(i != idx);
            assert(t2[i] == t0[i]);
            assert(names_of(t2)[i] == n);
            crate::state::lemma_named_get_at(t2, i);
        } else if let Some(v) = named_get(t2, n) {
            let i = choose|i: int| 0 <= i < t2.len() && (#[trigger] t2[i]).0@ == n && t2[i].1 == v;
            assert(i != idx);
            assert(t2[i] == t0[i]);
            assert(names_of(t0)[i] == n);
            crate::state::lemma_named_get_at(t0, i);
        }
    }
}

impl<S: Store, C: ManifestCodec> ObjectLsm<S, C> {
    /// Refuse writes once the writer lease is lost.
    pub fn ensure_writer(&self) -> (r: Result<(), Error>)
        ensures
            r is Ok <==> !self.lease_lost,
            r matches Err(e) ==> (e matches Error::Store(m) && m@ == "writer lease lost"@),
    {
        if self.lease_lost {
            return Err(Error::store("writer lease lost"));
        }
        Ok(())
    }

    /// Refuse writes on a read-only follower, then apply lease fencing.
    pub fn ensure_writable(&self) -> (r: Result<(), Error>)
        ensures
            r is Ok <==> !self.read_only && !self.lease_lost,
            r matches Err(e) ==> (e matches Error::Store(m) && m@ == (if self.read_only {
                "engine is a read-only follower"@
            } else {
                "writer lease lost"@
            })),
    {
        if self.read_only {
            return Err(Error::store("engine is a read-only follower"));
        }
        self.ensure_writer()
    }

    /// Flush a partition's memtable through the detached upload path: any
    /// pending upload of the partition is finished first, then the whole
    /// memtable is detached and its segment published. On success the
    /// memtable is empty; other partitions are untouched.
    pub fn flush_partition_detached(&mut self, part: &str) -> (r: Result<(), Error>)
        requires
            old(self).wf(),
        ensures
            final(self).metrics == old(self).metrics,
            final(self).wf(),
            others_kept(final(self).parts@, old(self).parts@, part@),
            mem_kept_or_cleared(final(self).parts@, old(self).parts@, part@),
            names_of(final(self).parts@) == names_of(old(self).parts@),
            final(self).st.cfg == old(self).st.cfg,
            final(self).st.fence_epoch == old(self).st.fence_epoch,
            final(self).st.journal_seq == old(self).st.journal_seq,
            final(self).read_only == old(self).read_only,
            final(self).lease_lost == old(self).lease_lost,
            r is Ok ==> mem_of(final(self).parts@, part@) == Map::<Seq<u8>, Option<Seq<u8>>>::empty(),
            (named_get(old(self).parts@, part@) matches Some(p) ==> (named_get(
                final(self).parts@,
                part@,
            ) matches Some(q) && q.meta.dropped == p.meta.dropped && q.compacting == p.compacting)),
            named_get(old(self).parts@, part@) is None ==> r is Ok && final(self).parts@ == old(self).parts@
                && final(self).st == old(self).st,
            named_get(old(self).parts@, part@) is Some && (old(self).st.manifest_seq >= u64::MAX - 1
                || old(self).st.next_segment_id == u64::MAX) ==> r is Err && final(self).parts@ == old(
                self,
            ).parts@ && final(self).st == old(self).st,
            named_get(old(self).parts@, part@) matches Some(p) && p.mem@.len() == 0 && !has_flush(
                old(self).st.pending_flushes@,
                part@,
            ) && old(self).st.manifest_seq < u64::MAX - 1 && old(self).st.next_segment_id < u64::MAX ==> r is Ok
                && final(self).parts@ == old(self).parts@ && final(self).st == old(self).st,
            named_get(old(self).parts@, part@) is Some && named_get(old(self).parts@, part@).unwrap().mem@.len()
                > 0 && !has_flush(old(self).st.pending_flushes@, part@) && r is Ok ==> flushed_into(
                named_get(final(self).parts@, part@),
                named_get(old(self).parts@, part@).unwrap(),
                old(self).st.next_segment_id,
                old(self).st.journal_seq,
                old(self).st.cfg.block_size,
            ),
    {
        let idx = match table_find(&self.parts, part) {
            None => {
                return Ok(());
            },
            Some(i) => i,
        };
        let ghost t0 = self.parts@;
        let ghost st0 = self.st;
        if self.st.manifest_seq >= u64::MAX - 1 || self.st.next_segment_id == u64::MAX {
            return Err(Error::store("sequence space exhausted"));
        }
        let mut ps = table_take(&mut self.parts, idx);
        let ghost p0 = ps;
        let r1 = finish_partition_flush(&mut self.store, &self.codec, &mut self.st, &mut ps);
        if r1.is_err() || ps.mem.len() == 0 {
            let ghost p1 = ps;
            table_set(&mut self.parts, idx, ps);
            proof {
                assert(self.parts@ =~= t0.update(idx as int, (t0[idx as int].0, p1)));
                lemma_take_set(t0, self.parts@, idx as int, p0, p1);
                if p1.mem@.len() == 0 {
                    lemma_empty_mem(p1);
                }
                if p1 == p0 {
                    assert(t0.update(idx as int, (t0[idx as int].0, p1)) =~= t0);
                }
            }
            return r1;
        }
        let entries = memtable_entries(&ps.mem);
        let encoded = match encode_segment_pub(&entries, self.st.cfg.block_size as usize) {
            Ok(e) => e,
            Err(e) => {
                let ghost p1 = ps;
                table_set(&mut self.parts, idx, ps);
                proof {
                    assert(self.parts@ =~= t0.update(idx as int, (t0[idx as int].0, p1)));
                lemma_take_set(t0, self.parts@, idx as int, p0, p1);
                }
                return Err(e);
            },
        };
        let ghost pm = ps;
        let pending = detach_flush(&mut self.st, &mut ps, encoded, entries);
        let ghost pv = pending;
        let ghost old_f = self.st.pending_flushes@;
        proof {
            assert(!has_flush(old_f, ps.name@));
        }
        self.st.pending_flushes.push(pending);
        proof {
            let nf = self.st.pending_flushes@;
            assert forall|i: int, j: int| 0 <= i < j < nf.len() implies (#[trigger] nf[i]).partition@
                != (#[trigger] nf[j]).partition@ by {
                if j < old_f.len() {
                    assert(nf[i] == old_f[i] && nf[j] == old_f[j]);
                } else {
                    assert(nf[i] == old_f[i]);
                }
            }
        }
        let ghost fl = self.st.pending_flushes@;
        let ghost pre = ps;
        let r2 = finish_partition_flush(&mut self.store, &self.codec, &mut self.st, &mut ps);
        let ghost p1 = ps;
        table_set(&mut self.parts, idx, ps);
        proof {
            assert(self.parts@ =~= t0.update(idx as int, (t0[idx as int].0, p1)));
                lemma_take_set(t0, self.parts@, idx as int, p0, p1);
            lemma_empty_mem(p1);
            if r2 is Ok && !has_flush(st0.pending_flushes@, part@) {
                assert(fl[fl.len() - 1] == pv);
                assert(has_flush(fl, pre.name@));
                let c = choose|i: int| 0 <= i < fl.len() && (#[trigger] fl[i]).partition@ == pre.name@;
                if c != fl.len() - 1 {
                    assert(fl[c].partition@ != fl[fl.len() - 1].partition@);
                }
                assert(pm == p0);
                assert(named_get(self.parts@, part@) == Some(p1));
            }
        }
        r2
    }
}

/// Some segment of `segs` has id `id`.
pub open spec fn replaced_id(segs: Seq<SegmentMeta>, id: u64) -> bool {
    exists|j: int| 0 <= j < segs.len() && (#[trigger] segs[j]).id == id
}

/// Read and merge the given segments and write the merged segment under
/// `segment_id`: its metadata, or `None` when nothing live remains (no object
/// is written then). The merged segment carries the newest input segment's
/// watermark.
pub fn merge_segments<S: Store>(
    store: &mut S,
    prefix: &str,
    part: &str,
    segs: &Vec<SegmentMeta>,
    segment_id: u64,
    block_size: usize,
    embed_index: bool,
) -> (r: Result<Option<SegmentMeta>, Error>)
    ensures
        r matches Ok(Some(m)) ==> m.id == segment_id && (segs@.len() > 0 ==> m.seq == segs@.last().seq),
        segs@.len() == 0 ==> r matches Ok(None),
        r matches Ok(mo) ==> merged_from(
            crate::segment::segments_view(segs@),
            match mo {
                Some(m) => Some(m@),
                None => None,
            },
            segment_id,
            block_size as nat,
        ),
{
    let all = read_segments(&*store, prefix, part, segs)?;
    let ghost rv = crate::merge::runs_view(all@);
    proof {
        assert forall|i: int| 0 <= i < rv.len() implies crate::engine::is_segment_content(#[trigger] rv[i]) by {
            assert(rv[i] == entries_view(all@[i]@));
        }
    }
    let out = crate::merge::merge_entries(all);
    let ghost ov = entries_view(out@);
    proof {
        assert(merge_of(rv, ov));
    }
    proof {
        if segs@.len() == 0 && out@.len() > 0 {
            let ov = entries_view(out@);
            lemma_seq_get_at(ov, 0);
            assert(crate::state::entries_map(ov).contains_key(ov[0].0));
            assert(rv.len() == 0);
            assert(crate::merge::newest(rv, ov[0].0) is None);
        }
    }
    if out.len() == 0 {
        proof {
            assert(merged_from(crate::segment::segments_view(segs@), None, segment_id, block_size as nat));
        }
        return Ok(None);
    }
    let encoded = encode_segment_pub(&out, block_size)?;
    let key = segment_key(prefix, part, segment_id);
    store.put(key.as_str(), encoded.as_slice())?;
    let seq = if segs.len() > 0 {
        segs[segs.len() - 1].seq
    } else {
        0
    };
    let m = crate::segment::build_segment_meta(segment_id, seq, encoded.as_slice(), &out, embed_index)?;
    proof {
        assert(crate::engine::meta_describes(
            m@,
            segment_id,
            if segs@.len() > 0 { segs@.last().seq } else { 0 },
            crate::segment::spec_encode_segment(ov, block_size as nat),
            ov,
        ));
        assert(merged_from(crate::segment::segments_view(segs@), Some(m@), segment_id, block_size as nat));
    }
    Ok(Some(m))
}

/// Partition `p` (named `name`) is ready for a merge: nothing to flush,
/// no upload pending, live, not compacting, and at least two segments.
pub open spec fn ready_to_merge(p: PartitionState, flushes: Seq<crate::state::PendingFlush>, name: Seq<char>) -> bool {
    &&& p.mem@.len() == 0
    &&& !has_flush(flushes, name)
    &&& !p.compacting
    &&& !p.meta.dropped
    &&& p.meta.segments@.len() >= 2
}

/// After merge-compacting partition `p`, `now` holds exactly the merged
/// segment of `p`'s segments (none when nothing live remained) and is no
/// longer compacting.
pub open spec fn compacted_into(now: Option<PartitionState>, p: PartitionState, id: u64, block_size: u32) -> bool {
    let sv = crate::segment::segments_view(p.meta.segments@);
    &&& now matches Some(q)
    &&& !q.compacting
    &&& exists|mo: Option<crate::segment::SegmentMetaV>|
        #[trigger] merged_from(sv, mo, id, (block_size as usize) as nat) && crate::segment::segments_view(
            q.meta.segments@,
        ) == (match mo {
            Some(m) => seq![m],
            None => Seq::<crate::segment::SegmentMetaV>::empty(),
        })
}

/// `now` keeps partition `p`'s segments and is not compacting.
pub open spec fn segments_kept(now: Option<PartitionState>, p: PartitionState) -> bool {
    &&& now matches Some(q)
    &&& !q.compacting
    &&& crate::segment::segments_view(q.meta.segments@) == crate::segment::segments_view(p.meta.segments@)
}

/// Selecting, from a segment list, the segments whose ids are not among its
/// own ids leaves nothing.
proof fn lemma_select_all_out(s: Seq<crate::segment::SegmentMetaV>)
    ensures
        crate::engine::select_ids(s, ids_of(s), false) == Seq::<crate::segment::SegmentMetaV>::empty(),
{
    assert forall|i: int| 0 <= i < s.len() implies ids_of(s).contains(#[trigger] s[i].id) by {
        assert(ids_of(s)[i] == s[i].id);
    }
    lemma_select_out_sub(s, ids_of(s));
}

proof fn lemma_select_out_sub(s: Seq<crate::segment::SegmentMetaV>, ids: Seq<u64>)
    requires
        forall|i: int| 0 <= i < s.len() ==> ids.contains(#[trigger] s[i].id),
    ensures
        crate::engine::select_ids(s, ids, false) == Seq::<crate::segment::SegmentMetaV>::empty(),
    decreases s.len(),
{
    if s.len() > 0 {
        assert(ids.contains(s[s.len() - 1].id));
        lemma_select_out_sub(s.drop_last(), ids);
    }
}

/// `out` is the merge of `runs` (oldest first): strictly ascending, values
/// only, holding each key whose newest entry across the runs is a value,
/// with that value.
pub open spec fn merge_of(runs: Seq<Seq<EntryV>>, out: Seq<EntryV>) -> bool {
    &&& strictly_sorted(out)
    &&& forall|i: int| 0 <= i < out.len() ==> (#[trigger] out[i]).1 is Some
    &&& crate::state::entries_map(out) == crate::merge::live_map(crate::merge::newest_map(runs))
}

/// `mo` is the merged segment of `segs`: one run decoded from each segment
/// object is merged, and the result is either nothing (no live entry left)
/// or segment `id`, carrying the newest input's watermark, described by the
/// encoding of the merged entries.
pub open spec fn merged_from(segs: Seq<crate::segment::SegmentMetaV>, mo: Option<crate::segment::SegmentMetaV>, id: u64, block_size: nat) -> bool {
    exists|runs: Seq<Seq<EntryV>>, out: Seq<EntryV>|
        #[trigger] merge_of(runs, out) && runs.len() == segs.len() && (forall|i: int|
            0 <= i < runs.len() ==> crate::engine::is_segment_content(#[trigger] runs[i])) && (mo is None
            <==> out.len() == 0) && (mo matches Some(m) ==> crate::engine::meta_describes(
            m,
            id,
            if segs.len() > 0 {
                segs.last().seq
            } else {
                0
            },
            crate::segment::spec_encode_segment(out, block_size),
            out,
        ))
}

impl<S: Store, C: ManifestCodec> ObjectLsm<S, C> {
    /// Delete replaced segment objects (when eager deletion is on) and drop
    /// their cached indexes.
    pub fn delete_old_segments(&mut self, part: &str, replaced: Vec<SegmentMeta>)
        requires
            old(self).wf(),
        ensures
            final(self).metrics == old(self).metrics,
            final(self).wf(),
            final(self).st == old(self).st,
            final(self).parts == old(self).parts,
            final(self).read_only == old(self).read_only,
            final(self).lease_lost == old(self).lease_lost,
            !old(self).st.cfg.eager_object_delete ==> final(self).store == old(self).store,
            forall|e: IndexV| #[trigger]
                final(self).index_cache.entries().contains(e) <==> old(self).index_cache.entries().contains(e)
                    && !replaced_id(replaced@, e.0),
    {
        let eager = self.st.cfg.eager_object_delete;
        let mut i: usize = 0;
        while i < replaced.len()
            invariant
                0 <= i <= replaced@.len(),
                self.wf(),
                self.st == old(self).st,
                self.parts == old(self).parts,
                self.read_only == old(self).read_only,
                self.lease_lost == old(self).lease_lost,
                eager == self.st.cfg.eager_object_delete,
                !eager ==> self.store == old(self).store,
                self.metrics == old(self).metrics,
                forall|e: IndexV| #[trigger]
                    self.index_cache.entries().contains(e) <==> old(self).index_cache.entries().contains(e)
                        && !replaced_id(replaced@.take(i as int), e.0),
            decreases replaced@.len() - i,
        {
            proof {
                assert forall|id: u64| #[trigger] replaced_id(replaced@.take(i + 1), id) <==> replaced_id(
                    replaced@.take(i as int),
                    id,
                ) || id == replaced@[i as int].id by {
                    if replaced_id(replaced@.take(i + 1), id) {
                        let j = choose|j: int| 0 <= j < i + 1 && (#[trigger] replaced@.take(i + 1)[j]).id == id;
                        if j < i {
                            assert(replaced@.take(i as int)[j] == replaced@.take(i + 1)[j]);
                        }
                    }
                    if replaced_id(replaced@.take(i as int), id) {
                        let j = choose|j: int| 0 <= j < i && (#[trigger] replaced@.take(i as int)[j]).id == id;
                        assert(replaced@.take(i + 1)[j] == replaced@.take(i as int)[j]);
                    }
                    if id == replaced@[i as int].id {
                        assert(replaced@.take(i + 1)[i as int] == replaced@[i as int]);
                    }
                }
            }
            if eager {
                let key = segment_key(self.st.cfg.prefix.as_str(), part, replaced[i].id);
                let _ = self.store.delete(key.as_str());
            }
            self.index_cache.remove(replaced[i].id);
            i = i + 1;
        }
        proof {
            assert(replaced@.take(i as int) =~= replaced@);
        }
    }

    /// Compact one partition: flush its memtable, then merge all its
    /// segments into one and swap them in. Partitions that are dropped,
    /// already compacting or hold fewer than two segments are left alone.
    /// The segments merged are found again by id when the result is
    /// installed; if one has disappeared meanwhile the merged object is
    /// discarded.
    pub fn compact_partition_detached(&mut self, part: &str) -> (r: Result<(), Error>)
        requires
            old(self).wf(),
        ensures
            final(self).metrics == old(self).metrics,
            final(self).wf(),
            others_kept(final(self).parts@, old(self).parts@, part@),
            mem_kept_or_cleared(final(self).parts@, old(self).parts@, part@),
            names_of(final(self).parts@) == names_of(old(self).parts@),
            final(self).st.cfg == old(self).st.cfg,
            final(self).st.fence_epoch == old(self).st.fence_epoch,
            final(self).st.journal_seq == old(self).st.journal_seq,
            final(self).read_only == old(self).read_only,
            final(self).lease_lost == old(self).lease_lost,
            r is Ok ==> mem_of(final(self).parts@, part@) == Map::<Seq<u8>, Option<Seq<u8>>>::empty(),
            (named_get(old(self).parts@, part@) matches Some(p) ==> (named_get(
                final(self).parts@,
                part@,
            ) matches Some(q) && q.meta.dropped == p.meta.dropped && !q.compacting)) || (named_get(
                old(self).parts@,
                part@,
            ) matches Some(p) && p.compacting),
            named_get(old(self).parts@, part@) is None ==> r is Ok && final(self).parts@ == old(self).parts@
                && final(self).st == old(self).st,
            named_get(old(self).parts@, part@) matches Some(p) && p.mem@.len() == 0 && !has_flush(
                old(self).st.pending_flushes@,
                part@,
            ) && old(self).st.manifest_seq < u64::MAX - 1 && old(self).st.next_segment_id < u64::MAX && (
            p.compacting || p.meta.dropped || p.meta.segments@.len() < 2) ==> r is Ok && final(self).parts@
                == old(self).parts@ && final(self).st == old(self).st,
            r is Ok && named_get(old(self).parts@, part@) is Some && ready_to_merge(
                named_get(old(self).parts@, part@).unwrap(),
                old(self).st.pending_flushes@,
                part@,
            ) ==> compacted_into(
                named_get(final(self).parts@, part@),
                named_get(old(self).parts@, part@).unwrap(),
                old(self).st.next_segment_id,
                old(self).st.cfg.block_size,
            ) && final(self).st.compactions_completed == crate::state::sat_add(
                old(self).st.compactions_completed,
                1,
            ),
            r is Err && named_get(old(self).parts@, part@) is Some && ready_to_merge(
                named_get(old(self).parts@, part@).unwrap(),
                old(self).st.pending_flushes@,
                part@,
            ) ==> segments_kept(
                named_get(final(self).parts@, part@),
                named_get(old(self).parts@, part@).unwrap(),
            ) || compacted_into(
                named_get(final(self).parts@, part@),
                named_get(old(self).parts@, part@).unwrap(),
                old(self).st.next_segment_id,
                old(self).st.cfg.block_size,
            ),
    {
        let ghost p_old = named_get(old(self).parts@, part@);
        let ghost ready = p_old is Some && ready_to_merge(p_old.unwrap(), old(self).st.pending_flushes@, part@);
        let ghost id0 = old(self).st.next_segment_id;
        self.flush_partition_detached(part)?;
        let ghost t_a = self.parts@;
        proof {
            if ready {
                assert(self.parts@ == old(self).parts@ && self.st == old(self).st);
            }
        }
        let idx = match table_find(&self.parts, part) {
            None => {
                return Ok(());
            },
            Some(i) => i,
        };
        if self.parts[idx].1.compacting || self.parts[idx].1.meta.dropped
            || self.parts[idx].1.meta.segments.len() < 2 {
            return Ok(());
        }
        if self.st.next_segment_id == u64::MAX || self.st.manifest_seq == u64::MAX {
            return Err(Error::store("sequence space exhausted"));
        }
        let segs = copy_segments(&self.parts[idx].1.meta.segments);
        proof {
            if ready {
                assert(self.parts@[idx as int].1 == p_old.unwrap());
                assert(segments_view(segs@) == segments_view(p_old.unwrap().meta.segments@));
            }
        }
        let segment_id = self.st.next_segment_id;
        self.st.next_segment_id = self.st.next_segment_id + 1;
        let mut ps = table_take(&mut self.parts, idx);
        let ghost p0 = ps;
        ps.compacting = true;
        let ghost p_mark = ps;
        table_set(&mut self.parts, idx, ps);
        let ghost t_b = self.parts@;
        proof {
            assert(self.parts@ =~= t_a.update(idx as int, (t_a[idx as int].0, p_mark)));
            lemma_take_set(t_a, self.parts@, idx as int, p0, p_mark);
        }
        let prefix = self.st.cfg.prefix.clone();
        let merged = match merge_segments(
            &mut self.store,
            prefix.as_str(),
            part,
            &segs,
            segment_id,
            self.st.cfg.block_size as usize,
            self.st.cfg.manifest_embed_index,
        ) {
            Ok(m) => m,
            Err(e) => {
                let mut ps = table_take(&mut self.parts, idx);
                let ghost q0 = ps;
                ps.compacting = false;
                let ghost q1 = ps;
                table_set(&mut self.parts, idx, ps);
                proof {
                    assert(self.parts@ =~= t_b.update(idx as int, (t_b[idx as int].0, q1)));
                    lemma_take_set(t_b, self.parts@, idx as int, q0, q1);
                    if ready {
                        assert(named_get(self.parts@, part@) == Some(q1));
                        assert(segments_kept(named_get(self.parts@, part@), p_old.unwrap()));
                    }
                }
                return Err(e);
            },
        };
        let old_ids = segment_ids(&segs);
        let mut ps = table_take(&mut self.parts, idx);
        let ghost q0 = ps;
        ps.compacting = false;
        let ghost mo = if merged is Some {
            Some(merged->Some_0@)
        } else {
            None::<crate::segment::SegmentMetaV>
        };
        proof {
            let sv = segments_view(ps.meta.segments@);
            assert(sv == segments_view(segs@));
            assert forall|i: int| 0 <= i < old_ids@.len() implies ids_of(sv).contains(
                #[trigger] old_ids@[i],
            ) by {
                assert(ids_of(sv)[i] == old_ids@[i]);
            }
            lemma_select_all_out(sv);
        }
        let removed = apply_compaction(&mut ps.meta.segments, &old_ids, merged);
        let removed = match removed {
            None => {
                let ghost q1 = ps;
                table_set(&mut self.parts, idx, ps);
                proof {
                    assert(self.parts@ =~= t_b.update(idx as int, (t_b[idx as int].0, q1)));
                    lemma_take_set(t_b, self.parts@, idx as int, q0, q1);
                }
                let key = segment_key(prefix.as_str(), part, segment_id);
                let _ = self.store.delete(key.as_str());
                return Ok(());
            },
            Some(v) => v,
        };
        sync_partition_meta(&mut self.st, &ps);
        let ghost q1 = ps;
        table_set(&mut self.parts, idx, ps);
        proof {
            assert(self.parts@ =~= t_b.update(idx as int, (t_b[idx as int].0, q1)));
            lemma_take_set(t_b, self.parts@, idx as int, q0, q1);
        }
        proof {
            if ready {
                assert(segments_view(q1.meta.segments@) == (match mo {
                    Some(m) => seq![m],
                    None => Seq::<crate::segment::SegmentMetaV>::empty(),
                }));
                assert(named_get(self.parts@, part@) == Some(q1));
                assert(compacted_into(
                    named_get(self.parts@, part@),
                    p_old.unwrap(),
                    id0,
                    self.st.cfg.block_size,
                ));
            }
        }
        let ghost t_c = self.parts@;
        if self.st.manifest_seq == u64::MAX {
            return Err(Error::store("sequence space exhausted"));
        }
        publish_manifest(&mut self.store, &self.codec, &mut self.st)?;
        gc_journal(&mut self.store, &mut self.st);
        self.st.compactions_completed = self.st.compactions_completed.saturating_add(1);
        self.delete_old_segments(part, removed);
        proof {
            assert(self.parts@ == t_c);
        }
        Ok(())
    }
}

/// The journal watermark of runtime partition `n` (`0` when absent).
pub open spec fn table_wm(t: Seq<(String, PartitionState)>, n: Seq<char>) -> u64 {
    match named_get(t, n) {
        Some(p) => p.meta.watermark,
        None => 0,
    }
}

/// Apply a committed group to the memtables of the partitions it targets,
/// skipping partitions whose watermark already covers the group. Partitions
/// missing from the table are skipped.
pub fn apply_group_to_table(t: &mut Vec<(String, PartitionState)>, group: &Group)
    requires
        table_wf(old(t)@),
    ensures
        table_wf(final(t)@),
        names_of(final(t)@) == names_of(old(t)@),
        forall|n: Seq<char>|
            named_get(old(t)@, n) is Some && group.seq > table_wm(old(t)@, n) ==> #[trigger] mem_of(
                final(t)@,
                n,
            ) == ops_into(mem_of(old(t)@, n), group@.ops, n),
        forall|n: Seq<char>|
            !(named_get(old(t)@, n) is Some && group.seq > table_wm(old(t)@, n) && targets(
                group@.ops,
                n,
            )) ==> #[trigger] named_get(final(t)@, n) == named_get(old(t)@, n),
        forall|n: Seq<char>|
            #[trigger] named_get(old(t)@, n) is Some ==> named_get(final(t)@, n) is Some && named_get(
                final(t)@,
                n,
            ).unwrap().meta == named_get(old(t)@, n).unwrap().meta && named_get(
                final(t)@,
                n,
            ).unwrap().compacting == named_get(old(t)@, n).unwrap().compacting,
{
    let ghost ops = group@.ops;
    let ghost t0 = t@;
    let mut j: usize = 0;
    while j < group.ops.len()
        invariant
            0 <= j <= group.ops@.len(),
            ops == group@.ops,
            table_wf(t@),
            names_of(t@) == names_of(t0),
            forall|n: Seq<char>|
                named_get(t0, n) is Some && group.seq > table_wm(t0, n) ==> #[trigger] mem_of(t@, n)
                    == ops_into(mem_of(t0, n), ops.take(j as int), n),
            forall|n: Seq<char>|
                !(named_get(t0, n) is Some && group.seq > table_wm(t0, n) && targets(
                    ops.take(j as int),
                    n,
                )) ==> #[trigger] named_get(t@, n) == named_get(t0, n),
            forall|n: Seq<char>|
                #[trigger] named_get(t0, n) is Some ==> named_get(t@, n) is Some && named_get(
                    t@,
                    n,
                ).unwrap().meta == named_get(t0, n).unwrap().meta && named_get(
                    t@,
                    n,
                ).unwrap().compacting == named_get(t0, n).unwrap().compacting,
        decreases group.ops@.len() - j,
    {
        let op = &group.ops[j];
        let ghost o = ops[j as int];
        let ghost tj = t@;
        proof {
            assert(o == op@);
            assert(ops.take(j + 1).drop_last() =~= ops.take(j as int));
            assert(ops.take(j + 1).last() == o);
            assert(ops.take(j + 1)[j as int] == o);
        }
        let found = table_find(t, op.part.as_str());
        match found {
            Some(idx) => {
                if group.seq > t[idx].1.meta.watermark {
                    let mut ps = table_take(t, idx);
                    let ghost p0 = ps;
                    let v: Option<&[u8]> = match &op.value {
                        Some(v) => Some(v.as_slice()),
                        None => None,
                    };
                    proof {
                        assert((match v {
                            Some(x) => Some(x@),
                            None => None,
                        }) == o.value);
                    }
                    ps.apply(op.key.as_slice(), v);
                    let ghost p1 = ps;
                    table_set(t, idx, ps);
                    proof {
                        assert(t@ =~= tj.update(idx as int, (tj[idx as int].0, p1)));
                        lemma_take_set(tj, t@, idx as int, p0, p1);
                        let n0 = o.part;
                        assert(named_get(t0, n0) is Some);
                        assert(table_wm(t0, n0) == p0.meta.watermark);
                        assert forall|n: Seq<char>|
                            named_get(t0, n) is Some && group.seq > table_wm(t0, n) implies #[trigger] mem_of(
                            t@,
                            n,
                        ) == ops_into(mem_of(t0, n), ops.take(j + 1), n) by {
                            if n != n0 {
                                assert(named_get(t@, n) == named_get(tj, n));
                                assert(mem_of(tj, n) == ops_into(mem_of(t0, n), ops.take(j as int), n));
                                assert(ops_into(mem_of(t0, n), ops.take(j + 1), n) == ops_into(
                                    mem_of(t0, n),
                                    ops.take(j as int),
                                    n,
                                ));
                            } else {
                                assert(p0.name@ == n0);
                                assert(mem_of(tj, n0) == p0.mem_map());
                                assert(mem_of(t@, n0) == p1.mem_map());
                                assert(mem_of(tj, n0) == ops_into(mem_of(t0, n0), ops.take(j as int), n0));
                                assert(ops_into(mem_of(t0, n0), ops.take(j + 1), n0) == ops_into(
                                    mem_of(t0, n0),
                                    ops.take(j as int),
                                    n0,
                                ).insert(o.key, o.value));
                            }
                        }
                        assert forall|n: Seq<char>|
                            !(named_get(t0, n) is Some && group.seq > table_wm(t0, n) && targets(
                                ops.take(j + 1),
                                n,
                            )) implies #[trigger] named_get(t@, n) == named_get(t0, n) by {
                            if targets(ops.take(j as int), n) {
                                let i = choose|i: int|
                                    0 <= i < ops.take(j as int).len() && (#[trigger] ops.take(
                                        j as int,
                                    )[i]).part == n;
                                assert(ops.take(j + 1)[i] == ops.take(j as int)[i]);
                            }
                            if n == n0 {
                                assert(targets(ops.take(j + 1), n));
                            } else {
                                assert(named_get(t@, n) == named_get(tj, n));
                            }
                        }
                        assert forall|n: Seq<char>|
                            #[trigger] named_get(t0, n) is Some implies named_get(t@, n) is Some
                                && named_get(t@, n).unwrap().meta == named_get(t0, n).unwrap().meta
                                && named_get(t@, n).unwrap().compacting == named_get(
                                t0,
                                n,
                            ).unwrap().compacting by {
                            if n != n0 {
                                assert(named_get(t@, n) == named_get(tj, n));
                            }
                        }
                    }
                } else {
                    proof {
                        lemma_skip_op(t0, t@, ops, j as int, group.seq);
                    }
                }
            },
            None => {
                proof {
                    lemma_skip_op(t0, t@, ops, j as int, group.seq);
                }
            },
        }
        j = j + 1;
    }
    proof {
        assert(ops.take(j as int) =~= ops);
    }
}

/// An op that is not applied leaves the invariant of the apply loop intact.
proof fn lemma_skip_op(
    t0: Seq<(String, PartitionState)>,
    t: Seq<(String, PartitionState)>,
    ops: Seq<OpV>,
    j: int,
    seq: u64,
)
    requires
        0 <= j < ops.len(),
        !(named_get(t, ops[j].part) is Some && seq > table_wm(t, ops[j].part)),
        forall|n: Seq<char>|
            named_get(t0, n) is Some && seq > table_wm(t0, n) ==> #[trigger] mem_of(t, n)
                == ops_into(mem_of(t0, n), ops.take(j), n),
        forall|n: Seq<char>|
            !(named_get(t0, n) is Some && seq > table_wm(t0, n) && targets(ops.take(j), n))
                ==> #[trigger] named_get(t, n) == named_get(t0, n),
        forall|n: Seq<char>|
            #[trigger] named_get(t0, n) is Some ==> named_get(t, n) is Some && named_get(
                t,
                n,
            ).unwrap().meta == named_get(t0, n).unwrap().meta,
    ensures
        forall|n: Seq<char>|
            named_get(t0, n) is Some && seq > table_wm(t0, n) ==> #[trigger] mem_of(t, n)
                == ops_into(mem_of(t0, n), ops.take(j + 1), n),
        forall|n: Seq<char>|
            !(named_get(t0, n) is Some && seq > table_wm(t0, n) && targets(ops.take(j + 1), n))
                ==> #[trigger] named_get(t, n) == named_get(t0, n),
{
    let o = ops[j];
    assert(ops.take(j + 1).drop_last() =~= ops.take(j));
    assert(ops.take(j + 1).last() == o);
    assert(ops.take(j + 1)[j] == o);
    assert(named_get(t0, o.part) is Some && seq > table_wm(t0, o.part) ==> named_get(t, o.part) is Some
        && table_wm(t, o.part) == table_wm(t0, o.part));
    assert forall|n: Seq<char>|
        named_get(t0, n) is Some && seq > table_wm(t0, n) implies #[trigger] mem_of(t, n)
            == ops_into(mem_of(t0, n), ops.take(j + 1), n) by {
        if n == o.part {
            assert(false);
        }
    }
    assert forall|n: Seq<char>|
        !(named_get(t0, n) is Some && seq > table_wm(t0, n) && targets(ops.take(j + 1), n)) implies #[trigger] named_get(
        t,
        n,
    ) == named_get(t0, n) by {
        if targets(ops.take(j), n) {
            let i = choose|i: int| 0 <= i < ops.take(j).len() && (#[trigger] ops.take(j)[i]).part == n;
            assert(ops.take(j + 1)[i] == ops.take(j)[i]);
        }
    }
}

/// What a committed group leaves in partition `n`'s memtable: the group's ops
/// for `n` applied in order, unless the partition's watermark already covers
/// the group.
pub open spec fn committed_mem(
    t: Seq<(String, PartitionState)>,
    ops: Seq<OpV>,
    seq: u64,
    n: Seq<char>,
) -> Map<Seq<u8>, Option<Seq<u8>>> {
    if seq > table_wm(t, n) {
        ops_into(mem_of(t, n), ops, n)
    } else {
        mem_of(t, n)
    }
}

/// After a commit: every targeted partition holds the committed memtable or,
/// when maintenance flushed it, an empty one; other partitions are
/// untouched.
pub open spec fn commit_outcome(
    t: Seq<(String, PartitionState)>,
    t0: Seq<(String, PartitionState)>,
    ops: Seq<OpV>,
    seq: u64,
) -> bool {
    &&& forall|n: Seq<char>|
        #[trigger] targets(ops, n) ==> (mem_of(t, n) == committed_mem(t0, ops, seq, n) || mem_of(t, n)
            == Map::<Seq<u8>, Option<Seq<u8>>>::empty())
    &&& forall|n: Seq<char>| !targets(ops, n) ==> #[trigger] named_get(t, n) == named_get(t0, n)
}

impl<S: Store, C: ManifestCodec> ObjectLsm<S, C> {
    /// Create every partition the ops target that does not exist yet (empty,
    /// with fresh metadata). Memtables and watermarks are unchanged.
    fn ensure_partitions(&mut self, ops: &Vec<Op>)
        requires
            old(self).wf(),
        ensures
            final(self).metrics == old(self).metrics,
            final(self).wf(),
            final(self).st.cfg == old(self).st.cfg,
            final(self).st.journal_seq == old(self).st.journal_seq,
            final(self).st.fence_epoch == old(self).st.fence_epoch,
            final(self).read_only == old(self).read_only,
            final(self).lease_lost == old(self).lease_lost,
            forall|n: Seq<char>|
                #[trigger] mem_of(final(self).parts@, n) == mem_of(old(self).parts@, n),
            forall|n: Seq<char>|
                #[trigger] table_wm(final(self).parts@, n) == table_wm(old(self).parts@, n),
            forall|n: Seq<char>|
                !targets(ops_view(ops@), n) ==> #[trigger] named_get(final(self).parts@, n)
                    == named_get(old(self).parts@, n),
            forall|n: Seq<char>|
                targets(ops_view(ops@), n) ==> #[trigger] named_get(final(self).parts@, n) is Some,
            forall|n: Seq<char>|
                #[trigger] grown_from(named_get(final(self).parts@, n), named_get(old(self).parts@, n)),
            final(self).st.pending == old(self).st.pending,
    {
        let ghost t0 = self.parts@;
        let ghost ov = ops_view(ops@);
        let mut j: usize = 0;
        while j < ops.len()
            invariant
                0 <= j <= ops@.len(),
                ov == ops_view(ops@),
                self.wf(),
                self.st.cfg == old(self).st.cfg,
                self.st.journal_seq == old(self).st.journal_seq,
                self.st.fence_epoch == old(self).st.fence_epoch,
                self.read_only == old(self).read_only,
                self.lease_lost == old(self).lease_lost,
                forall|n: Seq<char>| #[trigger] mem_of(self.parts@, n) == mem_of(t0, n),
                forall|n: Seq<char>| #[trigger] table_wm(self.parts@, n) == table_wm(t0, n),
                forall|n: Seq<char>|
                    !targets(ov.take(j as int), n) ==> #[trigger] named_get(self.parts@, n)
                        == named_get(t0, n),
                forall|n: Seq<char>|
                    targets(ov.take(j as int), n) ==> #[trigger] named_get(self.parts@, n) is Some,
                forall|n: Seq<char>| #[trigger] grown_from(named_get(self.parts@, n), named_get(t0, n)),
                self.st.pending == old(self).st.pending,
                self.metrics == old(self).metrics,
            decreases ops@.len() - j,
        {
            let ghost tj = self.parts@;
            let idx = table_create(&mut self.parts, ops[j].part.as_str());
            self.st.ensure_meta(ops[j].part.as_str());
            proof {
                assert forall|n: Seq<char>| #[trigger] grown_from(named_get(self.parts@, n), named_get(t0, n)) by {
                    assert(grown_from(named_get(tj, n), named_get(t0, n)));
                    if n == ops@[j as int].part@ && named_get(tj, n) is None {
                        assert(named_get(self.parts@, n) == Some(self.parts@[idx as int].1));
                    }
                }
            }
            proof {
                let n0 = ov[j as int].part;
                assert(ov[j as int] == ops@[j as int]@);
                assert(ov.take(j + 1)[j as int] == ov[j as int]);
                if named_get(tj, n0) is None {
                    let p = self.parts@[idx as int].1;
                    lemma_empty_mem(p);
                }
                assert(mem_of(tj, n0) == mem_of(t0, n0));
                assert(table_wm(tj, n0) == table_wm(t0, n0));
                if named_get(tj, n0) is Some {
                    assert(self.parts@ == tj);
                } else {
                    assert(named_get(self.parts@, n0) == Some(self.parts@[idx as int].1));
                    assert(mem_of(self.parts@, n0) == Map::<Seq<u8>, Option<Seq<u8>>>::empty());
                    assert(table_wm(self.parts@, n0) == 0);
                }
                assert forall|n: Seq<char>| #[trigger] mem_of(self.parts@, n) == mem_of(t0, n) by {
                    if n != n0 {
                        assert(named_get(self.parts@, n) == named_get(tj, n));
                        assert(mem_of(tj, n) == mem_of(t0, n));
                    }
                }
                assert forall|n: Seq<char>| #[trigger] table_wm(self.parts@, n) == table_wm(t0, n) by {
                    if n != n0 {
                        assert(named_get(self.parts@, n) == named_get(tj, n));
                        assert(table_wm(tj, n) == table_wm(t0, n));
                    }
                }
                assert forall|n: Seq<char>|
                    !targets(ov.take(j + 1), n) implies #[trigger] named_get(self.parts@, n)
                        == named_get(t0, n) by {
                    if targets(ov.take(j as int), n) {
                        let i = choose|i: int|
                            0 <= i < ov.take(j as int).len() && (#[trigger] ov.take(j as int)[i]).part
                                == n;
                        assert(ov.take(j + 1)[i] == ov.take(j as int)[i]);
                    }
                    if n == n0 {
                        assert(targets(ov.take(j + 1), n));
                    } else {
                        assert(named_get(self.parts@, n) == named_get(tj, n));
                    }
                }
                assert forall|n: Seq<char>|
                    targets(ov.take(j + 1), n) implies #[trigger] named_get(self.parts@, n) is Some by {
                    if n != n0 {
                        let i = choose|i: int|
                            0 <= i < ov.take(j + 1).len() && (#[trigger] ov.take(j + 1)[i]).part == n;
                        assert(i != j);
                        assert(ov.take(j as int)[i] == ov.take(j + 1)[i]);
                        assert(targets(ov.take(j as int), n));
                        assert(named_get(self.parts@, n) == named_get(tj, n));
                    }
                }
            }
            j = j + 1;
        }
        proof {
            assert(ov.take(j as int) =~= ov);
        }
    }

    /// Flush the memtable of partition `name` when it exceeds the budget: a
    /// background upload is detached in background-flush mode, else the
    /// memtable is flushed in place. Failures are ignored: the group is
    /// already durable and the memtable stays for a later flush.
    fn flush_if_over_budget(&mut self, name: &str)
        requires
            old(self).wf(),
        ensures
            final(self).metrics == old(self).metrics,
            final(self).wf(),
            others_kept(final(self).parts@, old(self).parts@, name@),
            mem_kept_or_cleared(final(self).parts@, old(self).parts@, name@),
            names_of(final(self).parts@) == names_of(old(self).parts@),
            final(self).st.cfg == old(self).st.cfg,
            final(self).st.journal_seq == old(self).st.journal_seq,
            final(self).st.fence_epoch == old(self).st.fence_epoch,
            final(self).read_only == old(self).read_only,
            final(self).lease_lost == old(self).lease_lost,
            !(named_get(old(self).parts@, name@) matches Some(p) && !p.meta.dropped && p.mem_bytes
                > old(self).st.cfg.max_memtable_bytes) || old(self).st.next_segment_id == u64::MAX
                || old(self).st.manifest_seq == u64::MAX ==> final(self).parts@ == old(self).parts@
                && final(self).st == old(self).st && final(self).store == old(self).store,
            named_get(old(self).parts@, name@) matches Some(p) && old(self).st.cfg.background_flush
                && !p.meta.dropped && p.mem_bytes > old(self).st.cfg.max_memtable_bytes && p.mem@.len() > 0
                && !has_flush(old(self).st.pending_flushes@, name@) && crate::segment::entries_fit(crate::state::mem_view(p.mem@))
                && old(self).st.next_segment_id < u64::MAX && old(self).st.manifest_seq < u64::MAX ==> {
                &&& mem_of(final(self).parts@, name@) == Map::<Seq<u8>, Option<Seq<u8>>>::empty()
                &&& final(self).st.pending_flushes@.drop_last() == old(self).st.pending_flushes@
                &&& final(self).st.pending_flushes@.last().partition@ == name@
                &&& final(self).store == old(self).store
            },
            old(self).st.cfg.background_flush ==> forall|n: Seq<char>|
                #[trigger] same_shape(named_get(final(self).parts@, n), named_get(old(self).parts@, n)),
            named_get(old(self).parts@, name@) matches Some(p) && p.mem@.len() == 0 ==> final(self).parts@
                == old(self).parts@ && final(self).st == old(self).st,
            old(self).st.pending_flushes@.is_prefix_of(final(self).st.pending_flushes@),
            named_get(old(self).parts@, name@) is Some ==> {
                let p = named_get(old(self).parts@, name@).unwrap();
                let q = named_get(final(self).parts@, name@).unwrap();
                &&& named_get(final(self).parts@, name@) is Some
                &&& q.meta.segments@.len() <= p.meta.segments@.len() + 1
                &&& q.meta.dropped == p.meta.dropped
                &&& q.compacting == p.compacting
                &&& (q.mem@.len() > 0 ==> q == p)
                &&& (q.mem == p.mem || (q.mem@.len() == 0 && landed(
                    q,
                    final(self).st.pending_flushes@,
                    name@,
                    p.mem_map(),
                    final(self).st.cfg.block_size,
                )))
            },
    {
        let idx = match table_find(&self.parts, name) {
            None => {
                return;
            },
            Some(i) => i,
        };
        if self.parts[idx].1.meta.dropped || self.parts[idx].1.mem_bytes
            <= self.st.cfg.max_memtable_bytes {
            return;
        }
        if self.st.next_segment_id == u64::MAX || self.st.manifest_seq == u64::MAX {
            return;
        }
        let ghost t0 = self.parts@;
        let ghost fl0 = self.st.pending_flushes@;
        let mut ps = table_take(&mut self.parts, idx);
        let ghost p0 = ps;
        if self.st.cfg.background_flush {
            let taken = take_partition_flush(&mut self.st, &mut ps);
            proof {
                if taken is Some {
                    let fl = self.st.pending_flushes@;
                    assert(fl.len() > 0);
                    assert(fl.drop_last() == fl0);
                    assert(fl0.is_prefix_of(fl)) by {
                        assert forall|k: int| 0 <= k < fl0.len() implies fl0[k] == fl[k] by {
                            assert(fl.drop_last()[k] == fl[k]);
                        }
                    }
                    assert(fl[fl.len() - 1].partition@ == name@);
                    assert(crate::state::entries_map(entries_view(fl[fl.len() - 1].entries@)) == p0.mem_map());
                } else {
                    assert(fl0.is_prefix_of(self.st.pending_flushes@)) by {
                        assert(fl0 =~= self.st.pending_flushes@.take(fl0.len() as int));
                    }
                }
            }
        } else {
            let ghost st0 = self.st;
            let _ = flush_partition(&mut self.store, &self.codec, &mut self.st, &mut ps);
            proof {
                assert(fl0.is_prefix_of(self.st.pending_flushes@)) by {
                    assert(fl0 =~= self.st.pending_flushes@.take(fl0.len() as int));
                }
                if ps.mem@.len() == 0 && p0.mem@.len() > 0 {
                    let es = crate::state::mem_view(p0.mem@);
                    let j = ps.meta.segments@.len() - 1;
                    assert(((self.st.cfg.block_size as usize) as nat) == self.st.cfg.block_size as nat);
                    assert(ps.meta.segments@[j]@ == ps.meta.segments@.last()@);
                    assert(crate::engine::meta_describes(
                        ps.meta.segments@[j]@,
                        st0.next_segment_id,
                        st0.journal_seq,
                        crate::segment::spec_encode_segment(es, (self.st.cfg.block_size as usize) as nat),
                        es,
                    ));
                    assert(landed(ps, self.st.pending_flushes@, name@, p0.mem_map(), self.st.cfg.block_size));
                }
            }
        }
        let ghost p1 = ps;
        table_set(&mut self.parts, idx, ps);
        proof {
            assert(self.parts@ =~= t0.update(idx as int, (t0[idx as int].0, p1)));
            lemma_take_set(t0, self.parts@, idx as int, p0, p1);
            if p1.mem@.len() == 0 {
                lemma_empty_mem(p1);
            }
            if self.st.cfg.background_flush {
                assert forall|n: Seq<char>| #[trigger] same_shape(named_get(self.parts@, n), named_get(t0, n)) by {
                    if n != name@ {
                        assert(named_get(self.parts@, n) == named_get(t0, n));
                    }
                }
            }
        }
    }

    /// A group-commit of `ops` that needs nothing from the store: writes
    /// are allowed, journal sequence space is left, the group encodes and
    /// still fits the group-commit buffer, memtables are uploaded in the
    /// background, and every partition the group targets is spared by
    /// compaction (a new one starts with no segments).
    pub open spec fn commit_stays_local(self, ops: Seq<OpV>) -> bool {
        &&& ops.len() > 0
        &&& !self.read_only
        &&& !self.lease_lost
        &&& self.st.cfg.journal_window_ms is Some
        &&& self.st.cfg.background_flush
        &&& self.st.journal_seq < u64::MAX
        &&& ops_fit(ops)
        &&& self.st.pending@.len() + enc_group(
            crate::journal::GroupV { seq: (self.st.journal_seq + 1) as u64, epoch: self.st.fence_epoch, ops },
        ).len() < self.st.cfg.journal_max_buffer_bytes
        &&& forall|n: Seq<char>|
            targets(ops, n) ==> match #[trigger] named_get(self.parts@, n) {
                Some(p) => spared(p, self.st.cfg.max_segments_before_compact),
                None => 0 < self.st.cfg.max_segments_before_compact,
            }
    }

    /// Every partition the group targets stays below the segment limit even
    /// after one more segment (or is dropped or being compacted), so the
    /// commit merges nothing.
    pub open spec fn commit_without_merge(self, ops: Seq<OpV>) -> bool {
        forall|n: Seq<char>|
            targets(ops, n) ==> match #[trigger] named_get(self.parts@, n) {
                Some(p) => p.meta.dropped || p.compacting || p.meta.segments@.len() + 1
                    < self.st.cfg.max_segments_before_compact,
                None => 1 < self.st.cfg.max_segments_before_compact,
            }
    }

    /// Atomically commit a group of ops: the group gets the next journal
    /// sequence and is made durable first (one journal object in strict mode;
    /// appended to the group-commit buffer in windowed mode, which is flushed
    /// once it reaches its byte bound), then applied to the memtables.
    /// Maintenance follows: over-budget memtables are flushed (failures
    /// ignored), folded journals collected, and partitions at the segment
    /// limit compacted.
    pub fn commit_ops(&mut self, ops: Vec<Op>) -> (r: Result<(), Error>)
        requires
            old(self).wf(),
        ensures
            final(self).wf(),
            final(self).st.cfg == old(self).st.cfg,
            final(self).read_only == old(self).read_only,
            final(self).lease_lost == old(self).lease_lost,
            ops@.len() == 0 ==> r is Ok && final(self).st == old(self).st && final(self).parts
                == old(self).parts,
            ops@.len() > 0 && (old(self).read_only || old(self).lease_lost) ==> r is Err
                && final(self).st == old(self).st && final(self).parts == old(self).parts,
            ops@.len() > 0 && r is Ok ==> final(self).st.journal_seq == old(self).st.journal_seq + 1
                && commit_outcome(
                final(self).parts@,
                old(self).parts@,
                ops_view(ops@),
                (old(self).st.journal_seq + 1) as u64,
            ),
            ops@.len() > 0 && r is Err ==> (forall|n: Seq<char>|
                #[trigger] mem_of(final(self).parts@, n) == mem_of(old(self).parts@, n))
                || commit_outcome(
                final(self).parts@,
                old(self).parts@,
                ops_view(ops@),
                (old(self).st.journal_seq + 1) as u64,
            ),
            old(self).commit_stays_local(ops_view(ops@)) ==> r is Ok,
            ops@.len() > 0 && r is Ok && old(self).commit_without_merge(ops_view(ops@)) ==> forall|n: Seq<char>|
                targets(ops_view(ops@), n) ==> (#[trigger] named_get(final(self).parts@, n) matches Some(q) && (
                q.mem_map() == committed_mem(old(self).parts@, ops_view(ops@), (old(self).st.journal_seq + 1) as u64, n)
                    || (q.mem@.len() == 0 && landed(
                    q,
                    final(self).st.pending_flushes@,
                    n,
                    committed_mem(old(self).parts@, ops_view(ops@), (old(self).st.journal_seq + 1) as u64, n),
                    final(self).st.cfg.block_size,
                )))),
            ops@.len() > 0 && !old(self).read_only && !old(self).lease_lost ==> {
                let a = final(self).metrics.spec_counters();
                let b = old(self).metrics.spec_counters();
                &&& a.commits == crate::metrics::bump(b.commits, 1)
                &&& a.gets == b.gets
                &&& a.refreshes == b.refreshes
            },
            ops@.len() > 0 && r is Ok ==> {
                let a = final(self).metrics.spec_counters();
                let b = old(self).metrics.spec_counters();
                &&& a.puts == crate::metrics::bump(b.puts, (count_puts(ops_view(ops@)) % 0x1_0000_0000_0000_0000) as u64)
                &&& a.deletes == crate::metrics::bump(
                    b.deletes,
                    (count_deletes(ops_view(ops@)) % 0x1_0000_0000_0000_0000) as u64,
                )
                &&& a.commit_failures == b.commit_failures
            },
            ops@.len() > 0 && !old(self).read_only && !old(self).lease_lost && old(self).st.cfg.journal_window_ms
                is None && old(self).st.journal_seq < u64::MAX && ops_fit(ops_view(ops@)) && r is Err ==> (
            final(self).metrics.spec_counters().commit_failures == crate::metrics::bump(
                old(self).metrics.spec_counters().commit_failures,
                1,
            ) && forall|n: Seq<char>| #[trigger] mem_of(final(self).parts@, n) == mem_of(old(self).parts@, n))
                || (final(self).st.journal_seq == old(self).st.journal_seq + 1 && commit_outcome(
                final(self).parts@,
                old(self).parts@,
                ops_view(ops@),
                (old(self).st.journal_seq + 1) as u64,
            )),
            final(self).metrics.spec_counters().commit_failures != old(self).metrics.spec_counters().commit_failures
                ==> {
                let a = final(self).metrics.spec_counters();
                let b = old(self).metrics.spec_counters();
                &&& r is Err
                &&& old(self).st.cfg.journal_window_ms is None
                &&& a.commit_failures == crate::metrics::bump(b.commit_failures, 1)
                &&& a.puts == b.puts
                &&& a.deletes == b.deletes
                &&& forall|n: Seq<char>| #[trigger] mem_of(final(self).parts@, n) == mem_of(old(self).parts@, n)
            },
    {
        if ops.len() == 0 {
            return Ok(());
        }
        let ghost local = old(self).commit_stays_local(ops_view(ops@));
        let ghost nomerge = old(self).commit_without_merge(ops_view(ops@));
        let ghost limit0 = old(self).st.cfg.max_segments_before_compact;
        self.ensure_writable()?;
        self.metrics.bump_commit();
        let ghost t_old = self.parts@;
        self.ensure_partitions(&ops);
        let ghost t1 = self.parts@;
        proof {
            if local {
                assert forall|n: Seq<char>| targets(ops_view(ops@), n) implies #[trigger] named_get(
                    t1,
                    n,
                ) matches Some(p) && spared(p, limit0) by {
                    assert(grown_from(named_get(t1, n), named_get(t_old, n)));
                    assert(named_get(t1, n) is Some);
                }
            }
        }
        if self.st.journal_seq == u64::MAX {
            return Err(Error::store("journal sequence space exhausted"));
        }
        let seq = self.st.journal_seq + 1;
        self.st.journal_seq = seq;
        let group = Group { seq, epoch: self.st.fence_epoch, ops };
        let bytes = encode_group(&group)?;
        if self.st.cfg.journal_window_ms.is_none() {
            let key = journal_key_epoch(self.st.cfg.prefix.as_str(), seq, self.st.fence_epoch);
            match self.store.put(key.as_str(), bytes.as_slice()) {
                Err(e) => {
                    self.metrics.bump_commit_failure();
                    return Err(e);
                },
                Ok(()) => {},
            }
            insert_seq(&mut self.st.journal_seqs, seq);
            insert_size(&mut self.st.journal_sizes, seq, bytes.len() as u64);
        } else {
            if self.st.pending.len() == 0 {
                self.st.pending_lo = seq;
            }
            let mut more = bytes;
            self.st.pending.append(&mut more);
            if self.st.pending.len() as u64 >= self.st.cfg.journal_max_buffer_bytes {
                flush_journal_pending(&mut self.store, &mut self.st)?;
            }
        }
        let mut puts: u64 = 0;
        let mut deletes: u64 = 0;
        let mut k: usize = 0;
        let ghost gov = group@.ops;
        while k < group.ops.len()
            invariant
                0 <= k <= group.ops@.len(),
                gov == group@.ops,
                puts as int == count_puts(gov.take(k as int)) % 0x1_0000_0000_0000_0000,
                deletes as int == count_deletes(gov.take(k as int)) % 0x1_0000_0000_0000_0000,
            decreases group.ops@.len() - k,
        {
            proof {
                assert(gov.take(k + 1).drop_last() =~= gov.take(k as int));
                assert(gov.take(k + 1).last() == group.ops@[k as int]@);
                vstd::arithmetic::div_mod::lemma_add_mod_noop(
                    count_puts(gov.take(k as int)) as int,
                    1,
                    0x1_0000_0000_0000_0000,
                );
                vstd::arithmetic::div_mod::lemma_add_mod_noop(
                    count_deletes(gov.take(k as int)) as int,
                    1,
                    0x1_0000_0000_0000_0000,
                );
            }
            if group.ops[k].value.is_some() {
                puts = puts.wrapping_add(1);
            } else {
                deletes = deletes.wrapping_add(1);
            }
            k = k + 1;
        }
        proof {
            assert(gov.take(k as int) =~= gov);
        }
        self.metrics.bump_puts(puts);
        self.metrics.bump_deletes(deletes);
        let ghost m2 = self.metrics.spec_counters();
        apply_group_to_table(&mut self.parts, &group);
        let ghost t2 = self.parts@;
        let ghost ov = group@.ops;
        proof {
            assert(ov == ops_view(ops@));
            assert forall|n: Seq<char>| #[trigger] targets(ov, n) implies mem_of(t2, n)
                == committed_mem(t_old, ov, seq, n) by {
                assert(named_get(t1, n) is Some);
                assert(table_wm(t1, n) == table_wm(t_old, n));
                assert(mem_of(t1, n) == mem_of(t_old, n));
                if !(seq > table_wm(t1, n)) {
                    assert(named_get(t2, n) == named_get(t1, n));
                }
            }
            assert forall|n: Seq<char>| !targets(ov, n) implies #[trigger] named_get(t2, n)
                == named_get(t_old, n) by {
                assert(named_get(t2, n) == named_get(t1, n));
            }
            if local {
                assert forall|n: Seq<char>| targets(ov, n) implies #[trigger] named_get(t2, n) matches Some(
                    p,
                ) && spared(p, limit0) by {
                    assert(named_get(t1, n) matches Some(p) && spared(p, limit0));
                }
            }
            if nomerge {
                assert forall|n: Seq<char>| targets(ov, n) implies #[trigger] named_get(t2, n) is Some && (
                named_get(t2, n).unwrap().meta.dropped || named_get(t2, n).unwrap().compacting
                    || named_get(t2, n).unwrap().meta.segments@.len() + 1 < limit0) && commit_settled(
                    named_get(t2, n).unwrap(),
                    named_get(t2, n).unwrap(),
                    self.st.pending_flushes@,
                    n,
                    committed_mem(t_old, ov, seq, n),
                    self.st.cfg.block_size,
                ) by {
                    assert(grown_from(named_get(t1, n), named_get(t_old, n)));
                    assert(named_get(t1, n) is Some);
                    assert(mem_of(t2, n) == committed_mem(t_old, ov, seq, n));
                }
            }
        }
        let ghost fl2 = self.st.pending_flushes@;
        let mut j: usize = 0;
        while j < group.ops.len()
            invariant
                0 <= j <= group.ops@.len(),
                ov == group@.ops,
                self.wf(),
                self.st.cfg == old(self).st.cfg,
                self.st.journal_seq == seq,
                self.read_only == old(self).read_only,
                self.lease_lost == old(self).lease_lost,
                commit_outcome(self.parts@, t_old, ov, seq),
                local ==> self.st.cfg.background_flush && limit0 == self.st.cfg.max_segments_before_compact,
                self.metrics.spec_counters() == m2,
                local ==> forall|n: Seq<char>|
                    targets(ov, n) ==> (#[trigger] named_get(self.parts@, n) matches Some(p) && spared(p, limit0)),
                nomerge == old(self).commit_without_merge(ov),
                limit0 == old(self).st.cfg.max_segments_before_compact,
                nomerge ==> forall|n: Seq<char>|
                    targets(ov, n) ==> #[trigger] named_get(self.parts@, n) is Some && named_get(t2, n) is Some && (
                    named_get(t2, n).unwrap().meta.dropped || named_get(t2, n).unwrap().compacting
                        || named_get(t2, n).unwrap().meta.segments@.len() + 1 < limit0) && commit_settled(
                        named_get(self.parts@, n).unwrap(),
                        named_get(t2, n).unwrap(),
                        self.st.pending_flushes@,
                        n,
                        committed_mem(t_old, ov, seq, n),
                        self.st.cfg.block_size,
                    ),
            decreases group.ops@.len() - j,
        {
            let ghost tj = self.parts@;
            let ghost flj = self.st.pending_flushes@;
            self.flush_if_over_budget(group.ops[j].part.as_str());
            proof {
                if nomerge {
                    let nj = group.ops@[j as int].part@;
                    assert forall|n: Seq<char>| targets(ov, n) implies #[trigger] named_get(self.parts@, n)
                        is Some && named_get(t2, n) is Some && (named_get(t2, n).unwrap().meta.dropped
                        || named_get(t2, n).unwrap().compacting || named_get(t2, n).unwrap().meta.segments@.len() + 1
                        < limit0) && commit_settled(
                        named_get(self.parts@, n).unwrap(),
                        named_get(t2, n).unwrap(),
                        self.st.pending_flushes@,
                        n,
                        committed_mem(t_old, ov, seq, n),
                        self.st.cfg.block_size,
                    ) by {
                        let base = named_get(t2, n).unwrap();
                        let m = committed_mem(t_old, ov, seq, n);
                        let pj = named_get(tj, n).unwrap();
                        let q = named_get(self.parts@, n).unwrap();
                        assert(commit_settled(pj, base, flj, n, m, self.st.cfg.block_size));
                        if n != nj {
                            assert(named_get(self.parts@, n) == named_get(tj, n));
                            if !(pj.mem_map() == m && pj.meta.segments@.len() <= base.meta.segments@.len()) {
                                lemma_landed_grow(pj, flj, self.st.pending_flushes@, n, m, self.st.cfg.block_size);
                            }
                        } else {
                            if q.mem@.len() > 0 || pj.mem@.len() == 0 {
                                assert(q == pj);
                                if !(pj.mem_map() == m && pj.meta.segments@.len() <= base.meta.segments@.len()) {
                                    lemma_landed_grow(pj, flj, self.st.pending_flushes@, n, m, self.st.cfg.block_size);
                                }
                            } else {
                                assert(q.mem != pj.mem);
                                assert(pj.mem_map() == m);
                            }
                        }
                    }
                }
            }
            proof {
                if local {
                    assert forall|n: Seq<char>| targets(ov, n) implies (#[trigger] named_get(self.parts@, n) matches Some(
                        p,
                    ) && spared(p, limit0)) by {
                        assert(same_shape(named_get(self.parts@, n), named_get(tj, n)));
                    }
                }
            }
            proof {
                assert(ov[j as int] == group.ops@[j as int]@);
                assert(targets(ov, group.ops@[j as int].part@));
                lemma_outcome_step(self.parts@, tj, t_old, ov, seq, group.ops@[j as int].part@);
            }
            j = j + 1;
        }
        let limit = self.st.cfg.max_segments_before_compact;
        let mut to_compact: Vec<String> = Vec::new();
        let mut j: usize = 0;
        while j < group.ops.len()
            invariant
                0 <= j <= group.ops@.len(),
                ov == group@.ops,
                self.wf(),
                forall|k: int| 0 <= k < to_compact@.len() ==> targets(ov, #[trigger] to_compact@[k]@),
                local ==> limit == limit0 && to_compact@.len() == 0,
                limit == limit0,
                nomerge ==> to_compact@.len() == 0,
                nomerge ==> forall|n: Seq<char>|
                    targets(ov, n) ==> #[trigger] named_get(self.parts@, n) is Some && named_get(t2, n) is Some && (
                    named_get(t2, n).unwrap().meta.dropped || named_get(t2, n).unwrap().compacting
                        || named_get(t2, n).unwrap().meta.segments@.len() + 1 < limit0) && commit_settled(
                        named_get(self.parts@, n).unwrap(),
                        named_get(t2, n).unwrap(),
                        self.st.pending_flushes@,
                        n,
                        committed_mem(t_old, ov, seq, n),
                        self.st.cfg.block_size,
                    ),
                self.metrics.spec_counters() == m2,
                local ==> forall|n: Seq<char>|
                    targets(ov, n) ==> (#[trigger] named_get(self.parts@, n) matches Some(p) && spared(p, limit0)),
            decreases group.ops@.len() - j,
        {
            proof {
                assert(ov[j as int] == group.ops@[j as int]@);
                assert(targets(ov, group.ops@[j as int].part@));
            }
            match table_find(&self.parts, group.ops[j].part.as_str()) {
                Some(i) => {
                    if !self.parts[i].1.meta.dropped && !self.parts[i].1.compacting
                        && self.parts[i].1.meta.segments.len() >= limit {
                        let nm = group.ops[j].part.clone();
                        proof {
                            assert(ov[j as int] == group.ops@[j as int]@);
                            assert(targets(ov, nm@));
                        }
                        to_compact.push(nm);
                    }
                },
                None => {},
            }
            j = j + 1;
        }
        gc_journal(&mut self.store, &mut self.st);
        let mut j: usize = 0;
        while j < to_compact.len()
            invariant
                0 <= j <= to_compact@.len(),
                self.wf(),
                self.st.cfg == old(self).st.cfg,
                self.st.journal_seq == seq,
                self.read_only == old(self).read_only,
                self.lease_lost == old(self).lease_lost,
                commit_outcome(self.parts@, t_old, ov, seq),
                forall|k: int| 0 <= k < to_compact@.len() ==> targets(ov, #[trigger] to_compact@[k]@),
                ov == ops_view(ops@),
                ov.len() > 0,
                !old(self).read_only && !old(self).lease_lost,
                seq == old(self).st.journal_seq + 1,
                t_old == old(self).parts@,
                local == old(self).commit_stays_local(ov),
                local ==> to_compact@.len() == 0,
                nomerge == old(self).commit_without_merge(ov),
                nomerge ==> to_compact@.len() == 0,
                nomerge ==> forall|n: Seq<char>|
                    targets(ov, n) ==> #[trigger] named_get(self.parts@, n) is Some && commit_settled(
                        named_get(self.parts@, n).unwrap(),
                        named_get(t2, n).unwrap(),
                        self.st.pending_flushes@,
                        n,
                        committed_mem(t_old, ov, seq, n),
                        self.st.cfg.block_size,
                    ),
                self.metrics.spec_counters() == m2,
                m2.commits == crate::metrics::bump(old(self).metrics.spec_counters().commits, 1),
                m2.gets == old(self).metrics.spec_counters().gets,
                m2.refreshes == old(self).metrics.spec_counters().refreshes,
                m2.commit_failures == old(self).metrics.spec_counters().commit_failures,
            decreases to_compact@.len() - j,
        {
            let ghost tj = self.parts@;
            let res = self.compact_partition_detached(to_compact[j].as_str());
            proof {
                lemma_outcome_step(self.parts@, tj, t_old, ov, seq, to_compact@[j as int]@);
            }
            if res.is_err() {
                return res;
            }
            j = j + 1;
        }
        Ok(())
    }
}

/// Maintenance on one partition keeps the outcome of a commit.
proof fn lemma_outcome_step(
    t: Seq<(String, PartitionState)>,
    tj: Seq<(String, PartitionState)>,
    t0: Seq<(String, PartitionState)>,
    ops: Seq<OpV>,
    seq: u64,
    name: Seq<char>,
)
    requires
        commit_outcome(tj, t0, ops, seq),
        others_kept(t, tj, name),
        mem_kept_or_cleared(t, tj, name),
        targets(ops, name),
    ensures
        commit_outcome(t, t0, ops, seq),
{
    assert forall|n: Seq<char>| #[trigger] targets(ops, n) implies (mem_of(t, n) == committed_mem(
        t0,
        ops,
        seq,
        n,
    ) || mem_of(t, n) == Map::<Seq<u8>, Option<Seq<u8>>>::empty()) by {
        if n != name {
            assert(named_get(t, n) == named_get(tj, n));
        }
    }
    assert forall|n: Seq<char>| !targets(ops, n) implies #[trigger] named_get(t, n) == named_get(t0, n) by {
        assert(n != name);
        assert(named_get(t, n) == named_get(tj, n));
    }
}

/// A committed put or delete is what the memtable holds for its key, when no
/// later op of the group writes the same key of the same partition.
pub proof fn lemma_last_write_wins(m: Map<Seq<u8>, Option<Seq<u8>>>, ops: Seq<OpV>, n: Seq<char>, i: int)
    requires
        0 <= i < ops.len(),
        ops[i].part == n,
        forall|j: int| i < j < ops.len() ==> !((#[trigger] ops[j]).part == n && ops[j].key == ops[i].key),
    ensures
        ops_into(m, ops, n).contains_key(ops[i].key),
        ops_into(m, ops, n)[ops[i].key] == ops[i].value,
    decreases ops.len(),
{
    if i < ops.len() - 1 {
        assert forall|j: int| i < j < ops.drop_last().len() implies !((#[trigger] ops.drop_last()[j]).part
            == n && ops.drop_last()[j].key == ops.drop_last()[i].key) by {
            assert(ops.drop_last()[j] == ops[j]);
        }
        assert(ops.drop_last()[i] == ops[i]);
        lemma_last_write_wins(m, ops.drop_last(), n, i);
        assert(!(ops[ops.len() - 1].part == n && ops[ops.len() - 1].key == ops[i].key));
    }
}

/// Read your writes: after a successful commit whose group the partition
/// had not folded yet, and unless maintenance flushed the memtable away, the
/// memtable holds each key's last write of the group, which is what a lookup
/// then returns (the lookup contract answers from the memtable first).
pub proof fn lemma_read_your_write(
    t: Seq<(String, PartitionState)>,
    t0: Seq<(String, PartitionState)>,
    ops: Seq<OpV>,
    seq: u64,
    i: int,
)
    requires
        commit_outcome(t, t0, ops, seq),
        0 <= i < ops.len(),
        seq > table_wm(t0, ops[i].part),
        mem_of(t, ops[i].part) != Map::<Seq<u8>, Option<Seq<u8>>>::empty(),
        forall|j: int|
            i < j < ops.len() ==> !((#[trigger] ops[j]).part == ops[i].part && ops[j].key == ops[i].key),
    ensures
        mem_of(t, ops[i].part).contains_key(ops[i].key),
        mem_of(t, ops[i].part)[ops[i].key] == ops[i].value,
{
    let n = ops[i].part;
    assert(targets(ops, n));
    lemma_last_write_wins(mem_of(t0, n), ops, n, i);
}

/// The position of the pending flush of `name` is removed, if any.
pub fn remove_flush(st: &mut EngineState, name: &str)
    requires
        old(st).wf(),
    ensures
        final(st).wf(),
        !has_flush(final(st).pending_flushes@, name@),
        final(st).cfg == old(st).cfg,
        final(st).journal_seq == old(st).journal_seq,
        final(st).fence_epoch == old(st).fence_epoch,
        final(st).manifest_seq == old(st).manifest_seq,
        final(st).next_segment_id == old(st).next_segment_id,
        final(st).partitions == old(st).partitions,
        final(st).current_bytes == old(st).current_bytes,
        final(st).journal_seqs == old(st).journal_seqs,
        final(st).journal_sizes == old(st).journal_sizes,
{
    match find_flush(&st.pending_flushes, name) {
        None => {},
        Some(i) => {
            let ghost old_f = st.pending_flushes@;
            let _ = st.pending_flushes.remove(i);
            proof {
                let nf = st.pending_flushes@;
                assert(nf =~= old_f.take(i as int) + old_f.skip(i + 1));
                assert forall|a: int, b: int| 0 <= a < b < nf.len() implies (#[trigger] nf[a]).partition@
                    != (#[trigger] nf[b]).partition@ by {
                    let oa = if a < i { a } else { a + 1 };
                    let ob = if b < i { b } else { b + 1 };
                    assert(nf[a] == old_f[oa] && nf[b] == old_f[ob]);
                }
                assert forall|k: int| 0 <= k < nf.len() implies (#[trigger] nf[k]).partition@ != name@ by {
                    let ok = if k < i { k } else { k + 1 };
                    assert(nf[k] == old_f[ok]);
                    if ok < i {
                        assert(old_f[ok].partition@ != old_f[i as int].partition@);
                    } else {
                        assert(old_f[i as int].partition@ != old_f[ok].partition@);
                    }
                }
            }
        },
    }
}

/// A partition entry after making sure partitions exist: one that existed
/// is unchanged, and one that is new starts empty, live and not compacting.
pub open spec fn grown_from(now: Option<PartitionState>, before: Option<PartitionState>) -> bool {
    match before {
        Some(p) => now == Some(p),
        None => now matches Some(q) ==> q.meta.segments@.len() == 0 && !q.compacting && !q.meta.dropped,
    }
}

/// A partition entry that keeps its metadata and compaction flag.
pub open spec fn same_shape(now: Option<PartitionState>, before: Option<PartitionState>) -> bool {
    match before {
        Some(p) => now matches Some(q) && q.meta == p.meta && q.compacting == p.compacting,
        None => now is None,
    }
}

/// After flushing partition `p`'s memtable, `now` holds `p`'s segments
/// followed by one new segment: segment `id`, carrying the watermark the
/// flush records, described by the encoding of the whole memtable.
pub open spec fn flushed_into(now: Option<PartitionState>, p: PartitionState, id: u64, journal_seq: u64, block_size: u32) -> bool {
    let wm = if p.meta.watermark >= journal_seq {
        p.meta.watermark
    } else {
        journal_seq
    };
    let es = crate::state::mem_view(p.mem@);
    &&& now matches Some(q)
    &&& q.meta.segments@.len() == p.meta.segments@.len() + 1
    &&& crate::segment::segments_view(q.meta.segments@).drop_last() == crate::segment::segments_view(
        p.meta.segments@,
    )
    &&& crate::engine::meta_describes(
        q.meta.segments@.last()@,
        id,
        wm,
        crate::segment::spec_encode_segment(es, (block_size as usize) as nat),
        es,
    )
}

/// How many ops put a value.
pub open spec fn count_puts(ops: Seq<OpV>) -> nat
    decreases ops.len(),
{
    if ops.len() == 0 {
        0
    } else {
        count_puts(ops.drop_last()) + if ops.last().value is Some {
            1nat
        } else {
            0nat
        }
    }
}

/// How many ops delete a key.
pub open spec fn count_deletes(ops: Seq<OpV>) -> nat
    decreases ops.len(),
{
    if ops.len() == 0 {
        0
    } else {
        count_deletes(ops.drop_last()) + if ops.last().value is None {
            1nat
        } else {
            0nat
        }
    }
}

/// The entries `m` of partition `n` are safe outside its memtable: an
/// upload of them is pending, or one of the partition's segments is the
/// encoding of them.
pub open spec fn landed(
    q: PartitionState,
    fl: Seq<crate::state::PendingFlush>,
    n: Seq<char>,
    m: Map<Seq<u8>, Option<Seq<u8>>>,
    block_size: u32,
) -> bool {
    ||| exists|i: int|
        0 <= i < fl.len() && (#[trigger] fl[i]).partition@ == n && crate::state::entries_map(
            entries_view(fl[i].entries@),
        ) == m
    ||| exists|j: int, es: Seq<EntryV>, id: u64, seq: u64|
        0 <= j < q.meta.segments@.len() && crate::state::entries_map(es) == m && #[trigger] crate::engine::meta_describes(
            q.meta.segments@[j]@,
            id,
            seq,
            crate::segment::spec_encode_segment(es, (block_size as usize) as nat),
            es,
        )
}

/// Partition `q` after a commit's flushes, against `base` right after the
/// group was applied: it holds the committed memtable `m` (with no segment
/// added), or its memtable was flushed and `m` landed in a pending upload or
/// in one new segment.
pub open spec fn commit_settled(
    q: PartitionState,
    base: PartitionState,
    fl: Seq<crate::state::PendingFlush>,
    n: Seq<char>,
    m: Map<Seq<u8>, Option<Seq<u8>>>,
    block_size: u32,
) -> bool {
    &&& q.meta.dropped == base.meta.dropped
    &&& q.compacting == base.compacting
    &&& ((q.mem_map() == m && q.meta.segments@.len() <= base.meta.segments@.len()) || (q.mem@.len() == 0
        && landed(q, fl, n, m, block_size) && q.meta.segments@.len() <= base.meta.segments@.len() + 1))
}

/// Entries that landed stay landed when uploads are only appended.
proof fn lemma_landed_grow(
    q: PartitionState,
    fl0: Seq<crate::state::PendingFlush>,
    fl1: Seq<crate::state::PendingFlush>,
    n: Seq<char>,
    m: Map<Seq<u8>, Option<Seq<u8>>>,
    block_size: u32,
)
    requires
        landed(q, fl0, n, m, block_size),
        fl0.is_prefix_of(fl1),
    ensures
        landed(q, fl1, n, m, block_size),
{
    if exists|i: int|
        0 <= i < fl0.len() && (#[trigger] fl0[i]).partition@ == n && crate::state::entries_map(
            entries_view(fl0[i].entries@),
        ) == m {
        let i = choose|i: int|
            0 <= i < fl0.len() && (#[trigger] fl0[i]).partition@ == n && crate::state::entries_map(
                entries_view(fl0[i].entries@),
            ) == m;
        assert(fl1[i] == fl0[i]);
    }
}

/// A partition that a commit's maintenance leaves alone: dropped, being
/// compacted, or holding fewer segments than the limit.
pub open spec fn spared(p: PartitionState, limit: usize) -> bool {
    p.meta.dropped || p.compacting || p.meta.segments@.len() < limit
}

/// A store error whose message is `a`, then `name`, then `b`.
fn named_store_error(a: &str, name: &str, b: &str) -> (e: Error)
    ensures
        e matches Error::Store(m) && m@ == a@ + name@ + b@,
{
    let mut m = String::from_str(a);
    m.append(name);
    m.append(b);
    Error::Store(m)
}

impl<S: Store, C: ManifestCodec> ObjectLsm<S, C> {
    /// Make sure a partition exists and is not dropped: recreating a dropped
    /// partition clears the flag (keeping its watermark, so stale journal
    /// groups are never replayed into it) and publishes a manifest. A
    /// follower never creates partitions: it only hands out partitions the
    /// leader publishes.
    pub fn touch_partition(&mut self, name: &str) -> (r: Result<(), Error>)
        requires
            old(self).wf(),
        ensures
            final(self).wf(),
            final(self).read_only == old(self).read_only,
            final(self).lease_lost == old(self).lease_lost,
            final(self).st.cfg == old(self).st.cfg,
            others_kept(final(self).parts@, old(self).parts@, name@),
            old(self).read_only ==> final(self).parts == old(self).parts && (r is Ok <==> (named_get(
                old(self).parts@,
                name@,
            ) matches Some(p) && !p.meta.dropped)),
            !old(self).read_only && old(self).lease_lost ==> r is Err && final(self).parts
                == old(self).parts,
            !old(self).read_only && !old(self).lease_lost ==> named_get(final(self).parts@, name@)
                is Some && (r is Ok ==> !named_get(final(self).parts@, name@).unwrap().meta.dropped),
            mem_of(final(self).parts@, name@) == mem_of(old(self).parts@, name@),
    {
        if self.read_only {
            let idx = match table_find(&self.parts, name) {
                None => {
                    return Err(named_store_error("read-only follower: partition ", name, " is not published"));
                },
                Some(i) => i,
            };
            if self.parts[idx].1.meta.dropped {
                return Err(
                    named_store_error("read-only follower: partition ", name, " was removed by the leader"),
                );
            }
            return Ok(());
        }
        self.ensure_writer()?;
        let ghost t0 = self.parts@;
        let idx = table_create(&mut self.parts, name);
        proof {
            if named_get(t0, name@) is None {
                lemma_empty_mem(self.parts@[idx as int].1);
            }
        }
        if self.parts[idx].1.meta.dropped {
            let ghost t1 = self.parts@;
            let mut ps = table_take(&mut self.parts, idx);
            let ghost p0 = ps;
            ps.meta.dropped = false;
            sync_partition_meta(&mut self.st, &ps);
            let ghost p1 = ps;
            table_set(&mut self.parts, idx, ps);
            proof {
                assert(self.parts@ =~= t1.update(idx as int, (t1[idx as int].0, p1)));
                lemma_take_set(t1, self.parts@, idx as int, p0, p1);
                assert(p1.mem_map() == p0.mem_map());
            }
            if self.st.manifest_seq == u64::MAX {
                return Err(Error::store("sequence space exhausted"));
            }
            publish_manifest(&mut self.store, &self.codec, &mut self.st)?;
        } else {
            self.st.ensure_meta(name);
        }
        Ok(())
    }

    /// Empty a partition (`drop` also marks it removed): its memtable,
    /// pending upload and segments go, its watermark moves to the last
    /// journal sequence (so its journal history is never replayed), and a
    /// manifest is published before the old segment objects are deleted.
    fn reset_partition(&mut self, name: &str, drop: bool) -> (r: Result<(), Error>)
        requires
            old(self).wf(),
        ensures
            final(self).wf(),
            final(self).read_only == old(self).read_only,
            final(self).lease_lost == old(self).lease_lost,
            final(self).st.cfg == old(self).st.cfg,
            others_kept(final(self).parts@, old(self).parts@, name@),
            (old(self).read_only || old(self).lease_lost) ==> r is Err && final(self).parts
                == old(self).parts,
            named_get(old(self).parts@, name@) is None ==> final(self).parts == old(self).parts,
            !old(self).read_only && !old(self).lease_lost && named_get(old(self).parts@, name@) is Some
                ==> {
                let p = named_get(final(self).parts@, name@).unwrap();
                &&& named_get(final(self).parts@, name@) is Some
                &&& p.mem@.len() == 0
                &&& p.mem_bytes == 0
                &&& p.meta.segments@.len() == 0
                &&& p.meta.watermark == old(self).st.journal_seq
                &&& p.meta.dropped == drop
            },
    {
        self.ensure_writable()?;
        let idx = match table_find(&self.parts, name) {
            None => {
                return Ok(());
            },
            Some(i) => i,
        };
        let ghost t0 = self.parts@;
        let mut ps = table_take(&mut self.parts, idx);
        let ghost p0 = ps;
        let mut old_segs: Vec<SegmentMeta> = Vec::new();
        std::mem::swap(&mut old_segs, &mut ps.meta.segments);
        ps.mem.clear();
        ps.mem_bytes = 0;
        ps.meta.watermark = self.st.journal_seq;
        ps.meta.dropped = drop;
        proof {
            assert(crate::state::mem_view(ps.mem@) =~= Seq::<EntryV>::empty());
        }
        remove_flush(&mut self.st, name);
        sync_partition_meta(&mut self.st, &ps);
        let ghost p1 = ps;
        table_set(&mut self.parts, idx, ps);
        proof {
            assert(self.parts@ =~= t0.update(idx as int, (t0[idx as int].0, p1)));
            lemma_take_set(t0, self.parts@, idx as int, p0, p1);
        }
        if self.st.manifest_seq == u64::MAX {
            return Err(Error::store("sequence space exhausted"));
        }
        publish_manifest(&mut self.store, &self.codec, &mut self.st)?;
        gc_journal(&mut self.store, &mut self.st);
        self.delete_old_segments(name, old_segs);
        Ok(())
    }

    /// Remove every entry of a partition, keeping the partition.
    pub fn clear_partition(&mut self, name: &str) -> (r: Result<(), Error>)
        requires
            old(self).wf(),
        ensures
            final(self).wf(),
            others_kept(final(self).parts@, old(self).parts@, name@),
            (old(self).read_only || old(self).lease_lost) ==> r is Err && final(self).parts
                == old(self).parts,
            !old(self).read_only && !old(self).lease_lost && named_get(old(self).parts@, name@) is Some
                ==> {
                let p = named_get(final(self).parts@, name@).unwrap();
                &&& named_get(final(self).parts@, name@) is Some
                &&& p.mem@.len() == 0
                &&& p.meta.segments@.len() == 0
                &&& !p.meta.dropped
            },
    {
        self.reset_partition(name, false)
    }

    /// Remove a partition and all its entries.
    pub fn rm_partition(&mut self, name: &str) -> (r: Result<(), Error>)
        requires
            old(self).wf(),
        ensures
            final(self).wf(),
            others_kept(final(self).parts@, old(self).parts@, name@),
            (old(self).read_only || old(self).lease_lost) ==> r is Err && final(self).parts
                == old(self).parts,
            !old(self).read_only && !old(self).lease_lost && named_get(old(self).parts@, name@) is Some
                ==> {
                let p = named_get(final(self).parts@, name@).unwrap();
                &&& named_get(final(self).parts@, name@) is Some
                &&& p.mem@.len() == 0
                &&& p.meta.segments@.len() == 0
                &&& p.meta.dropped
            },
    {
        self.reset_partition(name, true)
    }

    /// Partition `name` exists with an empty memtable and no upload
    /// pending, and is dropped, being compacted or holds fewer than two
    /// segments, while sequence space is left: compacting it does nothing.
    pub open spec fn nothing_to_compact(self, name: Seq<char>) -> bool {
        &&& named_get(self.parts@, name) matches Some(p)
        &&& p.mem@.len() == 0
        &&& (p.compacting || p.meta.dropped || p.meta.segments@.len() < 2)
        &&& !has_flush(self.st.pending_flushes@, name)
        &&& self.st.manifest_seq < u64::MAX - 1
        &&& self.st.next_segment_id < u64::MAX
    }

    /// No upload is pending and compacting any partition would do nothing.
    pub open spec fn all_settled(self) -> bool {
        &&& self.st.pending_flushes@.len() == 0
        &&& forall|i: int|
            0 <= i < self.parts@.len() ==> #[trigger] self.nothing_to_compact(self.parts@[i].0@)
    }

    /// Flush and merge-compact one partition.
    pub fn compact_partition(&mut self, name: &str) -> (r: Result<(), Error>)
        requires
            old(self).wf(),
        ensures
            final(self).wf(),
            others_kept(final(self).parts@, old(self).parts@, name@),
            (old(self).read_only || old(self).lease_lost) ==> r is Err && final(self).parts
                == old(self).parts,
            r is Ok ==> mem_of(final(self).parts@, name@) == Map::<Seq<u8>, Option<Seq<u8>>>::empty(),
            !old(self).read_only && !old(self).lease_lost && named_get(old(self).parts@, name@) is None
                ==> r is Ok && final(self).parts@ == old(self).parts@ && final(self).st == old(self).st,
            !old(self).read_only && !old(self).lease_lost && old(self).nothing_to_compact(name@) ==> r is Ok
                && final(self).parts@ == old(self).parts@ && final(self).st == old(self).st,
    {
        self.ensure_writable()?;
        self.compact_partition_detached(name)
    }

    /// Publish every pending background upload (failures are returned after
    /// the first one).
    pub fn finish_pending_flushes(&mut self) -> (r: Result<(), Error>)
        requires
            old(self).wf(),
        ensures
            final(self).wf(),
            final(self).read_only == old(self).read_only,
            final(self).lease_lost == old(self).lease_lost,
            final(self).st.cfg == old(self).st.cfg,
            old(self).st.pending@.len() == 0 ==> final(self).st.pending@.len() == 0,
            forall|n: Seq<char>| #[trigger] mem_of(final(self).parts@, n) == mem_of(old(self).parts@, n),
            old(self).st.pending_flushes@.len() == 0 ==> r is Ok && final(self).parts@ == old(self).parts@
                && final(self).st == old(self).st && final(self).store == old(self).store,
    {
        let mut names: Vec<String> = Vec::new();
        let mut k: usize = 0;
        while k < self.st.pending_flushes.len()
            invariant
                0 <= k <= self.st.pending_flushes@.len(),
                names@.len() == k,
                self.st.pending_flushes@.len() == old(self).st.pending_flushes@.len(),
            decreases self.st.pending_flushes@.len() - k,
        {
            names.push(self.st.pending_flushes[k].partition.clone());
            k = k + 1;
        }
        let mut j: usize = 0;
        while j < names.len()
            invariant
                0 <= j <= names@.len(),
                self.wf(),
                self.read_only == old(self).read_only,
                self.lease_lost == old(self).lease_lost,
                self.st.cfg == old(self).st.cfg,
                old(self).st.pending@.len() == 0 ==> self.st.pending@.len() == 0,
                forall|n: Seq<char>| #[trigger] mem_of(self.parts@, n) == mem_of(old(self).parts@, n),
                names@.len() == old(self).st.pending_flushes@.len(),
                names@.len() == 0 ==> self.parts@ == old(self).parts@ && self.st == old(self).st
                    && self.store == old(self).store,
            decreases names@.len() - j,
        {
            let idx = match table_find(&self.parts, names[j].as_str()) {
                None => {
                    j = j + 1;
                    continue;
                },
                Some(i) => i,
            };
            if self.st.manifest_seq == u64::MAX {
                return Err(Error::store("sequence space exhausted"));
            }
            let ghost t0 = self.parts@;
            let mut ps = table_take(&mut self.parts, idx);
            let ghost p0 = ps;
            let r = finish_partition_flush(&mut self.store, &self.codec, &mut self.st, &mut ps);
            let ghost p1 = ps;
            table_set(&mut self.parts, idx, ps);
            proof {
                assert(self.parts@ =~= t0.update(idx as int, (t0[idx as int].0, p1)));
                lemma_take_set(t0, self.parts@, idx as int, p0, p1);
                assert forall|n: Seq<char>| #[trigger] mem_of(self.parts@, n) == mem_of(old(self).parts@, n) by {
                    if n != p0.name@ {
                        assert(named_get(self.parts@, n) == named_get(t0, n));
                    }
                    assert(mem_of(t0, n) == mem_of(old(self).parts@, n));
                }
            }
            if r.is_err() {
                return r;
            }
            j = j + 1;
        }
        Ok(())
    }

    /// Flush and merge-compact every partition (pending uploads are
    /// published first).
    pub fn compact_all(&mut self) -> (r: Result<(), Error>)
        requires
            old(self).wf(),
        ensures
            final(self).wf(),
            (old(self).read_only || old(self).lease_lost) ==> r is Err && final(self).parts
                == old(self).parts,
            r is Ok ==> forall|n: Seq<char>|
                #[trigger] mem_of(final(self).parts@, n) == Map::<Seq<u8>, Option<Seq<u8>>>::empty(),
            !old(self).read_only && !old(self).lease_lost && old(self).all_settled() ==> r is Ok
                && final(self).parts@ == old(self).parts@ && final(self).st == old(self).st,
    {
        self.ensure_writable()?;
        self.finish_pending_flushes()?;
        let ghost quiet = old(self).all_settled();
        let mut names: Vec<String> = Vec::new();
        let mut k: usize = 0;
        while k < self.parts.len()
            invariant
                0 <= k <= self.parts@.len(),
                names@.map_values(|s: String| s@) == names_of(self.parts@).take(k as int),
            decreases self.parts@.len() - k,
        {
            proof {
                assert(names_of(self.parts@).take(k + 1) =~= names_of(self.parts@).take(k as int).push(
                    self.parts@[k as int].0@,
                ));
            }
            let nm = self.parts[k].0.clone();
            names.push(nm);
            proof {
                assert(names@.map_values(|s: String| s@) =~= names_of(self.parts@).take(k + 1));
            }
            k = k + 1;
        }
        proof {
            assert(names_of(self.parts@).take(k as int) =~= names_of(self.parts@));
        }
        let ghost nv = names@.map_values(|s: String| s@);
        let mut j: usize = 0;
        while j < names.len()
            invariant
                0 <= j <= names@.len(),
                self.wf(),
                !old(self).read_only && !old(self).lease_lost,
                nv == names@.map_values(|s: String| s@),
                nv == names_of(self.parts@),
                quiet == old(self).all_settled(),
                quiet ==> self.parts@ == old(self).parts@ && self.st == old(self).st,
                forall|i: int| 0 <= i < j ==> #[trigger] mem_of(self.parts@, nv[i]) == Map::<
                    Seq<u8>,
                    Option<Seq<u8>>,
                >::empty(),
            decreases names@.len() - j,
        {
            let ghost before = self.parts@;
            let nj = names[j].as_str();
            proof {
                assert(nv[j as int] == names@[j as int]@);
                assert(nj@ == nv[j as int]);
                if quiet {
                    assert(nv.len() == names@.len());
                    assert(names_of(self.parts@).len() == self.parts@.len());
                    assert(names_of(self.parts@)[j as int] == self.parts@[j as int].0@);
                    assert(nv[j as int] == self.parts@[j as int].0@);
                    assert(old(self).nothing_to_compact(old(self).parts@[j as int].0@));
                }
            }
            self.compact_partition_detached(nj)?;
            proof {
                assert(mem_of(self.parts@, nv[j as int]) == Map::<Seq<u8>, Option<Seq<u8>>>::empty());
                assert forall|i: int| 0 <= i < j + 1 implies #[trigger] mem_of(self.parts@, nv[i])
                    == Map::<Seq<u8>, Option<Seq<u8>>>::empty() by {
                    if i < j {
                        assert(names_sorted(nv));
                        assert(name_lt(nv[i], nv[j as int]));
                        crate::order::lemma_lex_irreflexive(encode_utf8(nv[i]));
                        assert(nv[i] != nv[j as int]);
                        assert(named_get(self.parts@, nv[i]) == named_get(before, nv[i]));
                        assert(mem_of(before, nv[i]) == Map::<Seq<u8>, Option<Seq<u8>>>::empty());
                        assert(mem_of(self.parts@, nv[i]) == mem_of(before, nv[i]));
                    } else {
                        assert(i == j);
                        assert(nv[i] == nv[j as int]);
                    }
                }
            }
            j = j + 1;
        }
        proof {
            assert forall|n: Seq<char>| #[trigger] mem_of(self.parts@, n) == Map::<
                Seq<u8>,
                Option<Seq<u8>>,
            >::empty() by {
                crate::state::lemma_named_get_idx(self.parts@, n);
                if named_get(self.parts@, n) is Some {
                    let i = choose|i: int|
                        0 <= i < self.parts@.len() && (#[trigger] self.parts@[i]).0@ == n && self.parts@[
                            i
                        ].1 == named_get(self.parts@, n).unwrap();
                    assert(nv[i] == names_of(self.parts@)[i]);
                    assert(nv[i] == n);
                }
            }
        }
        Ok(())
    }

    /// Make everything acknowledged durable: in group-commit mode the
    /// pending journal buffer is flushed synchronously (and folded journals
    /// collected); pending segment uploads are then published.
    pub fn persist(&mut self) -> (r: Result<(), Error>)
        requires
            old(self).wf(),
        ensures
            final(self).wf(),
            (old(self).read_only || old(self).lease_lost) ==> r is Err && final(self).parts
                == old(self).parts && final(self).st == old(self).st,
            r is Ok && old(self).st.cfg.journal_window_ms is Some && !old(self).st.journal_flushing
                ==> final(self).st.pending@.len() == 0,
            forall|n: Seq<char>| #[trigger] mem_of(final(self).parts@, n) == mem_of(old(self).parts@, n),
            !old(self).read_only && !old(self).lease_lost && old(self).st.pending_flushes@.len() == 0 && (
            old(self).st.cfg.journal_window_ms is None || old(self).st.pending@.len() == 0
                || old(self).st.journal_flushing) ==> r is Ok,
    {
        self.ensure_writable()?;
        if self.st.cfg.journal_window_ms.is_some() {
            flush_journal_pending(&mut self.store, &mut self.st)?;
            gc_journal(&mut self.store, &mut self.st);
        }
        self.finish_pending_flushes()?;
        Ok(())
    }
}

/// Whether two optional byte strings are equal.
fn opt_bytes_eq(a: &Option<Vec<u8>>, b: &Option<Vec<u8>>) -> (r: bool)
    ensures
        r == (crate::journal::opt_bytes(*a) == crate::journal::opt_bytes(*b)),
{
    match (a, b) {
        (None, None) => true,
        (Some(x), Some(y)) => crate::order::compare_bytes(x.as_slice(), y.as_slice()) == 0,
        _ => false,
    }
}

/// Whether two sequence lists are equal.
fn seqs_eq(a: &Vec<u64>, b: &Vec<u64>) -> (r: bool)
    ensures
        r == (a@ == b@),
{
    if a.len() != b.len() {
        return false;
    }
    let mut i: usize = 0;
    while i < a.len()
        invariant
            0 <= i <= a@.len(),
            a@.len() == b@.len(),
            forall|j: int| 0 <= j < i ==> a@[j] == b@[j],
        decreases a@.len() - i,
    {
        if a[i] != b[i] {
            return false;
        }
        i = i + 1;
    }
    proof {
        assert(a@ =~= b@);
    }
    true
}

impl<S: Store, C: ManifestCodec> ObjectLsm<S, C> {
    /// Follower refresh: load a fresh read-only snapshot of the leader's
    /// published state and install it, unless the `current` pointer and the
    /// set of journal objects are unchanged. Every published partition takes
    /// the snapshot's metadata and memtable; partitions the leader no longer
    /// publishes are emptied and marked dropped. A no-op on a writer.
    pub fn refresh(&mut self) -> (r: Result<(), Error>)
        requires
            old(self).wf(),
        ensures
            final(self).wf(),
            final(self).read_only == old(self).read_only,
            !old(self).read_only ==> r is Ok && final(self).st == old(self).st && final(self).parts
                == old(self).parts,
            final(self).metrics.spec_counters() == (if old(self).read_only {
                MetricsSnapshot {
                    refreshes: crate::metrics::bump(old(self).metrics.spec_counters().refreshes, 1),
                    ..old(self).metrics.spec_counters()
                }
            } else {
                old(self).metrics.spec_counters()
            }),
            old(self).read_only && r is Ok ==> final(self).st == old(self).st || (crate::engine::anchored(
                final(self).st,
            ) && final(self).st.cfg.prefix@ == old(self).st.cfg.prefix@),
    {
        if !self.read_only {
            return Ok(());
        }
        self.metrics.bump_refresh();
        let ghost m1 = self.metrics.spec_counters();
        let cfg = self.st.cfg.clone_config();
        let mut scratch: Vec<(String, PartitionState)> = Vec::new();
        let fresh = load_readonly_snapshot(&self.store, &self.codec, cfg, &mut self.index_cache, &mut scratch)?;
        if opt_bytes_eq(&self.st.current_bytes, &fresh.current_bytes) && seqs_eq(
            &self.st.journal_seqs,
            &fresh.journal_seqs,
        ) {
            return Ok(());
        }
        self.st = fresh;
        let ghost st1 = self.st;
        let mut i: usize = 0;
        while i < scratch.len()
            invariant
                0 <= i <= scratch@.len(),
                self.st == st1,
                self.wf(),
                self.read_only,
                self.metrics.spec_counters() == m1,
                table_wf(scratch@),
            decreases scratch@.len() - i,
        {
            let idx = table_create(&mut self.parts, scratch[i].0.as_str());
            let ghost t0 = self.parts@;
            let mut ps = table_take(&mut self.parts, idx);
            ps.meta = scratch[i].1.meta.copy_meta();
            ps.mem = copy_mem(&scratch[i].1.mem);
            ps.mem_bytes = scratch[i].1.mem_bytes;
            ps.compacting = false;
            table_set(&mut self.parts, idx, ps);
            i = i + 1;
        }
        let mut i: usize = 0;
        while i < self.parts.len()
            invariant
                0 <= i <= self.parts@.len(),
                self.st == st1,
                self.wf(),
                self.read_only,
                self.metrics.spec_counters() == m1,
            decreases self.parts@.len() - i,
        {
            let alive = crate::table::named_find(&self.st.partitions, self.parts[i].0.as_str()).is_some();
            if !alive {
                let mut ps = table_take(&mut self.parts, i);
                ps.mem.clear();
                ps.mem_bytes = 0;
                ps.meta.segments.clear();
                ps.meta.watermark = 0;
                ps.meta.dropped = true;
                proof {
                    assert(crate::state::mem_view(ps.mem@) =~= Seq::<EntryV>::empty());
                }
                table_set(&mut self.parts, i, ps);
            }
            i = i + 1;
        }
        Ok(())
    }

    /// One tick of the group-commit flusher: upload the pending journal
    /// buffer as one object and collect folded journals; on a failed upload
    /// the buffer is kept for the next tick.
    pub fn flush_journal_window(&mut self) -> (r: Result<(), Error>)
        requires
            old(self).wf(),
        ensures
            final(self).wf(),
            final(self).parts == old(self).parts,
            final(self).read_only == old(self).read_only,
            final(self).lease_lost == old(self).lease_lost,
            r is Ok && !old(self).st.journal_flushing ==> final(self).st.pending@.len() == 0,
            r is Err ==> final(self).st.pending@ == old(self).st.pending@,
            old(self).st.pending@.len() == 0 || old(self).st.journal_flushing ==> r is Ok
                && final(self).st.pending@ == old(self).st.pending@,
            crate::engine::same_but_journal(final(self).st, old(self).st),
    {
        flush_journal_pending(&mut self.store, &mut self.st)?;
        gc_journal(&mut self.store, &mut self.st);
        Ok(())
    }

    /// One tick of the background flusher: publish every pending upload
    /// when background flushing is on (failures are left for a later tick).
    pub fn background_flush_tick(&mut self)
        requires
            old(self).wf(),
        ensures
            final(self).wf(),
            final(self).read_only == old(self).read_only,
            final(self).lease_lost == old(self).lease_lost,
            forall|n: Seq<char>| #[trigger] mem_of(final(self).parts@, n) == mem_of(old(self).parts@, n),
            !old(self).st.cfg.background_flush || old(self).st.pending_flushes@.len() == 0
                ==> final(self).parts@ == old(self).parts@ && final(self).st == old(self).st
                && final(self).store == old(self).store,
    {
        if self.st.cfg.background_flush {
            let _ = self.finish_pending_flushes();
        }
    }

    /// One non-blocking attempt to become the exclusive writer of
    /// `cfg.prefix` at `now_ms` under fencing `epoch`: win the lease, recover,
    /// then anchor the recovered state under this epoch. `Ok(None)` while
    /// another writer holds the lease; on a store or recovery failure after
    /// winning, the lease is released again and the error returned.
    pub fn try_open_leased(
        store: S,
        codec: C,
        cfg: Config,
        opts: &LeaseOptions,
        now_ms: u128,
        epoch: u128,
    ) -> (r: Result<Option<(Self, HeldLease)>, Error>)
        where S: Clone,
        requires
            now_ms + u64::MAX <= u128::MAX,
        ensures
            r matches Ok(Some((e, l))) ==> {
                &&& e.wf()
                &&& e.st.fence_epoch == epoch
                &&& !e.read_only
                &&& !e.lease_lost
                &&& l.key@ == spec_lease_key(cfg.prefix@)
                &&& l.owner@ == opts.owner@
                &&& l.ttl_ms == spec_effective_ttl(opts.ttl_ms)
                &&& l.epoch == epoch
                &&& !l.lost
            },
    {
        let mut store = store;
        let lease = match HeldLease::try_acquire_once(
            &mut store,
            cfg.prefix.as_str(),
            opts,
            now_ms,
            epoch,
        )? {
            Some(l) => l,
            None => {
                return Ok(None);
            },
        };
        let mut keep = store.clone();
        let mut engine = match Self::open(store, codec, cfg) {
            Ok(e) => e,
            Err(e) => {
                lease.release(&mut keep);
                return Err(e);
            },
        };
        match engine.become_writer(epoch, false) {
            Ok(()) => Ok(Some((engine, lease))),
            Err(e) => {
                lease.release(&mut engine.store);
                Err(e)
            },
        }
    }

    /// Become the fenced writer of the prefix under lease `epoch`: record the
    /// epoch (and whether the lease is already lost), fold every replayed
    /// memtable into segments, publish a manifest under this epoch (so the
    /// pointer always names an epoch that can see this writer's journals) and
    /// collect the journals of superseded epochs it folded.
    pub fn become_writer(&mut self, epoch: u128, lost: bool) -> (r: Result<(), Error>)
        requires
            old(self).wf(),
        ensures
            final(self).wf(),
            final(self).st.fence_epoch == epoch,
            final(self).lease_lost == lost,
            final(self).read_only == old(self).read_only,
    {
        self.st.fence_epoch = epoch;
        self.lease_lost = lost;
        let mut names: Vec<String> = Vec::new();
        let mut k: usize = 0;
        while k < self.st.partitions.len()
            invariant
                0 <= k <= self.st.partitions@.len(),
            decreases self.st.partitions@.len() - k,
        {
            names.push(self.st.partitions[k].0.clone());
            k = k + 1;
        }
        let mut j: usize = 0;
        while j < names.len()
            invariant
                0 <= j <= names@.len(),
                self.wf(),
                self.st.fence_epoch == epoch,
                self.lease_lost == lost,
                self.read_only == old(self).read_only,
            decreases names@.len() - j,
        {
            self.flush_partition_detached(names[j].as_str())?;
            j = j + 1;
        }
        if self.st.manifest_seq == u64::MAX {
            return Err(Error::store("sequence space exhausted"));
        }
        publish_manifest(&mut self.store, &self.codec, &mut self.st)?;
        gc_foreign_journals(&mut self.store, &mut self.st)?;
        Ok(())
    }
}

/// An equal copy of a memtable.
pub fn copy_mem(mem: &Vec<(Vec<u8>, MemEntry)>) -> (r: Vec<(Vec<u8>, MemEntry)>)
    ensures
        crate::state::mem_view(r@) == crate::state::mem_view(mem@),
{
    let mut out: Vec<(Vec<u8>, MemEntry)> = Vec::new();
    let mut i: usize = 0;
    while i < mem.len()
        invariant
            0 <= i <= mem@.len(),
            crate::state::mem_view(out@) == crate::state::mem_view(mem@).take(i as int),
        decreases mem@.len() - i,
    {
        let e = match &mem[i].1 {
            MemEntry::Value(v) => MemEntry::Value(vstd::slice::slice_to_vec(v.as_slice())),
            MemEntry::Tombstone => MemEntry::Tombstone,
        };
        let item = (vstd::slice::slice_to_vec(mem[i].0.as_slice()), e);
        proof {
            assert(crate::state::mem_view(mem@).take(i + 1) =~= crate::state::mem_view(mem@).take(
                i as int,
            ).push((mem@[i as int].0@, mem_entry_view(mem@[i as int].1))));
            assert(crate::state::mem_view(out@.push(item)) =~= crate::state::mem_view(out@).push(
                (item.0@, mem_entry_view(item.1)),
            ));
        }
        out.push(item);
        i = i + 1;
    }
    proof {
        assert(crate::state::mem_view(mem@).take(i as int) =~= crate::state::mem_view(mem@));
    }
    out
}

} // verus!
