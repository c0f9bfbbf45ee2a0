//! Partition handles and write batches over an [`ObjectLsm`] engine.
use vstd::prelude::*;

use crate::error::Error;
use crate::journal::{ops_view, Op, OpV};
use crate::lsm::{commit_outcome, others_kept, ObjectLsm};
use crate::manifest::ManifestCodec;
use crate::recovery::mem_of;
use crate::state::{named_get, MemEntry, PartitionState};
use crate::store::Store;
use crate::table::table_find;

verus! {

/// An owned key-value entry produced by scans.
#[derive(Debug, Clone, PartialEq, Eq)]
pub struct ObjectLsmEntry {
    pub key: Vec<u8>,
    pub value: Vec<u8>,
}

impl ObjectLsmEntry {
    pub fn key(&self) -> (k: &Vec<u8>)
        ensures
            k == &self.key,
    {
        &self.key
    }

    pub fn value(&self) -> (v: &Vec<u8>)
        ensures
            v == &self.value,
    {
        &self.value
    }
}

/// Accumulates mutations, possibly across partitions, committed as one
/// atomic journal group.
pub struct ObjectLsmBatch {
    pub ops: Vec<Op>,
}

impl ObjectLsmBatch {
    pub fn new() -> (b: Self)
        ensures
            b.ops@.len() == 0,
    {
        ObjectLsmBatch { ops: Vec::new() }
    }

    pub fn with_capacity(capacity: usize) -> (b: Self)
        ensures
            b.ops@.len() == 0,
    {
        ObjectLsmBatch { ops: Vec::with_capacity(capacity) }
    }

    /// Queue a put of `value` under `key` in `partition`.
    pub fn insert(&mut self, partition: &ObjectLsmPartition, key: &[u8], value: &[u8])
        ensures
            ops_view(final(self).ops@) == ops_view(old(self).ops@).push(
                OpV { part: partition.name@, key: key@, value: Some(value@) },
            ),
    {
        let op = Op::put(partition.name.clone(), vstd::slice::slice_to_vec(key), vstd::slice::slice_to_vec(value));
        proof {
            assert(ops_view(self.ops@.push(op)) =~= ops_view(self.ops@).push(op@));
        }
        self.ops.push(op);
    }

    /// Queue a delete of `key` in `partition`.
    pub fn rm(&mut self, partition: &ObjectLsmPartition, key: &[u8])
        ensures
            ops_view(final(self).ops@) == ops_view(old(self).ops@).push(
                OpV { part: partition.name@, key: key@, value: None },
            ),
    {
        let op = Op::delete(partition.name.clone(), vstd::slice::slice_to_vec(key));
        proof {
            assert(ops_view(self.ops@.push(op)) =~= ops_view(self.ops@).push(op@));
        }
        self.ops.push(op);
    }

    /// Number of queued mutations.
    pub fn len(&self) -> (n: usize)
        ensures
            n == self.ops@.len(),
    {
        self.ops.len()
    }

    /// Commit the queued mutations as one group.
    pub fn commit<S: Store, C: ManifestCodec>(self, eng: &mut ObjectLsm<S, C>) -> (r: Result<(), Error>)
        requires
            old(eng).wf(),
        ensures
            final(eng).wf(),
            self.ops@.len() == 0 ==> r is Ok && final(eng).parts == old(eng).parts,
            self.ops@.len() > 0 && (old(eng).read_only || old(eng).lease_lost) ==> r is Err
                && final(eng).parts == old(eng).parts,
            self.ops@.len() > 0 && r is Ok ==> final(eng).st.journal_seq == old(eng).st.journal_seq
                + 1 && commit_outcome(
                final(eng).parts@,
                old(eng).parts@,
                ops_view(self.ops@),
                (old(eng).st.journal_seq + 1) as u64,
            ),
            self.ops@.len() > 0 && r is Err ==> (forall|n: Seq<char>|
                #[trigger] mem_of(final(eng).parts@, n) == mem_of(old(eng).parts@, n))
                || commit_outcome(
                final(eng).parts@,
                old(eng).parts@,
                ops_view(self.ops@),
                (old(eng).st.journal_seq + 1) as u64,
            ),
    {
        eng.commit_ops(self.ops)
    }
}

/// A partition handle: names a keyspace of an engine.
#[derive(Debug, Clone)]
pub struct ObjectLsmPartition {
    pub name: String,
}

/// Live values in a memtable.
pub open spec fn live_count(mem: Seq<(Vec<u8>, MemEntry)>) -> nat
    decreases mem.len(),
{
    if mem.len() == 0 {
        0
    } else {
        live_count(mem.drop_last()) + if mem.last().1 is Value {
            1nat
        } else {
            0nat
        }
    }
}

/// Per-segment live-entry estimates (entries minus tombstones), summed.
pub open spec fn segment_live(s: Seq<crate::segment::SegmentMeta>) -> int
    decreases s.len(),
{
    if s.len() == 0 {
        0
    } else {
        segment_live(s.drop_last()) + (if s.last().count >= s.last().tombstones {
            s.last().count - s.last().tombstones
        } else {
            0
        })
    }
}

/// `t`, saturated at `usize::MAX`.
pub open spec fn sat_usize(t: int) -> int {
    if t > usize::MAX {
        usize::MAX as int
    } else {
        t
    }
}

impl ObjectLsmPartition {
    /// Open (or create) partition `name` of `eng`.
    pub fn open<S: Store, C: ManifestCodec>(eng: &mut ObjectLsm<S, C>, name: &str) -> (r: Result<
        ObjectLsmPartition,
        Error,
    >)
        requires
            old(eng).wf(),
        ensures
            final(eng).wf(),
            r matches Ok(p) ==> p.name@ == name@,
            old(eng).read_only ==> final(eng).parts == old(eng).parts && (r is Ok <==> (named_get(
                old(eng).parts@,
                name@,
            ) matches Some(p) && !p.meta.dropped)),
            !old(eng).read_only && old(eng).lease_lost ==> r is Err,
            !old(eng).read_only && !old(eng).lease_lost ==> named_get(final(eng).parts@, name@)
                is Some && (r is Ok ==> !named_get(final(eng).parts@, name@).unwrap().meta.dropped),
            mem_of(final(eng).parts@, name@) == mem_of(old(eng).parts@, name@),
    {
        eng.touch_partition(name)?;
        Ok(ObjectLsmPartition { name: String::from_str(name) })
    }

    /// The value stored under `key`.
    pub fn get<S: Store, C: ManifestCodec>(&self, eng: &mut ObjectLsm<S, C>, key: &[u8]) -> (r:
        Result<Option<Vec<u8>>, Error>)
        requires
            old(eng).wf(),
        ensures
            final(eng).wf(),
            named_get(old(eng).parts@, self.name@) is Some && mem_of(
                old(eng).parts@,
                self.name@,
            ).contains_key(key@) ==> (r matches Ok(v) && crate::journal::opt_bytes(v) == mem_of(
                old(eng).parts@,
                self.name@,
            )[key@]),
            named_get(old(eng).parts@, self.name@) is None ==> r == Ok::<Option<Vec<u8>>, Error>(
                None,
            ),
    {
        eng.lookup(self.name.as_str(), key)
    }

    /// Put `value` under `key`.
    pub fn insert<S: Store, C: ManifestCodec>(
        &self,
        eng: &mut ObjectLsm<S, C>,
        key: &[u8],
        value: &[u8],
    ) -> (r: Result<(), Error>)
        requires
            old(eng).wf(),
        ensures
            final(eng).wf(),
            (old(eng).read_only || old(eng).lease_lost) ==> r is Err && final(eng).parts == old(
                eng,
            ).parts,
            r is Ok ==> final(eng).st.journal_seq == old(eng).st.journal_seq + 1 && commit_outcome(
                final(eng).parts@,
                old(eng).parts@,
                seq![OpV { part: self.name@, key: key@, value: Some(value@) }],
                (old(eng).st.journal_seq + 1) as u64,
            ),
            r is Err ==> (forall|n: Seq<char>|
                #[trigger] mem_of(final(eng).parts@, n) == mem_of(old(eng).parts@, n))
                || commit_outcome(
                final(eng).parts@,
                old(eng).parts@,
                seq![OpV { part: self.name@, key: key@, value: Some(value@) }],
                (old(eng).st.journal_seq + 1) as u64,
            ),
            old(eng).commit_stays_local(seq![OpV { part: self.name@, key: key@, value: Some(value@) }]) ==> r is Ok,
    {
        let mut ops: Vec<Op> = Vec::new();
        let op = Op::put(self.name.clone(), vstd::slice::slice_to_vec(key), vstd::slice::slice_to_vec(value));
        ops.push(op);
        proof {
            assert(ops_view(ops@) =~= seq![OpV { part: self.name@, key: key@, value: Some(value@) }]);
        }
        eng.commit_ops(ops)
    }

    /// Delete `key`.
    pub fn rm<S: Store, C: ManifestCodec>(&self, eng: &mut ObjectLsm<S, C>, key: &[u8]) -> (r: Result<
        (),
        Error,
    >)
        requires
            old(eng).wf(),
        ensures
            final(eng).wf(),
            (old(eng).read_only || old(eng).lease_lost) ==> r is Err && final(eng).parts == old(
                eng,
            ).parts,
            r is Ok ==> final(eng).st.journal_seq == old(eng).st.journal_seq + 1 && commit_outcome(
                final(eng).parts@,
                old(eng).parts@,
                seq![OpV { part: self.name@, key: key@, value: None }],
                (old(eng).st.journal_seq + 1) as u64,
            ),
            r is Err ==> (forall|n: Seq<char>|
                #[trigger] mem_of(final(eng).parts@, n) == mem_of(old(eng).parts@, n))
                || commit_outcome(
                final(eng).parts@,
                old(eng).parts@,
                seq![OpV { part: self.name@, key: key@, value: None }],
                (old(eng).st.journal_seq + 1) as u64,
            ),
            old(eng).commit_stays_local(seq![OpV { part: self.name@, key: key@, value: None }]) ==> r is Ok,
    {
        let mut ops: Vec<Op> = Vec::new();
        let op = Op::delete(self.name.clone(), vstd::slice::slice_to_vec(key));
        ops.push(op);
        proof {
            assert(ops_view(ops@) =~= seq![OpV { part: self.name@, key: key@, value: None }]);
        }
        eng.commit_ops(ops)
    }

    /// Remove every entry.
    pub fn clear<S: Store, C: ManifestCodec>(&self, eng: &mut ObjectLsm<S, C>) -> (r: Result<(), Error>)
        requires
            old(eng).wf(),
        ensures
            final(eng).wf(),
            others_kept(final(eng).parts@, old(eng).parts@, self.name@),
            (old(eng).read_only || old(eng).lease_lost) ==> r is Err && final(eng).parts == old(
                eng,
            ).parts,
            !old(eng).read_only && !old(eng).lease_lost && named_get(old(eng).parts@, self.name@)
                is Some ==> {
                let p = named_get(final(eng).parts@, self.name@).unwrap();
                &&& named_get(final(eng).parts@, self.name@) is Some
                &&& p.mem@.len() == 0
                &&& p.meta.segments@.len() == 0
                &&& !p.meta.dropped
            },
    {
        eng.clear_partition(self.name.as_str())
    }

    /// Flush and merge-compact this partition.
    pub fn compact<S: Store, C: ManifestCodec>(&self, eng: &mut ObjectLsm<S, C>) -> (r: Result<(), Error>)
        requires
            old(eng).wf(),
        ensures
            final(eng).wf(),
            others_kept(final(eng).parts@, old(eng).parts@, self.name@),
            (old(eng).read_only || old(eng).lease_lost) ==> r is Err && final(eng).parts == old(
                eng,
            ).parts,
            r is Ok ==> mem_of(final(eng).parts@, self.name@) == Map::<
                Seq<u8>,
                Option<Seq<u8>>,
            >::empty(),
            !old(eng).read_only && !old(eng).lease_lost && named_get(old(eng).parts@, self.name@) is None
                ==> r is Ok && final(eng).parts@ == old(eng).parts@ && final(eng).st == old(eng).st,
            !old(eng).read_only && !old(eng).lease_lost && old(eng).nothing_to_compact(self.name@) ==> r is Ok
                && final(eng).parts@ == old(eng).parts@ && final(eng).st == old(eng).st,
    {
        eng.compact_partition(self.name.as_str())
    }

    /// Approximate number of live entries: memtable values plus, per segment,
    /// entries minus tombstones (keys repeated across segments count again).
    pub fn approximate_len<S: Store, C: ManifestCodec>(&self, eng: &ObjectLsm<S, C>) -> (r: Result<
        usize,
        Error,
    >)
        requires
            eng.wf(),
        ensures
            named_get(eng.parts@, self.name@) is None ==> r == Ok::<usize, Error>(0),
            named_get(eng.parts@, self.name@) matches Some(p) ==> r matches Ok(n) && n as int
                == sat_usize(segment_live(p.meta.segments@) + live_count(p.mem@)),
    {
        let idx = match table_find(&eng.parts, self.name.as_str()) {
            None => {
                return Ok(0);
            },
            Some(i) => i,
        };
        let ps = &eng.parts[idx].1;
        let mut n: usize = 0;
        let mut i: usize = 0;
        while i < ps.meta.segments.len()
            invariant
                0 <= i <= ps.meta.segments@.len(),
                n as int == sat_usize(segment_live(ps.meta.segments@.take(i as int))),
            decreases ps.meta.segments@.len() - i,
        {
            proof {
                assert(ps.meta.segments@.take(i + 1).drop_last() =~= ps.meta.segments@.take(i as int));
            }
            let s = &ps.meta.segments[i];
            let live = if s.count >= s.tombstones {
                s.count - s.tombstones
            } else {
                0
            };
            let live_usize: usize = if live > usize::MAX as u64 {
                usize::MAX
            } else {
                live as usize
            };
            n = n.saturating_add(live_usize);
            i = i + 1;
        }
        proof {
            assert(ps.meta.segments@.take(i as int) =~= ps.meta.segments@);
        }
        let mut i: usize = 0;
        while i < ps.mem.len()
            invariant
                0 <= i <= ps.mem@.len(),
                n as int == sat_usize(segment_live(ps.meta.segments@) + live_count(ps.mem@.take(i as int))),
            decreases ps.mem@.len() - i,
        {
            proof {
                assert(ps.mem@.take(i + 1).drop_last() =~= ps.mem@.take(i as int));
            }
            match &ps.mem[i].1 {
                MemEntry::Value(_) => {
                    n = n.saturating_add(1);
                },
                MemEntry::Tombstone => {},
            }
            i = i + 1;
        }
        proof {
            assert(ps.mem@.take(i as int) =~= ps.mem@);
        }
        Ok(n)
    }

    /// Number of segments.
    pub fn table_count<S: Store, C: ManifestCodec>(&self, eng: &ObjectLsm<S, C>) -> (r: usize)
        requires
            eng.wf(),
        ensures
            named_get(eng.parts@, self.name@) is None ==> r == 0,
            named_get(eng.parts@, self.name@) matches Some(p) ==> r == p.meta.segments@.len(),
    {
        match table_find(&eng.parts, self.name.as_str()) {
            None => 0,
            Some(i) => eng.parts[i].1.meta.segments.len(),
        }
    }

    /// Bytes of this partition's segments (saturating).
    pub fn disk_space<S: Store, C: ManifestCodec>(&self, eng: &ObjectLsm<S, C>) -> (r: Result<
        u64,
        Error,
    >)
        requires
            eng.wf(),
        ensures
            named_get(eng.parts@, self.name@) is None ==> r == Ok::<u64, Error>(0),
            named_get(eng.parts@, self.name@) matches Some(p) ==> r == Ok::<u64, Error>(
                crate::lsm::sat(crate::lsm::seg_bytes(p.meta.segments@)),
            ),
    {
        let idx = match table_find(&eng.parts, self.name.as_str()) {
            None => {
                return Ok(0);
            },
            Some(i) => i,
        };
        let segs = &eng.parts[idx].1.meta.segments;
        let mut s: u64 = 0;
        let mut k: usize = 0;
        while k < segs.len()
            invariant
                0 <= k <= segs@.len(),
                s == crate::lsm::sat(crate::lsm::seg_bytes(segs@.take(k as int))),
            decreases segs@.len() - k,
        {
            proof {
                assert(segs@.take(k + 1).drop_last() =~= segs@.take(k as int));
            }
            s = s.saturating_add(segs[k].bytes);
            k = k + 1;
        }
        proof {
            assert(segs@.take(k as int) =~= segs@);
        }
        Ok(s)
    }
}

} // verus!
