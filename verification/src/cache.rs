//! Block cache and segment-index cache.
//!
//! The block cache keeps decoded block entry lists in memory with
//! insertion-order (FIFO) eviction bounded by a byte capacity. Segment indexes
//! are cached separately, bounded by a count, because they are tiny and hot.
use vstd::prelude::*;

use crate::segment::{entries_view, EntryV, SegmentEntries, SegmentIndex, BlockMetaV};

verus! {

/// One cached block.
pub struct CachedBlock {
    pub seg: u64,
    pub block: u32,
    pub entries: SegmentEntries,
    pub size: u64,
}

/// Model of a cached block: `(segment id, block offset, entries, size)`.
pub type CachedV = (u64, u32, Seq<EntryV>, u64);

/// View of a cached block.
pub open spec fn cached_view(c: CachedBlock) -> CachedV {
    (c.seg, c.block, entries_view(c.entries@), c.size)
}

/// Total size of cached blocks.
pub open spec fn total_size(s: Seq<CachedV>) -> nat
    decreases s.len(),
{
    if s.len() == 0 {
        0
    } else {
        total_size(s.drop_last()) + s.last().3 as nat
    }
}

/// Whether the block `(seg, block)` is cached at index `i`.
pub open spec fn has_key_at(s: Seq<CachedV>, i: int, seg: u64, block: u32) -> bool {
    0 <= i < s.len() && s[i].0 == seg && s[i].1 == block
}

/// No block is cached twice.
pub open spec fn keys_unique(s: Seq<CachedV>) -> bool {
    forall|i: int, j: int|
        0 <= i < j < s.len() ==> !((#[trigger] s[i]).0 == (#[trigger] s[j]).0 && s[i].1 == s[j].1)
}

/// FIFO eviction: drop the oldest blocks while the total exceeds the capacity.
pub open spec fn evict(s: Seq<CachedV>, cap: nat) -> Seq<CachedV>
    decreases s.len(),
{
    if s.len() == 0 || total_size(s) <= cap {
        s
    } else {
        evict(s.drop_first(), cap)
    }
}

/// Bounded cache of decoded segment blocks, keyed by `(segment_id, block offset)`.
pub struct BlockCache {
    capacity: u64,
    used: u64,
    order: Vec<CachedBlock>,
}

impl BlockCache {
    /// Cached blocks, oldest first.
    pub closed spec fn blocks(&self) -> Seq<CachedV> {
        self.order@.map_values(|c: CachedBlock| cached_view(c))
    }

    pub closed spec fn spec_capacity(&self) -> u64 {
        self.capacity
    }

    pub closed spec fn spec_used(&self) -> u64 {
        self.used
    }

    /// The cache's accounting invariant.
    pub open spec fn wf(&self) -> bool {
        &&& keys_unique(self.blocks())
        &&& self.spec_used() == total_size(self.blocks())
        &&& self.spec_used() <= self.spec_capacity()
        &&& self.spec_capacity() == 0 ==> self.blocks().len() == 0
    }

    pub fn new(capacity: u64) -> (c: Self)
        ensures
            c.wf(),
            c.blocks().len() == 0,
            c.spec_capacity() == capacity,
            c.spec_used() == 0,
    {
        let c = BlockCache { capacity, used: 0, order: Vec::new() };
        assert(c.blocks() =~= Seq::<CachedV>::empty());
        c
    }

    fn find(&self, seg: u64, block: u32) -> (r: Option<usize>)
        ensures
            match r {
                Some(i) => has_key_at(self.blocks(), i as int, seg, block),
                None => forall|i: int| !has_key_at(self.blocks(), i, seg, block),
            },
    {
        let mut i: usize = 0;
        while i < self.order.len()
            invariant
                0 <= i <= self.order@.len(),
                forall|j: int| 0 <= j < i ==> !has_key_at(self.blocks(), j, seg, block),
            decreases self.order@.len() - i,
        {
            if self.order[i].seg == seg && self.order[i].block == block {
                return Some(i);
            }
            i = i + 1;
        }
        None
    }

    /// The cached entries of block `(seg, block)`, if cached.
    pub fn get(&self, seg: u64, block: u32) -> (r: Option<&SegmentEntries>)
        ensures
            match r {
                Some(es) => exists|i: int|
                    has_key_at(self.blocks(), i, seg, block) && #[trigger] self.blocks()[i].2
                        == entries_view(es@),
                None => forall|i: int| !has_key_at(self.blocks(), i, seg, block),
            },
    {
        match self.find(seg, block) {
            Some(i) => {
                proof {
                    assert(self.blocks()[i as int].2 == entries_view(self.order@[i as int].entries@));
                }
                Some(&self.order[i].entries)
            },
            None => None,
        }
    }

    /// Cache a decoded block of `size` bytes. With capacity 0 nothing is
    /// cached. A block already cached is refreshed in place, a new block is
    /// appended; then the oldest blocks are evicted while the total size
    /// exceeds the capacity, so the cache never holds more than its capacity.
    pub fn insert(&mut self, seg: u64, block: u32, entries: SegmentEntries, size: u64)
        requires
            old(self).wf(),
            old(self).spec_used() + size <= u64::MAX,
        ensures
            final(self).wf(),
            final(self).spec_capacity() == old(self).spec_capacity(),
            old(self).spec_capacity() == 0 ==> final(self).blocks() == old(self).blocks(),
            old(self).spec_capacity() > 0 ==> {
                let nv = (seg, block, entries_view(entries@), size);
                if exists|i: int| has_key_at(old(self).blocks(), i, seg, block) {
                    final(self).blocks() == evict(
                        old(self).blocks().update(
                            choose|i: int| has_key_at(old(self).blocks(), i, seg, block),
                            nv,
                        ),
                        old(self).spec_capacity() as nat,
                    )
                } else {
                    final(self).blocks() == evict(
                        old(self).blocks().push(nv),
                        old(self).spec_capacity() as nat,
                    )
                }
            },
    {
        if self.capacity == 0 {
            return;
        }
        let ghost nv = (seg, block, entries_view(entries@), size);
        let ghost ob = self.blocks();
        let ghost mut full = ob;
        match self.find(seg, block) {
            Some(i) => {
                let old_size = self.order[i].size;
                proof {
                    lemma_total_update(ob, i as int, nv);
                    lemma_total_ge(ob, i as int);
                }
                self.used = self.used.saturating_sub(old_size).saturating_add(size);
                let item = CachedBlock { seg, block, entries, size };
                let _ = self.order.remove(i);
                self.order.insert(i, item);
                proof {
                    assert(self.blocks() =~= ob.update(i as int, nv));
                    let j = choose|j: int| has_key_at(ob, j, seg, block);
                    assert(j == i as int);
                    assert(keys_unique(self.blocks())) by {
                        assert forall|a: int, b: int| 0 <= a < b < self.blocks().len() implies !((
                        #[trigger] self.blocks()[a]).0 == (#[trigger] self.blocks()[b]).0
                            && self.blocks()[a].1 == self.blocks()[b].1) by {
                            if a != i && b != i {
                                assert(self.blocks()[a] == ob[a] && self.blocks()[b] == ob[b]);
                            } else if a == i {
                                assert(self.blocks()[b] == ob[b]);
                            } else {
                                assert(self.blocks()[a] == ob[a]);
                            }
                        }
                    }
                    full = self.blocks();
                }
            },
            None => {
                self.order.push(CachedBlock { seg, block, entries, size });
                self.used = self.used + size;
                proof {
                    assert(self.blocks() =~= ob.push(nv));
                    assert(self.blocks().drop_last() =~= ob);
                    assert(keys_unique(self.blocks())) by {
                        assert forall|a: int, b: int| 0 <= a < b < self.blocks().len() implies !((
                        #[trigger] self.blocks()[a]).0 == (#[trigger] self.blocks()[b]).0
                            && self.blocks()[a].1 == self.blocks()[b].1) by {
                            if b == ob.len() {
                                assert(!has_key_at(ob, a, seg, block));
                            } else {
                                assert(self.blocks()[a] == ob[a] && self.blocks()[b] == ob[b]);
                            }
                        }
                    }
                    full = self.blocks();
                }
            },
        }
        while self.used > self.capacity && self.order.len() > 0
            invariant
                keys_unique(self.blocks()),
                self.spec_used() == total_size(self.blocks()),
                self.spec_capacity() > 0,
                self.spec_capacity() == old(self).spec_capacity(),
                evict(full, self.spec_capacity() as nat) == evict(
                    self.blocks(),
                    self.spec_capacity() as nat,
                ),
            decreases self.order@.len(),
        {
            let ghost b = self.blocks();
            let removed = self.order.remove(0);
            proof {
                assert(self.blocks() =~= b.drop_first());
                lemma_total_drop_first(b);
                assert(keys_unique(self.blocks())) by {
                    assert forall|a: int, c: int| 0 <= a < c < self.blocks().len() implies !((
                    #[trigger] self.blocks()[a]).0 == (#[trigger] self.blocks()[c]).0
                        && self.blocks()[a].1 == self.blocks()[c].1) by {
                        assert(self.blocks()[a] == b[a + 1] && self.blocks()[c] == b[c + 1]);
                    }
                }
            }
            self.used = self.used - removed.size;
        }
        proof {
            if self.order@.len() == 0 {
                assert(self.blocks() =~= Seq::<CachedV>::empty());
            }
            assert(evict(self.blocks(), self.spec_capacity() as nat) == self.blocks());
        }
    }

    /// Bytes currently cached.
    pub fn used(&self) -> (u: u64)
        ensures
            u == self.spec_used(),
    {
        self.used
    }

    /// Configured capacity in bytes.
    pub fn capacity(&self) -> (c: u64)
        ensures
            c == self.spec_capacity(),
    {
        self.capacity
    }
}

proof fn lemma_total_update(s: Seq<CachedV>, i: int, v: CachedV)
    requires
        0 <= i < s.len(),
    ensures
        total_size(s.update(i, v)) == total_size(s) - s[i].3 + v.3,
    decreases s.len(),
{
    if i < s.len() - 1 {
        assert(s.update(i, v).drop_last() =~= s.drop_last().update(i, v));
        lemma_total_update(s.drop_last(), i, v);
    } else {
        assert(s.update(i, v).drop_last() =~= s.drop_last());
    }
}

proof fn lemma_total_ge(s: Seq<CachedV>, i: int)
    requires
        0 <= i < s.len(),
    ensures
        total_size(s) >= s[i].3,
    decreases s.len(),
{
    if i < s.len() - 1 {
        lemma_total_ge(s.drop_last(), i);
    }
}

proof fn lemma_total_drop_first(s: Seq<CachedV>)
    requires
        s.len() > 0,
    ensures
        total_size(s) == s[0].3 + total_size(s.drop_first()),
    decreases s.len(),
{
    if s.len() == 1 {
        assert(s.drop_first() =~= Seq::<CachedV>::empty());
        assert(s.drop_last() =~= Seq::<CachedV>::empty());
    } else {
        lemma_total_drop_first(s.drop_last());
        assert(s.drop_last().drop_first() =~= s.drop_first().drop_last());
    }
}

/// The total after FIFO eviction is within the capacity, and a last block
/// no larger than the capacity is never evicted.
pub proof fn lemma_evict_bounds(s: Seq<CachedV>, cap: nat)
    ensures
        total_size(evict(s, cap)) <= cap || evict(s, cap).len() == 0,
        s.len() > 0 && s.last().3 <= cap ==> evict(s, cap).len() > 0 && evict(s, cap).last()
            == s.last(),
    decreases s.len(),
{
    if s.len() > 0 && total_size(s) > cap {
        lemma_total_drop_first(s);
        if s.len() == 1 {
            assert(s.drop_first() =~= Seq::<CachedV>::empty());
            assert(s.drop_last() =~= Seq::<CachedV>::empty());
        } else {
            assert(s.drop_first().last() == s.last());
        }
        lemma_evict_bounds(s.drop_first(), cap);
    }
}

/// After a new block of at most the capacity is cached, a lookup of that
/// block finds it, and the cached total is within the capacity.
pub proof fn lemma_block_cache_insert_then_get(
    before: Seq<CachedV>,
    after: Seq<CachedV>,
    cap: nat,
    nv: CachedV,
)
    requires
        cap > 0,
        nv.3 <= cap,
        forall|i: int| !has_key_at(before, i, nv.0, nv.1),
        after == evict(before.push(nv), cap),
    ensures
        after.len() > 0 && after.last() == nv,
        has_key_at(after, after.len() - 1, nv.0, nv.1),
        total_size(after) <= cap,
{
    lemma_evict_bounds(before.push(nv), cap);
}

/// Model of a cached index: `(segment id, blocks)`.
pub type IndexV = (u64, Seq<BlockMetaV>);

/// FIFO-bounded cache of parsed segment block indexes.
pub struct IndexCache {
    capacity: usize,
    order: Vec<(u64, SegmentIndex)>,
}

/// Keep only the newest `cap` entries.
pub open spec fn keep_newest(s: Seq<IndexV>, cap: nat) -> Seq<IndexV> {
    if s.len() <= cap {
        s
    } else {
        s.skip(s.len() - cap)
    }
}

/// No segment id repeats.
pub open spec fn segs_unique(s: Seq<IndexV>) -> bool {
    forall|i: int, j: int| 0 <= i < j < s.len() ==> (#[trigger] s[i]).0 != (#[trigger] s[j]).0
}

impl IndexCache {
    /// Cached indexes, oldest first.
    pub closed spec fn entries(&self) -> Seq<IndexV> {
        self.order@.map_values(|e: (u64, SegmentIndex)| (e.0, e.1@))
    }

    pub closed spec fn spec_capacity(&self) -> usize {
        self.capacity
    }

    pub open spec fn wf(&self) -> bool {
        &&& segs_unique(self.entries())
        &&& self.entries().len() <= self.spec_capacity()
    }

    pub fn new(capacity: usize) -> (c: Self)
        ensures
            c.wf(),
            c.entries().len() == 0,
            c.spec_capacity() == capacity,
    {
        let c = IndexCache { capacity, order: Vec::new() };
        assert(c.entries() =~= Seq::<IndexV>::empty());
        c
    }

    fn find(&self, seg: u64) -> (r: Option<usize>)
        ensures
            match r {
                Some(i) => i < self.entries().len() && self.entries()[i as int].0 == seg,
                None => forall|i: int| 0 <= i < self.entries().len() ==> self.entries()[i].0 != seg,
            },
    {
        let mut i: usize = 0;
        while i < self.order.len()
            invariant
                0 <= i <= self.order@.len(),
                forall|j: int| 0 <= j < i ==> self.entries()[j].0 != seg,
            decreases self.order@.len() - i,
        {
            if self.order[i].0 == seg {
                return Some(i);
            }
            i = i + 1;
        }
        None
    }

    /// The cached index of segment `seg`.
    pub fn get(&self, seg: u64) -> (r: Option<&SegmentIndex>)
        ensures
            match r {
                Some(ix) => exists|i: int|
                    0 <= i < self.entries().len() && #[trigger] self.entries()[i] == (seg, ix@),
                None => forall|i: int|
                    0 <= i < self.entries().len() ==> #[trigger] self.entries()[i].0 != seg,
            },
    {
        match self.find(seg) {
            Some(i) => {
                proof {
                    assert(self.entries()[i as int] == (seg, self.order@[i as int].1@));
                }
                Some(&self.order[i].1)
            },
            None => None,
        }
    }

    /// Cache `index` for `seg`: refreshed in place when cached, appended
    /// otherwise; then the oldest entries are dropped beyond the capacity.
    pub fn insert(&mut self, seg: u64, index: SegmentIndex)
        requires
            old(self).wf(),
        ensures
            final(self).wf(),
            final(self).spec_capacity() == old(self).spec_capacity(),
            final(self).entries() == keep_newest(
                if exists|i: int| 0 <= i < old(self).entries().len() && old(self).entries()[i].0 == seg {
                    old(self).entries().update(
                        choose|i: int|
                            0 <= i < old(self).entries().len() && old(self).entries()[i].0 == seg,
                        (seg, index@),
                    )
                } else {
                    old(self).entries().push((seg, index@))
                },
                old(self).spec_capacity() as nat,
            ),
    {
        let ghost oe = self.entries();
        let ghost iv = index@;
        match self.find(seg) {
            Some(i) => {
                let _ = self.order.remove(i);
                self.order.insert(i, (seg, index));
                proof {
                    assert(self.entries() =~= oe.update(i as int, (seg, iv)));
                    let j = choose|j: int| 0 <= j < oe.len() && oe[j].0 == seg;
                    assert(j == i as int);
                    assert(segs_unique(self.entries())) by {
                        assert forall|a: int, b: int| 0 <= a < b < self.entries().len() implies (
                        #[trigger] self.entries()[a]).0 != (#[trigger] self.entries()[b]).0 by {
                            if a != i && b != i {
                                assert(self.entries()[a] == oe[a] && self.entries()[b] == oe[b]);
                            } else if a == i {
                                assert(self.entries()[b] == oe[b]);
                            } else {
                                assert(self.entries()[a] == oe[a]);
                            }
                        }
                    }
                }
            },
            None => {
                self.order.push((seg, index));
                proof {
                    assert(self.entries() =~= oe.push((seg, iv)));
                    assert(segs_unique(self.entries())) by {
                        assert forall|a: int, b: int| 0 <= a < b < self.entries().len() implies (
                        #[trigger] self.entries()[a]).0 != (#[trigger] self.entries()[b]).0 by {
                            if b == oe.len() {
                                assert(self.entries()[a] == oe[a]);
                            } else {
                                assert(self.entries()[a] == oe[a] && self.entries()[b] == oe[b]);
                            }
                        }
                    }
                }
            },
        }
        let ghost full = self.entries();
        let n0 = self.order.len();
        assert(full.len() == n0);
        let mut dropped: usize = 0;
        while self.order.len() > self.capacity
            invariant
                segs_unique(self.entries()),
                self.spec_capacity() == old(self).spec_capacity(),
                dropped <= full.len(),
                full.len() <= usize::MAX,
                dropped > 0 ==> self.entries().len() >= self.spec_capacity(),
                full.len() == self.entries().len() + dropped,
                self.entries() == full.skip(dropped as int),
                segs_unique(full),
            decreases self.order@.len(),
        {
            let ghost b = self.entries();
            let _ = self.order.remove(0);
            proof {
                assert(self.entries() =~= b.drop_first());
                assert(self.entries() =~= full.skip(dropped + 1));
                assert(segs_unique(self.entries())) by {
                    assert forall|a: int, b: int| 0 <= a < b < self.entries().len() implies (
                    #[trigger] self.entries()[a]).0 != (#[trigger] self.entries()[b]).0 by {
                        assert(self.entries()[a] == full[a + dropped + 1]);
                        assert(self.entries()[b] == full[b + dropped + 1]);
                    }
                }
            }
            dropped = dropped + 1;
        }
        proof {
            if full.len() <= self.capacity {
                assert(dropped == 0);
                assert(full.skip(0) =~= full);
            } else {
                assert(self.entries().len() == self.capacity);
            }
        }
    }

    /// Forget the cached index of `seg`.
    pub fn remove(&mut self, seg: u64)
        requires
            old(self).wf(),
        ensures
            final(self).wf(),
            final(self).spec_capacity() == old(self).spec_capacity(),
            final(self).entries() == old(self).entries().filter(|e: IndexV| e.0 != seg),
            forall|e: IndexV| #[trigger]
                final(self).entries().contains(e) <==> old(self).entries().contains(e) && e.0 != seg,
    {
        let ghost oe = self.entries();
        let ghost pred = |e: IndexV| e.0 != seg;
        let mut kept: Vec<(u64, SegmentIndex)> = Vec::new();
        let mut i: usize = 0;
        while i < self.order.len()
            invariant
                0 <= i <= self.order@.len(),
                oe == self.entries(),
                segs_unique(oe),
                pred == (|e: IndexV| e.0 != seg),
                kept@.map_values(|e: (u64, SegmentIndex)| (e.0, e.1@)) == oe.take(i as int).filter(
                    pred,
                ),
                segs_unique(kept@.map_values(|e: (u64, SegmentIndex)| (e.0, e.1@))),
                forall|a: int|
                    0 <= a < kept@.len() ==> exists|j: int|
                        0 <= j < i && oe[j].0 == (#[trigger] kept@[a]).0,
            decreases self.order@.len() - i,
        {
            let e = &self.order[i];
            let ghost kv = kept@.map_values(|e: (u64, SegmentIndex)| (e.0, e.1@));
            proof {
                assert(oe.take(i + 1) =~= oe.take(i as int).push(oe[i as int]));
                reveal(Seq::filter);
                assert(oe.take(i + 1).drop_last() =~= oe.take(i as int));
                assert(oe[i as int] == (e.0, e.1@));
            }
            if e.0 != seg {
                let c = (e.0, e.1.clone_index());
                proof {
                    assert(kept@.push(c).map_values(|e: (u64, SegmentIndex)| (e.0, e.1@)) =~= kv.push(
                        (e.0, e.1@),
                    ));
                    assert forall|a: int, b: int| 0 <= a < b < kv.len() + 1 implies (#[trigger] kv.push(
                        (e.0, e.1@),
                    )[a]).0 != (#[trigger] kv.push((e.0, e.1@))[b]).0 by {
                        if b == kv.len() {
                            assert(kv[a].0 == kept@[a].0);
                            let j = choose|j: int| 0 <= j < i && oe[j].0 == kept@[a].0;
                            assert(oe[j].0 != oe[i as int].0);
                        } else {
                            assert(kv.push((e.0, e.1@))[a] == kv[a]);
                            assert(kv.push((e.0, e.1@))[b] == kv[b]);
                        }
                    }
                }
                kept.push(c);
                proof {
                    assert forall|a: int| 0 <= a < kept@.len() implies exists|j: int|
                        0 <= j < i + 1 && oe[j].0 == (#[trigger] kept@[a]).0 by {
                        if a == kept@.len() - 1 {
                            assert(oe[i as int].0 == kept@[a].0);
                        } else {
                            let j = choose|j: int| 0 <= j < i && oe[j].0 == kept@[a].0;
                        }
                    }
                }
            }
            i = i + 1;
        }
        proof {
            assert(oe.take(i as int) =~= oe);
        }
        self.order = kept;
        proof {
            oe.lemma_filter_len(pred);
            lemma_filter_members(oe, seg, self.entries());
        }
    }
}

/// Removing the entries of one segment keeps exactly the others.
proof fn lemma_filter_members(s: Seq<IndexV>, seg: u64, f: Seq<IndexV>)
    requires
        f == s.filter(|e: IndexV| e.0 != seg),
    ensures
        forall|e: IndexV| #[trigger] f.contains(e) <==> s.contains(e) && e.0 != seg,
{
    let p = |e: IndexV| e.0 != seg;
    assert(f == s.filter(p));
    assert forall|e: IndexV| f.contains(e) <==> s.contains(e) && e.0 != seg by {
        if f.contains(e) {
            s.lemma_filter_contains_rev(p, e);
            let j = choose|j: int| 0 <= j < f.len() && f[j] == e;
            s.lemma_filter_pred(p, j);
        }
        if s.contains(e) && e.0 != seg {
            let i = choose|i: int| 0 <= i < s.len() && s[i] == e;
            s.lemma_filter_contains(p, i);
        }
    }
}

impl Default for IndexCache {
    fn default() -> (c: Self)
        ensures
            c.wf(),
            c.entries().len() == 0,
            c.spec_capacity() == 4096,
    {
        Self::new(4096)
    }
}

} // verus!
