//! Ordered range scans over a partition: per-source cursors that read only
//! the blocks overlapping the range, merged newest-wins.
use vstd::prelude::*;

use crate::error::Error;
use crate::handle::{ObjectLsmEntry, ObjectLsmPartition};
use crate::lsm::ObjectLsm;
use crate::manifest::ManifestCodec;
use crate::lsm::merge_of;
use crate::merge::{first_get, live_map, merge_entries, newest, newest_map, runs_view};
use crate::recovery::mem_of;
use crate::scan::{
    block_max, ge_lower, gt_upper, in_bounds, max_below_lower, seg_overlaps, spec_ge_lower, spec_gt_upper, spec_prefix_successor, Bounds, KeyBound,
};
use crate::segment::{
    copy_segments, segments_view, entries_view, entry_view, strictly_sorted, EntryV, SegmentEntries, SegmentIndex,
    SegmentMeta,
};
use crate::state::{entries_map, mem_view, named_get, seq_get, MemEntry, PartitionState};
use crate::store::Store;
use crate::table::table_find;

verus! {

/// Every entry lies inside the bounds.
pub open spec fn all_in_bounds(es: Seq<EntryV>, b: Bounds) -> bool {
    forall|i: int| 0 <= i < es.len() ==> in_bounds(#[trigger] es[i].0, b)
}

/// A forward cursor over one sorted source: a memtable snapshot (one
/// preloaded run, no blocks) or a segment (blocks loaded one at a time).
pub struct FwdCursor {
    pub seg: SegmentMeta,
    pub index: SegmentIndex,
    /// Next block to open.
    pub block_i: usize,
    /// The block being read, if one is open.
    pub cur: Option<SegmentEntries>,
    /// Next position in the open block.
    pub pos: usize,
}

impl FwdCursor {
    pub open spec fn wf(&self) -> bool {
        &&& self.block_i <= self.index.blocks@.len()
        &&& (self.cur matches Some(c) ==> self.pos <= c@.len())
    }

    /// A cursor over a segment, with its block index.
    pub fn over_segment(seg: SegmentMeta, index: SegmentIndex) -> (c: Self)
        ensures
            c.wf(),
            c.seg == seg,
            c.index == index,
            c.cur is None,
            c.block_i == 0,
            c.pos == 0,
    {
        FwdCursor { seg, index, block_i: 0, cur: None, pos: 0 }
    }

    /// The next entry inside the bounds, in source order; `None` once the
    /// source is exhausted or an entry lies beyond the upper bound. Blocks
    /// that end below the lower bound are never read; reading stops at the
    /// first block that starts beyond the upper bound.
    pub fn next_entry<S: Store, C: ManifestCodec>(
        &mut self,
        eng: &mut ObjectLsm<S, C>,
        part: &str,
        prefix: &str,
        bounds: &Bounds,
    ) -> (r: Result<Option<(Vec<u8>, Option<Vec<u8>>)>, Error>)
        requires
            old(self).wf(),
            old(eng).wf(),
        ensures
            final(self).wf(),
            final(eng).wf(),
            final(eng).st == old(eng).st,
            final(eng).parts == old(eng).parts,
            final(eng).read_only == old(eng).read_only,
            final(eng).lease_lost == old(eng).lease_lost,
            final(self).index == old(self).index,
            r matches Ok(Some(e)) ==> in_bounds(e.0@, *bounds),
            r matches Ok(Some(_)) ==> rank_lt(*final(self), *old(self)),
            old(self).cur is None && old(self).block_i >= old(self).index.blocks@.len() ==> r
                matches Ok(None),
            old(self).cur is Some && old(self).pos < old(self).cur.unwrap()@.len() ==> {
                let x = entry_view(old(self).cur.unwrap()@[old(self).pos as int]);
                &&& in_bounds(x.0, *bounds) ==> (r matches Ok(Some(e)) && entry_view(e) == x)
                &&& spec_ge_lower(x.0, bounds.lower) && spec_gt_upper(x.0, bounds.upper) ==> r
                    matches Ok(None)
            },
    {
        let n = self.index.blocks.len();
        let ghost mut first = true;
        loop
            invariant
                first ==> self.cur == old(self).cur && self.block_i == old(self).block_i && self.pos
                    == old(self).pos,
                !first ==> !next_in_open_block(*old(self), *bounds),
                !first ==> !(old(self).cur is None && old(self).block_i >= n),
                self.wf(),
                eng.wf(),
                eng.st == old(eng).st,
                eng.parts == old(eng).parts,
                eng.read_only == old(eng).read_only,
                eng.lease_lost == old(eng).lease_lost,
                self.index == old(self).index,
                n == self.index.blocks@.len(),
                rank_lt(*self, *old(self)) || rank(*self) == rank(*old(self)),
            decreases n - self.block_i, if self.cur is None {
                1int
            } else {
                0int
            }, match self.cur {
                Some(c) => c@.len() - self.pos,
                None => 0,
            },
        {
            if self.cur.is_none() {
                if self.block_i >= n {
                    return Ok(None);
                }
                let i = self.block_i;
                let bm = self.index.blocks[i].copy_meta();
                let max = block_max(&self.index, &self.seg, i);
                if max_below_lower(max.as_slice(), &bounds.lower) {
                    self.block_i = self.block_i + 1;
                    proof {
                        first = false;
                    }
                    continue;
                }
                if gt_upper(bm.first.as_slice(), &bounds.upper) {
                    self.block_i = n;
                    return Ok(None);
                }
                let entries = eng.load_block(prefix, part, &self.seg, &bm)?;
                self.cur = Some(entries);
                self.pos = 0;
                proof {
                    first = false;
                }
            }
            let mut exhausted = false;
            match &self.cur {
                Some(entries) => {
                    if self.pos < entries.len() {
                        let e = (
                            vstd::slice::slice_to_vec(entries[self.pos].0.as_slice()),
                            match &entries[self.pos].1 {
                                Some(v) => Some(vstd::slice::slice_to_vec(v.as_slice())),
                                None => None,
                            },
                        );
                        self.pos = self.pos + 1;
                        if !ge_lower(e.0.as_slice(), &bounds.lower) {
                            proof {
                                first = false;
                            }
                            continue;
                        }
                        if gt_upper(e.0.as_slice(), &bounds.upper) {
                            self.block_i = n;
                            return Ok(None);
                        }
                        return Ok(Some(e));
                    } else {
                        exhausted = true;
                    }
                },
                None => {},
            }
            if exhausted {
                proof {
                    first = false;
                }
                self.cur = None;
                if self.block_i < n {
                    self.block_i = self.block_i + 1;
                } else {
                    return Ok(None);
                }
            }
        }
    }
}

/// The open block of `c` has an entry left, at or above the lower bound:
/// the next call decides on it without reading anything.
pub open spec fn next_in_open_block(c: FwdCursor, b: Bounds) -> bool {
    c.cur is Some && c.pos < c.cur.unwrap()@.len() && spec_ge_lower(
        c.cur.unwrap()@[c.pos as int].0@,
        b.lower,
    )
}

/// A backward cursor over one segment: blocks are loaded one at a time,
/// last block first, and each block is read from its end.
pub struct BackCursor {
    pub seg: SegmentMeta,
    pub index: SegmentIndex,
    /// Blocks not finished: the open block, if any, is block
    /// `remaining - 1`; otherwise that is the next block to open.
    pub remaining: usize,
    /// The block being read, if one is open.
    pub cur: Option<SegmentEntries>,
    /// Entries before `pos` in the open block are still to be read.
    pub pos: usize,
}

impl BackCursor {
    pub open spec fn wf(&self) -> bool {
        &&& self.remaining <= self.index.blocks@.len()
        &&& (self.cur matches Some(c) ==> self.pos <= c@.len())
    }

    /// A backward cursor over a segment, with its block index.
    pub fn over_segment(seg: SegmentMeta, index: SegmentIndex) -> (c: Self)
        ensures
            c.wf(),
            c.seg == seg,
            c.index == index,
            c.cur is None,
            c.remaining == index.blocks@.len(),
            c.pos == 0,
    {
        let n = index.blocks.len();
        BackCursor { seg, index, remaining: n, cur: None, pos: 0 }
    }

    /// The next entry inside the bounds, in descending key order; `None`
    /// once the source is exhausted or an entry lies below the lower bound.
    /// Blocks that start beyond the upper bound are never read; reading
    /// stops at the first block that ends below the lower bound.
    pub fn next_entry<S: Store, C: ManifestCodec>(
        &mut self,
        eng: &mut ObjectLsm<S, C>,
        part: &str,
        prefix: &str,
        bounds: &Bounds,
    ) -> (r: Result<Option<(Vec<u8>, Option<Vec<u8>>)>, Error>)
        requires
            old(self).wf(),
            old(eng).wf(),
        ensures
            final(self).wf(),
            final(eng).wf(),
            final(eng).st == old(eng).st,
            final(eng).parts == old(eng).parts,
            final(eng).read_only == old(eng).read_only,
            final(eng).lease_lost == old(eng).lease_lost,
            final(self).index == old(self).index,
            r matches Ok(Some(e)) ==> in_bounds(e.0@, *bounds),
            r matches Ok(Some(_)) ==> back_rank_lt(*final(self), *old(self)),
            old(self).cur is None && old(self).remaining == 0 ==> r matches Ok(None),
            old(self).cur is Some && old(self).pos > 0 ==> {
                let x = entry_view(old(self).cur.unwrap()@[old(self).pos - 1]);
                &&& in_bounds(x.0, *bounds) ==> (r matches Ok(Some(e)) && entry_view(e) == x)
                &&& !spec_gt_upper(x.0, bounds.upper) && !spec_ge_lower(x.0, bounds.lower) ==> r
                    matches Ok(None)
            },
    {
        let ghost mut first = true;
        loop
            invariant
                first ==> self.cur == old(self).cur && self.remaining == old(self).remaining
                    && self.pos == old(self).pos,
                !first ==> !prev_in_open_block(*old(self), *bounds),
                !first ==> !(old(self).cur is None && old(self).remaining == 0),
                self.wf(),
                eng.wf(),
                eng.st == old(eng).st,
                eng.parts == old(eng).parts,
                eng.read_only == old(eng).read_only,
                eng.lease_lost == old(eng).lease_lost,
                self.index == old(self).index,
                back_rank_lt(*self, *old(self)) || back_rank(*self) == back_rank(*old(self)),
            decreases self.remaining, if self.cur is None {
                1int
            } else {
                0int
            }, match self.cur {
                Some(c) => self.pos as int,
                None => 0,
            },
        {
            if self.cur.is_none() {
                if self.remaining == 0 {
                    return Ok(None);
                }
                let i = self.remaining - 1;
                let bm = self.index.blocks[i].copy_meta();
                let max = block_max(&self.index, &self.seg, i);
                if gt_upper(bm.first.as_slice(), &bounds.upper) {
                    self.remaining = i;
                    proof {
                        first = false;
                    }
                    continue;
                }
                if max_below_lower(max.as_slice(), &bounds.lower) {
                    self.remaining = 0;
                    return Ok(None);
                }
                let entries = eng.load_block(prefix, part, &self.seg, &bm)?;
                let n = entries.len();
                self.cur = Some(entries);
                self.pos = n;
                proof {
                    first = false;
                }
            }
            let mut exhausted = false;
            match &self.cur {
                Some(entries) => {
                    if self.pos > 0 {
                        let k = self.pos - 1;
                        let e = (
                            vstd::slice::slice_to_vec(entries[k].0.as_slice()),
                            match &entries[k].1 {
                                Some(v) => Some(vstd::slice::slice_to_vec(v.as_slice())),
                                None => None,
                            },
                        );
                        self.pos = k;
                        if gt_upper(e.0.as_slice(), &bounds.upper) {
                            proof {
                                first = false;
                            }
                            continue;
                        }
                        if !ge_lower(e.0.as_slice(), &bounds.lower) {
                            self.remaining = 0;
                            return Ok(None);
                        }
                        return Ok(Some(e));
                    } else {
                        exhausted = true;
                    }
                },
                None => {},
            }
            if exhausted {
                proof {
                    first = false;
                }
                self.cur = None;
                if self.remaining > 0 {
                    self.remaining = self.remaining - 1;
                } else {
                    return Ok(None);
                }
            }
        }
    }
}

/// The open block of `c` has an entry left before `pos`, at or below the
/// upper bound: the next backward call decides on it without reading.
pub open spec fn prev_in_open_block(c: BackCursor, b: Bounds) -> bool {
    c.cur is Some && c.pos > 0 && !spec_gt_upper(c.cur.unwrap()@[c.pos - 1].0@, b.upper)
}

/// How much a backward cursor has left: blocks still to open, whether a
/// block is open, and entries left before `pos` in the open block.
pub open spec fn back_rank(c: BackCursor) -> (int, int, int) {
    (
        c.remaining as int,
        if c.cur is None {
            1int
        } else {
            0int
        },
        match c.cur {
            Some(_) => c.pos as int,
            None => 0,
        },
    )
}

/// `a` has strictly less left than `b` (lexicographically).
pub open spec fn back_rank_lt(a: BackCursor, b: BackCursor) -> bool {
    let (a0, a1, a2) = back_rank(a);
    let (b0, b1, b2) = back_rank(b);
    a0 < b0 || (a0 == b0 && (a1 < b1 || (a1 == b1 && a2 < b2)))
}

/// How much of the source a cursor has left: blocks still to open, whether
/// a block is open, and entries left in the open block.
pub open spec fn rank(c: FwdCursor) -> (int, int, int) {
    (
        c.index.blocks@.len() - c.block_i,
        if c.cur is None {
            1int
        } else {
            0int
        },
        match c.cur {
            Some(b) => b@.len() - c.pos,
            None => 0,
        },
    )
}

/// `a` has strictly less left than `b` (lexicographically).
pub open spec fn rank_lt(a: FwdCursor, b: FwdCursor) -> bool {
    let (a0, a1, a2) = rank(a);
    let (b0, b1, b2) = rank(b);
    a0 < b0 || (a0 == b0 && (a1 < b1 || (a1 == b1 && a2 < b2)))
}

/// The entries of a sorted memtable inside the bounds, in key order: for a
/// key inside the bounds the memtable's entry, for any other key nothing.
pub fn snap_mem(mem: &Vec<(Vec<u8>, MemEntry)>, b: &Bounds) -> (r: SegmentEntries)
    requires
        strictly_sorted(mem_view(mem@)),
    ensures
        strictly_sorted(entries_view(r@)),
        all_in_bounds(entries_view(r@), *b),
        forall|k: Seq<u8>|
            #[trigger] seq_get(entries_view(r@), k) == (if in_bounds(k, *b) {
                seq_get(mem_view(mem@), k)
            } else {
                None
            }),
{
    let ghost mv = mem_view(mem@);
    let mut out: SegmentEntries = Vec::new();
    let mut i: usize = 0;
    while i < mem.len()
        invariant
            0 <= i <= mem@.len(),
            mv == mem_view(mem@),
            strictly_sorted(mv),
            strictly_sorted(entries_view(out@)),
            all_in_bounds(entries_view(out@), *b),
            forall|x: int|
                0 <= x < out@.len() ==> exists|y: int|
                    0 <= y < i && mv[y] == #[trigger] entries_view(out@)[x],
            forall|k: Seq<u8>|
                #[trigger] seq_get(entries_view(out@), k) == (if in_bounds(k, *b) {
                    seq_get(mv.take(i as int), k)
                } else {
                    None
                }),
        decreases mem@.len() - i,
    {
        let ghost ov = entries_view(out@);
        let ghost e = mv[i as int];
        proof {
            assert(mv.take(i + 1).drop_last() =~= mv.take(i as int));
            assert(mv.take(i + 1).last() == e);
            assert(e.0 == mem@[i as int].0@);
        }
        if ge_lower(mem[i].0.as_slice(), &b.lower) && !gt_upper(mem[i].0.as_slice(), &b.upper) {
            let x = (
                vstd::slice::slice_to_vec(mem[i].0.as_slice()),
                match &mem[i].1 {
                    MemEntry::Value(v) => Some(vstd::slice::slice_to_vec(v.as_slice())),
                    MemEntry::Tombstone => None,
                },
            );
            out.push(x);
            proof {
                let nv = entries_view(out@);
                assert(entry_view(x) == e);
                assert(nv =~= ov.push(e));
                assert forall|a: int, c: int| 0 <= a < c < nv.len() implies crate::order::lex_lt(
                    #[trigger] nv[a].0,
                    #[trigger] nv[c].0,
                ) by {
                    if c < ov.len() {
                        assert(nv[a] == ov[a] && nv[c] == ov[c]);
                    } else {
                        assert(nv[a] == ov[a]);
                        let y = choose|y: int| 0 <= y < i && mv[y] == ov[a];
                        assert(crate::order::lex_lt(mv[y].0, mv[i as int].0));
                    }
                }
                assert forall|xx: int| 0 <= xx < out@.len() implies exists|y: int|
                    0 <= y < i + 1 && mv[y] == #[trigger] entries_view(out@)[xx] by {
                    if xx < ov.len() {
                        assert(nv[xx] == ov[xx]);
                        let y = choose|y: int| 0 <= y < i && mv[y] == ov[xx];
                        assert(mv[y] == nv[xx]);
                    } else {
                        assert(mv[i as int] == nv[xx]);
                    }
                }
                assert forall|k: Seq<u8>| #[trigger] seq_get(entries_view(out@), k) == (if in_bounds(
                    k,
                    *b,
                ) {
                    seq_get(mv.take(i + 1), k)
                } else {
                    None
                }) by {
                    assert(nv.drop_last() =~= ov);
                    assert(seq_get(ov, k) == (if in_bounds(k, *b) {
                        seq_get(mv.take(i as int), k)
                    } else {
                        None
                    }));
                }
            }
        } else {
            proof {
                assert forall|k: Seq<u8>| #[trigger] seq_get(entries_view(out@), k) == (if in_bounds(
                    k,
                    *b,
                ) {
                    seq_get(mv.take(i + 1), k)
                } else {
                    None
                }) by {
                    assert(seq_get(ov, k) == (if in_bounds(k, *b) {
                        seq_get(mv.take(i as int), k)
                    } else {
                        None
                    }));
                }
                assert forall|xx: int| 0 <= xx < out@.len() implies exists|y: int|
                    0 <= y < i + 1 && mv[y] == #[trigger] entries_view(out@)[xx] by {
                    let y = choose|y: int| 0 <= y < i && mv[y] == ov[xx];
                    assert(mv[y] == ov[xx]);
                }
            }
        }
        i = i + 1;
    }
    proof {
        assert(mv.take(i as int) =~= mv);
    }
    out
}

/// Drain a cursor: every entry it yields, in order.
pub fn drain<S: Store, C: ManifestCodec>(
    cursor: &mut FwdCursor,
    eng: &mut ObjectLsm<S, C>,
    part: &str,
    prefix: &str,
    bounds: &Bounds,
) -> (r: Result<SegmentEntries, Error>)
    requires
        old(cursor).wf(),
        old(eng).wf(),
    ensures
        final(eng).wf(),
        final(eng).st == old(eng).st,
        final(eng).parts == old(eng).parts,
        final(eng).read_only == old(eng).read_only,
        final(eng).lease_lost == old(eng).lease_lost,
        r matches Ok(es) ==> all_in_bounds(entries_view(es@), *bounds),
        old(cursor).cur is None && old(cursor).block_i >= old(cursor).index.blocks@.len() ==> (r matches Ok(
            es,
        ) && es@.len() == 0),
{
    let mut out: SegmentEntries = Vec::new();
    let ghost mut first = true;
    loop
        invariant
            first ==> *cursor == *old(cursor) && out@.len() == 0,
            !first ==> !(old(cursor).cur is None && old(cursor).block_i >= old(cursor).index.blocks@.len()),
            cursor.wf(),
            eng.wf(),
            eng.st == old(eng).st,
            eng.parts == old(eng).parts,
            eng.read_only == old(eng).read_only,
            eng.lease_lost == old(eng).lease_lost,
            all_in_bounds(entries_view(out@), *bounds),
        decreases cursor.index.blocks@.len() - cursor.block_i, if cursor.cur is None {
            1int
        } else {
            0int
        }, match cursor.cur {
            Some(c) => c@.len() - cursor.pos,
            None => 0,
        },
    {
        match cursor.next_entry(eng, part, prefix, bounds)? {
            None => {
                return Ok(out);
            },
            Some(e) => {
                proof {
                    assert(entries_view(out@.push(e)) =~= entries_view(out@).push(entry_view(e)));
                    first = false;
                }
                out.push(e);
            },
        }
    }
}

/// Views of scan results as entries (each a live value).
pub open spec fn items_view(items: Seq<ObjectLsmEntry>) -> Seq<EntryV> {
    items.map_values(|e: ObjectLsmEntry| (e.key@, Some(e.value@)))
}

/// For every key inside the bounds that the memtable holds, the result
/// agrees with the memtable: a value is returned as is, a tombstone hides
/// the key.
pub open spec fn memtable_agrees(
    items: Seq<EntryV>,
    mem: Map<Seq<u8>, Option<Seq<u8>>>,
    b: Bounds,
) -> bool {
    forall|k: Seq<u8>|
        in_bounds(k, b) && #[trigger] mem.contains_key(k) ==> (entries_map(items).contains_key(k)
            <==> mem[k] is Some) && (entries_map(items).contains_key(k) ==> entries_map(items)[k]
            == mem[k])
}

/// Ordered scan of the live entries of partition `part` inside the bounds:
/// the memtable snapshot and every segment whose key range overlaps the
/// bounds (each read only in its overlapping blocks) are merged newest-wins,
/// tombstones hiding older values. Keys come out strictly ascending; for a
/// key the memtable holds, the memtable's entry decides.
pub fn scan<S: Store, C: ManifestCodec>(eng: &mut ObjectLsm<S, C>, part: &str, bounds: &Bounds) -> (r:
    Result<Vec<ObjectLsmEntry>, Error>)
    requires
        old(eng).wf(),
    ensures
        final(eng).wf(),
        final(eng).st == old(eng).st,
        final(eng).parts == old(eng).parts,
        final(eng).read_only == old(eng).read_only,
        final(eng).lease_lost == old(eng).lease_lost,
        named_get(old(eng).parts@, part@) is None ==> (r matches Ok(v) && v@.len() == 0),
        named_get(old(eng).parts@, part@) matches Some(p) && p.meta.segments@.len() == 0 ==> r is Ok,
        r matches Ok(items) ==> {
            &&& strictly_sorted(items_view(items@))
            &&& all_in_bounds(items_view(items@), *bounds)
            &&& memtable_agrees(items_view(items@), mem_of(old(eng).parts@, part@), *bounds)
        },
        r is Ok && named_get(old(eng).parts@, part@) is Some ==> scanned_from(
            named_get(old(eng).parts@, part@).unwrap(),
            *bounds,
            items_view(r->Ok_0@),
        ),
{
    let idx = match table_find(&eng.parts, part) {
        None => {
            return Ok(Vec::new());
        },
        Some(i) => i,
    };
    let mem_run = snap_mem(&eng.parts[idx].1.mem, bounds);
    let ghost mm = eng.parts@[idx as int].1.mem_map();
    proof {
        assert(mem_of(old(eng).parts@, part@) == mm);
    }
    let segs = copy_segments(&eng.parts[idx].1.meta.segments);
    proof {
        assert(segments_view(segs@).len() == segs@.len());
        assert(segments_view(eng.parts@[idx as int].1.meta.segments@).len()
            == eng.parts@[idx as int].1.meta.segments@.len());
    }
    let ghost no_segs = segs@.len() == 0;
    let prefix = eng.st.cfg.prefix.clone();
    let mut runs: Vec<SegmentEntries> = Vec::new();
    let mut i: usize = 0;
    while i < segs.len()
        invariant
            0 <= i <= segs@.len(),
            no_segs == (segs@.len() == 0),
            no_segs == (named_get(old(eng).parts@, part@).unwrap().meta.segments@.len() == 0),
            named_get(old(eng).parts@, part@) is Some,
            eng.wf(),
            eng.st == old(eng).st,
            eng.parts == old(eng).parts,
            eng.read_only == old(eng).read_only,
            eng.lease_lost == old(eng).lease_lost,
            forall|r: int| 0 <= r < runs@.len() ==> all_in_bounds(entries_view(#[trigger] runs@[r]@), *bounds),
            runs@.len() == count_overlapping(segments_view(segs@).take(i as int), *bounds),
        decreases segs@.len() - i,
    {
        proof {
            assert(segments_view(segs@).take(i + 1).drop_last() =~= segments_view(segs@).take(i as int));
            assert(segments_view(segs@).take(i + 1).last() == segs@[i as int]@);
        }
        if seg_overlaps(&segs[i], bounds) {
            let index = eng.load_index(prefix.as_str(), part, &segs[i])?;
            let mut cursor = FwdCursor::over_segment(segs[i].copy_meta(), index);
            let run = drain(&mut cursor, eng, part, prefix.as_str(), bounds)?;
            runs.push(run);
        }
        i = i + 1;
    }
    proof {
        assert(segments_view(segs@).take(i as int) =~= segments_view(segs@));
    }
    let ghost seg_runs = runs_view(runs@);
    let ghost mrv = entries_view(mem_run@);
    runs.push(mem_run);
    let ghost rv = runs_view(runs@);
    proof {
        assert(rv.last() == mrv);
        assert forall|k: Seq<u8>| in_bounds(k, *bounds) && mm.contains_key(k) implies newest(rv, k)
            == Some(mm[k]) by {
            assert(seq_get(mrv, k) == seq_get(mem_view(eng.parts@[idx as int].1.mem@), k));
            crate::merge::lemma_sorted_first_get(mrv, k);
            crate::merge::lemma_newest_run_wins(rv, k);
        }
    }
    proof {
        assert forall|r: int| 0 <= r < rv.len() implies all_in_bounds(#[trigger] rv[r], *bounds) by {
            assert(rv[r] == entries_view(runs@[r]@));
        }
    }
    let merged = merge_entries(runs);
    proof {
        let mv = entries_view(merged@);
        assert forall|x: int| 0 <= x < mv.len() implies in_bounds(#[trigger] mv[x].0, *bounds) by {
            crate::state::lemma_seq_get_at(mv, x);
            assert(entries_map(mv).contains_key(mv[x].0));
            assert(newest(rv, mv[x].0) is Some);
            crate::merge::lemma_newest_member(rv, mv[x].0);
            let (r, i) = choose|r: int, i: int|
                0 <= r < rv.len() && 0 <= i < rv[r].len() && (#[trigger] rv[r][i]).0 == mv[x].0;
            assert(all_in_bounds(rv[r], *bounds));
            assert(in_bounds(rv[r][i].0, *bounds));
        }
    }
    let mut items: Vec<ObjectLsmEntry> = Vec::new();
    let mut j: usize = 0;
    while j < merged.len()
        invariant
            0 <= j <= merged@.len(),
            forall|x: int| 0 <= x < merged@.len() ==> (#[trigger] merged@[x]).1 is Some,
            items_view(items@) == entries_view(merged@).take(j as int),
        decreases merged@.len() - j,
    {
        let v = match &merged[j].1 {
            Some(v) => vstd::slice::slice_to_vec(v.as_slice()),
            None => Vec::new(),
        };
        let e = ObjectLsmEntry { key: vstd::slice::slice_to_vec(merged[j].0.as_slice()), value: v };
        proof {
            assert(merged@[j as int].1 is Some);
            assert(entries_view(merged@).take(j + 1) =~= entries_view(merged@).take(j as int).push(
                entry_view(merged@[j as int]),
            ));
            assert(items_view(items@.push(e)) =~= items_view(items@).push((e.key@, Some(e.value@))));
        }
        items.push(e);
        j = j + 1;
    }
    proof {
        assert(entries_view(merged@).take(j as int) =~= entries_view(merged@));
        let p = named_get(old(eng).parts@, part@).unwrap();
        assert(rv =~= seg_runs.push(mrv));
        assert(p == eng.parts@[idx as int].1);
        assert(merge_of(seg_runs.push(mrv), items_view(items@)));
        assert(scan_merge(seg_runs, mrv, crate::state::mem_view(p.mem@), *bounds, items_view(items@)));
        assert(segments_view(segs@) == segments_view(p.meta.segments@));
        assert(scanned_from(p, *bounds, items_view(items@)));
        assert forall|x: int| 0 <= x < items_view(items@).len() implies in_bounds(
            #[trigger] items_view(items@)[x].0,
            *bounds,
        ) by {
            assert(items_view(items@)[x] == entries_view(merged@)[x]);
        }
    }
    Ok(items)
}

/// How many of the segments overlap the bounds.
pub open spec fn count_overlapping(sv: Seq<crate::segment::SegmentMetaV>, b: Bounds) -> nat
    decreases sv.len(),
{
    if sv.len() == 0 {
        0
    } else {
        count_overlapping(sv.drop_last(), b) + if crate::scan::spec_seg_overlaps(
            sv.last().first,
            sv.last().last,
            b,
        ) {
            1nat
        } else {
            0nat
        }
    }
}

/// `out` merges the segment runs (oldest first, each inside the bounds)
/// with the memtable's entries inside the bounds, newest wins: the merge
/// of `runs` followed by `memrun`.
pub open spec fn scan_merge(
    runs: Seq<Seq<EntryV>>,
    memrun: Seq<EntryV>,
    mem: Seq<EntryV>,
    b: Bounds,
    out: Seq<EntryV>,
) -> bool {
    &&& forall|r: int| 0 <= r < runs.len() ==> all_in_bounds(#[trigger] runs[r], b)
    &&& strictly_sorted(memrun)
    &&& forall|k: Seq<u8>|
        #[trigger] seq_get(memrun, k) == (if in_bounds(k, b) {
            seq_get(mem, k)
        } else {
            None
        })
    &&& merge_of(runs.push(memrun), out)
}

/// `out` is what a scan of partition `p` inside the bounds yields: one run
/// read from each segment overlapping the bounds, merged with the memtable.
pub open spec fn scanned_from(p: PartitionState, b: Bounds, out: Seq<EntryV>) -> bool {
    exists|runs: Seq<Seq<EntryV>>, memrun: Seq<EntryV>|
        #[trigger] scan_merge(runs, memrun, crate::state::mem_view(p.mem@), b, out) && runs.len()
            == count_overlapping(crate::segment::segments_view(p.meta.segments@), b)
}

/// A scan result walked from both ends: `next` yields ascending keys,
/// `next_back` descending ones, and the two never yield the same entry.
pub struct ObjectLsmIter {
    pub items: Vec<ObjectLsmEntry>,
    pub front: usize,
    pub back: usize,
}

impl ObjectLsmIter {
    pub open spec fn wf(&self) -> bool {
        self.front <= self.back <= self.items@.len()
    }

    pub fn new(items: Vec<ObjectLsmEntry>) -> (it: Self)
        ensures
            it.wf(),
            it.items@ == items@,
            it.front == 0,
            it.back == items@.len(),
    {
        let n = items.len();
        ObjectLsmIter { items, front: 0, back: n }
    }

    /// The next entry from the front.
    pub fn next(&mut self) -> (r: Option<ObjectLsmEntry>)
        requires
            old(self).wf(),
        ensures
            final(self).wf(),
            final(self).items@ == old(self).items@,
            final(self).back == old(self).back,
            old(self).front < old(self).back ==> final(self).front == old(self).front + 1 && (r matches Some(
                e,
            ) && e.key@ == old(self).items@[old(self).front as int].key@ && e.value@ == old(
                self,
            ).items@[old(self).front as int].value@),
            old(self).front == old(self).back ==> r is None && final(self).front == old(self).front,
    {
        if self.front < self.back {
            let e = copy_item(&self.items[self.front]);
            self.front = self.front + 1;
            Some(e)
        } else {
            None
        }
    }

    /// The next entry from the back.
    pub fn next_back(&mut self) -> (r: Option<ObjectLsmEntry>)
        requires
            old(self).wf(),
        ensures
            final(self).wf(),
            final(self).items@ == old(self).items@,
            final(self).front == old(self).front,
            old(self).front < old(self).back ==> final(self).back == old(self).back - 1 && (r matches Some(
                e,
            ) && e.key@ == old(self).items@[old(self).back - 1].key@ && e.value@ == old(
                self,
            ).items@[old(self).back - 1].value@),
            old(self).front == old(self).back ==> r is None && final(self).back == old(self).back,
    {
        if self.front < self.back {
            self.back = self.back - 1;
            let e = copy_item(&self.items[self.back]);
            Some(e)
        } else {
            None
        }
    }
}

/// An equal copy of an entry.
pub fn copy_item(e: &ObjectLsmEntry) -> (r: ObjectLsmEntry)
    ensures
        r.key@ == e.key@,
        r.value@ == e.value@,
{
    ObjectLsmEntry {
        key: vstd::slice::slice_to_vec(e.key.as_slice()),
        value: vstd::slice::slice_to_vec(e.value.as_slice()),
    }
}

impl ObjectLsmPartition {
    /// Every live entry inside the bounds, ascending.
    pub fn range<S: Store, C: ManifestCodec>(&self, eng: &mut ObjectLsm<S, C>, lower: KeyBound, upper: KeyBound) -> (r: Result<
        Vec<ObjectLsmEntry>,
        Error,
    >)
        requires
            old(eng).wf(),
        ensures
            final(eng).wf(),
            final(eng).st == old(eng).st,
            final(eng).parts == old(eng).parts,
            named_get(old(eng).parts@, self.name@) is None ==> (r matches Ok(v) && v@.len() == 0),
            named_get(old(eng).parts@, self.name@) matches Some(p) && p.meta.segments@.len() == 0 ==> r is Ok,
            r is Ok && named_get(old(eng).parts@, self.name@) is Some ==> scanned_from(
                named_get(old(eng).parts@, self.name@).unwrap(),
                Bounds { lower, upper },
                items_view(r->Ok_0@),
            ),
            r matches Ok(items) ==> {
                &&& strictly_sorted(items_view(items@))
                &&& all_in_bounds(items_view(items@), (Bounds { lower, upper }))
                &&& memtable_agrees(
                    items_view(items@),
                    mem_of(old(eng).parts@, self.name@),
                    (Bounds { lower, upper }),
                )
            },
    {
        let b = Bounds { lower, upper };
        scan(eng, self.name.as_str(), &b)
    }

    /// Every live entry, ascending.
    pub fn iter<S: Store, C: ManifestCodec>(&self, eng: &mut ObjectLsm<S, C>) -> (r: Result<
        Vec<ObjectLsmEntry>,
        Error,
    >)
        requires
            old(eng).wf(),
        ensures
            final(eng).wf(),
            final(eng).st == old(eng).st,
            final(eng).parts == old(eng).parts,
            named_get(old(eng).parts@, self.name@) is None ==> (r matches Ok(v) && v@.len() == 0),
            named_get(old(eng).parts@, self.name@) matches Some(p) && p.meta.segments@.len() == 0 ==> r is Ok,
            r is Ok && named_get(old(eng).parts@, self.name@) is Some ==> scanned_from(
                named_get(old(eng).parts@, self.name@).unwrap(),
                Bounds { lower: KeyBound::Unbounded, upper: KeyBound::Unbounded },
                items_view(r->Ok_0@),
            ),
            r matches Ok(items) ==> {
                &&& strictly_sorted(items_view(items@))
                &&& forall|k: Seq<u8>|
                    #[trigger] mem_of(old(eng).parts@, self.name@).contains_key(k) ==> (entries_map(
                        items_view(items@),
                    ).contains_key(k) <==> mem_of(old(eng).parts@, self.name@)[k] is Some)
                        && (entries_map(items_view(items@)).contains_key(k) ==> entries_map(
                        items_view(items@),
                    )[k] == mem_of(old(eng).parts@, self.name@)[k])
            },
    {
        let r = self.range(eng, KeyBound::Unbounded, KeyBound::Unbounded);
        proof {
            let b = Bounds { lower: KeyBound::Unbounded, upper: KeyBound::Unbounded };
            assert forall|k: Seq<u8>| in_bounds(k, b) by {}
        }
        r
    }

    /// Every live entry whose key starts with `prefix`, ascending: the range
    /// from `prefix` (included) to its lexicographic successor (excluded).
    pub fn prefix<S: Store, C: ManifestCodec>(&self, eng: &mut ObjectLsm<S, C>, prefix: &[u8]) -> (r: Result<
        Vec<ObjectLsmEntry>,
        Error,
    >)
        requires
            old(eng).wf(),
        ensures
            final(eng).wf(),
            final(eng).st == old(eng).st,
            final(eng).parts == old(eng).parts,
            named_get(old(eng).parts@, self.name@) is None ==> (r matches Ok(v) && v@.len() == 0),
            named_get(old(eng).parts@, self.name@) matches Some(p) && p.meta.segments@.len() == 0 ==> r is Ok,
            r is Ok && named_get(old(eng).parts@, self.name@) is Some ==> exists|b: Bounds|
                (forall|k: Seq<u8>| #[trigger] in_bounds(k, b) <==> prefix@.is_prefix_of(k))
                    && #[trigger] scanned_from(
                    named_get(old(eng).parts@, self.name@).unwrap(),
                    b,
                    items_view(r->Ok_0@),
                ),
            r matches Ok(items) ==> {
                &&& strictly_sorted(items_view(items@))
                &&& forall|i: int|
                    0 <= i < items@.len() ==> prefix@.is_prefix_of(#[trigger] items_view(items@)[i].0)
                &&& forall|k: Seq<u8>|
                    prefix@.is_prefix_of(k) && #[trigger] mem_of(old(eng).parts@, self.name@).contains_key(
                        k,
                    ) ==> (entries_map(items_view(items@)).contains_key(k) <==> mem_of(
                        old(eng).parts@,
                        self.name@,
                    )[k] is Some) && (entries_map(items_view(items@)).contains_key(k) ==> entries_map(
                        items_view(items@),
                    )[k] == mem_of(old(eng).parts@, self.name@)[k])
            },
    {
        let upper = crate::scan::prefix_successor(prefix);
        let lower = KeyBound::Included(vstd::slice::slice_to_vec(prefix));
        let ghost b = Bounds { lower, upper };
        proof {
            assert forall|k: Seq<u8>| in_bounds(k, b) <==> prefix@.is_prefix_of(k) by {
                crate::scan::lemma_prefix_range(prefix@, k);
                match spec_prefix_successor(prefix@) {
                    Some(e) => {
                        crate::order::lemma_lex_total(e, k);
                        crate::order::lemma_lex_asymmetric(e, k);
                        crate::order::lemma_lex_irreflexive(k);
                    },
                    None => {},
                }
            }
        }
        let r = self.range(eng, lower, upper);
        proof {
            if r is Ok {
                let items = r->Ok_0;
                if named_get(old(eng).parts@, self.name@) is Some {
                    assert(scanned_from(named_get(old(eng).parts@, self.name@).unwrap(), b, items_view(items@)));
                }
                assert forall|i: int| 0 <= i < items@.len() implies prefix@.is_prefix_of(
                    #[trigger] items_view(items@)[i].0,
                ) by {
                    assert(in_bounds(items_view(items@)[i].0, b));
                }
            }
        }
        r
    }
}

} // verus!
