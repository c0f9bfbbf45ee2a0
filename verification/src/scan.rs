//! Scan bounds and the newest-wins merge of sorted runs.
use vstd::prelude::*;

use crate::order::{compare_bytes, lex_le, lex_lt};
use crate::segment::{BlockMetaV, SegmentIndex, SegmentMeta};

verus! {

/// One end of a key range.
#[derive(Debug, Clone, PartialEq, Eq)]
pub enum KeyBound {
    Unbounded,
    Included(Vec<u8>),
    Excluded(Vec<u8>),
}

/// Owned inclusive/exclusive scan bounds.
#[derive(Debug, Clone)]
pub struct Bounds {
    pub lower: KeyBound,
    pub upper: KeyBound,
}

/// Whether `k` is at or above the lower bound.
pub open spec fn spec_ge_lower(k: Seq<u8>, lower: KeyBound) -> bool {
    match lower {
        KeyBound::Unbounded => true,
        KeyBound::Included(x) => lex_le(x@, k),
        KeyBound::Excluded(x) => lex_lt(x@, k),
    }
}

/// Whether `k` is beyond the upper bound.
pub open spec fn spec_gt_upper(k: Seq<u8>, upper: KeyBound) -> bool {
    match upper {
        KeyBound::Unbounded => false,
        KeyBound::Included(x) => lex_lt(x@, k),
        KeyBound::Excluded(x) => lex_le(x@, k),
    }
}

/// Whether `k` lies inside the bounds.
pub open spec fn in_bounds(k: Seq<u8>, b: Bounds) -> bool {
    spec_ge_lower(k, b.lower) && !spec_gt_upper(k, b.upper)
}

pub fn ge_lower(k: &[u8], lower: &KeyBound) -> (r: bool)
    ensures
        r == spec_ge_lower(k@, *lower),
{
    match lower {
        KeyBound::Unbounded => true,
        KeyBound::Included(x) => compare_bytes(k, x.as_slice()) >= 0,
        KeyBound::Excluded(x) => compare_bytes(k, x.as_slice()) > 0,
    }
}

pub fn gt_upper(k: &[u8], upper: &KeyBound) -> (r: bool)
    ensures
        r == spec_gt_upper(k@, *upper),
{
    match upper {
        KeyBound::Unbounded => false,
        KeyBound::Included(x) => compare_bytes(k, x.as_slice()) > 0,
        KeyBound::Excluded(x) => compare_bytes(k, x.as_slice()) >= 0,
    }
}

/// True when a run whose greatest key is `max` lies entirely below `lower`.
pub fn max_below_lower(max: &[u8], lower: &KeyBound) -> (r: bool)
    ensures
        r == match lower {
            KeyBound::Unbounded => false,
            KeyBound::Included(x) => lex_lt(max@, x@),
            KeyBound::Excluded(x) => lex_le(max@, x@),
        },
{
    match lower {
        KeyBound::Unbounded => false,
        KeyBound::Included(x) => compare_bytes(max, x.as_slice()) < 0,
        KeyBound::Excluded(x) => compare_bytes(max, x.as_slice()) <= 0,
    }
}

/// Greatest key a block can contain: the next block's first key (an
/// exclusive bound) or, for the last block, the segment's last key.
pub fn block_max(index: &SegmentIndex, seg: &SegmentMeta, i: usize) -> (r: Vec<u8>)
    ensures
        r@ == if i + 1 < index@.len() {
            index@[i + 1].first
        } else {
            seg.last@
        },
{
    if i < index.blocks.len() && i + 1 < index.blocks.len() {
        proof {
            assert(index@[i + 1] == index.blocks@[i + 1]@);
        }
        vstd::slice::slice_to_vec(index.blocks[i + 1].first.as_slice())
    } else {
        vstd::slice::slice_to_vec(seg.last.as_slice())
    }
}

/// Whether a segment's key range `[first, last]` can intersect the bounds.
pub open spec fn spec_seg_overlaps(first: Seq<u8>, last: Seq<u8>, b: Bounds) -> bool {
    let lo_ok = match b.lower {
        KeyBound::Unbounded => true,
        KeyBound::Included(x) => lex_le(x@, last),
        KeyBound::Excluded(x) => lex_lt(x@, last),
    };
    let hi_ok = match b.upper {
        KeyBound::Unbounded => true,
        KeyBound::Included(x) => lex_le(first, x@),
        KeyBound::Excluded(x) => lex_lt(first, x@),
    };
    lo_ok && hi_ok
}

pub fn seg_overlaps(seg: &SegmentMeta, b: &Bounds) -> (r: bool)
    ensures
        r == spec_seg_overlaps(seg.first@, seg.last@, *b),
{
    let lo_ok = match &b.lower {
        KeyBound::Unbounded => true,
        KeyBound::Included(x) => compare_bytes(seg.last.as_slice(), x.as_slice()) >= 0,
        KeyBound::Excluded(x) => compare_bytes(seg.last.as_slice(), x.as_slice()) > 0,
    };
    let hi_ok = match &b.upper {
        KeyBound::Unbounded => true,
        KeyBound::Included(x) => compare_bytes(seg.first.as_slice(), x.as_slice()) <= 0,
        KeyBound::Excluded(x) => compare_bytes(seg.first.as_slice(), x.as_slice()) < 0,
    };
    proof {
        match &b.lower {
            KeyBound::Included(x) => {
                crate::order::lemma_lex_asymmetric(seg.last@, x@);
                crate::order::lemma_lex_total(seg.last@, x@);
            },
            KeyBound::Excluded(x) => {
                crate::order::lemma_lex_asymmetric(seg.last@, x@);
                crate::order::lemma_lex_total(seg.last@, x@);
            },
            _ => {},
        }
    }
    lo_ok && hi_ok
}

/// Lexicographic successor of `prefix`: the exclusive upper bound of the key
/// range that starts with `prefix`. Trailing `0xFF` bytes carry, and an
/// all-`0xFF` (or empty) prefix has no successor (the upper bound is unbounded).
pub open spec fn spec_prefix_successor(p: Seq<u8>) -> Option<Seq<u8>>
    decreases p.len(),
{
    if p.len() == 0 {
        None
    } else if p.last() == 255u8 {
        spec_prefix_successor(p.drop_last())
    } else {
        Some(p.drop_last().push((p.last() + 1) as u8))
    }
}

/// The successor of a byte followed by more bytes: the tail's successor when
/// it has one, else the byte incremented (none for `0xFF`).
proof fn lemma_successor_cons(a: u8, q: Seq<u8>)
    ensures
        spec_prefix_successor(seq![a] + q) == match spec_prefix_successor(q) {
            Some(t) => Some(seq![a] + t),
            None => if a == 255 {
                None
            } else {
                Some(seq![(a + 1) as u8])
            },
        },
    decreases q.len(),
{
    let p = seq![a] + q;
    assert(p.len() > 0 && p.last() == (if q.len() == 0 { a } else { q.last() }));
    if q.len() == 0 {
        assert(p.drop_last() =~= Seq::<u8>::empty());
        assert(spec_prefix_successor(Seq::<u8>::empty()) is None);
        if a != 255 {
            assert(p.drop_last().push((a + 1) as u8) =~= seq![(a + 1) as u8]);
        }
    } else {
        assert(p.drop_last() =~= seq![a] + q.drop_last());
        assert(p.last() == q.last());
        lemma_successor_cons(a, q.drop_last());
        if q.last() != 255 {
            assert(p.drop_last().push((q.last() + 1) as u8) =~= seq![a] + q.drop_last().push(
                (q.last() + 1) as u8,
            ));
        }
    }
}

/// Whether `k` lies from `p` (included) up to `p`'s successor (excluded).
pub open spec fn in_prefix_range(p: Seq<u8>, k: Seq<u8>) -> bool {
    lex_le(p, k) && match spec_prefix_successor(p) {
        Some(s) => lex_lt(k, s),
        None => true,
    }
}

/// The keys that start with `p` are exactly those from `p` (included) up to
/// its successor (excluded; no upper limit when `p` has none).
pub proof fn lemma_prefix_range(p: Seq<u8>, k: Seq<u8>)
    ensures
        p.is_prefix_of(k) <==> in_prefix_range(p, k),
    decreases p.len(),
{
    if p.len() == 0 {
        assert(k.subrange(0, 0) =~= p);
        assert(p.is_prefix_of(k));
        assert(p == k || lex_lt(p, k));
        assert(in_prefix_range(p, k));
    } else if k.len() == 0 {
        assert(!p.is_prefix_of(k));
        assert(!in_prefix_range(p, k));
    } else {
        let a = p[0];
        let q = p.drop_first();
        let b = k[0];
        let k1 = k.drop_first();
        assert(p =~= seq![a] + q);
        lemma_successor_cons(a, q);
        lemma_prefix_range(q, k1);
        assert(lex_lt(p, k) == (if a != b {
            a < b
        } else {
            lex_lt(q, k1)
        }));
        if a == b {
            assert(p.is_prefix_of(k) <==> q.is_prefix_of(k1)) by {
                if q.is_prefix_of(k1) {
                    assert(k.subrange(0, p.len() as int) =~= seq![b] + k1.subrange(0, q.len() as int));
                }
                if p.is_prefix_of(k) {
                    assert(k1.subrange(0, q.len() as int) =~= k.subrange(0, p.len() as int).drop_first());
                }
            }
            assert((p == k) <==> (q == k1)) by {
                if q == k1 {
                    assert(k =~= seq![b] + k1);
                }
            }
            match spec_prefix_successor(q) {
                Some(t) => {
                    let s1 = seq![a] + t;
                    assert(s1[0] == a);
                    assert(s1.drop_first() =~= t);
                    assert(lex_lt(k, s1) == lex_lt(k1, t));
                },
                None => {
                    if a != 255 {
                        let s1 = seq![(a + 1) as u8];
                        assert(s1[0] == a + 1);
                        assert(lex_lt(k, s1));
                    }
                },
            }
        } else {
            assert(!p.is_prefix_of(k)) by {
                if p.is_prefix_of(k) {
                    assert(k.subrange(0, p.len() as int)[0] == k[0]);
                }
            }
            assert(p != k);
            match spec_prefix_successor(q) {
                Some(t) => {
                    let s1 = seq![a] + t;
                    assert(s1[0] == a);
                    assert(!lex_lt(k, s1) || !lex_lt(p, k));
                },
                None => {
                    if a < b {
                        let s1 = seq![(a + 1) as u8];
                        assert(s1[0] == a + 1);
                        assert(s1.drop_first() =~= Seq::<u8>::empty());
                        assert(!lex_lt(k1, Seq::<u8>::empty()));
                        assert(!lex_lt(k, s1));
                    }
                },
            }
        }
    }
}

pub fn prefix_successor(prefix: &[u8]) -> (r: KeyBound)
    ensures
        match spec_prefix_successor(prefix@) {
            Some(s) => r matches KeyBound::Excluded(e) && e@ == s,
            None => r is Unbounded,
        },
{
    let mut end = vstd::slice::slice_to_vec(prefix);
    while end.len() > 0
        invariant
            spec_prefix_successor(prefix@) == spec_prefix_successor(end@),
        decreases end@.len(),
    {
        let n = end.len();
        let last = end[n - 1];
        let ghost before = end@;
        if last == 255u8 {
            let _ = end.pop();
            proof {
                assert(end@ =~= before.drop_last());
            }
        } else {
            end.set(n - 1, last + 1);
            proof {
                assert(end@ =~= spec_prefix_successor(prefix@).unwrap());
            }
            return KeyBound::Excluded(end);
        }
    }
    KeyBound::Unbounded
}

} // verus!
