//! In-memory engine state: partition memtables and global metadata.
use vstd::prelude::*;

use crate::config::Config;
use crate::manifest::PartitionMeta;
use crate::order::{compare_bytes, lex_lt};
use vstd::utf8::encode_utf8;
use crate::segment::{strictly_sorted, EntryV};

verus! {

/// A value in a partition memtable.
#[derive(Debug, Clone, PartialEq, Eq)]
pub enum MemEntry {
    Value(Vec<u8>),
    Tombstone,
}

/// View of a memtable value: `Some(bytes)` for a value, `None` for a tombstone.
pub open spec fn mem_entry_view(e: MemEntry) -> Option<Seq<u8>> {
    match e {
        MemEntry::Value(v) => Some(v@),
        MemEntry::Tombstone => None,
    }
}

/// `n`, saturated at `u64::MAX`.
pub open spec fn capped(n: nat) -> u64 {
    if n > u64::MAX {
        u64::MAX
    } else {
        n as u64
    }
}

/// Estimated contribution of an entry to the memtable byte budget.
pub open spec fn spec_contribution(key_len: nat, e: Option<Option<Seq<u8>>>) -> nat {
    match e {
        Some(Some(v)) => 48 + key_len + v.len(),
        Some(None) => 48 + key_len + 8,
        None => 0,
    }
}

impl MemEntry {
    /// Estimated contribution of an entry to the memtable byte budget.
    /// The estimate saturates at `u64::MAX`.
    pub fn contribution(key_len: usize, e: Option<&MemEntry>) -> (r: u64)
        ensures
            r == capped(
                spec_contribution(
                    key_len as nat,
                    match e {
                        Some(x) => Some(mem_entry_view(*x)),
                        None => None,
                    },
                ),
            ),
    {
        let overhead = 48u64;
        match e {
            Some(MemEntry::Value(v)) => overhead.saturating_add(key_len as u64).saturating_add(
                v.len() as u64,
            ),
            Some(MemEntry::Tombstone) => overhead.saturating_add(key_len as u64).saturating_add(8),
            None => 0,
        }
    }
}

/// View of a memtable as an entry list (keys with values or tombstones).
pub open spec fn mem_view(mem: Seq<(Vec<u8>, MemEntry)>) -> Seq<EntryV> {
    mem.map_values(|e: (Vec<u8>, MemEntry)| (e.0@, mem_entry_view(e.1)))
}

/// The entry stored for `k` in an entry list (the last one, should it repeat).
pub open spec fn seq_get(s: Seq<EntryV>, k: Seq<u8>) -> Option<Option<Seq<u8>>>
    decreases s.len(),
{
    if s.len() == 0 {
        None
    } else if s.last().0 == k {
        Some(s.last().1)
    } else {
        seq_get(s.drop_last(), k)
    }
}

/// In a sorted entry list, the entry at `i` is what `seq_get` finds for its key.
pub proof fn lemma_seq_get_at(s: Seq<EntryV>, i: int)
    requires
        strictly_sorted(s),
        0 <= i < s.len(),
    ensures
        seq_get(s, s[i].0) == Some(s[i].1),
    decreases s.len(),
{
    if i < s.len() - 1 {
        assert(lex_lt(s[i].0, s[s.len() - 1].0));
        crate::order::lemma_lex_irreflexive(s[i].0);
        assert(s.drop_last()[i] == s[i]);
        assert(strictly_sorted(s.drop_last()));
        lemma_seq_get_at(s.drop_last(), i);
    }
}

/// A key that no entry carries is absent.
pub proof fn lemma_seq_get_absent(s: Seq<EntryV>, k: Seq<u8>)
    requires
        forall|i: int| 0 <= i < s.len() ==> (#[trigger] s[i]).0 != k,
    ensures
        seq_get(s, k) is None,
    decreases s.len(),
{
    if s.len() > 0 {
        assert(s[s.len() - 1].0 != k);
        assert forall|i: int| 0 <= i < s.drop_last().len() implies (#[trigger] s.drop_last()[i]).0
            != k by {
            assert(s.drop_last()[i] == s[i]);
        }
        lemma_seq_get_absent(s.drop_last(), k);
    }
}

/// Whatever `seq_get` finds comes from some entry.
pub proof fn lemma_seq_get_some(s: Seq<EntryV>, k: Seq<u8>)
    ensures
        seq_get(s, k) matches Some(v) ==> exists|i: int|
            0 <= i < s.len() && (#[trigger] s[i]).0 == k && s[i].1 == v,
    decreases s.len(),
{
    if s.len() > 0 && s.last().0 != k {
        lemma_seq_get_some(s.drop_last(), k);
        if let Some(v) = seq_get(s, k) {
            let i = choose|i: int| 0 <= i < s.drop_last().len() && (#[trigger] s.drop_last()[i]).0 == k
                && s.drop_last()[i].1 == v;
            assert(s[i] == s.drop_last()[i]);
        }
    } else if s.len() > 0 {
        assert(s[s.len() - 1].0 == k);
    }
}

/// The map a sorted entry list denotes.
pub open spec fn entries_map(s: Seq<EntryV>) -> Map<Seq<u8>, Option<Seq<u8>>> {
    Map::new(|k: Seq<u8>| seq_get(s, k) is Some, |k: Seq<u8>| seq_get(s, k).unwrap())
}

/// Binary search of a sorted memtable: the position of `key`, or where it
/// would be inserted.
fn search(mem: &Vec<(Vec<u8>, MemEntry)>, key: &[u8]) -> (r: (bool, usize))
    requires
        strictly_sorted(mem_view(mem@)),
    ensures
        r.1 <= mem@.len(),
        forall|i: int| 0 <= i < r.1 ==> lex_lt(#[trigger] mem_view(mem@)[i].0, key@),
        r.0 ==> r.1 < mem@.len() && mem_view(mem@)[r.1 as int].0 == key@,
        !r.0 ==> forall|i: int|
            r.1 <= i < mem@.len() ==> lex_lt(key@, #[trigger] mem_view(mem@)[i].0),
{
    let ghost mv = mem_view(mem@);
    let mut lo: usize = 0;
    let mut hi: usize = mem.len();
    while lo < hi
        invariant
            0 <= lo <= hi <= mem@.len(),
            mv == mem_view(mem@),
            strictly_sorted(mv),
            forall|i: int| 0 <= i < lo ==> lex_lt(#[trigger] mv[i].0, key@),
            forall|i: int| hi <= i < mem@.len() ==> lex_lt(key@, #[trigger] mv[i].0),
        decreases hi - lo,
    {
        let mid = lo + (hi - lo) / 2;
        let c = compare_bytes(mem[mid].0.as_slice(), key);
        proof {
            assert(mv[mid as int].0 == mem@[mid as int].0@);
        }
        if c == 0 {
            proof {
                assert forall|i: int| 0 <= i < mid implies lex_lt(#[trigger] mv[i].0, key@) by {
                    assert(lex_lt(mv[i].0, mv[mid as int].0));
                }
            }
            return (true, mid);
        } else if c < 0 {
            proof {
                assert forall|i: int| 0 <= i < mid + 1 implies lex_lt(#[trigger] mv[i].0, key@) by {
                    if i < mid {
                        assert(lex_lt(mv[i].0, mv[mid as int].0));
                        crate::order::lemma_lex_transitive(mv[i].0, mv[mid as int].0, key@);
                    }
                }
            }
            lo = mid + 1;
        } else {
            proof {
                assert forall|i: int| mid <= i < mem@.len() implies lex_lt(
                    key@,
                    #[trigger] mv[i].0,
                ) by {
                    if i > mid {
                        assert(lex_lt(mv[mid as int].0, mv[i].0));
                        crate::order::lemma_lex_transitive(key@, mv[mid as int].0, mv[i].0);
                    }
                }
            }
            hi = mid;
        }
    }
    (false, lo)
}

/// Runtime state of a single partition.
#[derive(Debug)]
pub struct PartitionState {
    pub name: String,
    /// Newest layer: unflushed entries (values and tombstones), sorted by key.
    pub mem: Vec<(Vec<u8>, MemEntry)>,
    pub mem_bytes: u64,
    /// Flushed immutable segments and durable metadata.
    pub meta: PartitionMeta,
    /// A detached compaction is in flight for this partition.
    pub compacting: bool,
}

/// Saturating addition on `u64`.
pub open spec fn sat_add(a: u64, b: u64) -> u64 {
    if a + b > u64::MAX {
        u64::MAX
    } else {
        (a + b) as u64
    }
}

/// Saturating subtraction on `u64`.
pub open spec fn sat_sub(a: u64, b: u64) -> u64 {
    if a < b {
        0
    } else {
        (a - b) as u64
    }
}

impl PartitionState {
    /// The memtable keys are strictly increasing.
    pub open spec fn wf(&self) -> bool {
        strictly_sorted(mem_view(self.mem@))
    }

    /// The memtable as a map from key to value-or-tombstone.
    pub open spec fn mem_map(&self) -> Map<Seq<u8>, Option<Seq<u8>>> {
        entries_map(mem_view(self.mem@))
    }

    pub fn new(name: String) -> (p: Self)
        ensures
            p.wf(),
            p.name@ == name@,
            p.mem@.len() == 0,
            p.mem_bytes == 0,
            p.meta.segments@.len() == 0,
            p.meta.watermark == 0,
            !p.meta.dropped,
            !p.compacting,
    {
        PartitionState {
            name,
            mem: Vec::new(),
            mem_bytes: 0,
            meta: PartitionMeta::new(),
            compacting: false,
        }
    }

    /// The memtable entry for `key`, if any.
    pub fn get(&self, key: &[u8]) -> (r: Option<&MemEntry>)
        requires
            self.wf(),
        ensures
            match r {
                Some(e) => self.mem_map().contains_key(key@) && self.mem_map()[key@]
                    == mem_entry_view(*e),
                None => !self.mem_map().contains_key(key@),
            },
    {
        let (found, pos) = search(&self.mem, key);
        if found {
            proof {
                lemma_seq_get_at(mem_view(self.mem@), pos as int);
            }
            Some(&self.mem[pos].1)
        } else {
            proof {
                assert forall|i: int| 0 <= i < mem_view(self.mem@).len() implies (#[trigger] mem_view(
                    self.mem@,
                )[i]).0 != key@ by {
                    let mv = mem_view(self.mem@);
                    if i < pos {
                        crate::order::lemma_lex_irreflexive(key@);
                    } else {
                        crate::order::lemma_lex_irreflexive(key@);
                    }
                }
                lemma_seq_get_absent(mem_view(self.mem@), key@);
            }
            None
        }
    }

    /// Apply one mutation to the memtable, maintaining the byte budget.
    pub fn apply(&mut self, key: &[u8], value: Option<&[u8]>)
        requires
            old(self).wf(),
        ensures
            final(self).wf(),
            final(self).mem_map() == old(self).mem_map().insert(
                key@,
                match value {
                    Some(v) => Some(v@),
                    None => None,
                },
            ),
            final(self).mem_bytes == sat_sub(
                sat_add(
                    old(self).mem_bytes,
                    capped(
                        spec_contribution(
                            key@.len(),
                            Some(
                                match value {
                                    Some(v) => Some(v@),
                                    None => None,
                                },
                            ),
                        ),
                    ),
                ),
                capped(
                    spec_contribution(
                        key@.len(),
                        if old(self).mem_map().contains_key(key@) {
                            Some(old(self).mem_map()[key@])
                        } else {
                            None
                        },
                    ),
                ),
            ),
            final(self).name == old(self).name,
            final(self).meta == old(self).meta,
            final(self).compacting == old(self).compacting,
    {
        let ghost vv = match value {
            Some(v) => Some(v@),
            None => None,
        };
        let prev_size = MemEntry::contribution(key.len(), self.get(key));
        let new = match value {
            Some(v) => MemEntry::Value(vstd::slice::slice_to_vec(v)),
            None => MemEntry::Tombstone,
        };
        let ghost old_mv = mem_view(self.mem@);
        let (found, pos) = search(&self.mem, key);
        let k = vstd::slice::slice_to_vec(key);
        if found {
            let _ = self.mem.remove(pos);
        }
        self.mem.insert(pos, (k, new));
        let ghost new_mv = mem_view(self.mem@);
        proof {
            let e = (key@, vv);
            let tail_start = if found { pos + 1 } else { pos as int };
            assert(new_mv =~= old_mv.take(pos as int).push(e) + old_mv.skip(tail_start));
            assert(strictly_sorted(new_mv)) by {
                assert forall|i: int, j: int| 0 <= i < j < new_mv.len() implies lex_lt(
                    #[trigger] new_mv[i].0,
                    #[trigger] new_mv[j].0,
                ) by {
                    if j < pos {
                        assert(new_mv[i] == old_mv[i] && new_mv[j] == old_mv[j]);
                    } else if j == pos {
                        assert(new_mv[i] == old_mv[i]);
                    } else if i < pos {
                        assert(new_mv[i] == old_mv[i]);
                        assert(new_mv[j] == old_mv[j - pos - 1 + tail_start]);
                        if found {
                            assert(lex_lt(old_mv[pos as int].0, old_mv[j - pos - 1 + tail_start].0));
                            crate::order::lemma_lex_transitive(
                                old_mv[i].0,
                                key@,
                                old_mv[j - pos - 1 + tail_start].0,
                            );
                        } else {
                            crate::order::lemma_lex_transitive(
                                old_mv[i].0,
                                key@,
                                old_mv[j - pos - 1 + tail_start].0,
                            );
                        }
                    } else if i == pos {
                        assert(new_mv[j] == old_mv[j - pos - 1 + tail_start]);
                        if found {
                            assert(lex_lt(old_mv[pos as int].0, old_mv[j - pos - 1 + tail_start].0));
                        }
                    } else {
                        assert(new_mv[i] == old_mv[i - pos - 1 + tail_start]);
                        assert(new_mv[j] == old_mv[j - pos - 1 + tail_start]);
                    }
                }
            }
            assert(entries_map(new_mv) =~= entries_map(old_mv).insert(key@, vv)) by {
                assert forall|k2: Seq<u8>| #[trigger] seq_get(new_mv, k2) == (if k2 == key@ {
                    Some(vv)
                } else {
                    seq_get(old_mv, k2)
                }) by {
                    lemma_seq_get_some(new_mv, k2);
                    lemma_seq_get_some(old_mv, k2);
                    if k2 == key@ {
                        assert(new_mv[pos as int] == e);
                        lemma_seq_get_at(new_mv, pos as int);
                    } else {
                        if let Some(w) = seq_get(old_mv, k2) {
                            let i = choose|i: int| 0 <= i < old_mv.len() && (#[trigger] old_mv[i]).0 == k2
                                && old_mv[i].1 == w;
                            lemma_seq_get_at(old_mv, i);
                            if i < pos {
                                assert(new_mv[i] == old_mv[i]);
                                lemma_seq_get_at(new_mv, i);
                            } else {
                                if found && i == pos {
                                    assert(false);
                                }
                                let ni = i - tail_start + pos + 1;
                                assert(new_mv[ni] == old_mv[i]);
                                lemma_seq_get_at(new_mv, ni);
                            }
                        } else {
                            if let Some(w) = seq_get(new_mv, k2) {
                                let i = choose|i: int| 0 <= i < new_mv.len() && (#[trigger] new_mv[i]).0
                                    == k2 && new_mv[i].1 == w;
                                if i < pos {
                                    assert(new_mv[i] == old_mv[i]);
                                    lemma_seq_get_at(old_mv, i);
                                } else if i > pos {
                                    let oi = i - pos - 1 + tail_start;
                                    assert(new_mv[i] == old_mv[oi]);
                                    lemma_seq_get_at(old_mv, oi);
                                }
                            }
                        }
                    }
                }
            }
        }
        let new_size = MemEntry::contribution(key.len(), Some(&self.mem[pos].1));
        proof {
            assert(mem_entry_view(self.mem@[pos as int].1) == vv);
        }
        self.mem_bytes = self.mem_bytes.saturating_add(new_size).saturating_sub(prev_size);
    }
}

/// Partition names are kept sorted by their UTF-8 bytes, the order of `str`.
pub open spec fn name_lt(a: Seq<char>, b: Seq<char>) -> bool {
    lex_lt(encode_utf8(a), encode_utf8(b))
}

/// Names of a name-keyed list.
pub open spec fn names_of<V>(s: Seq<(String, V)>) -> Seq<Seq<char>> {
    s.map_values(|e: (String, V)| e.0@)
}

/// Strictly increasing names.
pub open spec fn names_sorted(n: Seq<Seq<char>>) -> bool {
    forall|i: int, j: int| 0 <= i < j < n.len() ==> name_lt(#[trigger] n[i], #[trigger] n[j])
}

/// The value stored under `name` in a name-keyed list.
pub open spec fn named_get<V>(s: Seq<(String, V)>, name: Seq<char>) -> Option<V>
    decreases s.len(),
{
    if s.len() == 0 {
        None
    } else if s.last().0@ == name {
        Some(s.last().1)
    } else {
        named_get(s.drop_last(), name)
    }
}

/// UTF-8 encoding is injective.
pub proof fn lemma_encode_injective(a: Seq<char>, b: Seq<char>)
    ensures
        encode_utf8(a) == encode_utf8(b) ==> a == b,
{
    vstd::utf8::encode_utf8_decode_utf8(a);
    vstd::utf8::encode_utf8_decode_utf8(b);
}

/// Whether two strings are equal, compared by their bytes.
pub fn str_eq(a: &str, b: &str) -> (r: bool)
    ensures
        r == (a@ == b@),
{
    let c = compare_bytes(a.as_bytes(), b.as_bytes());
    proof {
        lemma_encode_injective(a@, b@);
    }
    c == 0
}

/// Binary search of a name-keyed sorted list.
pub fn search_name<V>(v: &Vec<(String, V)>, name: &str) -> (r: (bool, usize))
    requires
        names_sorted(names_of(v@)),
    ensures
        r.1 <= v@.len(),
        forall|i: int| 0 <= i < r.1 ==> name_lt(#[trigger] names_of(v@)[i], name@),
        r.0 ==> r.1 < v@.len() && names_of(v@)[r.1 as int] == name@,
        !r.0 ==> forall|i: int|
            r.1 <= i < v@.len() ==> name_lt(name@, #[trigger] names_of(v@)[i]),
{
    let ghost nv = names_of(v@);
    let mut lo: usize = 0;
    let mut hi: usize = v.len();
    while lo < hi
        invariant
            0 <= lo <= hi <= v@.len(),
            nv == names_of(v@),
            names_sorted(nv),
            forall|i: int| 0 <= i < lo ==> name_lt(#[trigger] nv[i], name@),
            forall|i: int| hi <= i < v@.len() ==> name_lt(name@, #[trigger] nv[i]),
        decreases hi - lo,
    {
        let mid = lo + (hi - lo) / 2;
        let c = compare_bytes(v[mid].0.as_str().as_bytes(), name.as_bytes());
        proof {
            assert(nv[mid as int] == v@[mid as int].0@);
            lemma_encode_injective(nv[mid as int], name@);
        }
        if c == 0 {
            proof {
                assert forall|i: int| 0 <= i < mid implies name_lt(#[trigger] nv[i], name@) by {
                    assert(name_lt(nv[i], nv[mid as int]));
                }
            }
            return (true, mid);
        } else if c < 0 {
            proof {
                assert forall|i: int| 0 <= i < mid + 1 implies name_lt(#[trigger] nv[i], name@) by {
                    if i < mid {
                        assert(name_lt(nv[i], nv[mid as int]));
                        crate::order::lemma_lex_transitive(
                            encode_utf8(nv[i]),
                            encode_utf8(nv[mid as int]),
                            encode_utf8(name@),
                        );
                    }
                }
            }
            lo = mid + 1;
        } else {
            proof {
                assert forall|i: int| mid <= i < v@.len() implies name_lt(
                    name@,
                    #[trigger] nv[i],
                ) by {
                    if i > mid {
                        assert(name_lt(nv[mid as int], nv[i]));
                        crate::order::lemma_lex_transitive(
                            encode_utf8(name@),
                            encode_utf8(nv[mid as int]),
                            encode_utf8(nv[i]),
                        );
                    }
                }
            }
            hi = mid;
        }
    }
    (false, lo)
}

/// In a sorted name-keyed list, the entry at `i` is what `named_get` finds.
pub proof fn lemma_named_get_at<V>(s: Seq<(String, V)>, i: int)
    requires
        names_sorted(names_of(s)),
        0 <= i < s.len(),
    ensures
        named_get(s, s[i].0@) == Some(s[i].1),
    decreases s.len(),
{
    if i < s.len() - 1 {
        let n = names_of(s);
        assert(name_lt(n[i], n[s.len() - 1]));
        crate::order::lemma_lex_irreflexive(encode_utf8(s[i].0@));
        assert(s.drop_last()[i] == s[i]);
        assert(names_of(s.drop_last()) =~= n.drop_last());
        lemma_named_get_at(s.drop_last(), i);
    }
}

/// A name no entry carries is absent.
pub proof fn lemma_named_get_absent<V>(s: Seq<(String, V)>, name: Seq<char>)
    requires
        forall|i: int| 0 <= i < s.len() ==> (#[trigger] s[i]).0@ != name,
    ensures
        named_get(s, name) is None,
    decreases s.len(),
{
    if s.len() > 0 {
        assert(s[s.len() - 1].0@ != name);
        assert forall|i: int| 0 <= i < s.drop_last().len() implies (#[trigger] s.drop_last()[i]).0@
            != name by {
            assert(s.drop_last()[i] == s[i]);
        }
        lemma_named_get_absent(s.drop_last(), name);
    }
}

/// A detached memtable snapshot being uploaded by a background flush.
#[derive(Debug, Clone)]
pub struct PendingFlush {
    pub partition: String,
    pub watermark: u64,
    pub segment_id: u64,
    pub encoded: Vec<u8>,
    pub entries: Vec<(Vec<u8>, Option<Vec<u8>>)>,
}

/// Whole-engine global metadata.
#[derive(Debug)]
pub struct EngineState {
    pub cfg: Config,
    /// Durable per-partition metadata used by manifest publishing and GC,
    /// sorted by partition name.
    pub partitions: Vec<(String, PartitionMeta)>,
    /// Last assigned journal group seq (0 = none).
    pub journal_seq: u64,
    /// Last manifest seq written (0 = none).
    pub manifest_seq: u64,
    pub next_segment_id: u64,
    /// Journal object end-seqs whose objects still exist, increasing.
    pub journal_seqs: Vec<u64>,
    /// Byte size of each live journal object `(end seq, bytes)`, by increasing seq.
    pub journal_sizes: Vec<(u64, u64)>,
    /// Byte size of the latest manifest snapshot.
    pub manifest_bytes: u64,
    /// Encoded groups waiting for group-commit flush (windowed mode).
    pub pending: Vec<u8>,
    /// First seq present in `pending` (0 when empty).
    pub pending_lo: u64,
    /// A flusher is currently uploading the detached pending buffer.
    pub journal_flushing: bool,
    /// Detached memtable snapshots awaiting upload, at most one per partition.
    pub pending_flushes: Vec<PendingFlush>,
    /// Completed merge compactions.
    pub compactions_completed: u64,
    /// Fencing epoch for leased engines (0 = unfenced).
    pub fence_epoch: u128,
    /// Raw bytes of the current manifest pointer as last seen or published.
    pub current_bytes: Option<Vec<u8>>,
    /// Minimum live partition watermark at the last successful manifest publish;
    /// journal GC only deletes objects at or below it.
    pub published_min_wm: u64,
}

/// Strictly increasing `u64` values.
pub open spec fn seqs_sorted(s: Seq<u64>) -> bool {
    forall|i: int, j: int| 0 <= i < j < s.len() ==> #[trigger] s[i] < #[trigger] s[j]
}

/// Strictly increasing first components.
pub open spec fn sizes_sorted(s: Seq<(u64, u64)>) -> bool {
    forall|i: int, j: int| 0 <= i < j < s.len() ==> #[trigger] s[i].0 < #[trigger] s[j].0
}

/// At most one pending flush per partition.
pub open spec fn flushes_unique(s: Seq<PendingFlush>) -> bool {
    forall|i: int, j: int|
        0 <= i < j < s.len() ==> (#[trigger] s[i]).partition@ != (#[trigger] s[j]).partition@
}

impl EngineState {
    /// The sorted-collection invariants of the global metadata.
    pub open spec fn wf(&self) -> bool {
        &&& names_sorted(names_of(self.partitions@))
        &&& seqs_sorted(self.journal_seqs@)
        &&& sizes_sorted(self.journal_sizes@)
        &&& flushes_unique(self.pending_flushes@)
    }

    pub fn new(cfg: Config) -> (st: Self)
        ensures
            st.wf(),
            st.cfg == cfg,
            st.partitions@.len() == 0,
            st.journal_seq == 0,
            st.manifest_seq == 0,
            st.next_segment_id == 0,
            st.journal_seqs@.len() == 0,
            st.journal_sizes@.len() == 0,
            st.manifest_bytes == 0,
            st.pending@.len() == 0,
            st.pending_lo == 0,
            !st.journal_flushing,
            st.pending_flushes@.len() == 0,
            st.compactions_completed == 0,
            st.fence_epoch == 0,
            st.current_bytes is None,
            st.published_min_wm == 0,
    {
        EngineState {
            cfg,
            partitions: Vec::new(),
            journal_seq: 0,
            manifest_seq: 0,
            next_segment_id: 0,
            journal_seqs: Vec::new(),
            journal_sizes: Vec::new(),
            manifest_bytes: 0,
            pending: Vec::new(),
            pending_lo: 0,
            journal_flushing: false,
            pending_flushes: Vec::new(),
            compactions_completed: 0,
            fence_epoch: 0,
            current_bytes: None,
            published_min_wm: 0,
        }
    }

    /// Ensure a durable metadata entry exists for `name` (a fresh, empty one
    /// when missing); existing entries are left as they are.
    pub fn ensure_meta(&mut self, name: &str)
        requires
            old(self).wf(),
        ensures
            final(self).wf(),
            named_get(final(self).partitions@, name@) matches Some(m) && match named_get(
                old(self).partitions@,
                name@,
            ) {
                Some(om) => m == om,
                None => m.segments@.len() == 0 && m.watermark == 0 && !m.dropped,
            },
            forall|n: Seq<char>|
                n != name@ ==> named_get(final(self).partitions@, n) == named_get(
                    old(self).partitions@,
                    n,
                ),
            names_of(final(self).partitions@).to_set() == names_of(
                old(self).partitions@,
            ).to_set().insert(name@),
            named_get(old(self).partitions@, name@) is Some ==> final(self).partitions == old(self).partitions,
            final(self).cfg == old(self).cfg,
            final(self).journal_seq == old(self).journal_seq,
            final(self).manifest_seq == old(self).manifest_seq,
            final(self).next_segment_id == old(self).next_segment_id,
            final(self).journal_seqs == old(self).journal_seqs,
            final(self).journal_sizes == old(self).journal_sizes,
            final(self).pending == old(self).pending,
            final(self).pending_flushes == old(self).pending_flushes,
            final(self).fence_epoch == old(self).fence_epoch,
            final(self).published_min_wm == old(self).published_min_wm,
            final(self).current_bytes == old(self).current_bytes,
            final(self).compactions_completed == old(self).compactions_completed,
            final(self).manifest_bytes == old(self).manifest_bytes,
            final(self).journal_flushing == old(self).journal_flushing,
            final(self).pending_lo == old(self).pending_lo,
    {
        let (found, pos) = search_name(&self.partitions, name);
        let ghost old_p = self.partitions@;
        if found {
            proof {
                lemma_named_get_at(old_p, pos as int);
                assert(names_of(old_p).to_set() =~= names_of(old_p).to_set().insert(name@)) by {
                    assert(names_of(old_p)[pos as int] == name@);
                }
            }
            return;
        }
        let meta = PartitionMeta::new();
        let ghost m = meta;
        self.partitions.insert(pos, (name.to_string(), meta));
        proof {
            let new_p = self.partitions@;
            let on = names_of(old_p);
            let nn = names_of(new_p);
            assert(nn =~= on.take(pos as int).push(name@) + on.skip(pos as int));
            assert(names_sorted(nn)) by {
                assert forall|i: int, j: int| 0 <= i < j < nn.len() implies name_lt(
                    #[trigger] nn[i],
                    #[trigger] nn[j],
                ) by {
                    if j < pos {
                        assert(nn[i] == on[i] && nn[j] == on[j]);
                    } else if j == pos {
                        assert(nn[i] == on[i]);
                    } else if i < pos {
                        assert(nn[i] == on[i] && nn[j] == on[j - 1]);
                        crate::order::lemma_lex_transitive(
                            encode_utf8(on[i]),
                            encode_utf8(name@),
                            encode_utf8(on[j - 1]),
                        );
                    } else if i == pos {
                        assert(nn[j] == on[j - 1]);
                    } else {
                        assert(nn[i] == on[i - 1] && nn[j] == on[j - 1]);
                    }
                }
            }
            assert(new_p[pos as int].0@ == name@);
            lemma_named_get_at(new_p, pos as int);
            assert forall|i: int| 0 <= i < old_p.len() implies (#[trigger] old_p[i]).0@ != name@ by {
                crate::order::lemma_lex_irreflexive(encode_utf8(name@));
                assert(on[i] == old_p[i].0@);
            }
            lemma_named_get_absent(old_p, name@);
            assert forall|n: Seq<char>| n != name@ implies named_get(new_p, n) == named_get(
                old_p,
                n,
            ) by {
                lemma_named_get_idx(old_p, n);
                lemma_named_get_idx(new_p, n);
                if let Some(v) = named_get(old_p, n) {
                    let i = choose|i: int| 0 <= i < old_p.len() && (#[trigger] old_p[i]).0@ == n
                        && old_p[i].1 == v;
                    let ni = if i < pos { i } else { i + 1 };
                    assert(new_p[ni] == old_p[i]);
                    assert(names_of(old_p)[i] == n);
                    lemma_named_get_at(new_p, ni);
                } else {
                    if let Some(v) = named_get(new_p, n) {
                        let i = choose|i: int| 0 <= i < new_p.len() && (#[trigger] new_p[i]).0@ == n
                            && new_p[i].1 == v;
                        let oi = if i < pos { i } else { i - 1 };
                        assert(new_p[i] == old_p[oi]);
                        assert(names_of(old_p)[oi] == n);
                        lemma_named_get_at(old_p, oi);
                    }
                }
            }
            assert(names_of(new_p).to_set() =~= names_of(old_p).to_set().insert(name@)) by {
                assert forall|x: Seq<char>| names_of(new_p).to_set().contains(x) <==> names_of(
                    old_p,
                ).to_set().insert(name@).contains(x) by {
                    if names_of(new_p).to_set().contains(x) {
                        let i = choose|i: int| 0 <= i < nn.len() && nn[i] == x;
                        if i < pos {
                            assert(on[i] == x);
                        } else if i > pos {
                            assert(on[i - 1] == x);
                        }
                    }
                    if names_of(old_p).to_set().contains(x) {
                        let i = choose|i: int| 0 <= i < on.len() && on[i] == x;
                        if i < pos {
                            assert(nn[i] == x);
                        } else {
                            assert(nn[i + 1] == x);
                        }
                    }
                    if x == name@ {
                        assert(nn[pos as int] == x);
                    }
                }
            }
        }
    }
}

/// Whatever `named_get` finds comes from some entry.
pub proof fn lemma_named_get_idx<V>(s: Seq<(String, V)>, name: Seq<char>)
    ensures
        named_get(s, name) matches Some(v) ==> exists|i: int|
            0 <= i < s.len() && (#[trigger] s[i]).0@ == name && s[i].1 == v,
    decreases s.len(),
{
    if s.len() > 0 && s.last().0@ != name {
        lemma_named_get_idx(s.drop_last(), name);
        if let Some(v) = named_get(s, name) {
            let i = choose|i: int| 0 <= i < s.drop_last().len() && (#[trigger] s.drop_last()[i]).0@
                == name && s.drop_last()[i].1 == v;
            assert(s[i] == s.drop_last()[i]);
        }
    } else if s.len() > 0 {
        assert(s[s.len() - 1].0@ == name);
    }
}

} // verus!
