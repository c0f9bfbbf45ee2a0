//! Immutable sorted segment (SST-like) format, block-indexed.
//!
//! Object layout (all integers little-endian):
//! ```text
//! [data blocks ...]
//!   block := crc32 u32 | payload_len u32 | payload
//!   payload := sorted entries (key bytes | flag u8 | (value bytes)?)
//! [block index]
//!   n u32 | per block: offset u32 | len u32 | first_key
//! [trailer: 20 bytes]
//!   count u64 | index_offset u32 | index_len u32 | TAIL_MAGIC u32
//! ```
//! `flag == 0` marks a tombstone (deleted key), `flag == 1` a live value.
use vstd::bytes::{spec_u32_from_le_bytes, u32_from_le_bytes};
use vstd::prelude::*;

use crate::codec::{
    dec_bytes, dec_u32, dec_u64, dec_u8, enc_bytes, enc_u32, enc_u64, put_bytes, put_raw,
    put_u32, put_u64, Reader,
};
use crate::error::Error;
use crate::order::{compare_bytes, lex_le, lex_lt};

verus! {

/// Tail magic identifying a segment: `"SEGV"`.
pub const SEG_TAIL_MAGIC: u32 = 0x5345_4756;

/// Fixed trailer byte length (count/index_offset/index_len/magic).
pub const TAIL_LEN: usize = 20;

/// Bytes of per-block framing overhead (crc + payload_len).
pub const BLOCK_HEADER_LEN: usize = 8;

/// Default target data-block payload size.
pub const DEFAULT_BLOCK_SIZE: usize = 32768;

/// A decoded segment entry list where a `None` value is a tombstone.
pub type SegmentEntries = Vec<(Vec<u8>, Option<Vec<u8>>)>;

/// Mathematical view of one entry.
pub type EntryV = (Seq<u8>, Option<Seq<u8>>);

/// View of one stored entry.
pub open spec fn entry_view(e: (Vec<u8>, Option<Vec<u8>>)) -> EntryV {
    (e.0@, match e.1 {
        Some(v) => Some(v@),
        None => None,
    })
}

/// View of an entry list.
pub open spec fn entries_view(es: Seq<(Vec<u8>, Option<Vec<u8>>)>) -> Seq<EntryV> {
    es.map_values(|e: (Vec<u8>, Option<Vec<u8>>)| entry_view(e))
}

/// Keys strictly increasing in lexicographic order.
pub open spec fn strictly_sorted(es: Seq<EntryV>) -> bool {
    forall|i: int, j: int| 0 <= i < j < es.len() ==> lex_lt(#[trigger] es[i].0, #[trigger] es[j].0)
}

/// One bit step of the reflected CRC-32 (IEEE, polynomial 0xEDB88320).
pub open spec fn crc_bit(c: u32) -> u32 {
    if c & 1u32 == 1u32 {
        (c >> 1u32) ^ 0xEDB8_8320u32
    } else {
        c >> 1u32
    }
}

/// The register after feeding byte `b`: eight bit steps.
pub open spec fn crc_byte(c: u32, b: u8) -> u32 {
    let x = c ^ (b as u32);
    crc_bit(crc_bit(crc_bit(crc_bit(crc_bit(crc_bit(crc_bit(crc_bit(x))))))))
}

/// The register after feeding `data` from register value `c`.
pub open spec fn crc_feed(c: u32, data: Seq<u8>) -> u32
    decreases data.len(),
{
    if data.len() == 0 {
        c
    } else {
        crc_byte(crc_feed(c, data.drop_last()), data.last())
    }
}

/// The CRC-32 (IEEE) checksum of `data`: the register starts at all ones
/// and the result is inverted.
#[verifier::opaque]
pub open spec fn crc32_ieee(data: Seq<u8>) -> u32 {
    !crc_feed(0xFFFF_FFFFu32, data)
}

/// Computes the CRC-32 (IEEE) checksum of `data` with `crc32fast::hash`,
/// which implements this standard checksum (reflected polynomial
/// 0xEDB88320, initial value and final inversion all ones).
#[verifier::external_body]
fn crc32(data: &[u8]) -> (c: u32)
    ensures
        c == crc32_ieee(data@),
{
    crc32fast::hash(data)
}

/// Parsed segment trailer.
#[derive(Debug, Clone, PartialEq, Eq)]
pub struct Trailer {
    pub count: u64,
    pub index_offset: u32,
    pub index_len: u32,
}

/// One data block's location and its first key.
#[derive(Debug, Clone, PartialEq, Eq)]
pub struct BlockMeta {
    /// Byte offset of the block (crc header) inside the object.
    pub offset: u32,
    /// Total block byte length (header + payload).
    pub len: u32,
    /// First key of the block.
    pub first: Vec<u8>,
}

/// Mathematical view of a [`BlockMeta`].
pub struct BlockMetaV {
    pub offset: u32,
    pub len: u32,
    pub first: Seq<u8>,
}

impl View for BlockMeta {
    type V = BlockMetaV;

    open spec fn view(&self) -> BlockMetaV {
        BlockMetaV { offset: self.offset, len: self.len, first: self.first@ }
    }
}

impl BlockMeta {
    /// An equal copy.
    pub fn copy_meta(&self) -> (b: BlockMeta)
        ensures
            b@ == self@,
    {
        BlockMeta {
            offset: self.offset,
            len: self.len,
            first: vstd::slice::slice_to_vec(self.first.as_slice()),
        }
    }
}

/// In-memory block index of one segment.
#[derive(Debug, Clone, PartialEq, Eq)]
pub struct SegmentIndex {
    pub blocks: Vec<BlockMeta>,
}

impl View for SegmentIndex {
    type V = Seq<BlockMetaV>;

    open spec fn view(&self) -> Seq<BlockMetaV> {
        self.blocks@.map_values(|b: BlockMeta| b@)
    }
}

impl SegmentIndex {
    /// An equal copy.
    pub fn clone_index(&self) -> (r: SegmentIndex)
        ensures
            r@ == self@,
    {
        let mut blocks: Vec<BlockMeta> = Vec::new();
        let mut i: usize = 0;
        while i < self.blocks.len()
            invariant
                0 <= i <= self.blocks@.len(),
                blocks@.map_values(|b: BlockMeta| b@) == self@.take(i as int),
            decreases self.blocks@.len() - i,
        {
            let b = self.blocks[i].copy_meta();
            proof {
                assert(self@.take(i + 1) =~= self@.take(i as int).push(self@[i as int]));
                assert(blocks@.push(b).map_values(|b: BlockMeta| b@) =~= blocks@.map_values(
                    |b: BlockMeta| b@,
                ).push(b@));
            }
            blocks.push(b);
            i = i + 1;
        }
        proof {
            assert(self@.take(i as int) =~= self@);
        }
        SegmentIndex { blocks }
    }
}

/// Persistent metadata of one immutable segment.
#[derive(Debug, Clone, PartialEq, Eq)]
pub struct SegmentMeta {
    /// Globally unique segment id (also the object suffix).
    pub id: u64,
    /// Journal watermark reached when this segment was flushed.
    pub seq: u64,
    /// Smallest key (bounds for read skipping).
    pub first: Vec<u8>,
    /// Largest key.
    pub last: Vec<u8>,
    /// Number of encoded entries (including tombstones).
    pub count: u64,
    /// Number of tombstone entries.
    pub tombstones: u64,
    /// Encoded object size in bytes.
    pub bytes: u64,
    /// Number of data blocks.
    pub blocks: u64,
    /// Embedded block index (None falls back to tail + index range reads).
    pub index: Option<SegmentIndex>,
}

/// Mathematical view of a [`SegmentMeta`].
pub struct SegmentMetaV {
    pub id: u64,
    pub seq: u64,
    pub first: Seq<u8>,
    pub last: Seq<u8>,
    pub count: u64,
    pub tombstones: u64,
    pub bytes: u64,
    pub blocks: u64,
    pub index: Option<Seq<BlockMetaV>>,
}

impl View for SegmentMeta {
    type V = SegmentMetaV;

    open spec fn view(&self) -> SegmentMetaV {
        SegmentMetaV {
            id: self.id,
            seq: self.seq,
            first: self.first@,
            last: self.last@,
            count: self.count,
            tombstones: self.tombstones,
            bytes: self.bytes,
            blocks: self.blocks,
            index: match self.index {
                Some(ix) => Some(ix@),
                None => None,
            },
        }
    }
}

impl SegmentMeta {
    /// An equal copy.
    pub fn copy_meta(&self) -> (r: SegmentMeta)
        ensures
            r@ == self@,
    {
        SegmentMeta {
            id: self.id,
            seq: self.seq,
            first: vstd::slice::slice_to_vec(self.first.as_slice()),
            last: vstd::slice::slice_to_vec(self.last.as_slice()),
            count: self.count,
            tombstones: self.tombstones,
            bytes: self.bytes,
            blocks: self.blocks,
            index: match &self.index {
                Some(ix) => Some(ix.clone_index()),
                None => None,
            },
        }
    }
}

/// Views of a segment list.
pub open spec fn segments_view(s: Seq<SegmentMeta>) -> Seq<SegmentMetaV> {
    s.map_values(|m: SegmentMeta| m@)
}

/// An equal copy of a segment list.
pub fn copy_segments(s: &Vec<SegmentMeta>) -> (r: Vec<SegmentMeta>)
    ensures
        segments_view(r@) == segments_view(s@),
{
    let mut out: Vec<SegmentMeta> = Vec::new();
    let mut i: usize = 0;
    while i < s.len()
        invariant
            0 <= i <= s@.len(),
            segments_view(out@) == segments_view(s@).take(i as int),
        decreases s@.len() - i,
    {
        let m = s[i].copy_meta();
        proof {
            assert(segments_view(s@).take(i + 1) =~= segments_view(s@).take(i as int).push(s@[i as int]@));
            assert(segments_view(out@.push(m)) =~= segments_view(out@).push(m@));
        }
        out.push(m);
        i = i + 1;
    }
    proof {
        assert(segments_view(s@).take(i as int) =~= segments_view(s@));
    }
    out
}

// ---------------------------------------------------------------------------
// decoding
// ---------------------------------------------------------------------------

/// The trailer encoded in `s`, which must be exactly [`TAIL_LEN`] bytes.
pub open spec fn spec_parse_tail(s: Seq<u8>) -> Option<(u64, u32, u32)> {
    if s.len() != 20 {
        None
    } else {
        match dec_u64(s) {
            None => None,
            Some((count, r1)) => match dec_u32(r1) {
                None => None,
                Some((off, r2)) => match dec_u32(r2) {
                    None => None,
                    Some((len, r3)) => match dec_u32(r3) {
                        None => None,
                        Some((magic, _)) => if magic != SEG_TAIL_MAGIC {
                            None
                        } else {
                            Some((count, off, len))
                        },
                    },
                },
            },
        }
    }
}

/// Parse the fixed trailer from the last [`TAIL_LEN`] bytes of an object.
pub fn parse_tail(tail: &[u8]) -> (r: Result<Trailer, Error>)
    ensures
        match r {
            Ok(t) => spec_parse_tail(tail@) == Some((t.count, t.index_offset, t.index_len)),
            Err(e) => spec_parse_tail(tail@) is None && e is Corrupt,
        },
{
    if tail.len() != TAIL_LEN {
        return Err(Error::corrupt("trailer length mismatch"));
    }
    let mut r = Reader::new(tail);
    let count = r.u64()?;
    let index_offset = r.u32()?;
    let index_len = r.u32()?;
    let magic = r.u32()?;
    if magic != SEG_TAIL_MAGIC {
        return Err(Error::corrupt("bad segment tail magic"));
    }
    Ok(Trailer { count, index_offset, index_len })
}

/// Reading one block-index record from the front of `s`.
pub open spec fn dec_block_meta(s: Seq<u8>) -> Option<(BlockMetaV, Seq<u8>)> {
    match dec_u32(s) {
        None => None,
        Some((offset, r1)) => match dec_u32(r1) {
            None => None,
            Some((len, r2)) => match dec_bytes(r2) {
                None => None,
                Some((first, r3)) => Some((BlockMetaV { offset, len, first }, r3)),
            },
        },
    }
}

/// Reading `n` block-index records one after another.
pub open spec fn dec_block_metas(s: Seq<u8>, n: nat) -> Option<(Seq<BlockMetaV>, Seq<u8>)>
    decreases n,
{
    if n == 0 {
        Some((Seq::empty(), s))
    } else {
        match dec_block_metas(s, (n - 1) as nat) {
            None => None,
            Some((bs, r)) => match dec_block_meta(r) {
                None => None,
                Some((b, r2)) => Some((bs.push(b), r2)),
            },
        }
    }
}

/// The block index encoded in `s` (count, records, and nothing after).
pub open spec fn spec_decode_index(s: Seq<u8>) -> Option<Seq<BlockMetaV>> {
    match dec_u32(s) {
        None => None,
        Some((n, r)) => match dec_block_metas(r, n as nat) {
            Some((bs, rest)) => if rest.len() == 0 {
                Some(bs)
            } else {
                None
            },
            None => None,
        },
    }
}

proof fn lemma_dec_block_metas_stop(s: Seq<u8>, i: nat, n: nat)
    requires
        i < n,
        dec_block_metas(s, i) matches Some((_, r)) && dec_block_meta(r) is None,
    ensures
        dec_block_metas(s, n) is None,
    decreases n,
{
    if n > i + 1 {
        lemma_dec_block_metas_stop(s, i, (n - 1) as nat);
    }
}

/// Decode a block-index payload (the bytes between data region and trailer).
pub fn decode_index(buf: &[u8]) -> (r: Result<SegmentIndex, Error>)
    ensures
        match r {
            Ok(idx) => spec_decode_index(buf@) == Some(idx@),
            Err(e) => spec_decode_index(buf@) is None && e is Corrupt,
        },
{
    let mut r = Reader::new(buf);
    let n = r.u32()?;
    let ghost r0 = r.rest();
    let mut blocks: Vec<BlockMeta> = Vec::new();
    let mut i: u32 = 0;
    while i < n
        invariant
            r.wf(),
            r.data() == buf@,
            dec_u32(buf@) == Some((n, r0)),
            0 <= i <= n,
            dec_block_metas(r0, i as nat) == Some(
                (blocks@.map_values(|b: BlockMeta| b@), r.rest()),
            ),
        decreases n - i,
    {
        let offset = match r.u32() {
            Ok(v) => v,
            Err(e) => {
                proof {
                    lemma_dec_block_metas_stop(r0, i as nat, n as nat);
                }
                return Err(e);
            },
        };
        let len = match r.u32() {
            Ok(v) => v,
            Err(e) => {
                proof {
                    lemma_dec_block_metas_stop(r0, i as nat, n as nat);
                }
                return Err(e);
            },
        };
        let first = match r.bytes() {
            Ok(v) => v,
            Err(e) => {
                proof {
                    lemma_dec_block_metas_stop(r0, i as nat, n as nat);
                }
                return Err(e);
            },
        };
        let b = BlockMeta { offset, len, first };
        proof {
            assert(blocks@.push(b).map_values(|b: BlockMeta| b@) =~= blocks@.map_values(
                |b: BlockMeta| b@,
            ).push(b@));
        }
        blocks.push(b);
        i = i + 1;
    }
    if r.remaining() != 0 {
        return Err(Error::corrupt("trailing bytes after block index"));
    }
    Ok(SegmentIndex { blocks })
}

/// Reading one entry (`key bytes | flag | (value bytes)?`) from the front of `s`.
pub open spec fn dec_entry(s: Seq<u8>) -> Option<(EntryV, Seq<u8>)> {
    match dec_bytes(s) {
        None => None,
        Some((key, r1)) => match dec_u8(r1) {
            None => None,
            Some((flag, r2)) => if flag == 0 {
                Some(((key, None), r2))
            } else if flag == 1 {
                match dec_bytes(r2) {
                    None => None,
                    Some((v, r3)) => Some(((key, Some(v)), r3)),
                }
            } else {
                None
            },
        },
    }
}

/// A successful entry read consumes at least one byte.
pub proof fn lemma_dec_entry_shrinks(s: Seq<u8>)
    ensures
        dec_entry(s) matches Some((e, r)) ==> r.len() < s.len(),
{
}

/// Reading entries until the input is exhausted (no order check).
pub open spec fn dec_entry_list(s: Seq<u8>) -> Option<Seq<EntryV>>
    decreases s.len(),
{
    if s.len() == 0 {
        Some(Seq::empty())
    } else {
        match dec_entry(s) {
            None => None,
            Some((e, r)) => {
                proof {
                    lemma_dec_entry_shrinks(s);
                }
                match dec_entry_list(r) {
                    None => None,
                    Some(es) => Some(seq![e] + es),
                }
            },
        }
    }
}

/// The entry list of a block payload: every entry must parse and keys must
/// strictly increase.
pub open spec fn spec_decode_payload(s: Seq<u8>) -> Option<Seq<EntryV>> {
    match dec_entry_list(s) {
        Some(es) => if strictly_sorted(es) {
            Some(es)
        } else {
            None
        },
        None => None,
    }
}

/// Decode a block payload (entry list) into sorted entries.
pub fn decode_payload(payload: &[u8]) -> (r: Result<SegmentEntries, Error>)
    ensures
        match r {
            Ok(es) => spec_decode_payload(payload@) == Some(entries_view(es@)),
            Err(e) => spec_decode_payload(payload@) is None && e is Corrupt,
        },
{
    let mut r = Reader::new(payload);
    let mut entries: SegmentEntries = Vec::new();
    while r.remaining() > 0
        invariant
            r.wf(),
            r.data() == payload@,
            dec_entry_list(payload@) == match dec_entry_list(r.rest()) {
                Some(t) => Some(entries_view(entries@) + t),
                None => None,
            },
            strictly_sorted(entries_view(entries@)),
        decreases r.rest().len(),
    {
        let ghost rest = r.rest();
        let ghost ev = entries_view(entries@);
        proof {
            lemma_dec_entry_shrinks(rest);
        }
        let key = r.bytes()?;
        if entries.len() > 0 {
            let c = compare_bytes(key.as_slice(), entries[entries.len() - 1].0.as_slice());
            if c <= 0 {
                proof {
                    let last = entries@[entries@.len() - 1];
                    assert(ev.last().0 == last.0@);
                    match dec_entry_list(rest) {
                        Some(t) => {
                            let whole = ev + t;
                            assert(t[0].0 == key@);
                            assert(whole[ev.len() - 1].0 == ev.last().0);
                            assert(whole[ev.len() as int].0 == key@);
                            crate::order::lemma_lex_irreflexive(key@);
                            crate::order::lemma_lex_asymmetric(key@, last.0@);
                            assert(!lex_lt(whole[ev.len() - 1].0, whole[ev.len() as int].0));
                            assert(!strictly_sorted(whole));
                        },
                        None => {},
                    }
                }
                return Err(Error::corrupt("segment keys out of order / duplicated"));
            }
        }
        let flag = r.u8()?;
        let value = if flag == 0 {
            None
        } else if flag == 1 {
            Some(r.bytes()?)
        } else {
            return Err(Error::corrupt("bad segment flag"));
        };
        let ghost e = entry_view((key, value));
        proof {
            assert(dec_entry(rest) == Some((e, r.rest())));
            let nev = ev.push(e);
            assert(entries_view(entries@.push((key, value))) =~= nev);
            assert(strictly_sorted(nev)) by {
                assert forall|i: int, j: int| 0 <= i < j < nev.len() implies lex_lt(
                    #[trigger] nev[i].0,
                    #[trigger] nev[j].0,
                ) by {
                    if j == nev.len() - 1 && i < j {
                        if i < ev.len() - 1 {
                            assert(lex_lt(ev[i].0, ev[ev.len() - 1].0));
                            crate::order::lemma_lex_transitive(ev[i].0, ev[ev.len() - 1].0, e.0);
                        }
                    }
                }
            }
            match dec_entry_list(r.rest()) {
                Some(t) => {
                    assert(ev + (seq![e] + t) =~= nev + t);
                },
                None => {},
            }
        }
        entries.push((key, value));
    }
    proof {
        assert(entries_view(entries@) + Seq::<EntryV>::empty() =~= entries_view(entries@));
    }
    Ok(entries)
}

/// The entries of one framed block `crc u32 | payload_len u32 | payload`
/// whose payload checksums to `payload_crc`: the length must match and the
/// recorded checksum must equal `payload_crc`.
pub open spec fn spec_decode_framed(s: Seq<u8>, payload_crc: u32) -> Option<Seq<EntryV>> {
    if s.len() < 8 {
        None
    } else {
        let crc = spec_u32_from_le_bytes(s.subrange(0, 4));
        let len = spec_u32_from_le_bytes(s.subrange(4, 8));
        let payload = s.skip(8);
        if payload.len() != len {
            None
        } else if payload_crc != crc {
            None
        } else {
            spec_decode_payload(payload)
        }
    }
}

/// The entries of one framed block, with the length and the CRC-32 of the
/// payload verified.
pub open spec fn spec_decode_block(s: Seq<u8>) -> Option<Seq<EntryV>> {
    spec_decode_framed(s, crc32_ieee(s.skip(8)))
}

/// Check the framing of `raw` against the checksum `payload_crc` of its
/// payload and decode the entries.
pub fn decode_framed(raw: &[u8], payload_crc: u32) -> (r: Result<SegmentEntries, Error>)
    ensures
        match r {
            Ok(es) => spec_decode_framed(raw@, payload_crc) == Some(entries_view(es@)),
            Err(e) => spec_decode_framed(raw@, payload_crc) is None && e is Corrupt,
        },
{
    if raw.len() < BLOCK_HEADER_LEN {
        return Err(Error::corrupt("block shorter than header"));
    }
    let head = &raw[0..BLOCK_HEADER_LEN];
    let payload = &raw[BLOCK_HEADER_LEN..raw.len()];
    let expect_crc = u32_from_le_bytes(&head[0..4]);
    let expect_len = u32_from_le_bytes(&head[4..8]);
    proof {
        assert(head@.subrange(0, 4) =~= raw@.subrange(0, 4));
        assert(head@.subrange(4, 8) =~= raw@.subrange(4, 8));
        assert(payload@ =~= raw@.skip(8));
    }
    if payload.len() as u64 != expect_len as u64 {
        return Err(Error::corrupt("block payload length mismatch"));
    }
    if payload_crc != expect_crc {
        return Err(Error::corrupt("block checksum mismatch"));
    }
    decode_payload(payload)
}

/// Verify the block framing header and checksum and decode its payload entries.
pub fn decode_block(raw: &[u8]) -> (r: Result<SegmentEntries, Error>)
    ensures
        match r {
            Ok(es) => spec_decode_block(raw@) == Some(entries_view(es@)),
            Err(e) => spec_decode_block(raw@) is None && e is Corrupt,
        },
{
    if raw.len() < BLOCK_HEADER_LEN {
        return Err(Error::corrupt("block shorter than header"));
    }
    let payload = &raw[BLOCK_HEADER_LEN..raw.len()];
    proof {
        assert(payload@ =~= raw@.skip(8));
    }
    decode_framed(raw, crc32(payload))
}

/// Block first keys never decrease.
pub open spec fn firsts_sorted(bs: Seq<BlockMetaV>) -> bool {
    forall|i: int, j: int|
        0 <= i < j < bs.len() ==> lex_le(#[trigger] bs[i].first, #[trigger] bs[j].first)
}

/// Locate the block that may contain `key`: the greatest block whose first
/// key is `<= key`, or `None` when the key sorts before every block. On an
/// index whose first keys are not sorted the answer is only some block or none.
pub fn find_block(index: &SegmentIndex, key: &[u8]) -> (r: Option<usize>)
    ensures
        r matches Some(i) ==> i < index@.len(),
        firsts_sorted(index@) ==> match r {
            None => forall|j: int| 0 <= j < index@.len() ==> lex_lt(key@, #[trigger] index@[j].first),
            Some(i) => lex_le(index@[i as int].first, key@) && (i + 1 < index@.len() ==> lex_lt(
                key@,
                index@[i + 1].first,
            )),
        },
{
    let n = index.blocks.len();
    let mut lo: usize = 0;
    let mut hi: usize = n;
    while lo < hi
        invariant
            0 <= lo <= hi <= n,
            n == index@.len(),
            index@ == index.blocks@.map_values(|b: BlockMeta| b@),
            firsts_sorted(index@) ==> forall|j: int|
                0 <= j < lo ==> lex_le(#[trigger] index@[j].first, key@),
            firsts_sorted(index@) ==> forall|j: int|
                hi <= j < n ==> lex_lt(key@, #[trigger] index@[j].first),
        decreases hi - lo,
    {
        let mid = lo + (hi - lo) / 2;
        let c = compare_bytes(index.blocks[mid].first.as_slice(), key);
        proof {
            assert(index@[mid as int] == index.blocks@[mid as int]@);
        }
        if c <= 0 {
            proof {
                if firsts_sorted(index@) {
                    assert forall|j: int| 0 <= j < mid + 1 implies lex_le(
                        #[trigger] index@[j].first,
                        key@,
                    ) by {
                        if j < mid {
                            crate::order::lemma_lex_le_transitive(
                                index@[j].first,
                                index@[mid as int].first,
                                key@,
                            );
                        }
                    }
                }
            }
            lo = mid + 1;
        } else {
            proof {
                crate::order::lemma_lex_asymmetric(key@, index@[mid as int].first);
                if firsts_sorted(index@) {
                    assert forall|j: int| mid <= j < n implies lex_lt(
                        key@,
                        #[trigger] index@[j].first,
                    ) by {
                        if j > mid {
                            crate::order::lemma_lex_le_transitive(
                                key@,
                                index@[mid as int].first,
                                index@[j].first,
                            );
                        }
                    }
                }
            }
            hi = mid;
        }
    }
    if lo == 0 {
        None
    } else {
        Some(lo - 1)
    }
}

// ---------------------------------------------------------------------------
// encoding
// ---------------------------------------------------------------------------

/// Encoding of one entry: `key bytes | flag u8 | (value bytes)?`.
pub open spec fn enc_entry(e: EntryV) -> Seq<u8> {
    enc_bytes(e.0) + match e.1 {
        Some(v) => seq![1u8] + enc_bytes(v),
        None => seq![0u8],
    }
}

/// Concatenated encodings of an entry list.
pub open spec fn enc_entries(es: Seq<EntryV>) -> Seq<u8>
    decreases es.len(),
{
    if es.len() == 0 {
        Seq::empty()
    } else {
        enc_entries(es.drop_last()) + enc_entry(es.last())
    }
}

/// Whether every key and value fits a `u32` length prefix.
pub open spec fn entries_fit(es: Seq<EntryV>) -> bool {
    forall|i: int|
        0 <= i < es.len() ==> (#[trigger] es[i]).0.len() <= u32::MAX && (es[i].1 matches Some(v)
            ==> v.len() <= u32::MAX)
}

/// Greedy block split: entries accumulate into the open block, which is
/// sealed as soon as its encoded payload reaches `bs` bytes. Returns the
/// sealed blocks and the still-open block.
pub open spec fn split_blocks(es: Seq<EntryV>, bs: nat) -> (Seq<Seq<EntryV>>, Seq<EntryV>)
    decreases es.len(),
{
    if es.len() == 0 {
        (Seq::empty(), Seq::empty())
    } else {
        let (sealed, cur) = split_blocks(es.drop_last(), bs);
        let cur2 = cur.push(es.last());
        if enc_entries(cur2).len() >= bs {
            (sealed.push(cur2), Seq::empty())
        } else {
            (sealed, cur2)
        }
    }
}

/// The blocks an entry list is stored in.
pub open spec fn seg_chunks(es: Seq<EntryV>, bs: nat) -> Seq<Seq<EntryV>> {
    let (sealed, cur) = split_blocks(es, bs);
    if cur.len() == 0 {
        sealed
    } else {
        sealed.push(cur)
    }
}

/// A framed block around an encoded payload: `crc | payload_len | payload`.
pub open spec fn frame_bytes(p: Seq<u8>) -> Seq<u8> {
    enc_u32(crc32_ieee(p)) + enc_u32(p.len() as u32) + p
}

/// The framed data region of a block list.
pub open spec fn frames(cs: Seq<Seq<EntryV>>) -> Seq<u8>
    decreases cs.len(),
{
    if cs.len() == 0 {
        Seq::empty()
    } else {
        frames(cs.drop_last()) + frame_bytes(enc_entries(cs.last()))
    }
}

/// Index records `(offset, len, first key)` of a block list.
pub open spec fn index_triples(cs: Seq<Seq<EntryV>>) -> Seq<(u32, u32, Seq<u8>)>
    decreases cs.len(),
{
    if cs.len() == 0 {
        Seq::empty()
    } else {
        index_triples(cs.drop_last()).push(
            (
                frames(cs.drop_last()).len() as u32,
                frame_bytes(enc_entries(cs.last())).len() as u32,
                cs.last()[0].0,
            ),
        )
    }
}

/// Encoding of index records.
pub open spec fn enc_triples(ts: Seq<(u32, u32, Seq<u8>)>) -> Seq<u8>
    decreases ts.len(),
{
    if ts.len() == 0 {
        Seq::empty()
    } else {
        enc_triples(ts.drop_last()) + enc_u32(ts.last().0) + enc_u32(ts.last().1) + enc_bytes(
            ts.last().2,
        )
    }
}

/// The block index of a block list: `n u32 | records`.
pub open spec fn index_bytes(cs: Seq<Seq<EntryV>>) -> Seq<u8> {
    enc_u32(cs.len() as u32) + enc_triples(index_triples(cs))
}

/// The complete segment object for sorted entries and a target block size
/// (a block size of 0 is treated as 1).
pub open spec fn spec_encode_segment(es: Seq<EntryV>, block_size: nat) -> Seq<u8> {
    let bs = if block_size == 0 {
        1
    } else {
        block_size
    };
    let cs = seg_chunks(es, bs);
    let data = frames(cs);
    let idx = index_bytes(cs);
    let index_offset = #[verifier::truncate] (data.len() as u32);
    let index_len = ((data.len() + idx.len()) - (index_offset as int)) as u32;
    data + idx + enc_u64(es.len() as u64) + enc_u32(index_offset) + enc_u32(index_len) + enc_u32(
        SEG_TAIL_MAGIC,
    )
}

/// An entry list's encoding is at least as long as the list.
proof fn lemma_enc_entries_len(es: Seq<EntryV>)
    ensures
        enc_entries(es).len() >= es.len(),
    decreases es.len(),
{
    if es.len() > 0 {
        lemma_enc_entries_len(es.drop_last());
        vstd::bytes::lemma_auto_spec_u32_to_from_le_bytes();
    }
}

/// The open block of a split is never complete.
proof fn lemma_split_open_short(es: Seq<EntryV>, bs: nat)
    ensures
        split_blocks(es, bs).1.len() > 0 ==> enc_entries(split_blocks(es, bs).1).len() < bs,
        forall|j: int|
            0 <= j < split_blocks(es, bs).0.len() ==> (#[trigger] split_blocks(es, bs).0[j]).len()
                > 0,
    decreases es.len(),
{
    if es.len() > 0 {
        lemma_split_open_short(es.drop_last(), bs);
    }
}

/// Append one entry's encoding.
fn append_entry(out: &mut Vec<u8>, key: &[u8], value: Option<&[u8]>) -> (r: Result<(), Error>)
    ensures
        key@.len() <= u32::MAX && (value matches Some(v) ==> v@.len() <= u32::MAX) ==> r is Ok
            && final(out)@ == old(out)@ + enc_entry(
            (key@, match value {
                Some(v) => Some(v@),
                None => None,
            }),
        ),
        !(key@.len() <= u32::MAX && (value matches Some(v) ==> v@.len() <= u32::MAX)) ==> r is Err,
{
    let ghost start = out@;
    put_bytes(out, key)?;
    match value {
        Some(v) => {
            out.push(1u8);
            put_bytes(out, v)?;
            proof {
                assert(final(out)@ =~= start + (enc_bytes(key@) + (seq![1u8] + enc_bytes(v@))));
            }
        },
        None => {
            out.push(0u8);
            proof {
                assert(final(out)@ =~= start + (enc_bytes(key@) + seq![0u8]));
            }
        },
    }
    Ok(())
}

/// Seal the open block: frame its payload into `data` and record its index entry.
fn seal(
    data: &mut Vec<u8>,
    idx: &mut Vec<(u32, u32, Vec<u8>)>,
    payload: &mut Vec<u8>,
    first: &mut Option<Vec<u8>>,
) -> (r: Result<(), Error>)
    requires
        old(payload)@.len() > 0 ==> (*old(first)) is Some,
    ensures
        r is Ok,
        old(payload)@.len() == 0 ==> final(data)@ == old(data)@ && final(idx)@ == old(idx)@
            && final(payload)@ == old(payload)@ && *final(first) == *old(first),
        old(payload)@.len() > 0 ==> {
            &&& final(data)@ == old(data)@ + frame_bytes(old(payload)@)
            &&& final(idx)@.len() == old(idx)@.len() + 1
            &&& final(idx)@.drop_last() == old(idx)@
            &&& final(idx)@.last().0 == old(data)@.len() as u32
            &&& final(idx)@.last().1 == frame_bytes(old(payload)@).len() as u32
            &&& final(idx)@.last().2@ == (*old(first)).unwrap()@
            &&& final(payload)@.len() == 0
        },
{
    if payload.len() == 0 {
        return Ok(());
    }
    let offset = #[verifier::truncate] (data.len() as u32);
    let plen = payload.len();
    let len = (#[verifier::truncate] (plen as u32)).wrapping_add(8);
    proof {
        assert(((plen as u32) as int + 8) % 0x1_0000_0000 == (8 + plen) as u32) by (bit_vector);
    }
    let crc = crc32(payload.as_slice());
    let ghost p = payload@;
    put_u32(data, crc);
    put_u32(data, payload.len() as u32);
    data.append(payload);
    let f = match first.take() {
        Some(f) => f,
        None => {
            return Err(Error::encode("block missing first key"));
        },
    };
    proof {
        vstd::bytes::lemma_auto_spec_u32_to_from_le_bytes();
        assert(frame_bytes(p).len() == 8 + p.len());
        assert(len == frame_bytes(p).len() as u32);
        assert(final(data)@ =~= old(data)@ + frame_bytes(p));
    }
    idx.push((offset, len, f));
    Ok(())
}

/// View of recorded index triples.
pub open spec fn triples_view(ts: Seq<(u32, u32, Vec<u8>)>) -> Seq<(u32, u32, Seq<u8>)> {
    ts.map_values(|t: (u32, u32, Vec<u8>)| (t.0, t.1, t.2@))
}

/// Encode sorted, duplicate-free entries into a block-indexed segment object;
/// fails when a key or value is longer than a `u32` length prefix can count.
pub fn encode_segment(entries: &SegmentEntries, block_size: usize) -> (r: Result<Vec<u8>, Error>)
    ensures
        entries_fit(entries_view(entries@)) ==> (r matches Ok(b) && b@ == spec_encode_segment(
            entries_view(entries@),
            block_size as nat,
        )),
        !entries_fit(entries_view(entries@)) ==> r is Err,
{
    let bs: usize = if block_size > 1 {
        block_size
    } else {
        1
    };
    let ghost ev = entries_view(entries@);
    let mut data: Vec<u8> = Vec::new();
    let mut idx: Vec<(u32, u32, Vec<u8>)> = Vec::new();
    let mut payload: Vec<u8> = Vec::new();
    let mut block_first: Option<Vec<u8>> = None;
    let mut count: u64 = 0;
    let ghost mut sealed: Seq<Seq<EntryV>> = Seq::empty();
    let ghost mut cur: Seq<EntryV> = Seq::empty();
    let mut i: usize = 0;
    while i < entries.len()
        invariant
            0 <= i <= entries@.len(),
            ev == entries_view(entries@),
            bs as nat == (if block_size == 0 { 1 } else { block_size as nat }),
            count == i as u64,
            split_blocks(ev.take(i as int), bs as nat) == (sealed, cur),
            data@ == frames(sealed),
            payload@ == enc_entries(cur),
            triples_view(idx@) == index_triples(sealed),
            cur.len() > 0 ==> (block_first matches Some(f) && f@ == cur[0].0),
            entries_fit(ev.take(i as int)),
        decreases entries@.len() - i,
    {
        let k = &entries[i].0;
        proof {
            lemma_enc_entries_len(cur);
            assert(ev[i as int] == entry_view(entries@[i as int]));
        }
        if payload.len() == 0 {
            block_first = Some(vstd::slice::slice_to_vec(k.as_slice()));
        }
        let v: Option<&[u8]> = match &entries[i].1 {
            Some(v) => Some(v.as_slice()),
            None => None,
        };
        let ghost before = payload@;
        let ar = append_entry(&mut payload, k.as_slice(), v);
        if ar.is_err() {
            proof {
                assert(!entries_fit(ev)) by {
                    assert(ev[i as int].0 == k@);
                }
            }
            return Err(Error::encode("entry too long"));
        }
        count = count + 1;
        let ghost e = ev[i as int];
        proof {
            assert(e == (k@, match v {
                Some(v) => Some(v@),
                None => None,
            }));
            assert(ev.take(i + 1).drop_last() =~= ev.take(i as int));
            assert(ev.take(i + 1).last() == e);
            assert(cur.push(e).drop_last() =~= cur);
            assert(payload@ =~= enc_entries(cur.push(e)));
            assert(entries_fit(ev.take(i + 1))) by {
                assert forall|j: int| 0 <= j < i + 1 implies (#[trigger] ev.take(i + 1)[j]).0.len()
                    <= u32::MAX && (ev.take(i + 1)[j].1 matches Some(w) ==> w.len()
                    <= u32::MAX) by {
                    if j < i {
                        assert(ev.take(i + 1)[j] == ev.take(i as int)[j]);
                    }
                }
            }
        }
        if payload.len() >= bs {
            let ghost c2 = cur.push(e);
            let ghost old_data = data@;
            let _ = seal(&mut data, &mut idx, &mut payload, &mut block_first);
            proof {
                assert(c2.drop_last() =~= cur);
                assert(sealed.push(c2).drop_last() =~= sealed);
                assert(triples_view(idx@) =~= index_triples(sealed.push(c2)));
                sealed = sealed.push(c2);
                cur = Seq::empty();
                assert(payload@ =~= enc_entries(cur));
            }
        } else {
            proof {
                cur = cur.push(e);
            }
        }
        i = i + 1;
    }
    proof {
        assert(ev.take(i as int) =~= ev);
        lemma_enc_entries_len(cur);
    }
    let ghost cs = seg_chunks(ev, bs as nat);
    let _ = seal(&mut data, &mut idx, &mut payload, &mut block_first);
    proof {
        if cur.len() > 0 {
            assert(cs.drop_last() =~= sealed);
            assert(triples_view(idx@) =~= index_triples(cs));
        }
        assert(data@ == frames(cs));
        assert(triples_view(idx@) == index_triples(cs));
    }
    let index_offset = #[verifier::truncate] (data.len() as u32);
    let mut index: Vec<u8> = Vec::new();
    put_u32(&mut index, #[verifier::truncate] (idx.len() as u32));
    let ghost ihead = index@;
    let ghost tv = triples_view(idx@);
    let mut j: usize = 0;
    while j < idx.len()
        invariant
            0 <= j <= idx@.len(),
            tv == triples_view(idx@),
            tv == index_triples(cs),
            entries_fit(ev),
            cs == seg_chunks(ev, bs as nat),
            index@ == ihead + enc_triples(tv.take(j as int)),
        decreases idx@.len() - j,
    {
        let t = &idx[j];
        let ghost before = index@;
        put_u32(&mut index, t.0);
        put_u32(&mut index, t.1);
        proof {
            assert(tv[j as int] == (t.0, t.1, t.2@));
            lemma_index_firsts_fit(ev, bs as nat, j as int);
        }
        let rb = put_bytes(&mut index, t.2.as_slice());
        proof {
            assert(tv.take(j + 1).drop_last() =~= tv.take(j as int));
            assert(index@ =~= ihead + enc_triples(tv.take(j + 1)));
        }
        j = j + 1;
    }
    proof {
        assert(tv.take(j as int) =~= tv);
        lemma_index_triples_len(cs);
        assert(idx@.len() == cs.len());
    }
    let dlen: usize = data.len();
    data.append(&mut index);
    proof {
        assert((dlen as u32) as usize <= dlen) by (bit_vector);
    }
    let index_len = #[verifier::truncate] ((data.len() - index_offset as usize) as u32);
    put_u64(&mut data, count);
    put_u32(&mut data, index_offset);
    put_u32(&mut data, index_len);
    put_u32(&mut data, SEG_TAIL_MAGIC);
    proof {
        assert(data@ =~= spec_encode_segment(ev, block_size as nat));
    }
    Ok(data)
}

/// Every index first key is an entry key, hence fits a `u32` length prefix.
proof fn lemma_index_firsts_fit(es: Seq<EntryV>, bs: nat, j: int)
    requires
        entries_fit(es),
        0 <= j < index_triples(seg_chunks(es, bs)).len(),
    ensures
        index_triples(seg_chunks(es, bs))[j].2.len() <= u32::MAX,
{
    lemma_chunks_partition(es, bs);
    let cs = seg_chunks(es, bs);
    lemma_index_triples_len(cs);
    lemma_index_triples_firsts(cs, j);
    let c = cs[j];
    assert(c.len() > 0);
    lemma_flatten_contains(cs, j, 0);
    let k = choose|k: int| 0 <= k < es.len() && es[k] == c[0];
    assert(es[k].0.len() <= u32::MAX);
}

/// Every entry of every block occurs in the concatenation.
proof fn lemma_flatten_contains(cs: Seq<Seq<EntryV>>, j: int, k: int)
    requires
        0 <= j < cs.len(),
        0 <= k < cs[j].len(),
    ensures
        exists|m: int| 0 <= m < flatten_chunks(cs).len() && flatten_chunks(cs)[m] == cs[j][k],
    decreases cs.len(),
{
    let init = cs.drop_last();
    let f = flatten_chunks(init);
    if j == cs.len() - 1 {
        assert(flatten_chunks(cs)[f.len() + k] == cs[j][k]);
    } else {
        lemma_flatten_contains(init, j, k);
        let m = choose|m: int| 0 <= m < f.len() && f[m] == init[j][k];
        assert(flatten_chunks(cs)[m] == cs[j][k]);
    }
}

/// Concatenation of blocks.
pub open spec fn flatten_chunks(cs: Seq<Seq<EntryV>>) -> Seq<EntryV>
    decreases cs.len(),
{
    if cs.len() == 0 {
        Seq::empty()
    } else {
        flatten_chunks(cs.drop_last()) + cs.last()
    }
}

/// The blocks partition the entry list, in order, and none is empty.
pub proof fn lemma_chunks_partition(es: Seq<EntryV>, bs: nat)
    ensures
        flatten_chunks(seg_chunks(es, bs)) == es,
        forall|j: int|
            0 <= j < seg_chunks(es, bs).len() ==> (#[trigger] seg_chunks(es, bs)[j]).len() > 0,
{
    lemma_split_flatten(es, bs);
    lemma_split_open_short(es, bs);
    let (sealed, cur) = split_blocks(es, bs);
    if cur.len() > 0 {
        assert(sealed.push(cur).drop_last() =~= sealed);
    } else {
        assert(flatten_chunks(sealed) + cur =~= flatten_chunks(sealed));
    }
}

proof fn lemma_split_flatten(es: Seq<EntryV>, bs: nat)
    ensures
        flatten_chunks(split_blocks(es, bs).0) + split_blocks(es, bs).1 == es,
    decreases es.len(),
{
    if es.len() == 0 {
        assert(flatten_chunks(Seq::<Seq<EntryV>>::empty()) + Seq::<EntryV>::empty() =~= es);
    } else {
        lemma_split_flatten(es.drop_last(), bs);
        let (sealed, cur) = split_blocks(es.drop_last(), bs);
        let cur2 = cur.push(es.last());
        assert(es =~= es.drop_last().push(es.last()));
        assert(flatten_chunks(sealed) + cur2 =~= (flatten_chunks(sealed) + cur).push(es.last()));
        if enc_entries(cur2).len() >= bs {
            assert(sealed.push(cur2).drop_last() =~= sealed);
            assert(sealed.push(cur2).last() == cur2);
            assert(flatten_chunks(sealed.push(cur2)) == flatten_chunks(sealed) + cur2);
            assert(flatten_chunks(sealed.push(cur2)) + Seq::<EntryV>::empty() =~= es);
        } else {
            assert(flatten_chunks(sealed) + cur2 =~= es);
        }
    }
}

/// The first key of index record `j` is the first entry of block `j`.
proof fn lemma_index_triples_firsts(cs: Seq<Seq<EntryV>>, j: int)
    requires
        0 <= j < cs.len(),
    ensures
        index_triples(cs).len() == cs.len(),
        index_triples(cs)[j].2 == cs[j][0].0,
        index_triples(cs)[j].0 == frames(cs.take(j)).len() as u32,
        index_triples(cs)[j].1 == frame_bytes(enc_entries(cs[j])).len() as u32,
    decreases cs.len(),
{
    lemma_index_triples_len(cs);
    if j < cs.len() - 1 {
        lemma_index_triples_firsts(cs.drop_last(), j);
        assert(cs.drop_last().take(j) =~= cs.take(j));
    } else {
        assert(cs.take(j) =~= cs.drop_last());
    }
}

proof fn lemma_index_triples_len(cs: Seq<Seq<EntryV>>)
    ensures
        index_triples(cs).len() == cs.len(),
    decreases cs.len(),
{
    if cs.len() > 0 {
        lemma_index_triples_len(cs.drop_last());
    }
}

/// Number of tombstones in an entry list.
pub open spec fn spec_tombstones(es: Seq<EntryV>) -> nat
    decreases es.len(),
{
    if es.len() == 0 {
        0
    } else {
        spec_tombstones(es.drop_last()) + if es.last().1 is None {
            1nat
        } else {
            0nat
        }
    }
}

/// The trailer count and block index of an encoded segment, as located
/// through its trailer.
pub open spec fn spec_segment_index(encoded: Seq<u8>) -> Option<(u64, Seq<BlockMetaV>)> {
    if encoded.len() < 20 {
        None
    } else {
        match spec_parse_tail(encoded.skip(encoded.len() - 20)) {
            None => None,
            Some((count, off, len)) => if off + len > encoded.len() - 20 {
                None
            } else {
                match spec_decode_index(encoded.subrange(off as int, off + len)) {
                    None => None,
                    Some(bs) => Some((count, bs)),
                }
            },
        }
    }
}

/// Build [`SegmentMeta`] from the encoded object and its source entries.
pub fn build_segment_meta(
    id: u64,
    seq: u64,
    encoded: &[u8],
    entries: &SegmentEntries,
    embed_index: bool,
) -> (r: Result<SegmentMeta, Error>)
    ensures
        match r {
            Err(e) => spec_segment_index(encoded@) is None && e is Corrupt,
            Ok(m) => {
                let es = entries_view(entries@);
                &&& spec_segment_index(encoded@) matches Some((count, bs))
                &&& m.id == id
                &&& m.seq == seq
                &&& m.count == count
                &&& m.blocks == bs.len()
                &&& m.bytes == encoded@.len()
                &&& m.tombstones == spec_tombstones(es)
                &&& m.first@ == (if es.len() > 0 {
                    es[0].0
                } else {
                    Seq::empty()
                })
                &&& m.last@ == (if es.len() > 0 {
                    es.last().0
                } else {
                    Seq::empty()
                })
                &&& (embed_index ==> (m.index matches Some(ix) && ix@ == bs))
                &&& (!embed_index ==> m.index is None)
            },
        },
{
    let n = encoded.len();
    if n < TAIL_LEN {
        return Err(Error::corrupt("encoded segment shorter than trailer"));
    }
    let tail = parse_tail(&encoded[n - TAIL_LEN..n])?;
    proof {
        assert(encoded@.subrange(n - 20, n as int) =~= encoded@.skip(n - 20));
    }
    let idx_start = tail.index_offset as u64;
    let idx_end = idx_start + tail.index_len as u64;
    if idx_end > (n - TAIL_LEN) as u64 {
        return Err(Error::corrupt("segment index out of bounds"));
    }
    let index = decode_index(&encoded[idx_start as usize..idx_end as usize])?;
    let blocks = index.blocks.len() as u64;
    let ghost es = entries_view(entries@);
    let mut tombstones: u64 = 0;
    let mut i: usize = 0;
    while i < entries.len()
        invariant
            0 <= i <= entries@.len(),
            es == entries_view(entries@),
            tombstones == spec_tombstones(es.take(i as int)),
            tombstones <= i,
        decreases entries@.len() - i,
    {
        proof {
            assert(es.take(i + 1).drop_last() =~= es.take(i as int));
            assert(es[i as int] == entry_view(entries@[i as int]));
        }
        if entries[i].1.is_none() {
            tombstones = tombstones + 1;
        }
        i = i + 1;
    }
    proof {
        assert(es.take(i as int) =~= es);
    }
    let first = if entries.len() > 0 {
        vstd::slice::slice_to_vec(entries[0].0.as_slice())
    } else {
        Vec::new()
    };
    let last = if entries.len() > 0 {
        vstd::slice::slice_to_vec(entries[entries.len() - 1].0.as_slice())
    } else {
        Vec::new()
    };
    proof {
        if es.len() > 0 {
            assert(es[0] == entry_view(entries@[0]));
            assert(es.last() == entry_view(entries@[entries@.len() - 1]));
        }
    }
    Ok(SegmentMeta {
        id,
        seq,
        first,
        last,
        count: tail.count,
        tombstones,
        bytes: n as u64,
        blocks,
        index: if embed_index {
            Some(index)
        } else {
            None
        },
    })
}

// ---------------------------------------------------------------------------
// the segment format reads back what was written
// ---------------------------------------------------------------------------

proof fn lemma_enc_entries_front(e: EntryV, rest: Seq<EntryV>)
    ensures
        enc_entries(seq![e] + rest) == enc_entry(e) + enc_entries(rest),
    decreases rest.len(),
{
    if rest.len() == 0 {
        assert(seq![e] + rest =~= seq![e]);
        assert(rest =~= Seq::<EntryV>::empty());
        assert(seq![e].drop_last() =~= Seq::<EntryV>::empty());
        assert(seq![e].last() == e);
        assert(enc_entry(e) + Seq::<u8>::empty() =~= enc_entry(e));
        assert(Seq::<u8>::empty() + enc_entry(e) =~= enc_entry(e));
    } else {
        lemma_enc_entries_front(e, rest.drop_last());
        assert((seq![e] + rest).drop_last() =~= seq![e] + rest.drop_last());
        assert((seq![e] + rest).last() == rest.last());
        assert(enc_entry(e) + enc_entries(rest.drop_last()) + enc_entry(rest.last()) =~= enc_entry(
            e,
        ) + (enc_entries(rest.drop_last()) + enc_entry(rest.last())));
    }
}

proof fn lemma_entry_roundtrip(e: EntryV, rest: Seq<u8>)
    requires
        e.0.len() <= u32::MAX,
        e.1 matches Some(v) ==> v.len() <= u32::MAX,
    ensures
        dec_entry(enc_entry(e) + rest) == Some((e, rest)),
        enc_entry(e).len() > 0,
{
    let tail = match e.1 {
        Some(v) => seq![1u8] + enc_bytes(v),
        None => seq![0u8],
    };
    assert(enc_entry(e) + rest =~= enc_bytes(e.0) + (tail + rest));
    crate::codec::lemma_bytes_roundtrip(e.0, tail + rest);
    match e.1 {
        Some(v) => {
            assert((tail + rest).skip(1) =~= enc_bytes(v) + rest);
            crate::codec::lemma_bytes_roundtrip(v, rest);
        },
        None => {
            assert((tail + rest).skip(1) =~= rest);
        },
    }
}

proof fn lemma_entries_roundtrip(es: Seq<EntryV>)
    requires
        entries_fit(es),
    ensures
        dec_entry_list(enc_entries(es)) == Some(es),
    decreases es.len(),
{
    if es.len() == 0 {
        assert(es =~= Seq::<EntryV>::empty());
    } else {
        let rest = es.drop_first();
        assert(es =~= seq![es[0]] + rest);
        lemma_enc_entries_front(es[0], rest);
        assert(es[0].0.len() <= u32::MAX);
        lemma_entry_roundtrip(es[0], enc_entries(rest));
        assert(entries_fit(rest)) by {
            assert forall|i: int| 0 <= i < rest.len() implies (#[trigger] rest[i]).0.len()
                <= u32::MAX && (rest[i].1 matches Some(v) ==> v.len() <= u32::MAX) by {
                assert(rest[i] == es[i + 1]);
            }
        }
        lemma_entries_roundtrip(rest);
    }
}

proof fn lemma_sorted_split(a: Seq<EntryV>, b: Seq<EntryV>)
    requires
        strictly_sorted(a + b),
    ensures
        strictly_sorted(a),
        strictly_sorted(b),
{
    let s = a + b;
    assert forall|i: int, j: int| 0 <= i < j < a.len() implies lex_lt(
        #[trigger] a[i].0,
        #[trigger] a[j].0,
    ) by {
        assert(s[i] == a[i] && s[j] == a[j]);
    }
    assert forall|i: int, j: int| 0 <= i < j < b.len() implies lex_lt(
        #[trigger] b[i].0,
        #[trigger] b[j].0,
    ) by {
        assert(s[a.len() + i] == b[i] && s[a.len() + j] == b[j]);
    }
}

proof fn lemma_fit_split(a: Seq<EntryV>, b: Seq<EntryV>)
    requires
        entries_fit(a + b),
    ensures
        entries_fit(a),
        entries_fit(b),
{
    let s = a + b;
    assert forall|i: int| 0 <= i < a.len() implies (#[trigger] a[i]).0.len() <= u32::MAX && (
    a[i].1 matches Some(v) ==> v.len() <= u32::MAX) by {
        assert(s[i] == a[i]);
    }
    assert forall|i: int| 0 <= i < b.len() implies (#[trigger] b[i]).0.len() <= u32::MAX && (
    b[i].1 matches Some(v) ==> v.len() <= u32::MAX) by {
        assert(s[a.len() + i] == b[i]);
    }
}

/// Every block of a sorted, fitting entry list is itself sorted and fitting.
proof fn lemma_chunk_props(cs: Seq<Seq<EntryV>>, j: int)
    requires
        0 <= j < cs.len(),
        strictly_sorted(flatten_chunks(cs)),
        entries_fit(flatten_chunks(cs)),
    ensures
        strictly_sorted(cs[j]),
        entries_fit(cs[j]),
    decreases cs.len(),
{
    let init = cs.drop_last();
    lemma_sorted_split(flatten_chunks(init), cs.last());
    lemma_fit_split(flatten_chunks(init), cs.last());
    if j < cs.len() - 1 {
        lemma_chunk_props(init, j);
    }
}

/// A framed block decodes back to its entries.
proof fn lemma_block_roundtrip(c: Seq<EntryV>)
    requires
        strictly_sorted(c),
        entries_fit(c),
        enc_entries(c).len() <= u32::MAX,
    ensures
        spec_decode_block(frame_bytes(enc_entries(c))) == Some(c),
        frame_bytes(enc_entries(c)).len() == 8 + enc_entries(c).len(),
{
    let p = enc_entries(c);
    let f = frame_bytes(p);
    vstd::bytes::lemma_auto_spec_u32_to_from_le_bytes();
    assert(f.subrange(0, 4) =~= enc_u32(crc32_ieee(p)));
    assert(f.subrange(4, 8) =~= enc_u32(p.len() as u32));
    assert(f.skip(8) =~= p);
    lemma_entries_roundtrip(c);
}

/// The framed data of the first `j` blocks is a prefix of all framed data.
proof fn lemma_frames_prefix(cs: Seq<Seq<EntryV>>, j: int)
    requires
        0 <= j <= cs.len(),
    ensures
        frames(cs).len() >= frames(cs.take(j)).len(),
        frames(cs).subrange(0, frames(cs.take(j)).len() as int) == frames(cs.take(j)),
    decreases cs.len(),
{
    if j == cs.len() {
        assert(cs.take(j) =~= cs);
        assert(frames(cs).subrange(0, frames(cs).len() as int) =~= frames(cs));
    } else {
        let init = cs.drop_last();
        lemma_frames_prefix(init, j);
        assert(init.take(j) =~= cs.take(j));
        assert(frames(cs).subrange(0, frames(init).len() as int) =~= frames(init));
        assert(frames(cs).subrange(0, frames(cs.take(j)).len() as int) =~= frames(
            init,
        ).subrange(0, frames(cs.take(j)).len() as int));
    }
}

/// Block `j` sits in the framed data right after the first `j` blocks.
proof fn lemma_frames_block(cs: Seq<Seq<EntryV>>, j: int)
    requires
        0 <= j < cs.len(),
    ensures
        frames(cs.take(j)).len() + frame_bytes(enc_entries(cs[j])).len() <= frames(cs).len(),
        frames(cs).subrange(
            frames(cs.take(j)).len() as int,
            frames(cs.take(j)).len() + frame_bytes(enc_entries(cs[j])).len() as int,
        ) == frame_bytes(enc_entries(cs[j])),
{
    lemma_frames_prefix(cs, j + 1);
    let t = cs.take(j + 1);
    assert(t.drop_last() =~= cs.take(j));
    assert(t.last() == cs[j]);
    let a = frames(cs.take(j));
    let f = frame_bytes(enc_entries(cs[j]));
    assert(frames(t) == a + f);
    assert(frames(cs).subrange(a.len() as int, a.len() + f.len() as int) =~= frames(cs).subrange(
        0,
        frames(t).len() as int,
    ).subrange(a.len() as int, a.len() + f.len() as int));
    assert((a + f).subrange(a.len() as int, a.len() + f.len() as int) =~= f);
}

proof fn lemma_frames_len(cs: Seq<Seq<EntryV>>)
    ensures
        frames(cs).len() >= 8 * cs.len(),
    decreases cs.len(),
{
    if cs.len() > 0 {
        lemma_frames_len(cs.drop_last());
        vstd::bytes::lemma_auto_spec_u32_to_from_le_bytes();
    }
}

/// Block metadata records as views.
pub open spec fn metas_of(ts: Seq<(u32, u32, Seq<u8>)>) -> Seq<BlockMetaV> {
    ts.map_values(|t: (u32, u32, Seq<u8>)| BlockMetaV { offset: t.0, len: t.1, first: t.2 })
}

proof fn lemma_triples_roundtrip(ts: Seq<(u32, u32, Seq<u8>)>, rest: Seq<u8>)
    requires
        forall|i: int| 0 <= i < ts.len() ==> (#[trigger] ts[i]).2.len() <= u32::MAX,
    ensures
        dec_block_metas(enc_triples(ts) + rest, ts.len()) == Some((metas_of(ts), rest)),
    decreases ts.len(),
{
    if ts.len() == 0 {
        assert(metas_of(ts) =~= Seq::<BlockMetaV>::empty());
        assert(enc_triples(ts) + rest =~= rest);
    } else {
        let init = ts.drop_last();
        let t = ts.last();
        assert(ts[ts.len() - 1].2.len() <= u32::MAX);
        let tail = enc_u32(t.0) + enc_u32(t.1) + enc_bytes(t.2);
        assert(enc_triples(ts) + rest =~= enc_triples(init) + (tail + rest));
        assert forall|i: int| 0 <= i < init.len() implies (#[trigger] init[i]).2.len()
            <= u32::MAX by {
            assert(init[i] == ts[i]);
        }
        lemma_triples_roundtrip(init, tail + rest);
        assert(tail + rest =~= enc_u32(t.0) + (enc_u32(t.1) + (enc_bytes(t.2) + rest)));
        crate::codec::lemma_u32_roundtrip(t.0, enc_u32(t.1) + (enc_bytes(t.2) + rest));
        crate::codec::lemma_u32_roundtrip(t.1, enc_bytes(t.2) + rest);
        crate::codec::lemma_bytes_roundtrip(t.2, rest);
        assert(metas_of(init).push(BlockMetaV { offset: t.0, len: t.1, first: t.2 }) =~= metas_of(
            ts,
        ));
    }
}

/// Index records of the blocks, with the framed-data facts they rest on.
proof fn lemma_triples_facts(cs: Seq<Seq<EntryV>>, j: int)
    requires
        0 <= j < cs.len(),
        frames(cs).len() <= u32::MAX,
    ensures
        index_triples(cs).len() == cs.len(),
        index_triples(cs)[j].0 == frames(cs.take(j)).len(),
        index_triples(cs)[j].1 == frame_bytes(enc_entries(cs[j])).len(),
        index_triples(cs)[j].2 == cs[j][0].0,
{
    lemma_index_triples_firsts(cs, j);
    lemma_frames_block(cs, j);
}

/// A segment written from sorted, fitting entries reads back exactly: the
/// trailer locates the block index, the index records each block's range and
/// first key, each block range decodes (length and checksum verified) to its
/// block of entries, and the blocks concatenate to the entries they were built from.
/// The block size an encoder uses: at least one entry per block.
pub open spec fn effective_block_size(block_size: nat) -> nat {
    if block_size == 0 {
        1
    } else {
        block_size
    }
}

pub proof fn lemma_segment_roundtrip(es: Seq<EntryV>, block_size: nat)
    requires
        entries_fit(es),
        strictly_sorted(es),
        es.len() <= u64::MAX,
        spec_encode_segment(es, block_size).len() <= u32::MAX,
    ensures
        ({
            let enc = spec_encode_segment(es, block_size);
            let cs = seg_chunks(es, effective_block_size(block_size));
            let metas = metas_of(index_triples(cs));
            &&& spec_segment_index(enc) == Some((es.len() as u64, metas))
            &&& metas.len() == cs.len()
            &&& flatten_chunks(cs) == es
            &&& forall|j: int|
                0 <= j < cs.len() ==> {
                    &&& (#[trigger] metas[j]).first == cs[j][0].0
                    &&& metas[j].offset + metas[j].len <= enc.len()
                    &&& spec_decode_block(
                        enc.subrange(metas[j].offset as int, metas[j].offset + metas[j].len),
                    ) == Some(cs[j])
                }
        }),
{
    let bs = if block_size == 0 {
        1
    } else {
        block_size
    };
    let enc = spec_encode_segment(es, block_size);
    let cs = seg_chunks(es, bs);
    let data = frames(cs);
    let idx = index_bytes(cs);
    let ts = index_triples(cs);
    let metas = metas_of(ts);
    lemma_chunks_partition(es, bs);
    lemma_index_triples_len(cs);
    vstd::bytes::lemma_auto_spec_u32_to_from_le_bytes();
    vstd::bytes::lemma_auto_spec_u64_to_from_le_bytes();
    let trailer = enc_u64(es.len() as u64) + enc_u32(data.len() as u32) + enc_u32(
        idx.len() as u32,
    ) + enc_u32(SEG_TAIL_MAGIC);
    assert(enc =~= data + idx + trailer);
    assert(trailer.len() == 20);
    // trailer
    assert(enc.skip(enc.len() - 20) =~= trailer);
    crate::codec::lemma_u64_roundtrip(
        es.len() as u64,
        enc_u32(data.len() as u32) + (enc_u32(idx.len() as u32) + enc_u32(SEG_TAIL_MAGIC)),
    );
    assert(trailer =~= enc_u64(es.len() as u64) + (enc_u32(data.len() as u32) + (enc_u32(
        idx.len() as u32,
    ) + enc_u32(SEG_TAIL_MAGIC))));
    crate::codec::lemma_u32_roundtrip(
        data.len() as u32,
        enc_u32(idx.len() as u32) + enc_u32(SEG_TAIL_MAGIC),
    );
    crate::codec::lemma_u32_roundtrip(idx.len() as u32, enc_u32(SEG_TAIL_MAGIC));
    crate::codec::lemma_u32_roundtrip(SEG_TAIL_MAGIC, Seq::empty());
    assert(enc_u32(SEG_TAIL_MAGIC) + Seq::<u8>::empty() =~= enc_u32(SEG_TAIL_MAGIC));
    let r1 = enc_u32(data.len() as u32) + (enc_u32(idx.len() as u32) + enc_u32(SEG_TAIL_MAGIC));
    let r2 = enc_u32(idx.len() as u32) + enc_u32(SEG_TAIL_MAGIC);
    assert(dec_u64(trailer) == Some((es.len() as u64, r1)));
    assert(dec_u32(r1) == Some((data.len() as u32, r2)));
    assert(dec_u32(r2) == Some((idx.len() as u32, enc_u32(SEG_TAIL_MAGIC))));
    assert(dec_u32(enc_u32(SEG_TAIL_MAGIC)) == Some((SEG_TAIL_MAGIC, Seq::<u8>::empty())));
    assert(spec_parse_tail(trailer) == Some(
        (es.len() as u64, data.len() as u32, idx.len() as u32),
    ));
    // index
    assert(enc.subrange(data.len() as int, data.len() + idx.len() as int) =~= idx);
    assert forall|i: int| 0 <= i < ts.len() implies (#[trigger] ts[i]).2.len() <= u32::MAX by {
        lemma_index_firsts_fit(es, bs, i);
    }
    lemma_triples_roundtrip(ts, Seq::empty());
    assert(enc_triples(ts) + Seq::<u8>::empty() =~= enc_triples(ts));
    lemma_frames_len(cs);
    crate::codec::lemma_u32_roundtrip(cs.len() as u32, enc_triples(ts));
    assert(spec_decode_index(idx) == Some(metas));
    // blocks
    assert forall|j: int| 0 <= j < cs.len() implies {
        &&& (#[trigger] metas[j]).first == cs[j][0].0
        &&& metas[j].offset + metas[j].len <= enc.len()
        &&& spec_decode_block(enc.subrange(metas[j].offset as int, metas[j].offset + metas[j].len))
            == Some(cs[j])
    } by {
        lemma_triples_facts(cs, j);
        lemma_frames_block(cs, j);
        lemma_chunk_props(cs, j);
        let a = frames(cs.take(j));
        let f = frame_bytes(enc_entries(cs[j]));
        assert(enc.subrange(a.len() as int, a.len() + f.len() as int) =~= data.subrange(
            a.len() as int,
            a.len() + f.len() as int,
        ));
        lemma_block_roundtrip(cs[j]);
    }
}

} // verus!
