//! Engine maintenance logic: manifest publishing, journal buffering and
//! garbage collection, memtable flushes and merge compaction.
use vstd::prelude::*;

use crate::error::Error;
use crate::codec::utf8_to_string;
use crate::keys::{
    dec_digits, find_char, fmt_u128, journal_key_epoch, parse_tail_seq, parse_uint,
    parse_uint_range, spec_journal_key_epoch, spec_parse_tail_seq, str_chars,
};
use crate::text::{trim, trim_range};
use vstd::string::StringExecFns;
use vstd::utf8::{encode_utf8, valid_utf8};
use crate::keys::{current_key, manifest_key, spec_current_key, spec_manifest_key};
use crate::manifest::{Manifest, ManifestCodec, PartitionMeta, PartitionMetaV};
use crate::seqindex::{insert_seq, insert_size, remove_seq, remove_size, seqs_upto, size_map};
use crate::keys::{journal_prefix, parse_journal_tail, spec_journal_prefix, spec_parse_journal_tail};
use crate::state::{
    lemma_named_get_absent, lemma_named_get_at, lemma_named_get_idx, named_get, names_of,
    search_name, EngineState, PartitionState,
};
use crate::store::Store;
use crate::segment::{
    decode_block, decode_index, parse_tail, spec_decode_block, BlockMetaV, EntryV,
    build_segment_meta, encode_segment, entries_fit, entries_view, segments_view,
    spec_encode_segment, spec_segment_index, SegmentEntries, SegmentMeta, SegmentMetaV,
};
use crate::state::{flushes_unique, mem_view, MemEntry, PendingFlush};
use crate::keys::{segment_key, spec_segment_key};

verus! {

/// The smallest watermark among the partitions that `live` admits, if any.
pub open spec fn min_watermark(s: Seq<(String, PartitionMeta)>, live_only: bool) -> Option<u64>
    decreases s.len(),
{
    if s.len() == 0 {
        None
    } else {
        let r = min_watermark(s.drop_last(), live_only);
        let wm = s.last().1.watermark;
        if live_only && s.last().1.dropped {
            r
        } else {
            match r {
                None => Some(wm),
                Some(m) => Some(if m <= wm { m } else { wm }),
            }
        }
    }
}

/// The minimum as a plain number, `0` when no partition counts.
pub open spec fn min_or_zero(m: Option<u64>) -> u64 {
    match m {
        Some(v) => v,
        None => 0,
    }
}

/// The minimum is a lower bound of every counted watermark and is one of them.
pub proof fn lemma_min_watermark(s: Seq<(String, PartitionMeta)>, live_only: bool)
    ensures
        forall|i: int|
            0 <= i < s.len() && !(live_only && s[i].1.dropped) ==> (min_watermark(s, live_only)
                matches Some(m) && m <= (#[trigger] s[i]).1.watermark),
        min_watermark(s, live_only) matches Some(m) ==> exists|i: int|
            0 <= i < s.len() && !(live_only && s[i].1.dropped) && (#[trigger] s[i]).1.watermark
                == m,
    decreases s.len(),
{
    if s.len() > 0 {
        let t = s.drop_last();
        lemma_min_watermark(t, live_only);
        assert forall|i: int| 0 <= i < t.len() implies #[trigger] t[i] == s[i] by {}
        assert forall|i: int|
            0 <= i < s.len() && !(live_only && s[i].1.dropped) implies (min_watermark(s, live_only)
                matches Some(m) && m <= (#[trigger] s[i]).1.watermark) by {
            if i < t.len() {
                assert(t[i] == s[i]);
            } else {
                assert(s[i] == s.last());
            }
        }
        if let Some(m) = min_watermark(s, live_only) {
            if min_watermark(t, live_only) == Some(m) {
                let i = choose|i: int|
                    0 <= i < t.len() && !(live_only && t[i].1.dropped) && (#[trigger] t[i]).1.watermark
                        == m;
                assert(s[i] == t[i]);
            } else {
                assert(s[s.len() - 1] == s.last());
            }
        }
    }
}

/// Minimum watermark across the partitions: only the live (non-dropped) ones
/// when `live_only`, else all of them; `0` when none counts.
///
/// A dropped partition must not drag the journal GC waterline down: removing
/// a partition discards its history, so groups at or below a live partition's
/// watermark never concern it.
pub fn min_watermark_of(st: &EngineState, live_only: bool) -> (r: u64)
    ensures
        r == min_or_zero(min_watermark(st.partitions@, live_only)),
{
    let ghost s = st.partitions@;
    let mut acc: Option<u64> = None;
    let mut i: usize = 0;
    while i < st.partitions.len()
        invariant
            0 <= i <= s.len(),
            s == st.partitions@,
            acc == min_watermark(s.take(i as int), live_only),
        decreases s.len() - i,
    {
        proof {
            assert(s.take(i + 1).drop_last() =~= s.take(i as int));
            assert(s.take(i + 1).last() == s[i as int]);
        }
        let pm = &st.partitions[i].1;
        if !(live_only && pm.dropped) {
            let wm = pm.watermark;
            acc = match acc {
                None => Some(wm),
                Some(m) => Some(if m <= wm { m } else { wm }),
            };
        }
        i = i + 1;
    }
    proof {
        assert(s.take(i as int) =~= s);
    }
    match acc {
        Some(m) => m,
        None => 0,
    }
}

/// The engine-state fields other than the partition metadata are equal.
pub open spec fn same_globals(a: EngineState, b: EngineState) -> bool {
    &&& a.cfg == b.cfg
    &&& a.journal_seq == b.journal_seq
    &&& a.manifest_seq == b.manifest_seq
    &&& a.next_segment_id == b.next_segment_id
    &&& a.journal_seqs == b.journal_seqs
    &&& a.journal_sizes == b.journal_sizes
    &&& a.manifest_bytes == b.manifest_bytes
    &&& a.pending == b.pending
    &&& a.pending_lo == b.pending_lo
    &&& a.journal_flushing == b.journal_flushing
    &&& a.pending_flushes == b.pending_flushes
    &&& a.compactions_completed == b.compactions_completed
    &&& a.fence_epoch == b.fence_epoch
    &&& a.current_bytes == b.current_bytes
    &&& a.published_min_wm == b.published_min_wm
}

/// Equal apart from the journal bookkeeping (buffer, flush flag and tracked
/// journal objects).
pub open spec fn same_but_journal(a: EngineState, b: EngineState) -> bool {
    &&& a.cfg == b.cfg
    &&& a.partitions == b.partitions
    &&& a.journal_seq == b.journal_seq
    &&& a.manifest_seq == b.manifest_seq
    &&& a.next_segment_id == b.next_segment_id
    &&& a.manifest_bytes == b.manifest_bytes
    &&& a.pending_flushes == b.pending_flushes
    &&& a.compactions_completed == b.compactions_completed
    &&& a.fence_epoch == b.fence_epoch
    &&& a.current_bytes == b.current_bytes
    &&& a.published_min_wm == b.published_min_wm
}

/// Mirror a partition's durable metadata into the global metadata table.
/// Nothing changes when the table has no entry for the partition.
pub fn sync_partition_meta(st: &mut EngineState, ps: &PartitionState)
    requires
        old(st).wf(),
    ensures
        final(st).wf(),
        same_globals(*final(st), *old(st)),
        names_of(final(st).partitions@) == names_of(old(st).partitions@),
        match named_get(old(st).partitions@, ps.name@) {
            Some(_) => named_get(final(st).partitions@, ps.name@) matches Some(m) && m@
                == ps.meta@,
            None => final(st).partitions@ == old(st).partitions@,
        },
        forall|n: Seq<char>|
            n != ps.name@ ==> named_get(final(st).partitions@, n) == named_get(
                old(st).partitions@,
                n,
            ),
{
    let (found, pos) = search_name(&st.partitions, ps.name.as_str());
    if !found {
        proof {
            assert forall|i: int| 0 <= i < st.partitions@.len() implies (
            #[trigger] st.partitions@[i]).0@ != ps.name@ by {
                crate::order::lemma_lex_irreflexive(vstd::utf8::encode_utf8(ps.name@));
                assert(names_of(st.partitions@)[i] == st.partitions@[i].0@);
            }
            lemma_named_get_absent(st.partitions@, ps.name@);
        }
        return;
    }
    let ghost old_p = st.partitions@;
    let meta = ps.meta.copy_meta();
    st.partitions[pos].1 = meta;
    proof {
        let new_p = st.partitions@;
        assert(names_of(new_p) =~= names_of(old_p)) by {
            assert forall|i: int| 0 <= i < new_p.len() implies #[trigger] names_of(new_p)[i]
                == names_of(old_p)[i] by {
                if i == pos {
                    assert(new_p[i].0 == old_p[i].0);
                } else {
                    assert(new_p[i] == old_p[i]);
                }
            }
        }
        assert(names_of(old_p)[pos as int] == old_p[pos as int].0@);
        assert(new_p[pos as int].0@ == ps.name@);
        assert(new_p[pos as int].1@ == ps.meta@);
        lemma_named_get_at(new_p, pos as int);
        lemma_named_get_at(old_p, pos as int);
        assert forall|n: Seq<char>| n != ps.name@ implies named_get(new_p, n) == named_get(
            old_p,
            n,
        ) by {
            lemma_named_get_idx(old_p, n);
            lemma_named_get_idx(new_p, n);
            if let Some(v) = named_get(old_p, n) {
                let i = choose|i: int|
                    0 <= i < old_p.len() && (#[trigger] old_p[i]).0@ == n && old_p[i].1 == v;
                assert(i != pos);
                assert(new_p[i] == old_p[i]);
                assert(names_of(new_p)[i] == n);
                lemma_named_get_at(new_p, i);
            } else if let Some(v) = named_get(new_p, n) {
                let i = choose|i: int|
                    0 <= i < new_p.len() && (#[trigger] new_p[i]).0@ == n && new_p[i].1 == v;
                assert(i != pos);
                assert(new_p[i] == old_p[i]);
                assert(names_of(old_p)[i] == n);
                lemma_named_get_at(old_p, i);
            }
        }
    }
}

/// Minimum watermark across live (non-dropped) partitions, `0` when none.
pub fn min_live_watermark(st: &EngineState) -> (r: u64)
    ensures
        r == min_or_zero(min_watermark(st.partitions@, true)),
{
    min_watermark_of(st, true)
}

/// Detach the pending group-commit buffer for an upload: the journal key named
/// by the last assigned sequence and the buffered bytes. Nothing is detached
/// while the buffer is empty or another upload is in flight.
pub fn take_journal_pending(st: &mut EngineState) -> (r: Option<(String, Vec<u8>)>)
    ensures
        (old(st).pending@.len() == 0 || old(st).journal_flushing) ==> r is None && *final(st)
            == *old(st),
        !(old(st).pending@.len() == 0 || old(st).journal_flushing) ==> {
            &&& r matches Some((k, b))
            &&& k@ == spec_journal_key_epoch(
                old(st).cfg.prefix@,
                old(st).journal_seq,
                old(st).fence_epoch,
            )
            &&& b@ == old(st).pending@
            &&& same_but_journal(*final(st), *old(st))
            &&& final(st).journal_flushing
            &&& final(st).pending@.len() == 0
            &&& final(st).pending_lo == old(st).pending_lo
            &&& final(st).journal_seqs == old(st).journal_seqs
            &&& final(st).journal_sizes == old(st).journal_sizes
        },
{
    if st.pending.len() == 0 || st.journal_flushing {
        return None;
    }
    let end = st.journal_seq;
    st.journal_flushing = true;
    let key = journal_key_epoch(st.cfg.prefix.as_str(), end, st.fence_epoch);
    let mut buffer: Vec<u8> = Vec::new();
    std::mem::swap(&mut buffer, &mut st.pending);
    Some((key, buffer))
}

/// Record a successfully uploaded journal object: its end sequence (read back
/// from the key) and byte size become tracked, and the buffer restarts.
pub fn finish_flushed_journal(st: &mut EngineState, key: &str, bytes_len: u64)
    requires
        old(st).wf(),
    ensures
        final(st).wf(),
        same_but_journal(*final(st), *old(st)),
        !final(st).journal_flushing,
        final(st).pending_lo == 0,
        final(st).pending == old(st).pending,
        match spec_parse_tail_seq(key@) {
            Some(end) => final(st).journal_seqs@.to_set() == old(st).journal_seqs@.to_set().insert(
                end,
            ) && size_map(final(st).journal_sizes@) == size_map(old(st).journal_sizes@).insert(
                end,
                bytes_len,
            ),
            None => final(st).journal_seqs == old(st).journal_seqs && final(st).journal_sizes
                == old(st).journal_sizes,
        },
{
    st.journal_flushing = false;
    if let Some(end) = parse_tail_seq(key) {
        insert_seq(&mut st.journal_seqs, end);
        insert_size(&mut st.journal_sizes, end, bytes_len);
    }
    st.pending_lo = 0;
}

/// Abort a detached upload: its buffer goes back in front of any groups
/// buffered meanwhile, so no acknowledged group is lost.
pub fn abort_journal_flush(st: &mut EngineState, buffer: Vec<u8>)
    ensures
        same_but_journal(*final(st), *old(st)),
        !final(st).journal_flushing,
        final(st).pending@ == buffer@ + old(st).pending@,
        final(st).pending_lo == old(st).pending_lo,
        final(st).journal_seqs == old(st).journal_seqs,
        final(st).journal_sizes == old(st).journal_sizes,
{
    st.journal_flushing = false;
    if buffer.len() == 0 {
        proof {
            assert(buffer@ + st.pending@ =~= st.pending@);
        }
        return;
    }
    if st.pending.len() == 0 {
        proof {
            assert(buffer@ + st.pending@ =~= buffer@);
        }
        st.pending = buffer;
    } else {
        let mut restored = buffer;
        let mut i: usize = 0;
        let ghost b0 = restored@;
        while i < st.pending.len()
            invariant
                0 <= i <= st.pending@.len(),
                restored@ == b0 + st.pending@.take(i as int),
            decreases st.pending@.len() - i,
        {
            restored.push(st.pending[i]);
            proof {
                assert(st.pending@.take(i + 1) =~= st.pending@.take(i as int).push(st.pending@[i as int]));
                assert(b0 + st.pending@.take(i + 1) =~= (b0 + st.pending@.take(i as int)).push(st.pending@[i as int]));
            }
            i = i + 1;
        }
        proof {
            assert(st.pending@.take(i as int) =~= st.pending@);
        }
        st.pending = restored;
    }
}

/// Flush the pending group-commit buffer into one journal object covering the
/// buffered groups. The object is written at the key and with the bytes that
/// [`take_journal_pending`] detaches; on a failed write the buffer is kept.
pub fn flush_journal_pending<S: Store>(store: &mut S, st: &mut EngineState) -> (r: Result<(), Error>)
    requires
        old(st).wf(),
    ensures
        final(st).wf(),
        (old(st).pending@.len() == 0 || old(st).journal_flushing) ==> r is Ok && *final(st)
            == *old(st),
        !(old(st).pending@.len() == 0 || old(st).journal_flushing) ==> match r {
            Ok(()) => {
                &&& same_but_journal(*final(st), *old(st))
                &&& !final(st).journal_flushing
                &&& final(st).pending_lo == 0
                &&& final(st).pending@.len() == 0
                &&& final(st).journal_seqs@.to_set() == old(st).journal_seqs@.to_set().insert(
                    old(st).journal_seq,
                )
                &&& size_map(final(st).journal_sizes@) == size_map(old(st).journal_sizes@).insert(
                    old(st).journal_seq,
                    old(st).pending@.len() as u64,
                )
            },
            Err(_) => same_but_journal(*final(st), *old(st)) && final(st).pending@ == old(st).pending@ && final(st).pending_lo == old(st).pending_lo && final(st).journal_seqs
                == old(st).journal_seqs && final(st).journal_sizes == old(st).journal_sizes
                && !final(st).journal_flushing,
        },
{
    let ghost st0 = *st;
    let (key, buffer) = match take_journal_pending(st) {
        None => return Ok(()),
        Some(kb) => kb,
    };
    let bytes = buffer.len() as u64;
    match store.put(key.as_str(), buffer.as_slice()) {
        Err(e) => {
            abort_journal_flush(st, buffer);
            proof {
                assert(st.pending@ =~= st0.pending@);
            }
            Err(e)
        },
        Ok(()) => {
            proof {
                crate::keys::lemma_keys_parse_back(st0.cfg.prefix@, Seq::empty(), st0.journal_seq, st0.fence_epoch);
            }
            finish_flushed_journal(st, key.as_str(), bytes);
            Ok(())
        },
    }
}

/// The text of the `current` pointer: the manifest sequence in decimal, then
/// the fencing epoch on a second line for fenced (leased) writers.
pub open spec fn spec_current_text(seq: u64, epoch: u128) -> Seq<char> {
    if epoch == 0 {
        dec_digits(seq as nat)
    } else {
        dec_digits(seq as nat) + seq!['\n'] + dec_digits(epoch as nat)
    }
}

/// The bytes of the `current` pointer naming manifest `seq` under `epoch`.
pub fn current_payload(seq: u64, epoch: u128) -> (b: Vec<u8>)
    ensures
        b@ == encode_utf8(spec_current_text(seq, epoch)),
{
    let mut s = fmt_u128(seq as u128);
    proof {
        reveal_strlit("\n");
        assert(s@ == dec_digits(seq as nat));
    }
    if epoch != 0 {
        s.append("\n");
        let e = fmt_u128(epoch);
        s.append(e.as_str());
        assert(s@ =~= spec_current_text(seq, epoch));
    }
    let t = s.as_str();
    assert(t@ == spec_current_text(seq, epoch));
    vstd::slice::slice_to_vec(t.as_bytes())
}

/// What the `current` pointer text names: the manifest sequence and the
/// fencing epoch (`0` when the text has no second line). Each line is read
/// with surrounding whitespace ignored, as `str::trim` then `parse` do.
pub open spec fn spec_parse_current(text: Seq<char>) -> Option<(u64, u128)> {
    match find_char(text, '\n') {
        Some(i) => match (
            parse_uint(trim(text.take(i)), u64::MAX as nat),
            parse_uint(trim(text.skip(i + 1)), u128::MAX as nat),
        ) {
            (Some(s), Some(e)) => Some((s as u64, e as u128)),
            _ => None,
        },
        None => match parse_uint(trim(text), u64::MAX as nat) {
            Some(s) => Some((s as u64, 0)),
            None => None,
        },
    }
}

/// The `current` pointer written for a manifest reads back as that manifest
/// and epoch.
/// `bytes` is a `current` pointer naming fencing epoch `epoch`.
pub open spec fn current_names_epoch(bytes: Seq<u8>, epoch: u128) -> bool {
    exists|t: Seq<char>|
        encode_utf8(t) == bytes && #[trigger] spec_parse_current(t) is Some
            && spec_parse_current(t).unwrap().1 == epoch
}

/// The fencing epoch in force is the one the last published `current`
/// pointer names (epoch 0 while nothing was published).
pub open spec fn anchored(st: EngineState) -> bool {
    match st.current_bytes {
        None => st.fence_epoch == 0,
        Some(b) => current_names_epoch(b@, st.fence_epoch),
    }
}

/// A pointer written for `epoch` names `epoch`.
pub proof fn lemma_pointer_names_epoch(seq: u64, epoch: u128)
    ensures
        current_names_epoch(encode_utf8(spec_current_text(seq, epoch)), epoch),
{
    lemma_current_roundtrip(seq, epoch);
    assert(spec_parse_current(spec_current_text(seq, epoch)) is Some);
}

pub proof fn lemma_current_roundtrip(seq: u64, epoch: u128)
    ensures
        spec_parse_current(spec_current_text(seq, epoch)) == Some((seq, epoch)),
{
    let ds = dec_digits(seq as nat);
    crate::keys::lemma_dec_digits(seq as nat);
    crate::keys::lemma_parse_dec_pad(seq as nat, 0, u64::MAX as nat);
    crate::lease::lemma_trim_digits(ds);
    assert forall|j: int| 0 <= j < ds.len() implies ds[j] != '\n' by {
        assert(crate::keys::is_digit(ds[j]));
    }
    if epoch == 0 {
        lemma_find_first(ds, '\n', ds.len() as int);
    } else {
        let de = dec_digits(epoch as nat);
        crate::keys::lemma_dec_digits(epoch as nat);
        crate::keys::lemma_parse_dec_pad(epoch as nat, 0, u128::MAX as nat);
        crate::lease::lemma_trim_digits(de);
        let t = spec_current_text(seq, epoch);
        assert forall|j: int| 0 <= j < ds.len() implies t[j] != '\n' by {
            assert(t[j] == ds[j]);
        }
        lemma_find_first(t, '\n', ds.len() as int);
        assert(t.take(ds.len() as int) =~= ds);
        assert(t.skip(ds.len() as int + 1) =~= de);
    }
}

/// A parse with a smaller bound is the larger parse restricted to it.
pub proof fn lemma_parse_uint_bound(s: Seq<char>)
    ensures
        parse_uint(s, u64::MAX as nat) == (match parse_uint(s, u128::MAX as nat) {
            Some(v) => if v <= u64::MAX {
                Some(v)
            } else {
                None
            },
            None => None,
        }),
{
}

/// Parse the `current` pointer object: the manifest sequence it names and the
/// fencing epoch it carries. Anything that is not UTF-8 text of that shape is
/// corrupt.
pub fn parse_current(bytes: &[u8]) -> (r: Result<(u64, u128), Error>)
    ensures
        match r {
            Ok(v) => valid_utf8(bytes@) && exists|t: Seq<char>|
                encode_utf8(t) == bytes@ && spec_parse_current(t) == Some(v),
            Err(e) => e is Corrupt && (valid_utf8(bytes@) ==> forall|t: Seq<char>|
                encode_utf8(t) == bytes@ ==> spec_parse_current(t) is None),
        },
{
    let text = match utf8_to_string(vstd::slice::slice_to_vec(bytes)) {
        Some(t) => t,
        None => {
            return Err(Error::corrupt("current not utf-8"));
        },
    };
    proof {
        assert forall|t: Seq<char>| encode_utf8(t) == bytes@ implies t == text@ by {
            crate::state::lemma_encode_injective(t, text@);
        }
    }
    let cs = str_chars(text.as_str());
    let n = cs.len();
    let mut i: usize = 0;
    while i < n && cs[i] != '\n'
        invariant
            0 <= i <= n,
            n == cs@.len(),
            forall|j: int| 0 <= j < i ==> cs@[j] != '\n',
        decreases n - i,
    {
        i = i + 1;
    }
    proof {
        lemma_find_first(cs@, '\n', i as int);
        lemma_parse_uint_bound(trim(cs@.take(i as int)));
        lemma_parse_uint_bound(trim(cs@));
        assert(cs@.subrange(0, i as int) =~= cs@.take(i as int));
        assert(cs@.subrange(0, n as int) =~= cs@);
        if i < n {
            assert(cs@.subrange(i + 1, n as int) =~= cs@.skip(i + 1));
        }
    }
    let (slo, shi) = if i < n { trim_range(&cs, 0, i) } else { trim_range(&cs, 0, n) };
    let mut epoch: u128 = 0;
    if i < n {
        let (elo, ehi) = trim_range(&cs, i + 1, n);
        epoch = match parse_uint_range(&cs, elo, ehi) {
            Some(e) => e,
            None => {
                return Err(Error::corrupt("current epoch is not a number"));
            },
        };
    }
    let seq = match parse_uint_range(&cs, slo, shi) {
        Some(v) => if v <= 0xffff_ffff_ffff_ffffu128 {
            v as u64
        } else {
            return Err(Error::corrupt("current is not a manifest sequence"));
        },
        None => {
            return Err(Error::corrupt("current is not a manifest sequence"));
        },
    };
    Ok((seq, epoch))
}

/// `find_char` finds the first occurrence.
pub proof fn lemma_find_first(s: Seq<char>, c: char, i: int)
    requires
        0 <= i <= s.len(),
        forall|j: int| 0 <= j < i ==> s[j] != c,
        i < s.len() ==> s[i] == c,
    ensures
        find_char(s, c) == (if i < s.len() {
            Some(i)
        } else {
            None::<int>
        }),
    decreases s.len(),
{
    if s.len() > 0 && i > 0 {
        assert forall|j: int| 0 <= j < i - 1 implies s.drop_first()[j] != c by {
            assert(s.drop_first()[j] == s[j + 1]);
        }
        if i < s.len() {
            assert(s.drop_first()[i - 1] == s[i]);
        }
        lemma_find_first(s.drop_first(), c, i - 1);
    }
}

/// Views of a name-keyed partition metadata list.
pub open spec fn partitions_view(s: Seq<(String, PartitionMeta)>) -> Seq<(Seq<char>, PartitionMetaV)> {
    s.map_values(|e: (String, PartitionMeta)| (e.0@, e.1@))
}

/// An equal copy of a partition metadata list.
pub fn copy_partitions(s: &Vec<(String, PartitionMeta)>) -> (r: Vec<(String, PartitionMeta)>)
    ensures
        partitions_view(r@) == partitions_view(s@),
        names_of(r@) == names_of(s@),
{
    let mut out: Vec<(String, PartitionMeta)> = Vec::new();
    let mut i: usize = 0;
    while i < s.len()
        invariant
            0 <= i <= s@.len(),
            partitions_view(out@) == partitions_view(s@).take(i as int),
            names_of(out@) == names_of(s@).take(i as int),
        decreases s@.len() - i,
    {
        let e = (s[i].0.clone(), s[i].1.copy_meta());
        proof {
            assert(partitions_view(s@).take(i + 1) =~= partitions_view(s@).take(i as int).push(
                (s@[i as int].0@, s@[i as int].1@),
            ));
            assert(partitions_view(out@.push(e)) =~= partitions_view(out@).push((e.0@, e.1@)));
            assert(names_of(s@).take(i + 1) =~= names_of(s@).take(i as int).push(s@[i as int].0@));
            assert(names_of(out@.push(e)) =~= names_of(out@).push(e.0@));
        }
        out.push(e);
        i = i + 1;
    }
    proof {
        assert(partitions_view(s@).take(i as int) =~= partitions_view(s@));
        assert(names_of(s@).take(i as int) =~= names_of(s@));
    }
    out
}

/// The manifest snapshot numbered `seq` describing the engine state.
pub fn build_manifest(st: &EngineState, seq: u64) -> (m: Manifest)
    ensures
        m.seq == seq,
        m.next_segment_id == st.next_segment_id,
        m.next_journal_seq == st.journal_seq,
        m.fence_epoch == st.fence_epoch,
        partitions_view(m.partitions@) == partitions_view(st.partitions@),
        names_of(m.partitions@) == names_of(st.partitions@),
{
    Manifest {
        seq,
        next_segment_id: st.next_segment_id,
        next_journal_seq: st.journal_seq,
        partitions: copy_partitions(&st.partitions),
        fence_epoch: st.fence_epoch,
    }
}

/// Equal apart from the manifest bookkeeping and the journal bookkeeping.
pub open spec fn same_but_publish(a: EngineState, b: EngineState) -> bool {
    &&& a.cfg == b.cfg
    &&& a.partitions == b.partitions
    &&& a.journal_seq == b.journal_seq
    &&& a.next_segment_id == b.next_segment_id
    &&& a.pending_flushes == b.pending_flushes
    &&& a.compactions_completed == b.compactions_completed
    &&& a.fence_epoch == b.fence_epoch
}

/// The journal bookkeeping either stayed as it was or the pending buffer was
/// flushed into the journal object of the last assigned sequence.
pub open spec fn journal_kept_or_flushed(a: EngineState, b: EngineState) -> bool {
    ||| (a.pending@ == b.pending@ && a.pending_lo == b.pending_lo && a.journal_seqs == b.journal_seqs
        && a.journal_sizes == b.journal_sizes && a.journal_flushing == b.journal_flushing)
    ||| (a.pending@.len() == 0 && a.pending_lo == 0 && !a.journal_flushing
        && a.journal_seqs@.to_set() == b.journal_seqs@.to_set().insert(b.journal_seq) && size_map(
        a.journal_sizes@,
    ) == size_map(b.journal_sizes@).insert(b.journal_seq, b.pending@.len() as u64))
}

/// Publish a new manifest snapshot: write `manifest/<seq+1>`, then flip the
/// `current` pointer, the single atomic visibility point. A fenced writer
/// flips it only with a compare-and-swap against the pointer it last saw (or
/// a create when it saw none), so a writer whose lease was taken over fails
/// with a store error instead of publishing.
///
/// In group-commit mode the pending journal buffer is made durable first. The
/// manifest sequence is consumed even when a later step fails.
pub fn publish_manifest<S: Store, C: ManifestCodec>(
    store: &mut S,
    codec: &C,
    st: &mut EngineState,
) -> (r: Result<(), Error>)
    requires
        old(st).wf(),
        old(st).manifest_seq < u64::MAX,
    ensures
        final(st).wf(),
        same_but_publish(*final(st), *old(st)),
        journal_kept_or_flushed(*final(st), *old(st)),
        final(st).manifest_seq == old(st).manifest_seq || final(st).manifest_seq
            == old(st).manifest_seq + 1,
        match r {
            Ok(()) => {
                &&& final(st).manifest_seq == old(st).manifest_seq + 1
                &&& final(st).current_bytes matches Some(b) && b@ == encode_utf8(
                    spec_current_text(final(st).manifest_seq, old(st).fence_epoch),
                )
                &&& final(st).published_min_wm == min_or_zero(
                    min_watermark(old(st).partitions@, true),
                )
                &&& (old(st).cfg.journal_window_ms is Some && !old(st).journal_flushing
                    ==> final(st).pending@.len() == 0)
            },
            Err(_) => final(st).current_bytes == old(st).current_bytes
                && final(st).published_min_wm == old(st).published_min_wm,
        },
        anchored(*old(st)) ==> anchored(*final(st)),
{
    if st.cfg.journal_window_ms.is_some() && st.pending.len() > 0 {
        let ghost st0 = *st;
        let f = flush_journal_pending(store, st);
        if f.is_err() {
            proof {
                assert(!st0.journal_flushing);
            }
            return f;
        }
    }
    let seq = st.manifest_seq + 1;
    let man = build_manifest(st, seq);
    st.manifest_seq = seq;
    let bytes = codec.encode_manifest(&man)?;
    st.manifest_bytes = bytes.len() as u64;
    let mkey = manifest_key(st.cfg.prefix.as_str(), seq);
    store.put(mkey.as_str(), bytes.as_slice())?;
    let new_current = current_payload(seq, st.fence_epoch);
    let ckey = current_key(st.cfg.prefix.as_str());
    if st.fence_epoch != 0 {
        let ok = match &st.current_bytes {
            Some(expected) => store.put_if_matches(
                ckey.as_str(),
                expected.as_slice(),
                new_current.as_slice(),
            )?,
            None => store.create(ckey.as_str(), new_current.as_slice())?,
        };
        if !ok {
            return Err(Error::store("fenced: manifest current changed"));
        }
    } else {
        store.put(ckey.as_str(), new_current.as_slice())?;
    }
    st.current_bytes = Some(new_current);
    st.published_min_wm = min_live_watermark(st);
    proof {
        lemma_pointer_names_epoch(st.manifest_seq, st.fence_epoch);
    }
    Ok(())
}

/// The memtable as a segment entry list (values and tombstones, key order).
pub fn memtable_entries(mem: &Vec<(Vec<u8>, MemEntry)>) -> (r: SegmentEntries)
    ensures
        entries_view(r@) == mem_view(mem@),
{
    let mut out: SegmentEntries = Vec::new();
    let mut i: usize = 0;
    while i < mem.len()
        invariant
            0 <= i <= mem@.len(),
            entries_view(out@) == mem_view(mem@).take(i as int),
        decreases mem@.len() - i,
    {
        let k = vstd::slice::slice_to_vec(mem[i].0.as_slice());
        let v = match &mem[i].1 {
            MemEntry::Value(v) => Some(vstd::slice::slice_to_vec(v.as_slice())),
            MemEntry::Tombstone => None,
        };
        let e = (k, v);
        proof {
            assert(mem_view(mem@).take(i + 1) =~= mem_view(mem@).take(i as int).push(
                mem_view(mem@)[i as int],
            ));
            assert(entries_view(out@.push(e)) =~= entries_view(out@).push(
                crate::segment::entry_view(e),
            ));
        }
        out.push(e);
        i = i + 1;
    }
    proof {
        assert(mem_view(mem@).take(i as int) =~= mem_view(mem@));
    }
    out
}

/// What a segment's metadata records about the entries and encoding it was
/// built from.
pub open spec fn meta_describes(
    m: SegmentMetaV,
    id: u64,
    seq: u64,
    encoded: Seq<u8>,
    es: Seq<crate::segment::EntryV>,
) -> bool {
    &&& spec_segment_index(encoded) matches Some((count, bs))
    &&& m.id == id
    &&& m.seq == seq
    &&& m.count == count
    &&& m.blocks == bs.len()
    &&& m.bytes == encoded.len()
    &&& m.tombstones == crate::segment::spec_tombstones(es)
    &&& m.first == (if es.len() > 0 {
        es[0].0
    } else {
        Seq::empty()
    })
    &&& m.last == (if es.len() > 0 {
        es.last().0
    } else {
        Seq::empty()
    })
}

/// Flush one partition's memtable into an immutable segment object and
/// publish it: the segment is written at the key of the next segment id, the
/// memtable empties, the watermark advances to the last journal sequence and a
/// manifest is published. Dropped partitions and empty memtables are left
/// alone.
pub fn flush_partition<S: Store, C: ManifestCodec>(
    store: &mut S,
    codec: &C,
    st: &mut EngineState,
    ps: &mut PartitionState,
) -> (r: Result<(), Error>)
    requires
        old(st).wf(),
        old(ps).wf(),
        old(st).manifest_seq < u64::MAX,
        old(st).next_segment_id < u64::MAX,
    ensures
        final(st).wf(),
        final(ps).wf(),
        final(ps).name == old(ps).name,
        final(st).cfg == old(st).cfg,
        final(st).journal_seq == old(st).journal_seq,
        final(st).pending_flushes == old(st).pending_flushes,
        final(st).compactions_completed == old(st).compactions_completed,
        final(st).fence_epoch == old(st).fence_epoch,
        final(st).manifest_seq <= old(st).manifest_seq + 1,
        final(st).next_segment_id <= old(st).next_segment_id + 1,
        names_of(final(st).partitions@) == names_of(old(st).partitions@),
        (old(ps).meta.dropped || old(ps).mem@.len() == 0) ==> r is Ok && *final(st) == *old(st)
            && *final(ps) == *old(ps),
        !(old(ps).meta.dropped || old(ps).mem@.len() == 0) && r is Ok ==> {
            let es = mem_view(old(ps).mem@);
            &&& final(st).next_segment_id == old(st).next_segment_id + 1
            &&& final(ps).mem@.len() == 0
            &&& final(ps).mem_bytes == 0
            &&& final(ps).meta.watermark == old(st).journal_seq
            &&& !final(ps).meta.dropped
            &&& final(ps).meta.segments@.len() == old(ps).meta.segments@.len() + 1
            &&& segments_view(final(ps).meta.segments@).drop_last() == segments_view(
                old(ps).meta.segments@,
            )
            &&& meta_describes(
                final(ps).meta.segments@.last()@,
                old(st).next_segment_id,
                old(st).journal_seq,
                spec_encode_segment(es, old(st).cfg.block_size as nat),
                es,
            )
            &&& final(st).manifest_seq == old(st).manifest_seq + 1
            &&& final(st).current_bytes matches Some(b) && b@ == encode_utf8(
                spec_current_text(final(st).manifest_seq, old(st).fence_epoch),
            )
        },
        r is Err ==> final(st).current_bytes == old(st).current_bytes,
        anchored(*old(st)) ==> anchored(*final(st)),
        final(ps).mem == old(ps).mem || final(ps).mem@.len() == 0,
        final(ps).compacting == old(ps).compacting,
        final(ps).meta.dropped == old(ps).meta.dropped,
        final(ps).mem@.len() > 0 ==> *final(ps) == *old(ps),
        final(ps).meta.segments@.len() <= old(ps).meta.segments@.len() + 1,
        final(ps).mem@.len() == 0 && old(ps).mem@.len() > 0 ==> {
            let es = mem_view(old(ps).mem@);
            &&& final(ps).meta.segments@.len() == old(ps).meta.segments@.len() + 1
            &&& meta_describes(
                final(ps).meta.segments@.last()@,
                old(st).next_segment_id,
                old(st).journal_seq,
                spec_encode_segment(es, old(st).cfg.block_size as nat),
                es,
            )
        },
{
    if ps.meta.dropped || ps.mem.len() == 0 {
        return Ok(());
    }
    let entries = memtable_entries(&ps.mem);
    let encoded = encode_segment(&entries, st.cfg.block_size as usize)?;
    let id = st.next_segment_id;
    st.next_segment_id = st.next_segment_id + 1;
    let key = segment_key(st.cfg.prefix.as_str(), ps.name.as_str(), id);
    store.put(key.as_str(), encoded.as_slice())?;
    let meta = build_segment_meta(
        id,
        st.journal_seq,
        encoded.as_slice(),
        &entries,
        st.cfg.manifest_embed_index,
    )?;
    let ghost old_segs = ps.meta.segments@;
    ps.meta.segments.push(meta);
    proof {
        assert(segments_view(ps.meta.segments@).drop_last() =~= segments_view(old_segs));
    }
    ps.meta.watermark = st.journal_seq;
    ps.mem.clear();
    ps.mem_bytes = 0;
    proof {
        assert(mem_view(ps.mem@) =~= Seq::<crate::segment::EntryV>::empty());
    }
    sync_partition_meta(st, ps);
    publish_manifest(store, codec, st)
}

/// The journal bookkeeping other than the tracked objects is unchanged.
pub open spec fn same_journal_buffer(a: EngineState, b: EngineState) -> bool {
    &&& a.pending == b.pending
    &&& a.pending_lo == b.pending_lo
    &&& a.journal_flushing == b.journal_flushing
}

/// Delete the journal objects whose sequence is at or below the watermark of
/// the last published manifest (they are folded into durable segments or were
/// deliberately discarded) and stop tracking them. Never goes beyond the last
/// published watermark: until a manifest references a flush, its journal
/// objects are the only durable record. Failed deletes are ignored.
pub fn gc_journal<S: Store>(store: &mut S, st: &mut EngineState)
    requires
        old(st).wf(),
    ensures
        final(st).wf(),
        same_but_journal(*final(st), *old(st)),
        same_journal_buffer(*final(st), *old(st)),
        old(st).published_min_wm == 0 ==> *final(st) == *old(st) && *final(store) == *old(store),
        old(st).published_min_wm != 0 ==> {
            let wm = old(st).published_min_wm;
            &&& final(st).journal_seqs@.to_set() == old(st).journal_seqs@.to_set().filter(
                |s: u64| s > wm,
            )
            &&& size_map(final(st).journal_sizes@) == size_map(
                old(st).journal_sizes@,
            ).remove_keys(old(st).journal_seqs@.to_set().filter(|s: u64| s <= wm))
        },
{
    let wm = st.published_min_wm;
    if wm == 0 {
        return;
    }
    let ghost seqs0 = st.journal_seqs@.to_set();
    let ghost sizes0 = size_map(st.journal_sizes@);
    let doomed = seqs_upto(&st.journal_seqs, wm);
    let mut j: usize = 0;
    while j < doomed.len()
        invariant
            0 <= j <= doomed@.len(),
            st.wf(),
            doomed@.to_set() == seqs0.filter(|s: u64| s <= wm),
            st.journal_seqs@.to_set() == seqs0.difference(doomed@.take(j as int).to_set()),
            size_map(st.journal_sizes@) == sizes0.remove_keys(doomed@.take(j as int).to_set()),
            same_but_journal(*st, *old(st)),
            same_journal_buffer(*st, *old(st)),
            st.published_min_wm == wm,
        decreases doomed@.len() - j,
    {
        let s = doomed[j];
        let key = journal_key_epoch(st.cfg.prefix.as_str(), s, st.fence_epoch);
        let _ = store.delete(key.as_str());
        remove_seq(&mut st.journal_seqs, s);
        remove_size(&mut st.journal_sizes, s);
        proof {
            assert(doomed@.take(j + 1) =~= doomed@.take(j as int).push(s));
            assert(doomed@.take(j + 1).to_set() =~= doomed@.take(j as int).to_set().insert(s)) by {
                doomed@.take(j as int).lemma_push_to_set_commute(s);
            }
            assert(st.journal_seqs@.to_set() =~= seqs0.difference(doomed@.take(j + 1).to_set()));
            assert(size_map(st.journal_sizes@) =~= sizes0.remove_keys(doomed@.take(j + 1).to_set()));
        }
        j = j + 1;
    }
    proof {
        assert(doomed@.take(j as int) =~= doomed@);
        assert(st.journal_seqs@.to_set() =~= seqs0.filter(|s: u64| s > wm));
    }
}

/// The sequence of a journal object to reclaim: one of another epoch than
/// `epoch` whose sequence is at or below `wm`.
pub open spec fn spec_foreign_journal_seq(key: Seq<char>, root: Seq<char>, epoch: u128, wm: u64) -> Option<u64> {
    match spec_parse_journal_tail(key, root) {
        Some((e, s)) => if e != epoch && s <= wm {
            Some(s)
        } else {
            None
        },
        None => None,
    }
}

/// Whether `key` is a journal object of a superseded epoch that is already
/// folded into the published manifest, and its sequence if so.
pub fn foreign_journal_seq(key: &str, root: &str, epoch: u128, wm: u64) -> (r: Option<u64>)
    ensures
        r == spec_foreign_journal_seq(key@, root@, epoch, wm),
{
    match parse_journal_tail(key, root) {
        Some((e, s)) => if e != epoch && s <= wm {
            Some(s)
        } else {
            None
        },
        None => None,
    }
}

/// Delete the journal objects of superseded epochs already folded into the
/// published manifest (sequence at or below the published watermark), and
/// stop tracking their sequences. Objects above the watermark are kept. A
/// failed listing leaves everything as it was; failed deletes are ignored.
pub fn gc_foreign_journals<S: Store>(store: &mut S, st: &mut EngineState) -> (r: Result<(), Error>)
    requires
        old(st).wf(),
    ensures
        final(st).wf(),
        same_but_journal(*final(st), *old(st)),
        same_journal_buffer(*final(st), *old(st)),
        (r is Err || old(st).published_min_wm == 0) ==> final(st).journal_seqs == old(st).journal_seqs && final(st).journal_sizes == old(st).journal_sizes,
        final(st).journal_seqs@.to_set().subset_of(old(st).journal_seqs@.to_set()),
        forall|s: u64|
            old(st).journal_seqs@.to_set().contains(s) && !final(st).journal_seqs@.to_set().contains(s) ==> s <= old(st).published_min_wm,
        forall|s: u64|
            #[trigger] size_map(old(st).journal_sizes@).contains_key(s) ==> (size_map(
                final(st).journal_sizes@,
            ).contains_key(s) && size_map(final(st).journal_sizes@)[s] == size_map(
                old(st).journal_sizes@,
            )[s]) || s <= old(st).published_min_wm,
        size_map(final(st).journal_sizes@).dom().subset_of(size_map(old(st).journal_sizes@).dom()),
        old(st).published_min_wm == 0 ==> r is Ok && *final(st) == *old(st) && *final(store) == *old(store),
{
    let root = journal_prefix(st.cfg.prefix.as_str());
    let wm = st.published_min_wm;
    if wm == 0 {
        return Ok(());
    }
    let epoch = st.fence_epoch;
    let keys = store.list(root.as_str())?;
    let ghost seqs0 = st.journal_seqs@.to_set();
    let ghost sizes0 = size_map(st.journal_sizes@);
    let mut j: usize = 0;
    while j < keys.len()
        invariant
            0 <= j <= keys@.len(),
            st.wf(),
            same_but_journal(*st, *old(st)),
            same_journal_buffer(*st, *old(st)),
            st.published_min_wm == wm,
            seqs0 == old(st).journal_seqs@.to_set(),
            sizes0 == size_map(old(st).journal_sizes@),
            st.journal_seqs@.to_set().subset_of(seqs0),
            forall|s: u64| seqs0.contains(s) && !st.journal_seqs@.to_set().contains(s) ==> s <= wm,
            forall|s: u64|
                #[trigger] sizes0.contains_key(s) ==> (size_map(st.journal_sizes@).contains_key(s)
                    && size_map(st.journal_sizes@)[s] == sizes0[s]) || s <= wm,
            size_map(st.journal_sizes@).dom().subset_of(sizes0.dom()),
        decreases keys@.len() - j,
    {
        if let Some(s) = foreign_journal_seq(keys[j].as_str(), root.as_str(), epoch, wm) {
            let _ = store.delete(keys[j].as_str());
            remove_seq(&mut st.journal_seqs, s);
            remove_size(&mut st.journal_sizes, s);
        }
        j = j + 1;
    }
    Ok(())
}

/// An equal copy of a pending flush.
pub fn copy_flush(p: &PendingFlush) -> (r: PendingFlush)
    ensures
        r.partition@ == p.partition@,
        r.watermark == p.watermark,
        r.segment_id == p.segment_id,
        r.encoded@ == p.encoded@,
        entries_view(r.entries@) == entries_view(p.entries@),
{
    PendingFlush {
        partition: p.partition.clone(),
        watermark: p.watermark,
        segment_id: p.segment_id,
        encoded: vstd::slice::slice_to_vec(p.encoded.as_slice()),
        entries: crate::merge::copy_entries(&p.entries),
    }
}

/// The position of the pending flush of partition `name`, if any.
pub fn find_flush(v: &Vec<PendingFlush>, name: &str) -> (r: Option<usize>)
    ensures
        match r {
            Some(i) => i < v@.len() && v@[i as int].partition@ == name@,
            None => forall|i: int| 0 <= i < v@.len() ==> (#[trigger] v@[i]).partition@ != name@,
        },
{
    let mut i: usize = 0;
    while i < v.len()
        invariant
            0 <= i <= v@.len(),
            forall|j: int| 0 <= j < i ==> (#[trigger] v@[j]).partition@ != name@,
        decreases v@.len() - i,
    {
        if crate::state::str_eq(v[i].partition.as_str(), name) {
            return Some(i);
        }
        i = i + 1;
    }
    None
}

/// Whether partition `name` has a pending flush.
pub open spec fn has_flush(v: Seq<PendingFlush>, name: Seq<char>) -> bool {
    exists|i: int| 0 <= i < v.len() && (#[trigger] v[i]).partition@ == name
}

/// Detach the whole memtable of `ps` as a pending flush: the entries and
/// their encoding, the next segment id, and a watermark covering every journal
/// group assigned so far. The memtable empties.
pub fn detach_flush(st: &mut EngineState, ps: &mut PartitionState, encoded: Vec<u8>, entries: SegmentEntries) -> (p: PendingFlush)
    requires
        old(st).next_segment_id < u64::MAX,
    ensures
        p.partition@ == old(ps).name@,
        p.segment_id == old(st).next_segment_id,
        p.watermark == (if old(ps).meta.watermark >= old(st).journal_seq {
            old(ps).meta.watermark
        } else {
            old(st).journal_seq
        }),
        p.encoded@ == encoded@,
        entries_view(p.entries@) == entries_view(entries@),
        final(st).next_segment_id == old(st).next_segment_id + 1,
        *final(st) == (EngineState { next_segment_id: final(st).next_segment_id, ..*old(st) }),
        final(ps).mem@.len() == 0,
        final(ps).mem_bytes == 0,
        final(ps).meta == old(ps).meta,
        final(ps).name == old(ps).name,
        final(ps).compacting == old(ps).compacting,
{
    let segment_id = st.next_segment_id;
    st.next_segment_id = st.next_segment_id + 1;
    let wm = if ps.meta.watermark >= st.journal_seq { ps.meta.watermark } else { st.journal_seq };
    let p = PendingFlush {
        partition: ps.name.clone(),
        watermark: wm,
        segment_id,
        encoded,
        entries,
    };
    ps.mem.clear();
    ps.mem_bytes = 0;
    p
}

/// Detach a full memtable for a background upload: only for a live partition
/// whose memtable is non-empty, at or over the byte budget, and has no upload
/// pending already. The detached flush is also recorded as pending.
pub fn take_partition_flush(st: &mut EngineState, ps: &mut PartitionState) -> (r: Option<PendingFlush>)
    requires
        old(st).wf(),
        old(ps).wf(),
        old(st).next_segment_id < u64::MAX,
    ensures
        final(st).wf(),
        final(ps).wf(),
        final(ps).name == old(ps).name,
        final(ps).meta == old(ps).meta,
        final(ps).compacting == old(ps).compacting,
        (old(ps).meta.dropped || old(ps).mem@.len() == 0 || has_flush(
            old(st).pending_flushes@,
            old(ps).name@,
        ) || old(ps).mem_bytes < old(st).cfg.max_memtable_bytes || !entries_fit(
            mem_view(old(ps).mem@),
        )) <==> r is None,
        r is None ==> *final(st) == *old(st) && *final(ps) == *old(ps),
        final(st).cfg == old(st).cfg,
        final(st).journal_seq == old(st).journal_seq,
        final(st).fence_epoch == old(st).fence_epoch,
        final(st).manifest_seq == old(st).manifest_seq,
        final(st).partitions == old(st).partitions,
        final(st).current_bytes == old(st).current_bytes,
        r matches Some(p) ==> {
            &&& p.partition@ == old(ps).name@
            &&& p.segment_id == old(st).next_segment_id
            &&& p.watermark == (if old(ps).meta.watermark >= old(st).journal_seq {
                old(ps).meta.watermark
            } else {
                old(st).journal_seq
            })
            &&& entries_view(p.entries@) == mem_view(old(ps).mem@)
            &&& p.encoded@ == spec_encode_segment(
                mem_view(old(ps).mem@),
                old(st).cfg.block_size as nat,
            )
            &&& final(ps).mem@.len() == 0
            &&& final(ps).mem_bytes == 0
            &&& final(st).next_segment_id == old(st).next_segment_id + 1
            &&& final(st).pending_flushes@.len() == old(st).pending_flushes@.len() + 1
            &&& final(st).pending_flushes@.drop_last() == old(st).pending_flushes@
            &&& final(st).pending_flushes@.last().partition@ == old(ps).name@
            &&& final(st).pending_flushes@.last().segment_id == p.segment_id
            &&& final(st).pending_flushes@.last().watermark == p.watermark
            &&& final(st).pending_flushes@.last().encoded@ == p.encoded@
            &&& entries_view(final(st).pending_flushes@.last().entries@) == entries_view(
                p.entries@,
            )
        },
{
    let found = find_flush(&st.pending_flushes, ps.name.as_str());
    if ps.meta.dropped || ps.mem.len() == 0 || found.is_some() || ps.mem_bytes
        < st.cfg.max_memtable_bytes {
        proof {
            if let Some(i) = found {
                assert(st.pending_flushes@[i as int].partition@ == ps.name@);
            }
        }
        return None;
    }
    let entries = memtable_entries(&ps.mem);
    let encoded = match encode_segment(&entries, st.cfg.block_size as usize) {
        Ok(e) => e,
        Err(_) => {
            return None;
        },
    };
    let ghost mv = mem_view(ps.mem@);
    let pending = detach_flush(st, ps, encoded, entries);
    let copy = copy_flush(&pending);
    let ghost old_f = st.pending_flushes@;
    st.pending_flushes.push(copy);
    proof {
        assert(mem_view(ps.mem@) =~= Seq::<crate::segment::EntryV>::empty());
        assert(st.pending_flushes@.drop_last() =~= old_f);
        let nf = st.pending_flushes@;
        assert forall|i: int, j: int| 0 <= i < j < nf.len() implies (#[trigger] nf[i]).partition@
            != (#[trigger] nf[j]).partition@ by {
            if j < old_f.len() {
                assert(nf[i] == old_f[i] && nf[j] == old_f[j]);
            } else {
                assert(nf[i] == old_f[i]);
                assert(!has_flush(old_f, pending.partition@));
            }
        }
    }
    Some(pending)
}

/// Publish a completed background upload of partition `ps`: write its
/// segment object, append the segment, raise the watermark to the flush's,
/// publish a manifest and collect folded journals. The pending flush is
/// consumed even when a later step fails (its data stays durable in the
/// journal). Without a pending flush for `ps` nothing happens.
pub fn finish_partition_flush<S: Store, C: ManifestCodec>(
    store: &mut S,
    codec: &C,
    st: &mut EngineState,
    ps: &mut PartitionState,
) -> (r: Result<(), Error>)
    requires
        old(st).wf(),
        old(ps).wf(),
        old(st).manifest_seq < u64::MAX,
    ensures
        final(st).wf(),
        final(ps).wf(),
        final(ps).name == old(ps).name,
        final(ps).mem == old(ps).mem,
        final(ps).mem_bytes == old(ps).mem_bytes,
        final(ps).compacting == old(ps).compacting,
        final(ps).meta.dropped == old(ps).meta.dropped,
        final(st).cfg == old(st).cfg,
        final(st).journal_seq == old(st).journal_seq,
        final(st).compactions_completed == old(st).compactions_completed,
        final(st).fence_epoch == old(st).fence_epoch,
        final(st).manifest_seq <= old(st).manifest_seq + 1,
        final(st).next_segment_id == old(st).next_segment_id,
        names_of(final(st).partitions@) == names_of(old(st).partitions@),
        old(st).pending@.len() == 0 ==> final(st).pending@.len() == 0,
        !has_flush(old(st).pending_flushes@, old(ps).name@) ==> r is Ok && *final(st) == *old(st)
            && *final(ps) == *old(ps),
        has_flush(old(st).pending_flushes@, old(ps).name@) ==> {
            &&& !has_flush(final(st).pending_flushes@, old(ps).name@)
            &&& final(st).pending_flushes@.len() == old(st).pending_flushes@.len() - 1
        },
        has_flush(old(st).pending_flushes@, old(ps).name@) && r is Ok ==> {
            let p = choose|i: int|
                0 <= i < old(st).pending_flushes@.len() && (#[trigger] old(
                    st,
                ).pending_flushes@[i]).partition@ == old(ps).name@;
            let pf = old(st).pending_flushes@[p];
            &&& final(ps).meta.segments@.len() == old(ps).meta.segments@.len() + 1
            &&& segments_view(final(ps).meta.segments@).drop_last() == segments_view(
                old(ps).meta.segments@,
            )
            &&& meta_describes(
                final(ps).meta.segments@.last()@,
                pf.segment_id,
                pf.watermark,
                pf.encoded@,
                entries_view(pf.entries@),
            )
            &&& final(ps).meta.watermark == (if old(ps).meta.watermark >= pf.watermark {
                old(ps).meta.watermark
            } else {
                pf.watermark
            })
            &&& final(st).manifest_seq == old(st).manifest_seq + 1
        },
{
    let idx = match find_flush(&st.pending_flushes, ps.name.as_str()) {
        None => {
            return Ok(());
        },
        Some(i) => i,
    };
    let ghost old_f = st.pending_flushes@;
    proof {
        let p = choose|i: int|
            0 <= i < old_f.len() && (#[trigger] old_f[i]).partition@ == ps.name@;
        if p != idx {
            if p < idx {
                assert(old_f[p].partition@ != old_f[idx as int].partition@);
            } else {
                assert(old_f[idx as int].partition@ != old_f[p].partition@);
            }
        }
    }
    let active = st.pending_flushes.remove(idx);
    proof {
        let nf = st.pending_flushes@;
        assert(nf =~= old_f.take(idx as int) + old_f.skip(idx + 1));
        assert forall|i: int, j: int| 0 <= i < j < nf.len() implies (#[trigger] nf[i]).partition@
            != (#[trigger] nf[j]).partition@ by {
            let oi = if i < idx { i } else { i + 1 };
            let oj = if j < idx { j } else { j + 1 };
            assert(nf[i] == old_f[oi] && nf[j] == old_f[oj]);
        }
        assert forall|i: int| 0 <= i < nf.len() implies (#[trigger] nf[i]).partition@ != ps.name@ by {
            let oi = if i < idx { i } else { i + 1 };
            assert(nf[i] == old_f[oi]);
            if oi < idx {
                assert(old_f[oi].partition@ != old_f[idx as int].partition@);
            } else {
                assert(old_f[idx as int].partition@ != old_f[oi].partition@);
            }
        }
    }
    let key = segment_key(st.cfg.prefix.as_str(), ps.name.as_str(), active.segment_id);
    store.put(key.as_str(), active.encoded.as_slice())?;
    let meta = build_segment_meta(
        active.segment_id,
        active.watermark,
        active.encoded.as_slice(),
        &active.entries,
        st.cfg.manifest_embed_index,
    )?;
    let ghost old_segs = ps.meta.segments@;
    ps.meta.segments.push(meta);
    proof {
        assert(segments_view(ps.meta.segments@).drop_last() =~= segments_view(old_segs));
    }
    if active.watermark > ps.meta.watermark {
        ps.meta.watermark = active.watermark;
    }
    sync_partition_meta(st, ps);
    publish_manifest(store, codec, st)?;
    gc_journal(store, st);
    Ok(())
}

/// The entries stored in the given blocks of an encoded segment, in block
/// order; `None` when a block lies outside the object or does not decode.
pub open spec fn blocks_entries(bytes: Seq<u8>, bs: Seq<BlockMetaV>) -> Option<Seq<EntryV>>
    decreases bs.len(),
{
    if bs.len() == 0 {
        Some(Seq::empty())
    } else {
        match blocks_entries(bytes, bs.drop_last()) {
            None => None,
            Some(es) => {
                let b = bs.last();
                if b.offset + b.len > bytes.len() {
                    None
                } else {
                    match spec_decode_block(bytes.subrange(b.offset as int, b.offset + b.len)) {
                        None => None,
                        Some(more) => Some(es + more),
                    }
                }
            },
        }
    }
}

/// Every entry of an encoded segment object, located through its trailer and
/// block index.
pub open spec fn spec_segment_entries(bytes: Seq<u8>) -> Option<Seq<EntryV>> {
    match spec_segment_index(bytes) {
        None => None,
        Some((_, bs)) => blocks_entries(bytes, bs),
    }
}

/// Decode every entry of a whole segment object (trailer, block index, then
/// each block in order). Anything inconsistent is corrupt.
pub fn segment_entries_from_bytes(bytes: &[u8]) -> (r: Result<SegmentEntries, Error>)
    ensures
        match r {
            Ok(es) => spec_segment_entries(bytes@) == Some(entries_view(es@)),
            Err(e) => spec_segment_entries(bytes@) is None && e is Corrupt,
        },
{
    let n = bytes.len();
    if n < 20 {
        return Err(Error::corrupt("segment shorter than trailer"));
    }
    let tail = parse_tail(&bytes[n - 20..n])?;
    proof {
        assert(bytes@.subrange(n - 20, n as int) =~= bytes@.skip(n - 20));
    }
    let idx_start = tail.index_offset as u64;
    let idx_end = idx_start + tail.index_len as u64;
    if idx_end > (n - 20) as u64 {
        return Err(Error::corrupt("segment index out of bounds"));
    }
    let index = decode_index(&bytes[idx_start as usize..idx_end as usize])?;
    let ghost bs = index@;
    proof {
        assert(spec_segment_index(bytes@) == Some((tail.count, bs)));
    }
    let mut out: SegmentEntries = Vec::new();
    let mut i: usize = 0;
    while i < index.blocks.len()
        invariant
            0 <= i <= index.blocks@.len(),
            bs == index@,
            n == bytes@.len(),
            spec_segment_index(bytes@) == Some((tail.count, bs)),
            blocks_entries(bytes@, bs.take(i as int)) == Some(entries_view(out@)),
        decreases index.blocks@.len() - i,
    {
        let bm = &index.blocks[i];
        proof {
            assert(bs.take(i + 1).drop_last() =~= bs.take(i as int));
            assert(bs.take(i + 1).last() == bs[i as int]);
            assert(bs[i as int] == bm@);
        }
        let start = bm.offset as u64;
        let end = start + bm.len as u64;
        if end > n as u64 {
            proof {
                lemma_blocks_entries_prefix_none(bytes@, bs, i as int + 1);
            }
            return Err(Error::corrupt("segment block out of bounds"));
        }
        let es = match decode_block(&bytes[start as usize..end as usize]) {
            Ok(es) => es,
            Err(e) => {
                proof {
                    lemma_blocks_entries_prefix_none(bytes@, bs, i as int + 1);
                }
                return Err(e);
            },
        };
        let ghost before = entries_view(out@);
        let mut k: usize = 0;
        while k < es.len()
            invariant
                0 <= k <= es@.len(),
                entries_view(out@) == before + entries_view(es@).take(k as int),
            decreases es@.len() - k,
        {
            let e = crate::merge::copy_entry_pub(&es[k]);
            proof {
                assert(entries_view(es@).take(k + 1) =~= entries_view(es@).take(k as int).push(
                    crate::segment::entry_view(es@[k as int]),
                ));
                assert(entries_view(out@.push(e)) =~= entries_view(out@).push(
                    crate::segment::entry_view(e),
                ));
            }
            out.push(e);
            k = k + 1;
        }
        proof {
            assert(entries_view(es@).take(k as int) =~= entries_view(es@));
        }
        i = i + 1;
    }
    proof {
        assert(bs.take(i as int) =~= bs);
    }
    Ok(out)
}

/// A failing prefix makes the whole block list fail.
proof fn lemma_blocks_entries_prefix_none(bytes: Seq<u8>, bs: Seq<BlockMetaV>, k: int)
    requires
        0 <= k <= bs.len(),
        blocks_entries(bytes, bs.take(k)) is None,
    ensures
        blocks_entries(bytes, bs) is None,
    decreases bs.len() - k,
{
    if k < bs.len() {
        assert(bs.take(k + 1).drop_last() =~= bs.take(k));
        lemma_blocks_entries_prefix_none(bytes, bs, k + 1);
    } else {
        assert(bs.take(k) =~= bs);
    }
}

/// Entries that some segment object decodes to.
pub open spec fn is_segment_content(es: Seq<EntryV>) -> bool {
    exists|bytes: Seq<u8>| #[trigger] spec_segment_entries(bytes) == Some(es)
}

/// Read every entry of a segment object with one whole-object read (used by
/// merge compaction). A missing object is corrupt state. What the store
/// hands back is not known here; the entries returned are those its bytes
/// decode to.
pub fn read_segment_entries<S: Store>(store: &S, prefix: &str, part: &str, seg: &SegmentMeta) -> (r:
    Result<SegmentEntries, Error>)
    ensures
        r matches Ok(es) ==> is_segment_content(entries_view(es@)),
{
    let key = segment_key(prefix, part, seg.id);
    let bytes = match store.get(key.as_str())? {
        Some(b) => b,
        None => {
            return Err(Error::corrupt("segment object missing"));
        },
    };
    let r = segment_entries_from_bytes(bytes.as_slice());
    proof {
        if r is Ok {
            assert(spec_segment_entries(bytes@) == Some(entries_view(r->Ok_0@)));
        }
    }
    r
}

/// Read the entries of every segment, in segment order.
pub fn read_segments<S: Store>(store: &S, prefix: &str, part: &str, segs: &Vec<SegmentMeta>) -> (r:
    Result<Vec<SegmentEntries>, Error>)
    ensures
        r matches Ok(all) ==> all@.len() == segs@.len(),
        r matches Ok(all) ==> forall|i: int|
            0 <= i < all@.len() ==> is_segment_content(entries_view(#[trigger] all@[i]@)),
        segs@.len() == 0 ==> r is Ok,
{
    let mut all: Vec<SegmentEntries> = Vec::new();
    let mut i: usize = 0;
    while i < segs.len()
        invariant
            0 <= i <= segs@.len(),
            all@.len() == i,
            forall|j: int| 0 <= j < all@.len() ==> is_segment_content(entries_view(#[trigger] all@[j]@)),
        decreases segs@.len() - i,
    {
        let es = read_segment_entries(store, prefix, part, &segs[i])?;
        all.push(es);
        i = i + 1;
    }
    Ok(all)
}

/// Merge every segment of a live partition holding more than one segment
/// into one fresh segment (newest wins, tombstones dropped), after flushing
/// its memtable. The merged segment is written first; then the segment list
/// is swapped and a manifest published, so a failure never loses data. The
/// replaced segments are returned for deletion; `None` when there was
/// nothing to merge.
pub fn compact_partition_locked<S: Store, C: ManifestCodec>(
    store: &mut S,
    codec: &C,
    st: &mut EngineState,
    ps: &mut PartitionState,
) -> (r: Result<Option<Vec<SegmentMeta>>, Error>)
    requires
        old(st).wf(),
        old(ps).wf(),
        old(st).manifest_seq < u64::MAX - 1,
        old(st).next_segment_id < u64::MAX - 1,
    ensures
        final(st).wf(),
        final(ps).wf(),
        final(ps).name == old(ps).name,
        final(st).cfg == old(st).cfg,
        final(st).fence_epoch == old(st).fence_epoch,
        final(st).journal_seq == old(st).journal_seq,
        anchored(*old(st)) ==> anchored(*final(st)),
        r matches Ok(None) ==> final(ps).meta.dropped || final(ps).meta.segments@.len() <= 1,
        r matches Ok(Some(old_segs)) ==> {
            &&& old_segs@.len() > 1
            &&& final(ps).meta.segments@.len() <= 1
            &&& final(ps).meta.watermark == final(st).journal_seq
            &&& final(st).compactions_completed == crate::state::sat_add(
                old(st).compactions_completed,
                1,
            )
            &&& final(ps).mem@.len() == 0
        },
        old(ps).meta.dropped || (old(ps).mem@.len() == 0 && old(ps).meta.segments@.len() <= 1) ==> (
        r matches Ok(None) && *final(st) == *old(st) && *final(ps) == *old(ps)),
{
    flush_partition(store, codec, st, ps)?;
    if ps.meta.dropped || ps.meta.segments.len() <= 1 {
        return Ok(None);
    }
    if st.manifest_seq == u64::MAX || st.next_segment_id == u64::MAX {
        return Err(Error::store("sequence space exhausted"));
    }
    let all = read_segments(store, st.cfg.prefix.as_str(), ps.name.as_str(), &ps.meta.segments)?;
    let out = crate::merge::merge_entries(all);
    let new_segments: Vec<SegmentMeta> = if out.len() == 0 {
        Vec::new()
    } else {
        let encoded = encode_segment(&out, st.cfg.block_size as usize)?;
        let id = st.next_segment_id;
        st.next_segment_id = st.next_segment_id + 1;
        let key = segment_key(st.cfg.prefix.as_str(), ps.name.as_str(), id);
        store.put(key.as_str(), encoded.as_slice())?;
        let m = build_segment_meta(
            id,
            st.journal_seq,
            encoded.as_slice(),
            &out,
            st.cfg.manifest_embed_index,
        )?;
        let mut v: Vec<SegmentMeta> = Vec::new();
        v.push(m);
        v
    };
    let mut old_segs = new_segments;
    std::mem::swap(&mut old_segs, &mut ps.meta.segments);
    ps.meta.watermark = st.journal_seq;
    sync_partition_meta(st, ps);
    publish_manifest(store, codec, st)?;
    st.compactions_completed = st.compactions_completed.saturating_add(1);
    Ok(Some(old_segs))
}

/// Whether `id` is among `ids`.
pub fn contains_id(ids: &Vec<u64>, id: u64) -> (r: bool)
    ensures
        r == ids@.contains(id),
{
    let mut i: usize = 0;
    while i < ids.len()
        invariant
            0 <= i <= ids@.len(),
            forall|j: int| 0 <= j < i ==> ids@[j] != id,
        decreases ids@.len() - i,
    {
        if ids[i] == id {
            return true;
        }
        i = i + 1;
    }
    false
}

/// The ids of a segment list.
pub open spec fn ids_of(s: Seq<SegmentMetaV>) -> Seq<u64> {
    s.map_values(|m: SegmentMetaV| m.id)
}

/// The ids of a segment list, in order.
pub fn segment_ids(segs: &Vec<SegmentMeta>) -> (r: Vec<u64>)
    ensures
        r@ == ids_of(segments_view(segs@)),
{
    let mut out: Vec<u64> = Vec::new();
    let mut i: usize = 0;
    while i < segs.len()
        invariant
            0 <= i <= segs@.len(),
            out@ == ids_of(segments_view(segs@)).take(i as int),
        decreases segs@.len() - i,
    {
        proof {
            assert(ids_of(segments_view(segs@)).take(i + 1) =~= ids_of(segments_view(segs@)).take(
                i as int,
            ).push(segs@[i as int].id));
        }
        out.push(segs[i].id);
        i = i + 1;
    }
    proof {
        assert(ids_of(segments_view(segs@)).take(i as int) =~= ids_of(segments_view(segs@)));
    }
    out
}

/// The segments whose id is (when `keep_in`) or is not among `ids`.
pub open spec fn select_ids(s: Seq<SegmentMetaV>, ids: Seq<u64>, keep_in: bool) -> Seq<SegmentMetaV>
    decreases s.len(),
{
    if s.len() == 0 {
        Seq::empty()
    } else {
        let rest = select_ids(s.drop_last(), ids, keep_in);
        if ids.contains(s.last().id) == keep_in {
            rest.push(s.last())
        } else {
            rest
        }
    }
}

/// Install a merged compaction result: the segments the compaction read
/// (by id) are removed, the merged segment (if any) goes first, and segments
/// added meanwhile stay after it in order. When some segment the compaction
/// read is no longer present, nothing changes and `None` is returned;
/// otherwise the removed segments are returned.
pub fn apply_compaction(
    segments: &mut Vec<SegmentMeta>,
    old_ids: &Vec<u64>,
    merged: Option<SegmentMeta>,
) -> (r: Option<Vec<SegmentMeta>>)
    ensures
        (forall|i: int|
            0 <= i < old_ids@.len() ==> ids_of(segments_view(old(segments)@)).contains(
                #[trigger] old_ids@[i],
            )) <==> r is Some,
        r is None ==> final(segments)@ == old(segments)@,
        r matches Some(removed) ==> {
            &&& segments_view(removed@) == select_ids(segments_view(old(segments)@), old_ids@, true)
            &&& segments_view(final(segments)@) == (match merged {
                Some(m) => seq![m@],
                None => Seq::empty(),
            }) + select_ids(segments_view(old(segments)@), old_ids@, false)
        },
{
    let current = segment_ids(segments);
    let mut k: usize = 0;
    while k < old_ids.len()
        invariant
            0 <= k <= old_ids@.len(),
            current@ == ids_of(segments_view(segments@)),
            forall|i: int| 0 <= i < k ==> current@.contains(#[trigger] old_ids@[i]),
        decreases old_ids@.len() - k,
    {
        if !contains_id(&current, old_ids[k]) {
            return None;
        }
        k = k + 1;
    }
    let ghost sv = segments_view(segments@);
    let ghost merged_v = match &merged {
        Some(m) => seq![m@],
        None => Seq::<SegmentMetaV>::empty(),
    };
    let mut removed: Vec<SegmentMeta> = Vec::new();
    let mut kept: Vec<SegmentMeta> = Vec::new();
    match merged {
        Some(m) => kept.push(m),
        None => {},
    }
    let ghost head = segments_view(kept@);
    let mut i: usize = 0;
    while i < segments.len()
        invariant
            0 <= i <= segments@.len(),
            sv == segments_view(segments@),
            segments_view(removed@) == select_ids(sv.take(i as int), old_ids@, true),
            segments_view(kept@) == head + select_ids(sv.take(i as int), old_ids@, false),
        decreases segments@.len() - i,
    {
        proof {
            assert(sv.take(i + 1).drop_last() =~= sv.take(i as int));
            assert(sv.take(i + 1).last() == sv[i as int]);
        }
        let c = segments[i].copy_meta();
        let inside = contains_id(old_ids, segments[i].id);
        if inside {
            proof {
                assert(segments_view(removed@.push(c)) =~= segments_view(removed@).push(c@));
            }
            removed.push(c);
        } else {
            proof {
                assert(segments_view(kept@.push(c)) =~= segments_view(kept@).push(c@));
                assert((head + select_ids(sv.take(i as int), old_ids@, false)).push(c@) =~= head
                    + select_ids(sv.take(i as int), old_ids@, false).push(c@));
            }
            kept.push(c);
        }
        i = i + 1;
    }
    proof {
        assert(sv.take(i as int) =~= sv);
        assert(head =~= merged_v);
    }
    *segments = kept;
    Some(removed)
}

/// Encode an entry list as a segment object (see [`encode_segment`]).
pub fn encode_segment_pub(entries: &SegmentEntries, block_size: usize) -> (r: Result<Vec<u8>, Error>)
    ensures
        entries_fit(entries_view(entries@)) ==> (r matches Ok(b) && b@ == spec_encode_segment(
            entries_view(entries@),
            block_size as nat,
        )),
        !entries_fit(entries_view(entries@)) ==> r is Err,
{
    encode_segment(entries, block_size)
}

} // verus!
