//! Journal record-group format.
//!
//! A committed batch is serialized as one [`Group`] containing an ordered op
//! list that may span multiple partitions. Each group is stored as its own
//! immutable journal object (or several groups back to back in group-commit
//! mode), which makes a PUT the atomic durability point.
use vstd::prelude::*;
use vstd::utf8::encode_utf8;

use crate::codec::{
    dec_bytes, dec_str, dec_u32, dec_u64, dec_u8, enc_bytes, enc_str, enc_u32, enc_u64,
    lemma_bytes_roundtrip, lemma_str_roundtrip, lemma_u32_roundtrip, lemma_u64_roundtrip, put_bytes,
    put_str, put_u32, put_u64, Reader,
};
use crate::error::Error;

verus! {

/// Magic identifying a journal group payload: `"WGL1"`.
pub const GROUP_MAGIC: u32 = 0x5747_4C31;

/// A single key-value mutation targeting one partition; `value == None`
/// encodes a delete (tombstone).
#[derive(Debug, Clone, PartialEq, Eq)]
pub struct Op {
    /// Target partition (keyspace) name.
    pub part: String,
    /// Key bytes.
    pub key: Vec<u8>,
    /// New value, or `None` to delete.
    pub value: Option<Vec<u8>>,
}

/// Mathematical view of an [`Op`].
pub struct OpV {
    pub part: Seq<char>,
    pub key: Seq<u8>,
    pub value: Option<Seq<u8>>,
}

/// View of an optional byte vector.
pub open spec fn opt_bytes(v: Option<Vec<u8>>) -> Option<Seq<u8>> {
    match v {
        Some(b) => Some(b@),
        None => None,
    }
}

impl View for Op {
    type V = OpV;

    open spec fn view(&self) -> OpV {
        OpV { part: self.part@, key: self.key@, value: opt_bytes(self.value) }
    }
}

impl Op {
    /// A put of `value` under `key` in partition `part`.
    pub fn put(part: String, key: Vec<u8>, value: Vec<u8>) -> (o: Op)
        ensures
            o@ == (OpV { part: part@, key: key@, value: Some(value@) }),
    {
        Op { part, key, value: Some(value) }
    }

    /// A delete (tombstone) of `key` in partition `part`.
    pub fn delete(part: String, key: Vec<u8>) -> (o: Op)
        ensures
            o@ == (OpV { part: part@, key: key@, value: None }),
    {
        Op { part, key, value: None }
    }
}

/// An atomically committed group of mutations.
#[derive(Debug, Clone, PartialEq, Eq)]
pub struct Group {
    /// Monotonic sequence assigned at commit time.
    pub seq: u64,
    /// Fencing epoch (0 for unfenced engines).
    pub epoch: u128,
    pub ops: Vec<Op>,
}

/// Mathematical view of a [`Group`].
pub struct GroupV {
    pub seq: u64,
    pub epoch: u128,
    pub ops: Seq<OpV>,
}

/// Views of a vector of ops.
pub open spec fn ops_view(ops: Seq<Op>) -> Seq<OpV> {
    ops.map_values(|o: Op| o@)
}

impl View for Group {
    type V = GroupV;

    open spec fn view(&self) -> GroupV {
        GroupV { seq: self.seq, epoch: self.epoch, ops: ops_view(self.ops@) }
    }
}

/// High 64 bits of an epoch.
pub open spec fn epoch_hi(e: u128) -> u64 {
    (e >> 64u128) as u64
}

/// Low 64 bits of an epoch.
pub open spec fn epoch_lo(e: u128) -> u64 {
    e as u64
}

/// Epoch rebuilt from its two halves.
pub open spec fn epoch_join(hi: u64, lo: u64) -> u128 {
    ((hi as u128) << 64u128) | (lo as u128)
}

/// Splitting an epoch into halves and joining them gives it back.
pub proof fn lemma_epoch_split_join(e: u128)
    ensures
        epoch_join(epoch_hi(e), epoch_lo(e)) == e,
{
    assert((((e >> 64u128) as u64) as u128) << 64u128 | ((e as u64) as u128) == e)
        by (bit_vector);
}

/// Whether every string and byte field of `o` fits a `u32` length prefix.
pub open spec fn op_fits(o: OpV) -> bool {
    &&& encode_utf8(o.part).len() <= u32::MAX
    &&& o.key.len() <= u32::MAX
    &&& (o.value matches Some(v) ==> v.len() <= u32::MAX)
}

/// Whether every op of a group fits its length prefixes.
pub open spec fn ops_fit(ops: Seq<OpV>) -> bool {
    forall|i: int| 0 <= i < ops.len() ==> #[trigger] op_fits(ops[i])
}

/// Encoding of one op: `part str | key bytes | flag u8 | (value bytes)?`.
pub open spec fn enc_op(o: OpV) -> Seq<u8> {
    enc_str(o.part) + enc_bytes(o.key) + match o.value {
        Some(v) => seq![1u8] + enc_bytes(v),
        None => seq![0u8],
    }
}

/// Concatenated encodings of an op list.
pub open spec fn enc_ops(ops: Seq<OpV>) -> Seq<u8>
    decreases ops.len(),
{
    if ops.len() == 0 {
        Seq::empty()
    } else {
        enc_ops(ops.drop_last()) + enc_op(ops.last())
    }
}

/// Encoding of a group: `magic | seq | epoch hi | epoch lo | count | ops`.
/// The op count is written as a `u32`.
pub open spec fn enc_group(g: GroupV) -> Seq<u8> {
    enc_u32(GROUP_MAGIC) + enc_u64(g.seq) + enc_u64(epoch_hi(g.epoch)) + enc_u64(
        epoch_lo(g.epoch),
    ) + enc_u32(g.ops.len() as u32) + enc_ops(g.ops)
}

/// Reading one op from the front of `s`.
pub open spec fn dec_op(s: Seq<u8>) -> Option<(OpV, Seq<u8>)> {
    match dec_str(s) {
        None => None,
        Some((part, r1)) => match dec_bytes(r1) {
            None => None,
            Some((key, r2)) => match dec_u8(r2) {
                None => None,
                Some((flag, r3)) => if flag == 0 {
                    Some((OpV { part, key, value: None }, r3))
                } else if flag == 1 {
                    match dec_bytes(r3) {
                        None => None,
                        Some((v, r4)) => Some((OpV { part, key, value: Some(v) }, r4)),
                    }
                } else {
                    None
                },
            },
        },
    }
}

/// Reading `n` ops one after another from the front of `s`.
pub open spec fn dec_ops(s: Seq<u8>, n: nat) -> Option<(Seq<OpV>, Seq<u8>)>
    decreases n,
{
    if n == 0 {
        Some((Seq::empty(), s))
    } else {
        match dec_ops(s, (n - 1) as nat) {
            None => None,
            Some((ops, r)) => match dec_op(r) {
                None => None,
                Some((o, r2)) => Some((ops.push(o), r2)),
            },
        }
    }
}

/// Reading one group from the front of `s`.
pub open spec fn dec_group(s: Seq<u8>) -> Option<(GroupV, Seq<u8>)> {
    match dec_u32(s) {
        None => None,
        Some((magic, r0)) => if magic != GROUP_MAGIC {
            None
        } else {
            match dec_u64(r0) {
                None => None,
                Some((seq, r1)) => match dec_u64(r1) {
                    None => None,
                    Some((hi, r2)) => match dec_u64(r2) {
                        None => None,
                        Some((lo, r3)) => match dec_u32(r3) {
                            None => None,
                            Some((count, r4)) => match dec_ops(r4, count as nat) {
                                None => None,
                                Some((ops, r5)) => Some(
                                    (GroupV { seq, epoch: epoch_join(hi, lo), ops }, r5),
                                ),
                            },
                        },
                    },
                },
            }
        },
    }
}

/// A successful group read consumes at least one byte.
pub proof fn lemma_dec_group_shrinks(s: Seq<u8>)
    ensures
        dec_group(s) matches Some((g, r)) ==> r.len() < s.len(),
{
    if let Some((magic, r0)) = dec_u32(s) {
        if let Some((seq, r1)) = dec_u64(r0) {
            if let Some((hi, r2)) = dec_u64(r1) {
                if let Some((lo, r3)) = dec_u64(r2) {
                    if let Some((count, r4)) = dec_u32(r3) {
                        lemma_dec_ops_shrinks_weakly(r4, count as nat);
                    }
                }
            }
        }
    }
}

/// Once an op fails to read, reading any longer op list fails too.
proof fn lemma_dec_ops_stop(s: Seq<u8>, i: nat, n: nat)
    requires
        i < n,
        dec_ops(s, i) matches Some((_, r)) && dec_op(r) is None,
    ensures
        dec_ops(s, n) is None,
    decreases n,
{
    if n > i + 1 {
        lemma_dec_ops_stop(s, i, (n - 1) as nat);
    }
}

/// Reading ops never grows the remaining input.
proof fn lemma_dec_ops_shrinks_weakly(s: Seq<u8>, n: nat)
    ensures
        dec_ops(s, n) matches Some((ops, r)) ==> r.len() <= s.len() && ops.len() == n,
    decreases n,
{
    if n > 0 {
        lemma_dec_ops_shrinks_weakly(s, (n - 1) as nat);
    }
}

/// Reading back-to-back groups until the input is exhausted.
pub open spec fn dec_stream(s: Seq<u8>) -> Option<Seq<GroupV>>
    decreases s.len(),
{
    if s.len() == 0 {
        Some(Seq::empty())
    } else {
        match dec_group(s) {
            None => None,
            Some((g, r)) => {
                proof {
                    lemma_dec_group_shrinks(s);
                }
                match dec_stream(r) {
                    None => None,
                    Some(gs) => Some(seq![g] + gs),
                }
            },
        }
    }
}

/// Reading back an encoded op gives it back.
pub proof fn lemma_op_roundtrip(o: OpV, rest: Seq<u8>)
    requires
        op_fits(o),
    ensures
        dec_op(enc_op(o) + rest) == Some((o, rest)),
{
    let tail = match o.value {
        Some(v) => seq![1u8] + enc_bytes(v),
        None => seq![0u8],
    };
    let s = enc_op(o) + rest;
    assert(s =~= enc_str(o.part) + (enc_bytes(o.key) + (tail + rest)));
    lemma_str_roundtrip(o.part, enc_bytes(o.key) + (tail + rest));
    assert(enc_bytes(o.key) + (tail + rest) =~= enc_bytes(o.key) + (tail + rest));
    lemma_bytes_roundtrip(o.key, tail + rest);
    match o.value {
        Some(v) => {
            assert((tail + rest).skip(1) =~= enc_bytes(v) + rest);
            lemma_bytes_roundtrip(v, rest);
        },
        None => {
            assert((tail + rest).skip(1) =~= rest);
        },
    }
}

/// Reading back an encoded op list gives it back.
pub proof fn lemma_ops_roundtrip(ops: Seq<OpV>, rest: Seq<u8>)
    requires
        ops_fit(ops),
    ensures
        dec_ops(enc_ops(ops) + rest, ops.len()) == Some((ops, rest)),
    decreases ops.len(),
{
    if ops.len() > 0 {
        let init = ops.drop_last();
        let last = ops.last();
        assert(ops_fit(init)) by {
            assert forall|i: int| 0 <= i < init.len() implies #[trigger] op_fits(init[i]) by {
                assert(op_fits(ops[i]));
            }
        }
        assert(op_fits(ops[ops.len() - 1]));
        assert(enc_ops(ops) + rest =~= enc_ops(init) + (enc_op(last) + rest));
        lemma_ops_roundtrip(init, enc_op(last) + rest);
        lemma_op_roundtrip(last, rest);
        assert(init.push(last) =~= ops);
    }
}

/// Reading back an encoded group gives it back and leaves what followed it.
pub proof fn lemma_group_roundtrip(g: GroupV, rest: Seq<u8>)
    requires
        ops_fit(g.ops),
        g.ops.len() <= u32::MAX,
    ensures
        dec_group(enc_group(g) + rest) == Some((g, rest)),
{
    let r4 = enc_ops(g.ops) + rest;
    let r3 = enc_u32(g.ops.len() as u32) + r4;
    let r2 = enc_u64(epoch_lo(g.epoch)) + r3;
    let r1 = enc_u64(epoch_hi(g.epoch)) + r2;
    let r0 = enc_u64(g.seq) + r1;
    assert(enc_group(g) + rest =~= enc_u32(GROUP_MAGIC) + r0);
    lemma_u32_roundtrip(GROUP_MAGIC, r0);
    lemma_u64_roundtrip(g.seq, r1);
    lemma_u64_roundtrip(epoch_hi(g.epoch), r2);
    lemma_u64_roundtrip(epoch_lo(g.epoch), r3);
    lemma_u32_roundtrip(g.ops.len() as u32, r4);
    lemma_ops_roundtrip(g.ops, rest);
    lemma_epoch_split_join(g.epoch);
}

/// Back-to-back encodings of a group list.
pub open spec fn enc_groups(gs: Seq<GroupV>) -> Seq<u8>
    decreases gs.len(),
{
    if gs.len() == 0 {
        Seq::empty()
    } else {
        enc_group(gs[0]) + enc_groups(gs.drop_first())
    }
}

/// A journal object holding several concatenated groups decodes into exactly
/// those groups, in order.
pub proof fn lemma_stream_roundtrip(gs: Seq<GroupV>)
    requires
        forall|i: int|
            0 <= i < gs.len() ==> ops_fit(#[trigger] gs[i].ops) && gs[i].ops.len() <= u32::MAX,
    ensures
        dec_stream(enc_groups(gs)) == Some(gs),
    decreases gs.len(),
{
    if gs.len() > 0 {
        assert(ops_fit(gs[0].ops) && gs[0].ops.len() <= u32::MAX);
        lemma_group_roundtrip(gs[0], enc_groups(gs.drop_first()));
        let rest = gs.drop_first();
        assert forall|i: int| 0 <= i < rest.len() implies ops_fit(#[trigger] rest[i].ops)
            && rest[i].ops.len() <= u32::MAX by {
            assert(rest[i] == gs[i + 1]);
        }
        lemma_stream_roundtrip(rest);
        lemma_u32_roundtrip(GROUP_MAGIC, Seq::empty());
        assert(enc_group(gs[0]).len() >= 4);
        assert(seq![gs[0]] + rest =~= gs);
    }
}

/// Serialize a group; fails when a partition name, key or value is longer
/// than a `u32` length prefix can count.
pub fn encode_group(g: &Group) -> (r: Result<Vec<u8>, Error>)
    ensures
        ops_fit(g@.ops) ==> (r matches Ok(b) && b@ == enc_group(g@)),
        !ops_fit(g@.ops) ==> r matches Err(Error::Encode(_)),
{
    let mut out: Vec<u8> = Vec::new();
    put_u32(&mut out, GROUP_MAGIC);
    put_u64(&mut out, g.seq);
    put_u64(&mut out, (g.epoch >> 64u32) as u64);
    put_u64(&mut out, g.epoch as u64);
    put_u32(&mut out, g.ops.len() as u32);
    let ghost head = out@;
    let mut i: usize = 0;
    while i < g.ops.len()
        invariant
            0 <= i <= g.ops@.len(),
            out@ == head + enc_ops(ops_view(g.ops@).take(i as int)),
            ops_fit(ops_view(g.ops@).take(i as int)),
        decreases g.ops@.len() - i,
    {
        let op = &g.ops[i];
        let ghost before = out@;
        let ghost ov = op@;
        let rp = put_str(&mut out, op.part.as_str());
        if rp.is_err() {
            proof {
                assert(!op_fits(ops_view(g.ops@)[i as int]));
            }
            return Err(Error::encode("partition name too long"));
        }
        let rk = put_bytes(&mut out, op.key.as_slice());
        if rk.is_err() {
            proof {
                assert(!op_fits(ops_view(g.ops@)[i as int]));
            }
            return Err(Error::encode("key too long"));
        }
        match &op.value {
            Some(v) => {
                out.push(1u8);
                let rv = put_bytes(&mut out, v.as_slice());
                if rv.is_err() {
                    proof {
                        assert(!op_fits(ops_view(g.ops@)[i as int]));
                    }
                    return Err(Error::encode("value too long"));
                }
            },
            None => {
                out.push(0u8);
            },
        }
        proof {
            let vs = ops_view(g.ops@);
            assert(vs.take(i + 1).drop_last() =~= vs.take(i as int));
            assert(vs.take(i + 1).last() == ov);
            assert(out@ =~= before + enc_op(ov));
            assert(ops_fit(vs.take(i + 1))) by {
                assert forall|j: int| 0 <= j < i + 1 implies #[trigger] op_fits(
                    vs.take(i + 1)[j],
                ) by {
                    if j < i {
                        assert(vs.take(i + 1)[j] == vs.take(i as int)[j]);
                    }
                }
            }
        }
        i = i + 1;
    }
    proof {
        assert(ops_view(g.ops@).take(i as int) =~= g@.ops);
        assert(out@ =~= enc_group(g@));
    }
    Ok(out)
}

/// Read one group from the front of `r` (used by single and stream decoding).
fn read_group(r: &mut Reader<'_>) -> (res: Result<Group, Error>)
    requires
        old(r).wf(),
    ensures
        final(r).wf(),
        final(r).data() == old(r).data(),
        match res {
            Ok(g) => dec_group(old(r).rest()) == Some((g@, final(r).rest())),
            Err(e) => dec_group(old(r).rest()) is None && e is Corrupt,
        },
{
    let ghost s = r.rest();
    let magic = r.u32()?;
    if magic != GROUP_MAGIC {
        return Err(Error::corrupt("bad journal magic"));
    }
    let seq = r.u64()?;
    let hi = r.u64()?;
    let lo = r.u64()?;
    let epoch = ((hi as u128) << 64u32) | (lo as u128);
    let count = r.u32()?;
    let ghost r4 = r.rest();
    proof {
        assert(dec_group(s) == match dec_ops(r4, count as nat) {
            None => None,
            Some((ops, r5)) => Some((GroupV { seq, epoch: epoch_join(hi, lo), ops }, r5)),
        });
    }
    let mut ops: Vec<Op> = Vec::new();
    let mut i: u32 = 0;
    while i < count
        invariant
            r.wf(),
            r.data() == old(r).data(),
            s == old(r).rest(),
            0 <= i <= count,
            dec_ops(r4, i as nat) == Some((ops_view(ops@), r.rest())),
            dec_group(s) == match dec_ops(r4, count as nat) {
                None => None,
                Some((ops, r5)) => Some((GroupV { seq, epoch: epoch_join(hi, lo), ops }, r5)),
            },
        decreases count - i,
    {
        let ghost cur = r.rest();
        let part = match r.str() {
            Ok(p) => p,
            Err(e) => {
                proof {
                    assert(dec_op(cur) is None);
                }
                proof {
                    lemma_dec_ops_stop(r4, i as nat, count as nat);
                }
                return Err(e);
            },
        };
        let ghost mid = r.rest();
        let key = match r.bytes() {
            Ok(k) => k,
            Err(e) => {
                proof {
                    assert(dec_str(cur) == Some((part@, mid)));
                    assert(dec_bytes(mid) is None);
                    assert(dec_op(cur) is None);
                    lemma_dec_ops_stop(r4, i as nat, count as nat);
                }
                return Err(e);
            },
        };
        let flag = match r.u8() {
            Ok(f) => f,
            Err(e) => {
                proof {
                    lemma_dec_ops_stop(r4, i as nat, count as nat);
                }
                return Err(e);
            },
        };
        let value = if flag == 0 {
            None
        } else if flag == 1 {
            match r.bytes() {
                Ok(v) => Some(v),
                Err(e) => {
                    proof {
                        lemma_dec_ops_stop(r4, i as nat, count as nat);
                    }
                    return Err(e);
                },
            }
        } else {
            proof {
                lemma_dec_ops_stop(r4, i as nat, count as nat);
            }
            return Err(Error::corrupt("bad journal op flag"));
        };
        let op = Op { part, key, value };
        proof {
            assert(ops_view(ops@.push(op)) =~= ops_view(ops@).push(op@));
        }
        ops.push(op);
        i = i + 1;
    }
    let g = Group { seq, epoch, ops };
    proof {
        assert(epoch == epoch_join(hi, lo));
    }
    Ok(g)
}

/// Decode a journal object that holds exactly one group.
pub fn decode_group(buf: &[u8]) -> (res: Result<Group, Error>)
    ensures
        match res {
            Ok(g) => dec_group(buf@) == Some((g@, Seq::<u8>::empty())),
            Err(e) => !(dec_group(buf@) matches Some((_, r)) && r.len() == 0) && e is Corrupt,
        },
{
    let mut r = Reader::new(buf);
    let group = read_group(&mut r)?;
    if r.remaining() != 0 {
        return Err(Error::corrupt("trailing bytes after journal group"));
    }
    proof {
        assert(r.rest() =~= Seq::<u8>::empty());
    }
    Ok(group)
}

/// Decode a journal object that may contain several concatenated groups
/// (group-commit batching) into its individual groups, in order.
pub fn decode_group_stream(buf: &[u8]) -> (res: Result<Vec<Group>, Error>)
    ensures
        match res {
            Ok(gs) => dec_stream(buf@) == Some(gs@.map_values(|g: Group| g@)),
            Err(e) => dec_stream(buf@) is None && e is Corrupt,
        },
{
    let mut r = Reader::new(buf);
    let mut out: Vec<Group> = Vec::new();
    while r.remaining() > 0
        invariant
            r.wf(),
            r.data() == buf@,
            dec_stream(buf@) == match dec_stream(r.rest()) {
                Some(tail) => Some(out@.map_values(|g: Group| g@) + tail),
                None => None,
            },
        decreases r.rest().len(),
    {
        let ghost before = r.rest();
        proof {
            lemma_dec_group_shrinks(before);
        }
        let g = read_group(&mut r)?;
        proof {
            let gv = out@.map_values(|g: Group| g@);
            assert(out@.push(g).map_values(|g: Group| g@) =~= gv.push(g@));
            match dec_stream(r.rest()) {
                Some(tail) => {
                    assert(gv + (seq![g@] + tail) =~= gv.push(g@) + tail);
                },
                None => {},
            }
        }
        out.push(g);
    }
    proof {
        assert(r.rest().len() == 0);
        assert(out@.map_values(|g: Group| g@) + Seq::<GroupV>::empty() =~= out@.map_values(
            |g: Group| g@,
        ));
    }
    Ok(out)
}

} // verus!
