//! Little-endian binary codec helpers shared by the journal and segment formats.
use vstd::bytes::{
    spec_u32_from_le_bytes, spec_u32_to_le_bytes, spec_u64_from_le_bytes, spec_u64_to_le_bytes,
    u32_from_le_bytes, u32_to_le_bytes, u64_from_le_bytes, u64_to_le_bytes,
};
use vstd::prelude::*;
use vstd::utf8::{decode_utf8, encode_utf8, valid_utf8};

use crate::error::Error;

verus! {

/// Little-endian encoding of a `u32`.
pub open spec fn enc_u32(v: u32) -> Seq<u8> {
    spec_u32_to_le_bytes(v)
}

/// Little-endian encoding of a `u64`.
pub open spec fn enc_u64(v: u64) -> Seq<u8> {
    spec_u64_to_le_bytes(v)
}

/// A length-prefixed byte string: `len u32 | bytes`.
pub open spec fn enc_bytes(b: Seq<u8>) -> Seq<u8> {
    enc_u32(b.len() as u32) + b
}

/// A length-prefixed UTF-8 string.
pub open spec fn enc_str(s: Seq<char>) -> Seq<u8> {
    enc_bytes(encode_utf8(s))
}

/// Reading one byte from the front of `s`: the byte and what follows it.
pub open spec fn dec_u8(s: Seq<u8>) -> Option<(u8, Seq<u8>)> {
    if s.len() < 1 {
        None
    } else {
        Some((s[0], s.skip(1)))
    }
}

/// Reading a little-endian `u32` from the front of `s`.
pub open spec fn dec_u32(s: Seq<u8>) -> Option<(u32, Seq<u8>)> {
    if s.len() < 4 {
        None
    } else {
        Some((spec_u32_from_le_bytes(s.take(4)), s.skip(4)))
    }
}

/// Reading a little-endian `u64` from the front of `s`.
pub open spec fn dec_u64(s: Seq<u8>) -> Option<(u64, Seq<u8>)> {
    if s.len() < 8 {
        None
    } else {
        Some((spec_u64_from_le_bytes(s.take(8)), s.skip(8)))
    }
}

/// Reading a length-prefixed byte string from the front of `s`.
pub open spec fn dec_bytes(s: Seq<u8>) -> Option<(Seq<u8>, Seq<u8>)> {
    match dec_u32(s) {
        Some((n, r)) => if r.len() < n {
            None
        } else {
            Some((r.take(n as int), r.skip(n as int)))
        },
        None => None,
    }
}

/// Reading a length-prefixed UTF-8 string from the front of `s`.
pub open spec fn dec_str(s: Seq<u8>) -> Option<(Seq<char>, Seq<u8>)> {
    match dec_bytes(s) {
        Some((b, r)) => if valid_utf8(b) {
            Some((decode_utf8(b), r))
        } else {
            None
        },
        None => None,
    }
}

/// Reading back an encoded `u32` gives the value and leaves what followed it.
pub proof fn lemma_u32_roundtrip(v: u32, rest: Seq<u8>)
    ensures
        enc_u32(v).len() == 4,
        dec_u32(enc_u32(v) + rest) == Some((v, rest)),
{
    vstd::bytes::lemma_auto_spec_u32_to_from_le_bytes();
    let s = enc_u32(v) + rest;
    assert(s.take(4) =~= enc_u32(v));
    assert(s.skip(4) =~= rest);
}

/// Reading back an encoded `u64` gives the value and leaves what followed it.
pub proof fn lemma_u64_roundtrip(v: u64, rest: Seq<u8>)
    ensures
        enc_u64(v).len() == 8,
        dec_u64(enc_u64(v) + rest) == Some((v, rest)),
{
    vstd::bytes::lemma_auto_spec_u64_to_from_le_bytes();
    let s = enc_u64(v) + rest;
    assert(s.take(8) =~= enc_u64(v));
    assert(s.skip(8) =~= rest);
}

/// Reading back a length-prefixed byte string gives it back.
pub proof fn lemma_bytes_roundtrip(b: Seq<u8>, rest: Seq<u8>)
    requires
        b.len() <= u32::MAX,
    ensures
        dec_bytes(enc_bytes(b) + rest) == Some((b, rest)),
{
    lemma_u32_roundtrip(b.len() as u32, b + rest);
    assert(enc_bytes(b) + rest =~= enc_u32(b.len() as u32) + (b + rest));
    assert((b + rest).take(b.len() as int) =~= b);
    assert((b + rest).skip(b.len() as int) =~= rest);
}

/// Reading back a length-prefixed string gives it back.
pub proof fn lemma_str_roundtrip(s: Seq<char>, rest: Seq<u8>)
    requires
        encode_utf8(s).len() <= u32::MAX,
    ensures
        dec_str(enc_str(s) + rest) == Some((s, rest)),
{
    lemma_bytes_roundtrip(encode_utf8(s), rest);
    vstd::utf8::encode_utf8_valid_utf8(s);
    vstd::utf8::encode_utf8_decode_utf8(s);
}

/// Append the little-endian bytes of `v`.
pub fn put_u32(out: &mut Vec<u8>, v: u32)
    ensures
        final(out)@ == old(out)@ + enc_u32(v),
{
    let mut b = u32_to_le_bytes(v);
    out.append(&mut b);
}

/// Append the little-endian bytes of `v`.
pub fn put_u64(out: &mut Vec<u8>, v: u64)
    ensures
        final(out)@ == old(out)@ + enc_u64(v),
{
    let mut b = u64_to_le_bytes(v);
    out.append(&mut b);
}

/// Append `b` verbatim.
pub fn put_raw(out: &mut Vec<u8>, b: &[u8])
    ensures
        final(out)@ == old(out)@ + b@,
{
    let mut i: usize = 0;
    while i < b.len()
        invariant
            0 <= i <= b@.len(),
            out@ == old(out)@ + b@.take(i as int),
        decreases b@.len() - i,
    {
        out.push(b[i]);
        proof {
            assert(b@.take(i + 1) =~= b@.take(i as int).push(b@[i as int]));
        }
        i = i + 1;
    }
    proof {
        assert(b@.take(i as int) =~= b@);
    }
}

/// Append a `u32` length prefix followed by `b`; fails, appending nothing, when
/// `b` is longer than a `u32` can count.
pub fn put_bytes(out: &mut Vec<u8>, b: &[u8]) -> (r: Result<(), Error>)
    ensures
        b@.len() <= u32::MAX ==> r is Ok && final(out)@ == old(out)@ + enc_bytes(b@),
        b@.len() > u32::MAX ==> (r matches Err(Error::Encode(_))) && final(out)@ == old(out)@,
{
    if b.len() > 0xffff_ffffusize {
        return Err(Error::encode("byte slice too long"));
    }
    put_u32(out, b.len() as u32);
    put_raw(out, b);
    proof {
        assert(final(out)@ =~= old(out)@ + enc_bytes(b@));
    }
    Ok(())
}

/// Append a length-prefixed UTF-8 string.
pub fn put_str(out: &mut Vec<u8>, s: &str) -> (r: Result<(), Error>)
    ensures
        encode_utf8(s@).len() <= u32::MAX ==> r is Ok && final(out)@ == old(out)@ + enc_str(s@),
        encode_utf8(s@).len() > u32::MAX ==> (r matches Err(Error::Encode(_)))
            && final(out)@ == old(out)@,
{
    put_bytes(out, s.as_bytes())
}

/// Sequential reader over a byte slice with bounds checking.
pub struct Reader<'a> {
    buf: &'a [u8],
    pos: usize,
}

impl<'a> Reader<'a> {
    /// The whole slice being read.
    pub closed spec fn data(&self) -> Seq<u8> {
        self.buf@
    }

    /// How many bytes have been consumed.
    pub closed spec fn pos(&self) -> int {
        self.pos as int
    }

    /// The reader never runs past the end of its slice.
    pub open spec fn wf(&self) -> bool {
        0 <= self.pos() <= self.data().len()
    }

    /// The bytes not yet consumed.
    pub open spec fn rest(&self) -> Seq<u8> {
        self.data().subrange(self.pos(), self.data().len() as int)
    }

    pub fn new(buf: &'a [u8]) -> (r: Self)
        ensures
            r.wf(),
            r.data() == buf@,
            r.pos() == 0,
            r.rest() == buf@,
    {
        let r = Reader { buf, pos: 0 };
        assert(r.rest() =~= buf@);
        r
    }

    /// Number of bytes not yet consumed.
    pub fn remaining(&self) -> (n: usize)
        requires
            self.wf(),
        ensures
            n == self.rest().len(),
    {
        self.buf.len() - self.pos
    }

    /// Consume the next `n` bytes.
    pub fn take(&mut self, n: usize) -> (r: Result<&'a [u8], Error>)
        requires
            old(self).wf(),
        ensures
            final(self).wf(),
            final(self).data() == old(self).data(),
            match r {
                Ok(s) => n <= old(self).rest().len() && s@ == old(self).rest().take(n as int)
                    && final(self).rest() == old(self).rest().skip(n as int),
                Err(e) => n > old(self).rest().len() && e is Corrupt && *final(self) == *old(
                    self,
                ),
            },
    {
        if self.buf.len() - self.pos < n {
            return Err(Error::corrupt("unexpected end of payload"));
        }
        let s = &self.buf[self.pos..self.pos + n];
        let ghost old_rest = self.rest();
        self.pos = self.pos + n;
        proof {
            assert(s@ =~= old_rest.take(n as int));
            assert(self.rest() =~= old_rest.skip(n as int));
        }
        Ok(s)
    }

    pub fn u8(&mut self) -> (r: Result<u8, Error>)
        requires
            old(self).wf(),
        ensures
            final(self).wf(),
            final(self).data() == old(self).data(),
            match r {
                Ok(v) => dec_u8(old(self).rest()) == Some((v, final(self).rest())),
                Err(e) => dec_u8(old(self).rest()) is None && e is Corrupt && *final(self) == *old(self),
            },
    {
        let s = self.take(1)?;
        Ok(s[0])
    }

    pub fn u32(&mut self) -> (r: Result<u32, Error>)
        requires
            old(self).wf(),
        ensures
            final(self).wf(),
            final(self).data() == old(self).data(),
            match r {
                Ok(v) => dec_u32(old(self).rest()) == Some((v, final(self).rest())),
                Err(e) => dec_u32(old(self).rest()) is None && e is Corrupt && *final(self) == *old(self),
            },
    {
        let s = self.take(4)?;
        Ok(u32_from_le_bytes(s))
    }

    pub fn u64(&mut self) -> (r: Result<u64, Error>)
        requires
            old(self).wf(),
        ensures
            final(self).wf(),
            final(self).data() == old(self).data(),
            match r {
                Ok(v) => dec_u64(old(self).rest()) == Some((v, final(self).rest())),
                Err(e) => dec_u64(old(self).rest()) is None && e is Corrupt && *final(self) == *old(self),
            },
    {
        let s = self.take(8)?;
        Ok(u64_from_le_bytes(s))
    }

    /// Read a length-prefixed byte string.
    pub fn bytes(&mut self) -> (r: Result<Vec<u8>, Error>)
        requires
            old(self).wf(),
        ensures
            final(self).wf(),
            final(self).data() == old(self).data(),
            match r {
                Ok(v) => dec_bytes(old(self).rest()) == Some((v@, final(self).rest())),
                Err(e) => dec_bytes(old(self).rest()) is None && e is Corrupt && (if old(self).rest().len() < 4 {
                    *final(self) == *old(self)
                } else {
                    final(self).rest() == old(self).rest().skip(4)
                }),
            },
    {
        let n = self.u32()?;
        let s = self.take(n as usize)?;
        Ok(vstd::slice::slice_to_vec(s))
    }

    /// Read a length-prefixed UTF-8 string.
    pub fn str(&mut self) -> (r: Result<String, Error>)
        requires
            old(self).wf(),
        ensures
            final(self).wf(),
            final(self).data() == old(self).data(),
            match r {
                Ok(v) => dec_str(old(self).rest()) == Some((v@, final(self).rest())),
                Err(e) => dec_str(old(self).rest()) is None && e is Corrupt,
            },
    {
        let b = self.bytes()?;
        match utf8_to_string(b) {
            Some(s) => {
                proof {
                    vstd::utf8::decode_utf8_encode_utf8(b@);
                    vstd::utf8::encode_utf8_decode_utf8(s@);
                }
                Ok(s)
            },
            None => Err(Error::corrupt("invalid utf-8")),
        }
    }
}

/// Converts bytes to a `String` with `String::from_utf8`, which succeeds
/// exactly when the bytes are valid UTF-8 and then keeps them unchanged as the
/// string's encoding.
#[verifier::external_body]
pub(crate) fn utf8_to_string(bytes: Vec<u8>) -> (r: Option<String>)
    ensures
        match r {
            Some(s) => valid_utf8(bytes@) && encode_utf8(s@) == bytes@,
            None => !valid_utf8(bytes@),
        },
{
    String::from_utf8(bytes).ok()
}

} // verus!
