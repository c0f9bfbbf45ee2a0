//! ALP Delta differential decoding of integer streams: the first value is
//! stored as is, every later value as its difference from the previous one,
//! offset by the block's minimum difference and bit-packed at a fixed width.
//! Also the encoder's side: the minimum difference and the width it needs.
use vstd::prelude::*;
use vstd::arithmetic::power2::{lemma2_to64, lemma_pow2_unfold, pow2};
use vstd::wrapping::i64_specs;

verus! {

/// Failure to decode a delta block.
#[derive(Debug, Clone, PartialEq, Eq)]
pub enum DecodeError {
    /// The packed payload holds fewer bytes than the header announces.
    UnexpectedEof { needed: u128, available: usize },
}

/// Bytes taken by `count` values packed at `bw` bits each.
pub open spec fn packed_byte_size(count: nat, bw: nat) -> nat {
    (count * bw + 7) / 8
}

/// Bit `j` of the packed stream, least significant bit of each byte first.
pub open spec fn bit_at(packed: Seq<u8>, j: nat) -> nat {
    ((packed[(j / 8) as int] >> ((j % 8) as u8)) & 1u8) as nat
}

/// The `n`-bit number stored from bit `pos` on, lowest bit first.
pub open spec fn bits_from(packed: Seq<u8>, pos: nat, n: nat) -> nat
    decreases n,
{
    if n == 0 {
        0
    } else {
        bit_at(packed, pos) + 2 * bits_from(packed, pos + 1, (n - 1) as nat)
    }
}

/// The `i`-th value packed at width `bw`.
pub open spec fn unpack(packed: Seq<u8>, bw: nat, i: nat) -> nat {
    bits_from(packed, i * bw, bw)
}

/// The decoded stream: `first`, then each value the previous one plus the
/// unpacked offset plus `min_delta` (two's complement wrap-around).
pub open spec fn delta_values(first: i64, min_delta: i64, packed: Seq<u8>, bw: nat, count: nat) -> Seq<i64>
    decreases count,
{
    if count == 0 {
        Seq::empty()
    } else if count == 1 {
        seq![first]
    } else {
        let prev = delta_values(first, min_delta, packed, bw, (count - 1) as nat);
        prev.push(
            i64_specs::wrapping_add(
                prev.last(),
                i64_specs::wrapping_add_unsigned(min_delta, unpack(packed, bw, (count - 2) as nat) as u64),
            ),
        )
    }
}

proof fn lemma_bits_bound(packed: Seq<u8>, pos: nat, n: nat)
    ensures
        bits_from(packed, pos, n) < pow2(n),
    decreases n,
{
    if n > 0 {
        lemma_bits_bound(packed, pos + 1, (n - 1) as nat);
        lemma_pow2_unfold(n);
        lemma_low_bit(packed[(pos / 8) as int], (pos % 8) as u8);
        assert(bit_at(packed, pos) <= 1);
    } else {
        lemma2_to64();
    }
}

proof fn lemma_low_bit(b: u8, s: u8)
    ensures
        (b >> s) & 1u8 <= 1u8,
{
    assert((b >> s) & 1u8 <= 1u8) by (bit_vector);
}

fn bit(packed: &[u8], j: u128) -> (b: u64)
    requires
        j / 8 < packed@.len(),
    ensures
        b == bit_at(packed@, j as nat),
{
    ((packed[(j / 8) as usize] >> ((j % 8) as u8)) & 1u8) as u64
}

/// The `i`-th value packed at width `bw`.
pub fn unpack_at(packed: &[u8], bw: u8, i: usize) -> (v: u64)
    requires
        bw <= 64,
        (i + 1) * bw <= packed@.len() * 8,
    ensures
        v == unpack(packed@, bw as nat, i as nat),
{
    proof {
        assert(i * bw + bw == (i + 1) * bw) by (nonlinear_arith);
        assert(0 <= i * bw) by (nonlinear_arith);
        assert(i * bw <= 0xffff_ffff_ffff_ffff * 0xff) by (nonlinear_arith)
            requires i <= 0xffff_ffff_ffff_ffff, bw <= 0xff;
    }
    let pos: u128 = (i as u128) * (bw as u128);
    let mut v: u128 = 0;
    let mut k: usize = bw as usize;
    proof {
        lemma2_to64();
    }
    while k > 0
        invariant
            k <= bw <= 64,
            pos == i * bw,
            pos <= 0xffff_ffff_ffff_ffff * 0xff,
            pos + bw <= packed@.len() * 8,
            v == bits_from(packed@, (pos + k) as nat, (bw - k) as nat),
            pow2(64) == 0x10000000000000000,
        decreases k,
    {
        proof {
            lemma_bits_bound(packed@, (pos + k) as nat, (bw - k) as nat);
            lemma_pow2_unfold((bw - k + 1) as nat);
            if bw - k + 1 < 64 {
                vstd::arithmetic::power2::lemma_pow2_strictly_increases((bw - k + 1) as nat, 64);
            }
            assert(((pos + k - 1) as nat) + 1 == (pos + k) as nat);
            assert((pos + k - 1) / 8 < packed@.len());
        }
        let b = bit(packed, pos + (k as u128) - 1);
        v = b as u128 + 2 * v;
        k = k - 1;
        proof {
            assert((bw - k) as nat == ((bw - (k + 1)) + 1) as nat);
            assert(bits_from(packed@, (pos + k) as nat, (bw - k) as nat) == bit_at(packed@, (pos + k) as nat)
                + 2 * bits_from(packed@, (pos + k + 1) as nat, (bw - k - 1) as nat));
        }
    }
    proof {
        lemma_bits_bound(packed@, pos as nat, bw as nat);
        if bw < 64 {
            vstd::arithmetic::power2::lemma_pow2_strictly_increases(bw as nat, 64);
        }
    }
    v as u64
}

/// The byte size of `count` values packed at width `bw`.
pub fn packed_size(count: usize, bw: u8) -> (n: u128)
    ensures
        n == packed_byte_size(count as nat, bw as nat),
{
    proof {
        assert(count * bw <= 0xffff_ffff_ffff_ffff * 0xff) by (nonlinear_arith)
            requires count <= 0xffff_ffff_ffff_ffff, bw <= 0xff;
    }
    ((count as u128) * (bw as u128) + 7) / 8
}

/// Decode a delta block of `count` values: `first`, then each later value
/// the previous one plus its unpacked offset plus `min_delta`, all with
/// two's complement wrap-around. The offsets of the `count - 1` later values
/// are packed at `bit_width` bits each; with width 0 nothing is read and
/// every difference is `min_delta`. A payload shorter than the packed
/// offsets is an `UnexpectedEof` naming the bytes needed and available.
pub fn decode_delta_ints(first: i64, min_delta: i64, packed: &[u8], count: usize, bit_width: u8) -> (r: Result<
    Vec<i64>,
    DecodeError,
>)
    requires
        bit_width <= 64,
    ensures
        bit_width > 0 && count > 1 && packed@.len() < packed_byte_size((count - 1) as nat, bit_width as nat)
            <==> r is Err,
        r matches Err(DecodeError::UnexpectedEof { needed, available }) ==> needed == packed_byte_size(
            (count - 1) as nat,
            bit_width as nat,
        ) && available == packed@.len(),
        r matches Ok(v) ==> v@ == delta_values(first, min_delta, packed@, bit_width as nat, count as nat),
{
    let mut out: Vec<i64> = Vec::new();
    if count == 0 {
        proof {
            assert(out@ =~= delta_values(first, min_delta, packed@, bit_width as nat, 0));
        }
        return Ok(out);
    }
    if bit_width > 0 && count > 1 {
        let needed = packed_size(count - 1, bit_width);
        if (packed.len() as u128) < needed {
            return Err(DecodeError::UnexpectedEof { needed, available: packed.len() });
        }
    }
    out.push(first);
    let mut curr = first;
    let mut i: usize = 1;
    proof {
        assert(out@ =~= delta_values(first, min_delta, packed@, bit_width as nat, 1));
    }
    while i < count
        invariant
            1 <= i <= count,
            bit_width <= 64,
            bit_width > 0 && count > 1 ==> packed_byte_size((count - 1) as nat, bit_width as nat)
                <= packed@.len(),
            out@ == delta_values(first, min_delta, packed@, bit_width as nat, i as nat),
            curr == out@.last(),
        decreases count - i,
    {
        let off: u64 = if bit_width == 0 {
            0
        } else {
            proof {
                assert(i * bit_width <= (count - 1) * bit_width) by (nonlinear_arith)
                    requires i <= count - 1;
                assert(((count - 1) * bit_width + 7) / 8 * 8 >= (count - 1) * bit_width) by (nonlinear_arith);
            }
            unpack_at(packed, bit_width, i - 1)
        };
        proof {
            if bit_width == 0 {
                assert(unpack(packed@, 0, (i - 1) as nat) == 0);
            }
        }
        curr = curr.wrapping_add(min_delta.wrapping_add_unsigned(off));
        out.push(curr);
        i = i + 1;
    }
    Ok(out)
}

/// The wrapping differences of `rest` against their predecessors (`first`
/// before `rest[0]`).
pub open spec fn deltas(first: i64, rest: Seq<i64>) -> Seq<i64> {
    Seq::new(
        rest.len(),
        |i: int| i64_specs::wrapping_sub(rest[i], if i == 0 { first } else { rest[i - 1] }),
    )
}

/// The least element of a non-empty sequence.
pub open spec fn seq_min(s: Seq<i64>) -> i64
    decreases s.len(),
{
    if s.len() <= 1 {
        s[0]
    } else {
        let m = seq_min(s.drop_last());
        if s.last() < m { s.last() } else { m }
    }
}

/// The greatest element of a non-empty sequence.
pub open spec fn seq_max(s: Seq<i64>) -> i64
    decreases s.len(),
{
    if s.len() <= 1 {
        s[0]
    } else {
        let m = seq_max(s.drop_last());
        if s.last() > m { s.last() } else { m }
    }
}

/// The number of bits needed to write `x` (0 for 0).
pub open spec fn bits_needed(x: nat) -> nat
    decreases x,
{
    if x == 0 {
        0
    } else {
        1 + bits_needed(x / 2)
    }
}

proof fn lemma_min_le_max(s: Seq<i64>)
    requires
        s.len() > 0,
    ensures
        seq_min(s) <= seq_max(s),
    decreases s.len(),
{
    if s.len() > 1 {
        lemma_min_le_max(s.drop_last());
    }
}

proof fn lemma_bits_needed_le(x: nat, n: nat)
    requires
        x < pow2(n),
    ensures
        bits_needed(x) <= n,
    decreases n,
{
    if x > 0 {
        if n == 0 {
            vstd::arithmetic::power2::lemma2_to64();
        } else {
            lemma_pow2_unfold(n);
            lemma_bits_needed_le(x / 2, (n - 1) as nat);
        }
    }
}

/// The number of bits needed to write `x`.
fn bit_count(x: u64) -> (n: u8)
    ensures
        n == bits_needed(x as nat),
        n <= 64,
{
    let mut y = x;
    let mut n: u8 = 0;
    proof {
        lemma2_to64();
        lemma_bits_needed_le(x as nat, 64);
    }
    while y > 0
        invariant
            n + bits_needed(y as nat) == bits_needed(x as nat),
            bits_needed(x as nat) <= 64,
        decreases y,
    {
        y = y / 2;
        n = n + 1;
    }
    n
}

/// The minimum difference between neighbours of `first, rest...` and the bit
/// width its range needs: the width of the greatest difference minus the
/// least. No differences gives `(0, 0)`.
pub fn delta_range(first: i64, rest: &[i64]) -> (r: (i64, u8))
    ensures
        rest@.len() == 0 ==> r == (0i64, 0u8),
        rest@.len() > 0 ==> r.0 == seq_min(deltas(first, rest@)) && r.1 as nat == bits_needed(
            (seq_max(deltas(first, rest@)) - seq_min(deltas(first, rest@))) as nat,
        ),
{
    if rest.len() == 0 {
        return (0, 0);
    }
    let ghost ds = deltas(first, rest@);
    let d0 = rest[0].wrapping_sub(first);
    let mut min_delta = d0;
    let mut max_delta = d0;
    let mut prev = rest[0];
    let mut i: usize = 1;
    proof {
        assert(ds.take(1) =~= seq![d0]);
    }
    while i < rest.len()
        invariant
            1 <= i <= rest@.len(),
            ds == deltas(first, rest@),
            prev == rest@[i - 1],
            min_delta == seq_min(ds.take(i as int)),
            max_delta == seq_max(ds.take(i as int)),
        decreases rest@.len() - i,
    {
        let d = rest[i].wrapping_sub(prev);
        proof {
            assert(ds.take(i + 1).drop_last() =~= ds.take(i as int));
            assert(ds.take(i + 1).last() == d);
        }
        if d < min_delta {
            min_delta = d;
        }
        if d > max_delta {
            max_delta = d;
        }
        prev = rest[i];
        i = i + 1;
    }
    proof {
        assert(ds.take(i as int) =~= ds);
        lemma_min_le_max(ds);
    }
    let range = ((max_delta as i128) - (min_delta as i128)) as u64;
    (min_delta, bit_count(range))
}

/// Whether delta coding beats frame-of-reference coding at `for_bit_width`:
/// the minimum difference and its width when that width is smaller, else
/// `None` (also when there are no differences).
pub fn eval_delta_benefit(first: i64, rest: &[i64], for_bit_width: u8) -> (r: Option<(i64, u8)>)
    ensures
        rest@.len() == 0 ==> r is None,
        rest@.len() > 0 ==> {
            let ds = deltas(first, rest@);
            let w = bits_needed((seq_max(ds) - seq_min(ds)) as nat);
            &&& (r is Some <==> w < for_bit_width)
            &&& (r matches Some(p) ==> p.0 == seq_min(ds) && p.1 as nat == w)
        },
{
    if rest.len() == 0 {
        return None;
    }
    let (m, w) = delta_range(first, rest);
    if w < for_bit_width {
        Some((m, w))
    } else {
        None
    }
}

} // verus!
