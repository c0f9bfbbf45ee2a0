//! Listing order of object keys: the zero-padded numeric suffixes make the
//! lexicographic order of keys (compared by their UTF-8 bytes, the order a
//! store lists them in) the numeric order of the sequence numbers and ids.
use vstd::prelude::*;

use crate::keys::{
    all_digits, dec_digits, dec_pad, digit_value, digits_value, is_digit, lemma_dec_pad,
    spec_journal_key, spec_journal_key_epoch, spec_manifest_key, spec_segment_key,
};
use crate::order::lex_lt;
use crate::state::{lemma_encode_injective, name_lt};
use vstd::utf8::{encode_utf8, is_ascii_chars};

verus! {

/// UTF-8 encoding distributes over concatenation.
pub proof fn lemma_encode_concat(a: Seq<char>, b: Seq<char>)
    ensures
        encode_utf8(a + b) == encode_utf8(a) + encode_utf8(b),
    decreases a.len(),
{
    if a.len() == 0 {
        assert(a + b =~= b);
        assert(encode_utf8(a) + encode_utf8(b) =~= encode_utf8(b));
    } else {
        assert((a + b)[0] == a[0]);
        assert((a + b).drop_first() =~= a.drop_first() + b);
        lemma_encode_concat(a.drop_first(), b);
        let h = vstd::utf8::encode_scalar(a[0] as u32);
        assert(h + (encode_utf8(a.drop_first()) + encode_utf8(b)) =~= (h + encode_utf8(
            a.drop_first(),
        )) + encode_utf8(b));
    }
}

/// A common prefix does not change the order.
pub proof fn lemma_lex_common_prefix(c: Seq<u8>, x: Seq<u8>, y: Seq<u8>)
    ensures
        lex_lt(c + x, c + y) == lex_lt(x, y),
    decreases c.len(),
{
    if c.len() == 0 {
        assert(c + x =~= x);
        assert(c + y =~= y);
    } else {
        assert((c + x)[0] == c[0] && (c + y)[0] == c[0]);
        assert((c + x).drop_first() =~= c.drop_first() + x);
        assert((c + y).drop_first() =~= c.drop_first() + y);
        lemma_lex_common_prefix(c.drop_first(), x, y);
    }
}

/// Extending two equal-length sequences by one byte each compares the
/// sequences first and the bytes last.
proof fn lemma_lex_push(a: Seq<u8>, b: Seq<u8>, x: u8, y: u8)
    requires
        a.len() == b.len(),
    ensures
        lex_lt(a.push(x), b.push(y)) == (if a == b {
            x < y
        } else {
            lex_lt(a, b)
        }),
    decreases a.len(),
{
    if a.len() == 0 {
        assert(a =~= b);
        assert(a.push(x) =~= seq![x]);
        assert(b.push(y) =~= seq![y]);
        assert(seq![x].drop_first() =~= Seq::<u8>::empty());
        assert(seq![y].drop_first() =~= Seq::<u8>::empty());
        assert(!lex_lt(Seq::<u8>::empty(), Seq::<u8>::empty()));
        assert(lex_lt(seq![x], seq![y]) == (x < y));
    } else {
        assert(a.push(x)[0] == a[0] && b.push(y)[0] == b[0]);
        assert(a.push(x).drop_first() =~= a.drop_first().push(x));
        assert(b.push(y).drop_first() =~= b.drop_first().push(y));
        lemma_lex_push(a.drop_first(), b.drop_first(), x, y);
        if a[0] == b[0] {
            assert((a == b) == (a.drop_first() == b.drop_first())) by {
                if a.drop_first() == b.drop_first() {
                    assert(a =~= seq![a[0]] + a.drop_first());
                    assert(b =~= seq![b[0]] + b.drop_first());
                }
            }
        } else {
            assert(a != b);
        }
    }
}

/// A decimal digit is an ASCII character whose byte orders like its value.
proof fn lemma_digit_byte(c: char)
    requires
        is_digit(c),
    ensures
        encode_utf8(seq![c]) == seq![c as u8],
        (c as u8) == 48 + digit_value(c),
{
    assert(is_ascii_chars(seq![c]));
    vstd::utf8::is_ascii_chars_encode_utf8(seq![c]);
    assert(encode_utf8(seq![c]) =~= seq![c as u8]);
}

/// Equal-length digit strings compare, as UTF-8 bytes, the way their values
/// do; and they are equal exactly when their values are.
proof fn lemma_digits_order(s: Seq<char>, t: Seq<char>)
    requires
        s.len() == t.len(),
        all_digits(s),
        all_digits(t),
    ensures
        lex_lt(encode_utf8(s), encode_utf8(t)) == (digits_value(s) < digits_value(t)),
        (s == t) == (digits_value(s) == digits_value(t)),
        encode_utf8(s).len() == s.len(),
        encode_utf8(t).len() == t.len(),
    decreases s.len(),
{
    if s.len() == 0 {
        assert(s =~= t);
        assert(encode_utf8(s) =~= Seq::<u8>::empty());
        assert(encode_utf8(t) =~= Seq::<u8>::empty());
    } else {
        let s1 = s.drop_last();
        let t1 = t.drop_last();
        let cs = s.last();
        let ct = t.last();
        assert(all_digits(s1)) by {
            assert forall|i: int| 0 <= i < s1.len() implies #[trigger] is_digit(s1[i]) by {
                assert(s1[i] == s[i]);
            }
        }
        assert(all_digits(t1)) by {
            assert forall|i: int| 0 <= i < t1.len() implies #[trigger] is_digit(t1[i]) by {
                assert(t1[i] == t[i]);
            }
        }
        assert(is_digit(cs) && is_digit(ct)) by {
            assert(is_digit(s[s.len() - 1]) && is_digit(t[t.len() - 1]));
        }
        lemma_digits_order(s1, t1);
        lemma_digit_byte(cs);
        lemma_digit_byte(ct);
        assert(s =~= s1 + seq![cs]);
        assert(t =~= t1 + seq![ct]);
        lemma_encode_concat(s1, seq![cs]);
        lemma_encode_concat(t1, seq![ct]);
        assert(encode_utf8(s) =~= encode_utf8(s1).push(cs as u8));
        assert(encode_utf8(t) =~= encode_utf8(t1).push(ct as u8));
        lemma_lex_push(encode_utf8(s1), encode_utf8(t1), cs as u8, ct as u8);
        lemma_encode_injective(s1, t1);
        assert((s == t) == (s1 == t1 && cs == ct)) by {
            if s1 == t1 && cs == ct {
                assert(s =~= t);
            }
        }
        assert(digit_value(cs) < 10 && digit_value(ct) < 10);
        assert((cs == ct) == (digit_value(cs) == digit_value(ct))) by {
            if digit_value(cs) == digit_value(ct) {
                assert(cs as u8 == ct as u8);
                assert(cs as u32 == ct as u32);
                vstd::utf8::char_u32_cast(cs, cs as u32);
                vstd::utf8::char_u32_cast(ct, ct as u32);
            }
        }
    }
}

/// Powers of ten.
pub open spec fn pow10(k: nat) -> nat
    decreases k,
{
    if k == 0 {
        1
    } else {
        10 * pow10((k - 1) as nat)
    }
}

/// A number below `10^k` has at most `k` decimal digits.
proof fn lemma_dec_digits_len(n: nat, k: nat)
    requires
        k >= 1,
        n < pow10(k),
    ensures
        dec_digits(n).len() <= k,
    decreases k,
{
    if n >= 10 {
        if k == 1 {
            assert(pow10(1) == 10 * pow10(0));
        } else {
            assert(pow10(k) == 10 * pow10((k - 1) as nat));
            assert(n / 10 < pow10((k - 1) as nat));
            lemma_dec_digits_len(n / 10, (k - 1) as nat);
        }
    }
}

/// A `u64` padded to twenty digits is exactly twenty digits long.
proof fn lemma_pad20(n: u64)
    ensures
        dec_pad(n as nat, 20).len() == 20,
        all_digits(dec_pad(n as nat, 20)),
        digits_value(dec_pad(n as nat, 20)) == n,
{
    assert(pow10(20) == 100_000_000_000_000_000_000) by {
        reveal_with_fuel(pow10, 21);
    }
    lemma_dec_digits_len(n as nat, 20);
    lemma_dec_pad(n as nat, 20);
}

/// Keys that share a prefix and end in twenty-digit numbers list in the
/// numbers' order.
proof fn lemma_padded_order(p: Seq<char>, a: u64, b: u64)
    ensures
        name_lt(p + dec_pad(a as nat, 20), p + dec_pad(b as nat, 20)) == (a < b),
{
    lemma_pad20(a);
    lemma_pad20(b);
    let da = dec_pad(a as nat, 20);
    let db = dec_pad(b as nat, 20);
    lemma_digits_order(da, db);
    lemma_encode_concat(p, da);
    lemma_encode_concat(p, db);
    lemma_lex_common_prefix(encode_utf8(p), encode_utf8(da), encode_utf8(db));
}

/// Zero-padded suffixes keep the store's lexicographic listing order equal
/// to numeric order: a later manifest, journal group (in any epoch's
/// namespace) or segment id lists after an earlier one.
pub proof fn lemma_key_order(prefix: Seq<char>, part: Seq<char>, epoch: u128, a: u64, b: u64)
    ensures
        name_lt(spec_manifest_key(prefix, a), spec_manifest_key(prefix, b)) == (a < b),
        name_lt(spec_journal_key(prefix, a), spec_journal_key(prefix, b)) == (a < b),
        name_lt(spec_journal_key_epoch(prefix, a, epoch), spec_journal_key_epoch(prefix, b, epoch))
            == (a < b),
        name_lt(spec_segment_key(prefix, part, a), spec_segment_key(prefix, part, b)) == (a < b),
{
    lemma_padded_order(prefix + "/manifest/"@, a, b);
    lemma_padded_order(prefix + "/journal/"@, a, b);
    lemma_padded_order(prefix + "/journal/"@ + dec_digits(epoch as nat) + "/"@, a, b);
    lemma_padded_order(prefix + "/seg/"@ + part + "/"@, a, b);
}

} // verus!
