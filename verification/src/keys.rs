//! Object key layout helpers.
//!
//! Layout under the instance `prefix`:
//! ```text
//! <prefix>/manifest/current          pointer object -> latest manifest seq
//! <prefix>/manifest/<seq:020>        immutable manifest snapshots
//! <prefix>/journal/<seq:020>         immutable committed record groups (unfenced)
//! <prefix>/journal/<epoch>/<seq:020> same, fenced/leased writers (per epoch)
//! <prefix>/seg/<partition>/<id:020>  immutable sorted segment objects
//! ```
//! Zero-padded numeric suffixes keep `list` lexicographic = numeric order.
use vstd::prelude::*;
use vstd::string::StringExecFns;
use vstd::string::StrSliceExecFns;

verus! {

/// The decimal digit character for `d < 10`.
pub open spec fn digit_char(d: nat) -> char {
    if d == 0 { '0' } else if d == 1 { '1' } else if d == 2 { '2' } else if d == 3 { '3' }
    else if d == 4 { '4' } else if d == 5 { '5' } else if d == 6 { '6' } else if d == 7 { '7' }
    else if d == 8 { '8' } else { '9' }
}

/// Whether `c` is an ASCII decimal digit.
pub open spec fn is_digit(c: char) -> bool {
    '0' <= c && c <= '9'
}

/// The value of a decimal digit character.
pub open spec fn digit_value(c: char) -> nat {
    ((c as u32) - ('0' as u32)) as nat
}

/// Decimal representation of `n`, most significant digit first, no padding.
pub open spec fn dec_digits(n: nat) -> Seq<char>
    decreases n,
{
    if n < 10 {
        seq![digit_char(n)]
    } else {
        dec_digits(n / 10).push(digit_char(n % 10))
    }
}

/// Decimal representation of `n` left-padded with `'0'` to at least `width` characters.
pub open spec fn dec_pad(n: nat, width: nat) -> Seq<char> {
    let d = dec_digits(n);
    if d.len() >= width {
        d
    } else {
        Seq::new((width - d.len()) as nat, |i: int| '0') + d
    }
}

/// Value of a string of decimal digits.
pub open spec fn digits_value(s: Seq<char>) -> nat
    decreases s.len(),
{
    if s.len() == 0 {
        0
    } else {
        digits_value(s.drop_last()) * 10 + digit_value(s.last())
    }
}

/// Whether every character of `s` is a decimal digit.
pub open spec fn all_digits(s: Seq<char>) -> bool {
    forall|i: int| 0 <= i < s.len() ==> #[trigger] is_digit(s[i])
}

/// How the standard library parses an unsigned integer no larger than `max`:
/// an optional leading `'+'`, then one or more decimal digits whose value fits.
pub open spec fn parse_uint(s: Seq<char>, max: nat) -> Option<nat> {
    let d = if s.len() > 0 && s[0] == '+' {
        s.drop_first()
    } else {
        s
    };
    if d.len() == 0 || !all_digits(d) || digits_value(d) > max {
        None
    } else {
        Some(digits_value(d))
    }
}

/// Index of the first occurrence of `c` in `s`.
pub open spec fn find_char(s: Seq<char>, c: char) -> Option<int>
    decreases s.len(),
{
    if s.len() == 0 {
        None
    } else if s[0] == c {
        Some(0)
    } else {
        match find_char(s.drop_first(), c) {
            Some(i) => Some(i + 1),
            None => None,
        }
    }
}

/// Index of the last occurrence of `c` in `s`.
pub open spec fn rfind_char(s: Seq<char>, c: char) -> Option<int>
    decreases s.len(),
{
    if s.len() == 0 {
        None
    } else if s.last() == c {
        Some(s.len() - 1)
    } else {
        rfind_char(s.drop_last(), c)
    }
}

/// Key of the pointer object holding the latest manifest sequence.
pub open spec fn spec_current_key(prefix: Seq<char>) -> Seq<char> {
    prefix + "/manifest/current"@
}

pub open spec fn spec_manifest_key(prefix: Seq<char>, seq: u64) -> Seq<char> {
    prefix + "/manifest/"@ + dec_pad(seq as nat, 20)
}

pub open spec fn spec_journal_key(prefix: Seq<char>, seq: u64) -> Seq<char> {
    prefix + "/journal/"@ + dec_pad(seq as nat, 20)
}

pub open spec fn spec_journal_key_epoch(prefix: Seq<char>, seq: u64, epoch: u128) -> Seq<char> {
    if epoch == 0 {
        spec_journal_key(prefix, seq)
    } else {
        prefix + "/journal/"@ + dec_digits(epoch as nat) + "/"@ + dec_pad(seq as nat, 20)
    }
}

pub open spec fn spec_segment_key(prefix: Seq<char>, part: Seq<char>, id: u64) -> Seq<char> {
    prefix + "/seg/"@ + part + "/"@ + dec_pad(id as nat, 20)
}

pub open spec fn spec_journal_prefix(prefix: Seq<char>) -> Seq<char> {
    prefix + "/journal/"@
}

pub open spec fn spec_journal_prefix_epoch(prefix: Seq<char>, epoch: u128) -> Seq<char> {
    if epoch == 0 {
        spec_journal_prefix(prefix)
    } else {
        prefix + "/journal/"@ + dec_digits(epoch as nat) + "/"@
    }
}

/// The `(epoch, seq)` that a journal key tail below `root` names, if any.
pub open spec fn spec_parse_journal_tail(key: Seq<char>, root: Seq<char>) -> Option<(u128, u64)> {
    if root.len() > key.len() || key.take(root.len() as int) != root {
        None
    } else {
        let tail = key.skip(root.len() as int);
        match find_char(tail, '/') {
            Some(p) => match (
                parse_uint(tail.take(p), u128::MAX as nat),
                parse_uint(tail.skip(p + 1), u64::MAX as nat),
            ) {
                (Some(e), Some(s)) => Some((e as u128, s as u64)),
                _ => None,
            },
            None => match parse_uint(tail, u64::MAX as nat) {
                Some(s) => Some((0u128, s as u64)),
                None => None,
            },
        }
    }
}

/// The sequence number after the last `/` of a key, if it parses.
pub open spec fn spec_parse_tail_seq(key: Seq<char>) -> Option<u64> {
    match rfind_char(key, '/') {
        Some(p) => match parse_uint(key.skip(p + 1), u64::MAX as nat) {
            Some(v) => Some(v as u64),
            None => None,
        },
        None => None,
    }
}

/// The one-character string of decimal digit `d`.
fn digit_str(d: u128) -> (s: &'static str)
    requires
        d < 10,
    ensures
        s@ == seq![digit_char(d as nat)],
{
    proof {
        reveal_strlit("0");
        reveal_strlit("1");
        reveal_strlit("2");
        reveal_strlit("3");
        reveal_strlit("4");
        reveal_strlit("5");
        reveal_strlit("6");
        reveal_strlit("7");
        reveal_strlit("8");
        reveal_strlit("9");
    }
    if d == 0 {
        "0"
    } else if d == 1 {
        "1"
    } else if d == 2 {
        "2"
    } else if d == 3 {
        "3"
    } else if d == 4 {
        "4"
    } else if d == 5 {
        "5"
    } else if d == 6 {
        "6"
    } else if d == 7 {
        "7"
    } else if d == 8 {
        "8"
    } else {
        "9"
    }
}

/// `n` in decimal, most significant digit first.
pub(crate) fn fmt_u128(n: u128) -> (s: String)
    ensures
        s@ == dec_digits(n as nat),
    decreases n,
{
    if n < 10 {
        String::from_str(digit_str(n))
    } else {
        let mut s = fmt_u128(n / 10);
        s.append(digit_str(n % 10));
        s
    }
}

/// `n` in decimal, left-padded with `'0'` to twenty characters.
fn fmt_pad20(n: u64) -> (s: String)
    ensures
        s@ == dec_pad(n as nat, 20),
{
    let d = fmt_u128(n as u128);
    let dl = d.as_str().unicode_len();
    if dl >= 20 {
        return d;
    }
    let mut z = String::new();
    let mut i: usize = 0;
    proof {
        reveal_strlit("0");
    }
    while i < 20 - dl
        invariant
            dl == d@.len(),
            dl < 20,
            i <= 20 - dl,
            z@ == Seq::new(i as nat, |j: int| '0'),
        decreases 20 - dl - i,
    {
        proof {
            reveal_strlit("0");
        }
        z.append("0");
        proof {
            assert(z@ =~= Seq::new((i + 1) as nat, |j: int| '0'));
        }
        i = i + 1;
    }
    z.append(d.as_str());
    proof {
        assert(z@ =~= dec_pad(n as nat, 20));
    }
    z
}

/// Pointer object holding the latest manifest sequence number (decimal).
pub fn current_key(prefix: &str) -> (k: String)
    ensures
        k@ == spec_current_key(prefix@),
{
    let mut k = String::from_str(prefix);
    k.append("/manifest/current");
    k
}

pub fn manifest_key(prefix: &str, seq: u64) -> (k: String)
    ensures
        k@ == spec_manifest_key(prefix@, seq),
{
    let mut k = String::from_str(prefix);
    k.append("/manifest/");
    let d = fmt_pad20(seq);
    k.append(d.as_str());
    k
}

pub fn journal_key(prefix: &str, seq: u64) -> (k: String)
    ensures
        k@ == spec_journal_key(prefix@, seq),
{
    let mut k = String::from_str(prefix);
    k.append("/journal/");
    let d = fmt_pad20(seq);
    k.append(d.as_str());
    k
}

/// Epoch-namespaced journal key. Unfenced engines (epoch 0) keep the flat
/// layout; fenced engines isolate their journal objects per epoch so a stale
/// writer can never overwrite a successor's object.
pub fn journal_key_epoch(prefix: &str, seq: u64, epoch: u128) -> (k: String)
    ensures
        k@ == spec_journal_key_epoch(prefix@, seq, epoch),
{
    if epoch == 0 {
        journal_key(prefix, seq)
    } else {
        let mut k = String::from_str(prefix);
        k.append("/journal/");
        let e = fmt_u128(epoch);
        k.append(e.as_str());
        k.append("/");
        let d = fmt_pad20(seq);
        k.append(d.as_str());
        k
    }
}

pub fn segment_key(prefix: &str, part: &str, id: u64) -> (k: String)
    ensures
        k@ == spec_segment_key(prefix@, part@, id),
{
    let mut k = String::from_str(prefix);
    k.append("/seg/");
    k.append(part);
    k.append("/");
    let d = fmt_pad20(id);
    k.append(d.as_str());
    k
}

/// Root key prefix under which all segment objects live.
pub fn segment_root(prefix: &str) -> (k: String)
    ensures
        k@ == prefix@ + "/seg/"@,
{
    let mut k = String::from_str(prefix);
    k.append("/seg/");
    k
}

pub fn journal_prefix(prefix: &str) -> (k: String)
    ensures
        k@ == spec_journal_prefix(prefix@),
{
    let mut k = String::from_str(prefix);
    k.append("/journal/");
    k
}

/// Listing prefix for the current fencing epoch.
pub fn journal_prefix_epoch(prefix: &str, epoch: u128) -> (k: String)
    ensures
        k@ == spec_journal_prefix_epoch(prefix@, epoch),
{
    if epoch == 0 {
        journal_prefix(prefix)
    } else {
        let mut k = String::from_str(prefix);
        k.append("/journal/");
        let e = fmt_u128(epoch);
        k.append(e.as_str());
        k.append("/");
        k
    }
}

pub fn manifest_prefix(prefix: &str) -> (k: String)
    ensures
        k@ == prefix@ + "/manifest/"@,
{
    let mut k = String::from_str(prefix);
    k.append("/manifest/");
    k
}

/// The characters of `s`.
pub fn str_chars(s: &str) -> (v: Vec<char>)
    ensures
        v@ == s@,
{
    let mut v: Vec<char> = Vec::new();
    for c in it: s.chars()
        invariant
            v@ == it.seq().take(it.index() as int),
            it.seq() == s@,
    {
        v.push(c);
        proof {
            assert(it.seq().take(it.index() + 1) =~= v@);
        }
    }
    v
}

/// Digit characters are digits and are worth their digit.
pub proof fn lemma_digit_char(d: nat)
    requires
        d < 10,
    ensures
        is_digit(digit_char(d)),
        digit_value(digit_char(d)) == d,
{
    assert('0' as u32 == 48u32);
    assert('1' as u32 == 49u32);
    assert('2' as u32 == 50u32);
    assert('3' as u32 == 51u32);
    assert('4' as u32 == 52u32);
    assert('5' as u32 == 53u32);
    assert('6' as u32 == 54u32);
    assert('7' as u32 == 55u32);
    assert('8' as u32 == 56u32);
    assert('9' as u32 == 57u32);
}

/// Decimal formatting yields nonempty digit strings of the right value.
pub proof fn lemma_dec_digits(n: nat)
    ensures
        dec_digits(n).len() >= 1,
        all_digits(dec_digits(n)),
        digits_value(dec_digits(n)) == n,
    decreases n,
{
    if n < 10 {
        lemma_digit_char(n);
        let d = dec_digits(n);
        assert(d.drop_last() =~= Seq::<char>::empty());
        assert(d.last() == digit_char(n));
        assert(digits_value(d.drop_last()) == 0);
        assert(is_digit(d[0]));
    } else {
        lemma_dec_digits(n / 10);
        lemma_digit_char(n % 10);
        let d = dec_digits(n);
        assert(n == (n / 10) * 10 + n % 10);
        assert(d.last() == digit_char(n % 10));
        assert(d.drop_last() =~= dec_digits(n / 10));
        assert forall|i: int| 0 <= i < d.len() implies #[trigger] is_digit(d[i]) by {
            if i < d.len() - 1 {
                assert(d[i] == dec_digits(n / 10)[i]);
            }
        }
    }
}

/// Leading zeros do not change a digit string's value.
proof fn lemma_zero_prefix(k: nat, d: Seq<char>)
    requires
        all_digits(d),
    ensures
        all_digits(Seq::new(k, |i: int| '0') + d),
        digits_value(Seq::new(k, |i: int| '0') + d) == digits_value(d),
    decreases k, d.len(),
{
    let z = Seq::new(k, |i: int| '0');
    let s = z + d;
    assert forall|i: int| 0 <= i < s.len() implies #[trigger] is_digit(s[i]) by {
        if i >= k {
            assert(s[i] == d[i - k]);
        }
    }
    if d.len() > 0 {
        assert(all_digits(d.drop_last()));
        lemma_zero_prefix(k, d.drop_last());
        assert(s.drop_last() =~= z + d.drop_last());
    } else if k > 0 {
        let z1 = Seq::new((k - 1) as nat, |i: int| '0');
        assert(s.drop_last() =~= z1 + d);
        lemma_zero_prefix((k - 1) as nat, d);
        assert(digits_value(z1 + d) == 0);
        assert(s.last() == '0');
    } else {
        assert(s =~= d);
    }
}

/// Zero-padded decimal formatting yields digit strings of the right value.
pub proof fn lemma_dec_pad(n: nat, w: nat)
    ensures
        dec_pad(n, w).len() >= 1,
        all_digits(dec_pad(n, w)),
        digits_value(dec_pad(n, w)) == n,
{
    lemma_dec_digits(n);
    let d = dec_digits(n);
    if d.len() < w {
        lemma_zero_prefix((w - d.len()) as nat, d);
    }
}

/// A digit string parses back to its value when it fits.
pub proof fn lemma_parse_digits(d: Seq<char>, max: nat)
    requires
        d.len() >= 1,
        all_digits(d),
        digits_value(d) <= max,
    ensures
        parse_uint(d, max) == Some(digits_value(d)),
{
    assert(is_digit(d[0]));
}

/// Formatting a number then parsing it gives the number back.
pub proof fn lemma_parse_dec_pad(n: nat, w: nat, max: nat)
    requires
        n <= max,
    ensures
        parse_uint(dec_pad(n, w), max) == Some(n),
        parse_uint(dec_digits(n), max) == Some(n),
{
    lemma_dec_pad(n, w);
    lemma_parse_digits(dec_pad(n, w), max);
    lemma_dec_digits(n);
    lemma_parse_digits(dec_digits(n), max);
}

/// A prefix of a digit string is worth no more than the whole string.
proof fn lemma_digits_value_prefix(s: Seq<char>, k: int)
    requires
        all_digits(s),
        0 <= k <= s.len(),
    ensures
        digits_value(s.take(k)) <= digits_value(s),
    decreases s.len(),
{
    if k < s.len() {
        assert(all_digits(s.drop_last()));
        lemma_digits_value_prefix(s.drop_last(), k);
        assert(s.drop_last().take(k) =~= s.take(k));
    } else {
        assert(s.take(k) =~= s);
    }
}

/// The last occurrence of a character in `x + d`, where `d` avoids it and `x` ends with it.
proof fn lemma_rfind_after(x: Seq<char>, d: Seq<char>, c: char)
    requires
        x.len() > 0,
        x.last() == c,
        forall|i: int| 0 <= i < d.len() ==> d[i] != c,
    ensures
        rfind_char(x + d, c) == Some(x.len() - 1),
    decreases d.len(),
{
    if d.len() == 0 {
        assert(x + d =~= x);
    } else {
        assert((x + d).drop_last() =~= x + d.drop_last());
        lemma_rfind_after(x, d.drop_last(), c);
    }
}

/// The first occurrence of a character in `a + b`, where `a` avoids it and `b` starts with it.
proof fn lemma_find_after(a: Seq<char>, b: Seq<char>, c: char)
    requires
        b.len() > 0,
        b[0] == c,
        forall|i: int| 0 <= i < a.len() ==> a[i] != c,
    ensures
        find_char(a + b, c) == Some(a.len() as int),
    decreases a.len(),
{
    if a.len() == 0 {
        assert(a + b =~= b);
    } else {
        assert((a + b).drop_first() =~= a.drop_first() + b);
        lemma_find_after(a.drop_first(), b, c);
    }
}

/// A string that avoids a character has no occurrence of it.
proof fn lemma_find_none(a: Seq<char>, c: char)
    requires
        forall|i: int| 0 <= i < a.len() ==> a[i] != c,
    ensures
        find_char(a, c) is None,
    decreases a.len(),
{
    if a.len() > 0 {
        lemma_find_none(a.drop_first(), c);
    }
}

/// The sequence number of any key ending in `/<seq:020>` is recovered from the key.
pub proof fn lemma_parse_tail_seq_of(x: Seq<char>, seq: u64)
    requires
        x.len() > 0,
        x.last() == '/',
    ensures
        spec_parse_tail_seq(x + dec_pad(seq as nat, 20)) == Some(seq),
{
    let d = dec_pad(seq as nat, 20);
    lemma_dec_pad(seq as nat, 20);
    assert forall|i: int| 0 <= i < d.len() implies d[i] != '/' by {
        assert(is_digit(d[i]));
    }
    lemma_rfind_after(x, d, '/');
    assert((x + d).skip(x.len() as int) =~= d);
    lemma_parse_dec_pad(seq as nat, 20, u64::MAX as nat);
}

/// Manifest, journal and segment keys all end in their sequence number, which
/// `parse_tail_seq` recovers.
pub proof fn lemma_keys_parse_back(prefix: Seq<char>, part: Seq<char>, seq: u64, epoch: u128)
    ensures
        spec_parse_tail_seq(spec_manifest_key(prefix, seq)) == Some(seq),
        spec_parse_tail_seq(spec_journal_key(prefix, seq)) == Some(seq),
        spec_parse_tail_seq(spec_journal_key_epoch(prefix, seq, epoch)) == Some(seq),
        spec_parse_tail_seq(spec_segment_key(prefix, part, seq)) == Some(seq),
{
    reveal_strlit("/manifest/");
    reveal_strlit("/journal/");
    reveal_strlit("/seg/");
    reveal_strlit("/");
    lemma_parse_tail_seq_of(prefix + "/manifest/"@, seq);
    lemma_parse_tail_seq_of(prefix + "/journal/"@, seq);
    lemma_parse_tail_seq_of(prefix + "/journal/"@ + dec_digits(epoch as nat) + "/"@, seq);
    lemma_parse_tail_seq_of(prefix + "/seg/"@ + part + "/"@, seq);
}

/// Every journal key names its own `(epoch, seq)` below the journal root.
pub proof fn lemma_journal_tail_parse_back(prefix: Seq<char>, seq: u64, epoch: u128)
    ensures
        spec_parse_journal_tail(
            spec_journal_key_epoch(prefix, seq, epoch),
            spec_journal_prefix(prefix),
        ) == Some((epoch, seq)),
{
    reveal_strlit("/journal/");
    reveal_strlit("/");
    let root = spec_journal_prefix(prefix);
    let key = spec_journal_key_epoch(prefix, seq, epoch);
    let pad = dec_pad(seq as nat, 20);
    lemma_dec_pad(seq as nat, 20);
    lemma_parse_dec_pad(seq as nat, 20, u64::MAX as nat);
    assert forall|i: int| 0 <= i < pad.len() implies pad[i] != '/' by {
        assert(is_digit(pad[i]));
    }
    if epoch == 0 {
        assert(key =~= root + pad);
        assert(key.take(root.len() as int) =~= root);
        assert(key.skip(root.len() as int) =~= pad);
        lemma_find_none(pad, '/');
    } else {
        let ed = dec_digits(epoch as nat);
        lemma_dec_digits(epoch as nat);
        lemma_parse_dec_pad(epoch as nat, 0, u128::MAX as nat);
        assert forall|i: int| 0 <= i < ed.len() implies ed[i] != '/' by {
            assert(is_digit(ed[i]));
        }
        let tail = ed + ("/"@ + pad);
        assert(key =~= root + tail);
        assert(key.take(root.len() as int) =~= root);
        assert(key.skip(root.len() as int) =~= tail);
        lemma_find_after(ed, "/"@ + pad, '/');
        assert(tail.take(ed.len() as int) =~= ed);
        assert(tail.skip(ed.len() as int + 1) =~= pad);
    }
}

/// Parse the unsigned integer written in `s[lo..hi]` the way the standard
/// library parses integers, accepting values up to `u128::MAX`.
pub(crate) fn parse_uint_range(s: &Vec<char>, lo: usize, hi: usize) -> (r: Option<u128>)
    requires
        lo <= hi <= s@.len(),
    ensures
        match r {
            Some(v) => parse_uint(s@.subrange(lo as int, hi as int), u128::MAX as nat) == Some(
                v as nat,
            ),
            None => parse_uint(s@.subrange(lo as int, hi as int), u128::MAX as nat) is None,
        },
{
    let ghost whole = s@.subrange(lo as int, hi as int);
    let mut i = lo;
    if i < hi && s[i] == '+' {
        i = i + 1;
    }
    let ghost d = s@.subrange(i as int, hi as int);
    proof {
        if lo < hi && s@[lo as int] == '+' {
            assert(d =~= whole.drop_first());
        } else {
            assert(d =~= whole);
        }
    }
    if i == hi {
        return None;
    }
    let start = i;
    let mut v: u128 = 0;
    while i < hi
        invariant
            lo <= start <= i <= hi <= s@.len(),
            whole == s@.subrange(lo as int, hi as int),
            d == s@.subrange(start as int, hi as int),
            d.len() > 0,
            d == (if whole.len() > 0 && whole[0] == '+' {
                whole.drop_first()
            } else {
                whole
            }),
            all_digits(d.take(i - start)),
            v as nat == digits_value(d.take(i - start)),
        decreases hi - i,
    {
        let c = s[i];
        if !('0' <= c && c <= '9') {
            proof {
                assert(!is_digit(d[i - start]));
            }
            return None;
        }
        let dv = (c as u32 - '0' as u32) as u128;
        proof {
            assert(d.take(i - start + 1).drop_last() =~= d.take(i - start));
            assert(d.take(i - start + 1).last() == c);
        }
        let ghost next = d.take(i - start + 1);
        if v > (u128::MAX - dv) / 10 {
            proof {
                assert(digits_value(next) == v * 10 + dv);
                assert(v * 10 + dv > u128::MAX) by (nonlinear_arith)
                    requires
                        v > (u128::MAX - dv) / 10,
                        dv <= 9,
                ;
                if all_digits(d) {
                    lemma_digits_value_prefix(d, i - start + 1);
                }
            }
            return None;
        }
        proof {
            assert(v * 10 + dv <= u128::MAX) by (nonlinear_arith)
                requires
                    v <= (u128::MAX - dv) / 10,
                    dv <= 9,
            ;
            assert forall|j: int| 0 <= j < next.len() implies #[trigger] is_digit(next[j]) by {
                if j < next.len() - 1 {
                    assert(next[j] == d.take(i - start)[j]);
                }
            }
        }
        v = v * 10 + dv;
        i = i + 1;
    }
    proof {
        assert(d.take(i - start) =~= d);
    }
    Some(v)
}

/// Extract the trailing numeric sequence from a key like `<...>/<seq:020>`.
pub fn parse_tail_seq(key: &str) -> (r: Option<u64>)
    ensures
        r == spec_parse_tail_seq(key@),
{
    let cs = str_chars(key);
    let mut i = cs.len();
    proof {
        assert(cs@.take(i as int) =~= cs@);
    }
    while i > 0
        invariant
            0 <= i <= cs@.len(),
            cs@ == key@,
            rfind_char(cs@, '/') == rfind_char(cs@.take(i as int), '/'),
        decreases i,
    {
        if cs[i - 1] == '/' {
            proof {
                assert(cs@.take(i as int).last() == '/');
            }
            let r = parse_uint_range(&cs, i, cs.len());
            proof {
                assert(cs@.subrange(i as int, cs@.len() as int) =~= cs@.skip(i as int));
            }
            return match r {
                Some(v) => if v <= 0xffff_ffff_ffff_ffffu128 {
                    Some(v as u64)
                } else {
                    None
                },
                None => None,
            };
        }
        proof {
            assert(cs@.take(i as int).drop_last() =~= cs@.take(i - 1));
        }
        i = i - 1;
    }
    None
}

/// Parse the tail of a journal object key below the fixed `<prefix>/journal/`
/// root: either `<seq:020>` (unfenced layout) or `<epoch>/<seq:020>`
/// (epoch-namespaced layout used by leased writers).
pub fn parse_journal_tail(key: &str, root: &str) -> (r: Option<(u128, u64)>)
    ensures
        r == spec_parse_journal_tail(key@, root@),
{
    let ks = str_chars(key);
    let rs = str_chars(root);
    if rs.len() > ks.len() {
        return None;
    }
    let mut j: usize = 0;
    while j < rs.len()
        invariant
            0 <= j <= rs@.len() <= ks@.len(),
            ks@ == key@,
            rs@ == root@,
            ks@.take(j as int) == rs@.take(j as int),
        decreases rs@.len() - j,
    {
        if ks[j] != rs[j] {
            proof {
                assert(ks@.take(rs@.len() as int)[j as int] == ks@[j as int]);
            }
            return None;
        }
        proof {
            assert(ks@.take(j + 1) =~= ks@.take(j as int).push(ks@[j as int]));
            assert(rs@.take(j + 1) =~= rs@.take(j as int).push(rs@[j as int]));
        }
        j = j + 1;
    }
    let ghost tail = ks@.skip(rs@.len() as int);
    proof {
        assert(rs@.take(j as int) =~= rs@);
    }
    let start = rs.len();
    assert(ks@.take(start as int) == rs@);
    let mut p = start;
    while p < ks.len()
        invariant
            start <= p <= ks@.len(),
            start == rs@.len(),
            ks@ == key@,
            rs@ == root@,
            ks@.take(start as int) == rs@,
            tail == ks@.skip(start as int),
            forall|q: int| 0 <= q < p - start ==> tail[q] != '/',
        decreases ks@.len() - p,
    {
        if ks[p] == '/' {
            proof {
                assert(tail.take(p - start) + tail.skip(p - start) =~= tail);
                let pre = tail.take(p - start);
                assert forall|q: int| 0 <= q < pre.len() implies #[trigger] pre[q] != '/' by {
                    assert(pre[q] == tail[q]);
                }
                lemma_find_after(tail.take(p - start), tail.skip(p - start), '/');
                assert(ks@.subrange(start as int, p as int) =~= tail.take(p - start));
                assert(ks@.subrange(p + 1, ks@.len() as int) =~= tail.skip(p - start + 1));
            }
            let e = parse_uint_range(&ks, start, p);
            let sq = parse_uint_range(&ks, p + 1, ks.len());
            proof {
                assert(find_char(tail, '/') == Some(p - start));
                assert(tail.take(p - start) == ks@.subrange(start as int, p as int));
                assert(tail.skip(p - start + 1) == ks@.subrange(p + 1, ks@.len() as int));
            }
            let ghost te = tail.take(p - start);
            let ghost ts = tail.skip(p - start + 1);
            match e {
                Some(ev) => match sq {
                    Some(sv) => if sv <= 0xffff_ffff_ffff_ffffu128 {
                        proof {
                            assert(parse_uint(te, u128::MAX as nat) == Some(ev as nat));
                            assert(parse_uint(ts, u64::MAX as nat) == Some(sv as nat));
                        }
                        return Some((ev, sv as u64));
                    } else {
                        proof {
                            assert(parse_uint(ts, u64::MAX as nat) is None);
                        }
                        return None;
                    },
                    None => {
                        proof {
                            assert(parse_uint(ts, u64::MAX as nat) is None);
                        }
                        return None;
                    },
                },
                None => {
                    return None;
                },
            }
        }
        p = p + 1;
    }
    proof {
        lemma_find_none(tail, '/');
        assert(ks@.subrange(start as int, ks@.len() as int) =~= tail);
    }
    match parse_uint_range(&ks, start, ks.len()) {
        Some(sv) => if sv <= 0xffff_ffff_ffff_ffffu128 {
            Some((0u128, sv as u64))
        } else {
            None
        },
        None => None,
    }
}

} // verus!
