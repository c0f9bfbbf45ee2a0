//! Lexicographic order on byte strings, the order in which keys are sorted
//! everywhere in the engine (memtables, segments, scans).
use vstd::prelude::*;

verus! {

/// Strict lexicographic order on byte strings; a proper prefix sorts first.
pub open spec fn lex_lt(a: Seq<u8>, b: Seq<u8>) -> bool
    decreases a.len(),
{
    if b.len() == 0 {
        false
    } else if a.len() == 0 {
        true
    } else if a[0] != b[0] {
        a[0] < b[0]
    } else {
        lex_lt(a.drop_first(), b.drop_first())
    }
}

/// Non-strict lexicographic order.
pub open spec fn lex_le(a: Seq<u8>, b: Seq<u8>) -> bool {
    a == b || lex_lt(a, b)
}

/// The order is irreflexive.
pub proof fn lemma_lex_irreflexive(a: Seq<u8>)
    ensures
        !lex_lt(a, a),
    decreases a.len(),
{
    if a.len() > 0 {
        lemma_lex_irreflexive(a.drop_first());
    }
}

/// The order is asymmetric.
pub proof fn lemma_lex_asymmetric(a: Seq<u8>, b: Seq<u8>)
    ensures
        lex_lt(a, b) ==> !lex_lt(b, a),
    decreases a.len(),
{
    if a.len() > 0 && b.len() > 0 && a[0] == b[0] {
        lemma_lex_asymmetric(a.drop_first(), b.drop_first());
    }
}

/// The order is transitive.
pub proof fn lemma_lex_transitive(a: Seq<u8>, b: Seq<u8>, c: Seq<u8>)
    ensures
        lex_lt(a, b) && lex_lt(b, c) ==> lex_lt(a, c),
    decreases a.len(),
{
    if a.len() > 0 && b.len() > 0 && c.len() > 0 {
        lemma_lex_transitive(a.drop_first(), b.drop_first(), c.drop_first());
    }
}

/// Any two distinct byte strings are ordered one way or the other.
pub proof fn lemma_lex_total(a: Seq<u8>, b: Seq<u8>)
    ensures
        a != b ==> lex_lt(a, b) || lex_lt(b, a),
    decreases a.len(),
{
    if a.len() > 0 && b.len() > 0 {
        lemma_lex_total(a.drop_first(), b.drop_first());
        if a[0] == b[0] && a.drop_first() == b.drop_first() {
            assert(a =~= seq![a[0]] + a.drop_first());
            assert(b =~= seq![b[0]] + b.drop_first());
        }
    } else if a.len() == 0 && b.len() == 0 {
        assert(a =~= b);
    }
}

/// `lex_le` is transitive.
pub proof fn lemma_lex_le_transitive(a: Seq<u8>, b: Seq<u8>, c: Seq<u8>)
    ensures
        lex_le(a, b) && lex_le(b, c) ==> lex_le(a, c),
        lex_le(a, b) && lex_lt(b, c) ==> lex_lt(a, c),
        lex_lt(a, b) && lex_le(b, c) ==> lex_lt(a, c),
{
    lemma_lex_transitive(a, b, c);
}

/// Dropping a common prefix of length `i` does not change the order.
proof fn lemma_lex_skip_common(a: Seq<u8>, b: Seq<u8>, i: int)
    requires
        0 <= i <= a.len(),
        i <= b.len(),
        a.subrange(0, i) == b.subrange(0, i),
    ensures
        lex_lt(a, b) == lex_lt(a.subrange(i, a.len() as int), b.subrange(i, b.len() as int)),
    decreases i,
{
    if i > 0 {
        assert(a[0] == a.subrange(0, i)[0]);
        assert(b[0] == b.subrange(0, i)[0]);
        assert(a.drop_first().subrange(0, i - 1) =~= a.subrange(0, i).drop_first());
        assert(b.drop_first().subrange(0, i - 1) =~= b.subrange(0, i).drop_first());
        lemma_lex_skip_common(a.drop_first(), b.drop_first(), i - 1);
        assert(a.drop_first().subrange(i - 1, a.drop_first().len() as int) =~= a.subrange(
            i,
            a.len() as int,
        ));
        assert(b.drop_first().subrange(i - 1, b.drop_first().len() as int) =~= b.subrange(
            i,
            b.len() as int,
        ));
    } else {
        assert(a.subrange(0, a.len() as int) =~= a);
        assert(b.subrange(0, b.len() as int) =~= b);
    }
}

/// Three-way comparison of byte strings: negative, zero or positive as `a`
/// sorts before, equal to or after `b`.
pub fn compare_bytes(a: &[u8], b: &[u8]) -> (r: i8)
    ensures
        r == -1 || r == 0 || r == 1,
        r < 0 <==> lex_lt(a@, b@),
        r == 0 <==> a@ == b@,
        r > 0 <==> lex_lt(b@, a@),
{
    let mut i: usize = 0;
    let n = if a.len() < b.len() { a.len() } else { b.len() };
    while i < n
        invariant
            0 <= i <= n,
            n == if a@.len() < b@.len() { a@.len() } else { b@.len() },
            a@.subrange(0, i as int) == b@.subrange(0, i as int),
        decreases n - i,
    {
        if a[i] != b[i] {
            proof {
                lemma_lex_skip_common(a@, b@, i as int);
                lemma_lex_skip_common(b@, a@, i as int);
                let sa = a@.subrange(i as int, a@.len() as int);
                let sb = b@.subrange(i as int, b@.len() as int);
                assert(sa[0] == a@[i as int]);
                assert(sb[0] == b@[i as int]);
                if a@ == b@ {
                    assert(a@[i as int] == b@[i as int]);
                }
            }
            if a[i] < b[i] {
                return -1;
            } else {
                return 1;
            }
        }
        proof {
            assert(a@.subrange(0, i + 1) =~= a@.subrange(0, i as int).push(a@[i as int]));
            assert(b@.subrange(0, i + 1) =~= b@.subrange(0, i as int).push(b@[i as int]));
        }
        i = i + 1;
    }
    proof {
        lemma_lex_skip_common(a@, b@, i as int);
        lemma_lex_skip_common(b@, a@, i as int);
        let sa = a@.subrange(i as int, a@.len() as int);
        let sb = b@.subrange(i as int, b@.len() as int);
        if a@.len() == b@.len() {
            assert(a@ =~= a@.subrange(0, i as int));
            assert(b@ =~= b@.subrange(0, i as int));
        } else if a@.len() < b@.len() {
            assert(sa.len() == 0 && sb.len() > 0);
            if a@ == b@ {
                assert(false);
            }
        } else {
            assert(sb.len() == 0 && sa.len() > 0);
        }
    }
    if a.len() == b.len() {
        0
    } else if a.len() < b.len() {
        -1
    } else {
        1
    }
}

} // verus!
