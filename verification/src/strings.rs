//! Lexicographic order on character sequences, with verified executable
//! comparison and prefix tests over `&str`.
use vstd::prelude::*;
use vstd::string::*;

verus! {

/// Strict lexicographic order: `a` comes before `b` when, at the first
/// position where they differ, `a` holds the smaller character, or when `a`
/// is a proper prefix of `b`. Flag strings are compared character by
/// character; on Unicode scalar values this agrees with the byte order of
/// their UTF-8 encodings.
pub open spec fn lex_lt(a: Seq<char>, b: Seq<char>) -> bool
    decreases a.len(),
{
    if b.len() == 0 {
        false
    } else if a.len() == 0 {
        true
    } else if a[0] != b[0] {
        (a[0] as int) < (b[0] as int)
    } else {
        lex_lt(a.drop_first(), b.drop_first())
    }
}

/// `a` comes no later than `b` in lexicographic order.
pub open spec fn lex_le(a: Seq<char>, b: Seq<char>) -> bool {
    lex_lt(a, b) || a == b
}

/// The order is irreflexive and asymmetric.
pub proof fn lemma_lex_asymmetric(a: Seq<char>, b: Seq<char>)
    ensures
        lex_lt(a, b) ==> !lex_lt(b, a),
        !lex_lt(a, a),
    decreases a.len(),
{
    if a.len() > 0 && b.len() > 0 && a[0] == b[0] {
        lemma_lex_asymmetric(a.drop_first(), b.drop_first());
    }
    if a.len() > 0 {
        lemma_lex_asymmetric(a.drop_first(), a.drop_first());
    }
}

/// Two sequences that neither orders strictly are equal: the order is total.
pub proof fn lemma_lex_connected(a: Seq<char>, b: Seq<char>)
    ensures
        !lex_lt(a, b) && !lex_lt(b, a) ==> a == b,
    decreases a.len(),
{
    if !lex_lt(a, b) && !lex_lt(b, a) {
        if a.len() > 0 && b.len() > 0 {
            lemma_lex_connected(a.drop_first(), b.drop_first());
            assert(a =~= b) by {
                assert(a[0] == b[0]);
                assert forall|i: int| 0 < i < a.len() implies a[i] == b[i] by {
                    assert(a[i] == a.drop_first()[i - 1]);
                    assert(b[i] == b.drop_first()[i - 1]);
                }
            }
        } else {
            assert(a =~= b);
        }
    }
}

/// The order is transitive.
pub proof fn lemma_lex_transitive(a: Seq<char>, b: Seq<char>, c: Seq<char>)
    ensures
        lex_lt(a, b) && lex_lt(b, c) ==> lex_lt(a, c),
    decreases a.len(),
{
    if lex_lt(a, b) && lex_lt(b, c) && a.len() > 0 && b.len() > 0 && c.len() > 0 {
        if a[0] == b[0] && b[0] == c[0] {
            lemma_lex_transitive(a.drop_first(), b.drop_first(), c.drop_first());
        }
    }
}

/// A prefix never comes strictly after the string it begins.
pub proof fn lemma_prefix_le(p: Seq<char>, s: Seq<char>)
    ensures
        p.is_prefix_of(s) ==> !lex_lt(s, p),
    decreases p.len(),
{
    if p.is_prefix_of(s) && p.len() > 0 {
        assert(p.drop_first() =~= s.drop_first().subrange(0, p.len() - 1));
        lemma_prefix_le(p.drop_first(), s.drop_first());
    }
}

/// Anything that lies between a string and one of its extensions also
/// extends it: if `p` begins `c` and `m` is lexicographically between `p`
/// and `c`, then `p` begins `m` as well. This is what makes the set of
/// prefix matches in a sorted sequence contiguous.
pub proof fn lemma_between_has_prefix(p: Seq<char>, m: Seq<char>, c: Seq<char>)
    requires
        p.is_prefix_of(c),
        !lex_lt(m, p),
        !lex_lt(c, m),
    ensures
        p.is_prefix_of(m),
    decreases p.len(),
{
    if p.len() > 0 {
        if m.len() == 0 {
            assert(lex_lt(m, p));
        }
        assert(c[0] == p[0]);
        if (m[0] as int) < (p[0] as int) {
            assert(lex_lt(m, p));
        }
        if (c[0] as int) < (m[0] as int) {
            assert(lex_lt(c, m));
        }
        assert(m[0] == p[0]);
        assert(p.drop_first().is_prefix_of(c.drop_first())) by {
            assert(p.drop_first() =~= c.drop_first().subrange(0, p.len() - 1));
        }
        lemma_between_has_prefix(p.drop_first(), m.drop_first(), c.drop_first());
        assert(p =~= m.subrange(0, p.len() as int)) by {
            assert(p.drop_first() =~= m.drop_first().subrange(0, p.len() - 1));
            assert forall|i: int| 0 <= i < p.len() implies p[i] == m.subrange(
                0,
                p.len() as int,
            )[i] by {
                if i > 0 {
                    assert(p[i] == p.drop_first()[i - 1]);
                    assert(m[i] == m.drop_first()[i - 1]);
                }
            }
        }
    } else {
        assert(p =~= m.subrange(0, 0));
    }
}

/// Splitting a comparison at an agreeing position: while the first `i`
/// characters agree, the order of the tails decides the order of the whole.
pub proof fn lemma_lex_lt_skip(a: Seq<char>, b: Seq<char>, i: int)
    requires
        0 <= i <= a.len(),
        i <= b.len(),
        forall|j: int| 0 <= j < i ==> a[j] == b[j],
    ensures
        lex_lt(a, b) == lex_lt(a.skip(i), b.skip(i)),
    decreases i,
{
    if i > 0 {
        lemma_lex_lt_skip(a, b, i - 1);
        let sa = a.skip(i - 1);
        let sb = b.skip(i - 1);
        assert(sa[0] == sb[0]);
        assert(sa.drop_first() =~= a.skip(i));
        assert(sb.drop_first() =~= b.skip(i));
    } else {
        assert(a.skip(0) =~= a);
        assert(b.skip(0) =~= b);
    }
}

/// True when `p` begins `s`.
pub fn str_starts_with(s: &str, p: &str) -> (r: bool)
    ensures
        r == p@.is_prefix_of(s@),
{
    let sn = s.unicode_len();
    let pn = p.unicode_len();
    if pn > sn {
        return false;
    }
    let mut i: usize = 0;
    while i < pn
        invariant
            i <= pn,
            pn <= sn,
            sn == s@.len(),
            pn == p@.len(),
            forall|j: int| 0 <= j < i ==> s@[j] == p@[j],
        decreases pn - i,
    {
        if s.get_char(i) != p.get_char(i) {
            assert(!p@.is_prefix_of(s@)) by {
                assert(s@.subrange(0, pn as int)[i as int] == s@[i as int]);
            }
            return false;
        }
        i += 1;
    }
    assert(p@ =~= s@.subrange(0, pn as int));
    true
}

/// True when `a` and `b` hold the same characters.
pub fn str_eq(a: &str, b: &str) -> (r: bool)
    ensures
        r == (a@ == b@),
{
    let an = a.unicode_len();
    let bn = b.unicode_len();
    if an != bn {
        return false;
    }
    let mut i: usize = 0;
    while i < an
        invariant
            i <= an,
            an == a@.len(),
            bn == b@.len(),
            an == bn,
            forall|j: int| 0 <= j < i ==> a@[j] == b@[j],
        decreases an - i,
    {
        if a.get_char(i) != b.get_char(i) {
            return false;
        }
        i += 1;
    }
    assert(a@ =~= b@);
    true
}

/// True when `a` comes strictly before `b` in lexicographic order.
pub fn str_lt(a: &str, b: &str) -> (r: bool)
    ensures
        r == lex_lt(a@, b@),
{
    let an = a.unicode_len();
    let bn = b.unicode_len();
    let mut i: usize = 0;
    while i < an && i < bn
        invariant
            i <= an,
            i <= bn,
            an == a@.len(),
            bn == b@.len(),
            forall|j: int| 0 <= j < i ==> a@[j] == b@[j],
        decreases an - i,
    {
        let ca = a.get_char(i);
        let cb = b.get_char(i);
        if ca != cb {
            proof {
                lemma_lex_lt_skip(a@, b@, i as int);
                assert(a@.skip(i as int)[0] == ca);
                assert(b@.skip(i as int)[0] == cb);
            }
            return ca < cb;
        }
        i += 1;
    }
    proof {
        lemma_lex_lt_skip(a@, b@, i as int);
    }
    i < bn
}

/// True when `a` comes no later than `b` in lexicographic order.
pub fn str_le(a: &str, b: &str) -> (r: bool)
    ensures
        r == lex_le(a@, b@),
{
    let r = str_lt(b, a);
    proof {
        lemma_lex_asymmetric(a@, b@);
        lemma_lex_connected(a@, b@);
    }
    !r
}

} // verus!
