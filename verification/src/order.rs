//! Lexicographic order on character sequences and on `(name, version)`
//! pairs, with the order laws the sorted dependency list rests on.
use vstd::prelude::*;

verus! {

/// Lexicographic "less than or equal" on character sequences, comparing
/// code points position by position.
pub open spec fn lex_le(a: Seq<char>, b: Seq<char>) -> bool
    decreases a.len(),
{
    if a.len() == 0 {
        true
    } else if b.len() == 0 {
        false
    } else if (a[0] as u32) < (b[0] as u32) {
        true
    } else if (a[0] as u32) > (b[0] as u32) {
        false
    } else {
        lex_le(a.drop_first(), b.drop_first())
    }
}

/// Strict lexicographic order on character sequences.
pub open spec fn lex_lt(a: Seq<char>, b: Seq<char>) -> bool {
    lex_le(a, b) && a != b
}

/// Lexicographic order on `(name, version)` pairs: by name, then version.
pub open spec fn pair_le(p: (Seq<char>, Seq<char>), q: (Seq<char>, Seq<char>)) -> bool {
    lex_lt(p.0, q.0) || (p.0 == q.0 && lex_le(p.1, q.1))
}

/// Strict lexicographic order on `(name, version)` pairs.
pub open spec fn pair_lt(p: (Seq<char>, Seq<char>), q: (Seq<char>, Seq<char>)) -> bool {
    pair_le(p, q) && p != q
}

proof fn lemma_char_cast_injective(x: char, y: char)
    requires
        x as u32 == y as u32,
    ensures
        x == y,
{
    vstd::utf8::char_u32_cast(x, x as u32);
    vstd::utf8::char_u32_cast(y, y as u32);
}

/// Law: the lexicographic order is reflexive.
pub proof fn lemma_lex_le_refl(a: Seq<char>)
    ensures
        lex_le(a, a),
    decreases a.len(),
{
    if a.len() > 0 {
        lemma_lex_le_refl(a.drop_first());
    }
}

/// Law: the lexicographic order is total.
pub proof fn lemma_lex_le_total(a: Seq<char>, b: Seq<char>)
    ensures
        lex_le(a, b) || lex_le(b, a),
    decreases a.len(),
{
    if a.len() > 0 && b.len() > 0 && a[0] as u32 == b[0] as u32 {
        lemma_lex_le_total(a.drop_first(), b.drop_first());
    }
}

/// Law: the lexicographic order is antisymmetric.
pub proof fn lemma_lex_le_antisym(a: Seq<char>, b: Seq<char>)
    requires
        lex_le(a, b),
        lex_le(b, a),
    ensures
        a == b,
    decreases a.len(),
{
    if a.len() == 0 {
        assert(b.len() == 0);
        assert(a =~= b);
    } else {
        assert(b.len() > 0);
        assert(a[0] as u32 == b[0] as u32);
        lemma_char_cast_injective(a[0], b[0]);
        let ta = a.drop_first();
        let tb = b.drop_first();
        lemma_lex_le_antisym(ta, tb);
        assert forall|i: int| 0 <= i < a.len() implies a[i] == b[i] by {
            if i > 0 {
                assert(ta[i - 1] == a[i]);
                assert(tb[i - 1] == b[i]);
            }
        }
        assert(a =~= b);
    }
}

/// Law: the lexicographic order is transitive.
pub proof fn lemma_lex_le_trans(a: Seq<char>, b: Seq<char>, c: Seq<char>)
    requires
        lex_le(a, b),
        lex_le(b, c),
    ensures
        lex_le(a, c),
    decreases a.len(),
{
    if a.len() > 0 {
        assert(b.len() > 0);
        assert(c.len() > 0);
        if a[0] as u32 == b[0] as u32 && b[0] as u32 == c[0] as u32 {
            lemma_lex_le_trans(a.drop_first(), b.drop_first(), c.drop_first());
        }
    }
}

/// Law: the pair order is total.
pub proof fn lemma_pair_le_total(p: (Seq<char>, Seq<char>), q: (Seq<char>, Seq<char>))
    ensures
        pair_le(p, q) || pair_le(q, p),
{
    lemma_lex_le_total(p.0, q.0);
    lemma_lex_le_total(p.1, q.1);
    if p.0 == q.0 {
    } else if lex_le(p.0, q.0) {
        assert(lex_lt(p.0, q.0));
    } else {
        assert(lex_lt(q.0, p.0));
    }
}

/// Law: the pair order is antisymmetric.
pub proof fn lemma_pair_le_antisym(p: (Seq<char>, Seq<char>), q: (Seq<char>, Seq<char>))
    requires
        pair_le(p, q),
        pair_le(q, p),
    ensures
        p == q,
{
    if lex_lt(p.0, q.0) || lex_lt(q.0, p.0) {
        lemma_lex_le_antisym(p.0, q.0);
    } else {
        lemma_lex_le_antisym(p.1, q.1);
        assert(p =~= q);
    }
}

/// Law: the pair order is transitive.
pub proof fn lemma_pair_le_trans(
    p: (Seq<char>, Seq<char>),
    q: (Seq<char>, Seq<char>),
    r: (Seq<char>, Seq<char>),
)
    requires
        pair_le(p, q),
        pair_le(q, r),
    ensures
        pair_le(p, r),
{
    lemma_lex_le_refl(p.0);
    lemma_lex_le_refl(q.0);
    lemma_lex_le_trans(p.0, q.0, r.0);
    if p.0 == q.0 && q.0 == r.0 {
        lemma_lex_le_trans(p.1, q.1, r.1);
    } else if lex_lt(p.0, q.0) && lex_lt(q.0, r.0) {
        if p.0 == r.0 {
            lemma_lex_le_antisym(p.0, q.0);
        }
    }
}

/// Strict transitivity, derived from the laws above.
pub proof fn lemma_pair_lt_trans(
    p: (Seq<char>, Seq<char>),
    q: (Seq<char>, Seq<char>),
    r: (Seq<char>, Seq<char>),
)
    requires
        pair_lt(p, q),
        pair_lt(q, r),
    ensures
        pair_lt(p, r),
{
    lemma_pair_le_trans(p, q, r);
    if p == r {
        lemma_pair_le_antisym(p, q);
    }
}

/// A sequence of pairs in strictly ascending lexicographic order; such a
/// sequence holds each pair at most once.
pub open spec fn strictly_sorted(s: Seq<(Seq<char>, Seq<char>)>) -> bool {
    forall|i: int, j: int| 0 <= i < j < s.len() ==> pair_lt(#[trigger] s[i], #[trigger] s[j])
}

/// Law: two strictly sorted sequences with the same members are identical.
pub proof fn lemma_strictly_sorted_unique(s1: Seq<(Seq<char>, Seq<char>)>, s2: Seq<(Seq<char>, Seq<char>)>)
    requires
        strictly_sorted(s1),
        strictly_sorted(s2),
        forall|p: (Seq<char>, Seq<char>)| s1.contains(p) <==> s2.contains(p),
    ensures
        s1 == s2,
    decreases s1.len(),
{
    if s1.len() == 0 {
        if s2.len() > 0 {
            assert(s2.contains(s2[0]));
        }
        assert(s1 =~= s2);
    } else {
        assert(s1.contains(s1[0]));
        assert(s2.len() > 0);
        let k = choose|k: int| 0 <= k < s2.len() && s2[k] == s1[0];
        assert(s2.contains(s2[0]));
        let m = choose|m: int| 0 <= m < s1.len() && s1[m] == s2[0];
        if k > 0 && m > 0 {
            assert(pair_lt(s2[0], s2[k]));
            assert(pair_lt(s1[0], s1[m]));
            lemma_pair_lt_trans(s1[0], s1[m], s1[0]);
        }
        assert(s1[0] == s2[0]);
        let t1 = s1.drop_first();
        let t2 = s2.drop_first();
        assert forall|p: (Seq<char>, Seq<char>)| t1.contains(p) implies t2.contains(p) by {
            let i = choose|i: int| 0 <= i < t1.len() && t1[i] == p;
            assert(s1[i + 1] == p);
            assert(s1.contains(p));
            let j = choose|j: int| 0 <= j < s2.len() && s2[j] == p;
            assert(pair_lt(s1[0], s1[i + 1]));
            if j == 0 {
                assert(p == s1[0]);
            }
            assert(t2[j - 1] == p);
        }
        assert forall|p: (Seq<char>, Seq<char>)| t2.contains(p) implies t1.contains(p) by {
            let i = choose|i: int| 0 <= i < t2.len() && t2[i] == p;
            assert(s2[i + 1] == p);
            assert(s2.contains(p));
            let j = choose|j: int| 0 <= j < s1.len() && s1[j] == p;
            assert(pair_lt(s2[0], s2[i + 1]));
            if j == 0 {
                assert(p == s2[0]);
            }
            assert(t1[j - 1] == p);
        }
        lemma_strictly_sorted_unique(t1, t2);
        assert forall|i: int| 0 <= i < s1.len() implies s1[i] == s2[i] by {
            if i > 0 {
                assert(t1[i - 1] == s1[i]);
                assert(t2[i - 1] == s2[i]);
            }
        }
        assert(s1 =~= s2);
    }
}

/// Decide [`lex_le`] on two strings.
pub fn str_le(a: &str, b: &str) -> (r: bool)
    ensures
        r == lex_le(a@, b@),
{
    let na: usize = a.unicode_len();
    let nb: usize = b.unicode_len();
    let mut i: usize = 0;
    proof {
        assert(a@.subrange(0, na as int) =~= a@);
        assert(b@.subrange(0, nb as int) =~= b@);
    }
    while i < na && i < nb
        invariant
            0 <= i <= na,
            0 <= i <= nb,
            na == a@.len(),
            nb == b@.len(),
            forall|k: int| 0 <= k < i ==> a@[k] == b@[k],
            lex_le(a@, b@) == lex_le(
                a@.subrange(i as int, na as int),
                b@.subrange(i as int, nb as int),
            ),
        decreases na - i,
    {
        let ca = a.get_char(i) as u32;
        let cb = b.get_char(i) as u32;
        let ghost sa = a@.subrange(i as int, na as int);
        let ghost sb = b@.subrange(i as int, nb as int);
        if ca < cb {
            proof {
                assert(sa[0] == a@[i as int] && sb[0] == b@[i as int]);
            }
            return true;
        }
        if ca > cb {
            proof {
                assert(sa[0] == a@[i as int] && sb[0] == b@[i as int]);
            }
            return false;
        }
        proof {
            assert(sa[0] == a@[i as int] && sb[0] == b@[i as int]);
            assert(sa.drop_first() =~= a@.subrange(i + 1, na as int));
            assert(sb.drop_first() =~= b@.subrange(i + 1, nb as int));
        }
        i = i + 1;
    }
    proof {
        let sa = a@.subrange(i as int, na as int);
        let sb = b@.subrange(i as int, nb as int);
        if i == na {
            assert(sa.len() == 0);
        } else {
            assert(sb.len() == 0 && sa.len() > 0);
        }
    }
    i == na
}

} // verus!
