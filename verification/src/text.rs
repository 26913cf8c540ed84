//! Character-level text helpers: whitespace trimming and line splitting.
use vstd::prelude::*;

verus! {

/// A character with the Unicode `White_Space` property, the set that
/// surrounding-whitespace trimming removes.
pub open spec fn is_space(c: char) -> bool {
    c == ' ' || c == '\t' || c == '\n' || c == '\r' || c == '\u{b}' || c == '\u{c}'
        || c == '\u{85}' || c == '\u{a0}' || c == '\u{1680}' || c == '\u{2000}'
        || c == '\u{2001}' || c == '\u{2002}' || c == '\u{2003}' || c == '\u{2004}'
        || c == '\u{2005}' || c == '\u{2006}' || c == '\u{2007}' || c == '\u{2008}'
        || c == '\u{2009}' || c == '\u{200a}' || c == '\u{2028}' || c == '\u{2029}'
        || c == '\u{202f}' || c == '\u{205f}' || c == '\u{3000}'
}

/// Runtime test for [`is_space`].
pub fn is_space_char(c: char) -> (r: bool)
    ensures
        r == is_space(c),
{
    c == ' ' || c == '\t' || c == '\n' || c == '\r' || c == '\u{b}' || c == '\u{c}'
        || c == '\u{85}' || c == '\u{a0}' || c == '\u{1680}' || c == '\u{2000}'
        || c == '\u{2001}' || c == '\u{2002}' || c == '\u{2003}' || c == '\u{2004}'
        || c == '\u{2005}' || c == '\u{2006}' || c == '\u{2007}' || c == '\u{2008}'
        || c == '\u{2009}' || c == '\u{200a}' || c == '\u{2028}' || c == '\u{2029}'
        || c == '\u{202f}' || c == '\u{205f}' || c == '\u{3000}'
}

/// The sequence with leading whitespace removed.
pub open spec fn trim_front(s: Seq<char>) -> Seq<char>
    decreases s.len(),
{
    if s.len() > 0 && is_space(s[0]) {
        trim_front(s.drop_first())
    } else {
        s
    }
}

/// The sequence with trailing whitespace removed.
pub open spec fn trim_back(s: Seq<char>) -> Seq<char>
    decreases s.len(),
{
    if s.len() > 0 && is_space(s[s.len() - 1]) {
        trim_back(s.drop_last())
    } else {
        s
    }
}

/// The sequence with surrounding whitespace removed.
pub open spec fn trim(s: Seq<char>) -> Seq<char> {
    trim_back(trim_front(s))
}

proof fn lemma_trim_front_range(s: Seq<char>, i: int)
    requires
        0 <= i <= s.len(),
        forall|k: int| 0 <= k < i ==> is_space(s[k]),
        i < s.len() ==> !is_space(s[i]),
    ensures
        trim_front(s) =~= s.subrange(i, s.len() as int),
    decreases i,
{
    if i == 0 {
        if s.len() > 0 {
            assert(!is_space(s[0]));
        }
    } else {
        assert(is_space(s[0]));
        let t = s.drop_first();
        assert(forall|k: int| 0 <= k < i - 1 ==> is_space(#[trigger] t[k]));
        lemma_trim_front_range(t, i - 1);
    }
}

proof fn lemma_trim_back_range(s: Seq<char>, j: int)
    requires
        0 <= j <= s.len(),
        forall|k: int| j <= k < s.len() ==> is_space(s[k]),
        j > 0 ==> !is_space(s[j - 1]),
    ensures
        trim_back(s) =~= s.subrange(0, j),
    decreases s.len() - j,
{
    if j == s.len() {
        if s.len() > 0 {
            assert(!is_space(s[s.len() - 1]));
        }
    } else {
        assert(is_space(s[s.len() - 1]));
        let t = s.drop_last();
        lemma_trim_back_range(t, j);
    }
}

proof fn lemma_trim_front_is_suffix(s: Seq<char>)
    ensures
        exists|a: int| 0 <= a <= s.len() && trim_front(s) == s.subrange(a, s.len() as int),
    decreases s.len(),
{
    if s.len() > 0 && is_space(s[0]) {
        let t = s.drop_first();
        lemma_trim_front_is_suffix(t);
        let a = choose|a: int| 0 <= a <= t.len() && trim_front(t) == t.subrange(a, t.len() as int);
        assert(t.subrange(a, t.len() as int) =~= s.subrange(a + 1, s.len() as int));
    } else {
        assert(trim_front(s) =~= s.subrange(0, s.len() as int));
    }
}

proof fn lemma_trim_back_is_prefix(s: Seq<char>)
    ensures
        exists|b: int| 0 <= b <= s.len() && trim_back(s) == s.subrange(0, b),
    decreases s.len(),
{
    if s.len() > 0 && is_space(s[s.len() - 1]) {
        let t = s.drop_last();
        lemma_trim_back_is_prefix(t);
        let b = choose|b: int| 0 <= b <= t.len() && trim_back(t) == t.subrange(0, b);
        assert(t.subrange(0, b) =~= s.subrange(0, b));
    } else {
        assert(trim_back(s) =~= s.subrange(0, s.len() as int));
    }
}

/// Every character of the trimmed sequence occurs in the untrimmed one, so
/// a character absent from a line is also absent from its trimmed form.
pub proof fn lemma_trim_keeps_absence(s: Seq<char>, c: char)
    requires
        forall|k: int| 0 <= k < s.len() ==> s[k] != c,
    ensures
        forall|k: int| 0 <= k < trim(s).len() ==> trim(s)[k] != c,
{
    lemma_trim_front_is_suffix(s);
    let a = choose|a: int| 0 <= a <= s.len() && trim_front(s) == s.subrange(a, s.len() as int);
    let f = trim_front(s);
    assert(forall|k: int| 0 <= k < f.len() ==> f[k] != c);
    lemma_trim_back_is_prefix(f);
    let b = choose|b: int| 0 <= b <= f.len() && trim_back(f) == f.subrange(0, b);
    assert(forall|k: int| 0 <= k < trim(s).len() ==> trim(s)[k] != c);
}

/// Remove surrounding whitespace, as [`trim`] describes.
pub fn trim_str(s: &str) -> (r: &str)
    ensures
        r@ == trim(s@),
{
    let n: usize = s.unicode_len();
    let mut i: usize = 0;
    while i < n && is_space_char(s.get_char(i))
        invariant
            0 <= i <= n,
            n == s@.len(),
            forall|k: int| 0 <= k < i ==> is_space(s@[k]),
        decreases n - i,
    {
        i = i + 1;
    }
    proof {
        lemma_trim_front_range(s@, i as int);
    }
    let mut j: usize = n;
    while j > i && is_space_char(s.get_char(j - 1))
        invariant
            i <= j <= n,
            n == s@.len(),
            forall|k: int| j <= k < n ==> is_space(s@[k]),
        decreases j,
    {
        j = j - 1;
    }
    let ghost f = s@.subrange(i as int, n as int);
    proof {
        if j > i {
            assert(!is_space(s@[j - 1]));
            assert(f[j - i - 1] == s@[j - 1]);
        }
        assert(forall|k: int| j - i <= k < f.len() ==> is_space(#[trigger] f[k]));
        lemma_trim_back_range(f, j - i);
        assert(f.subrange(0, j - i) =~= s@.subrange(i as int, j as int));
    }
    s.substring_char(i, j)
}

/// The lines of `s`: the segments between `'\n'` characters. A text of `k`
/// newline characters has exactly `k + 1` lines, some possibly empty.
pub open spec fn split_lines(s: Seq<char>) -> Seq<Seq<char>>
    decreases s.len(),
{
    if s.len() == 0 {
        seq![Seq::<char>::empty()]
    } else if s[0] == '\n' {
        seq![Seq::<char>::empty()] + split_lines(s.drop_first())
    } else {
        let rest = split_lines(s.drop_first());
        seq![seq![s[0]] + rest[0]] + rest.drop_first()
    }
}

proof fn lemma_split_lines_len(s: Seq<char>)
    ensures
        split_lines(s).len() >= 1,
    decreases s.len(),
{
    if s.len() > 0 {
        lemma_split_lines_len(s.drop_first());
    }
}

proof fn lemma_no_newline(s: Seq<char>)
    requires
        forall|k: int| 0 <= k < s.len() ==> s[k] != '\n',
    ensures
        split_lines(s) == seq![s],
    decreases s.len(),
{
    if s.len() == 0 {
        assert(s =~= Seq::<char>::empty());
        assert(split_lines(s) =~~= seq![s]);
    } else {
        let t = s.drop_first();
        lemma_no_newline(t);
        lemma_split_lines_len(t);
        assert(seq![s[0]] + t =~= s);
        assert(split_lines(s) =~~= seq![s]);
    }
}

proof fn lemma_first_newline(s: Seq<char>, k: int)
    requires
        0 <= k < s.len(),
        s[k] == '\n',
        forall|m: int| 0 <= m < k ==> s[m] != '\n',
    ensures
        split_lines(s) == seq![s.subrange(0, k)] + split_lines(
            s.subrange(k + 1, s.len() as int),
        ),
    decreases k,
{
    let t = s.drop_first();
    if k == 0 {
        assert(s.subrange(0, 0) =~= Seq::<char>::empty());
        assert(s.subrange(1, s.len() as int) =~= t);
        assert(split_lines(s) =~~= seq![s.subrange(0, k)] + split_lines(
            s.subrange(k + 1, s.len() as int),
        ));
    } else {
        assert(t[k - 1] == '\n');
        assert(forall|m: int| 0 <= m < k - 1 ==> t[m] != '\n');
        lemma_first_newline(t, k - 1);
        let rest = split_lines(t);
        lemma_split_lines_len(t.subrange(k, t.len() as int));
        assert(rest[0] == t.subrange(0, k - 1));
        assert(seq![s[0]] + t.subrange(0, k - 1) =~= s.subrange(0, k));
        assert(rest.drop_first() =~= split_lines(t.subrange(k, t.len() as int)));
        assert(t.subrange(k, t.len() as int) =~= s.subrange(k + 1, s.len() as int));
        assert(split_lines(s) =~~= seq![s.subrange(0, k)] + split_lines(
            s.subrange(k + 1, s.len() as int),
        ));
    }
}

/// Split `s` at each `'\n'`, as [`split_lines`] describes.
pub fn split_lines_str(s: &str) -> (r: Vec<String>)
    ensures
        r@.map_values(|t: String| t@) == split_lines(s@),
{
    let n: usize = s.unicode_len();
    let mut out: Vec<String> = Vec::new();
    let mut start: usize = 0;
    let mut i: usize = 0;
    proof {
        assert(s@.subrange(0, n as int) =~= s@);
        assert(out@.map_values(|t: String| t@) + split_lines(s@) =~~= split_lines(s@));
    }
    while i < n
        invariant
            0 <= start <= i <= n,
            n == s@.len(),
            forall|k: int| start <= k < i ==> s@[k] != '\n',
            split_lines(s@) == out@.map_values(|t: String| t@) + split_lines(
                s@.subrange(start as int, n as int),
            ),
        decreases n - i,
    {
        let c = s.get_char(i);
        if c == '\n' {
            let piece = s.substring_char(start, i);
            let ghost rest = s@.subrange(start as int, n as int);
            proof {
                assert(rest[i - start] == '\n');
                assert(forall|m: int| 0 <= m < i - start ==> rest[m] != '\n');
                lemma_first_newline(rest, i - start);
                assert(rest.subrange(0, i - start) =~= s@.subrange(start as int, i as int));
                assert(rest.subrange(i - start + 1, rest.len() as int) =~= s@.subrange(
                    i + 1,
                    n as int,
                ));
            }
            out.push(piece.to_owned());
            proof {
                assert(out@.map_values(|t: String| t@) =~= out@.drop_last().map_values(
                    |t: String| t@,
                ).push(s@.subrange(start as int, i as int)));
                assert(out@.drop_last().map_values(|t: String| t@) + seq![
                    s@.subrange(start as int, i as int),
                ] + split_lines(s@.subrange(i + 1, n as int)) =~= out@.map_values(|t: String| t@)
                    + split_lines(s@.subrange(i + 1, n as int)));
            }
            start = i + 1;
        }
        i = i + 1;
    }
    let last = s.substring_char(start, n);
    out.push(last.to_owned());
    proof {
        let tail = s@.subrange(start as int, n as int);
        assert(forall|k: int| 0 <= k < tail.len() ==> tail[k] != '\n');
        lemma_no_newline(tail);
        assert(out@.map_values(|t: String| t@) =~= out@.drop_last().map_values(|t: String| t@)
            + seq![tail]);
    }
    out
}

} // verus!
