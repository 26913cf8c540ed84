//! Verified rendering support: the sorted audit views of a parsed denylist
//! and the display line of a match record.
use vstd::prelude::*;

use crate::denylist::Lists;
use crate::denylist::lists_has_exact;
use crate::denylist::lists_has_name;
use crate::matcher::MatchRecord;
use crate::matcher::MatchType;
use crate::order::lemma_lex_le_antisym;
use crate::order::lemma_lex_le_refl;
use crate::order::lemma_lex_le_total;
use crate::order::lemma_lex_le_trans;
use crate::order::lex_le;
use crate::order::lex_lt;
use crate::order::str_le;

verus! {

/// A list of strings in strictly ascending lexicographic order; such a
/// list holds each string at most once.
pub open spec fn strictly_sorted_strings(s: Seq<Seq<char>>) -> bool {
    forall|i: int, j: int| 0 <= i < j < s.len() ==> lex_lt(#[trigger] s[i], #[trigger] s[j])
}

/// The values of a list of strings.
pub open spec fn string_views(v: Seq<String>) -> Seq<Seq<char>> {
    v.map_values(|t: String| t@)
}

/// The set of values of a list of strings.
pub open spec fn string_set(v: Seq<String>) -> Set<Seq<char>> {
    Set::new(|n: Seq<char>| exists|i: int| 0 <= i < v.len() && v[i]@ == n)
}

proof fn lemma_lex_lt_trans(a: Seq<char>, b: Seq<char>, c: Seq<char>)
    requires
        lex_lt(a, b),
        lex_lt(b, c),
    ensures
        lex_lt(a, c),
{
    lemma_lex_le_trans(a, b, c);
    if a == c {
        lemma_lex_le_antisym(a, b);
    }
}

/// Insert a string into a strictly sorted list, keeping it sorted and
/// duplicate-free; a string already present is left alone.
fn insert_sorted_string(v: &mut Vec<String>, s: String)
    requires
        strictly_sorted_strings(string_views(old(v)@)),
    ensures
        strictly_sorted_strings(string_views(final(v)@)),
        string_set(final(v)@) == string_set(old(v)@).insert(s@),
{
    let ghost x = s@;
    let ghost m0 = string_views(old(v)@);
    let mut p: usize = 0;
    while p < v.len() && !str_le(s.as_str(), v[p].as_str())
        invariant
            v@ == old(v)@,
            x == s@,
            0 <= p <= v@.len(),
            forall|k: int|
                0 <= k < p ==> lex_lt(#[trigger] string_views(v@)[k], x),
        decreases v@.len() - p,
    {
        proof {
            let cur = string_views(v@)[p as int];
            lemma_lex_le_total(x, cur);
            if cur == x {
                lemma_lex_le_refl(x);
            }
        }
        p = p + 1;
    }
    let mut already = false;
    if p < v.len() {
        already = s == v[p];
    }
    proof {
        if p < v@.len() {
            assert(lex_le(x, m0[p as int]));
        }
    }
    if already {
        proof {
            assert(m0[p as int] == x);
            assert(string_set(v@) =~= string_set(old(v)@).insert(x));
        }
    } else {
        v.insert(p, s);
        proof {
            let m1 = string_views(v@);
            assert(m1.len() == m0.len() + 1);
            assert forall|k: int| 0 <= k < m1.len() implies m1[k] == (if k < p {
                m0[k]
            } else if k == p {
                x
            } else {
                m0[k - 1]
            }) by {
                assert(m1[k] == v@[k]@);
                if k < p {
                    assert(v@[k] == old(v)@[k]);
                } else if k > p {
                    assert(v@[k] == old(v)@[k - 1]);
                }
            }
            if p < m0.len() {
                assert(x != m0[p as int]);
            }
            assert forall|i: int, j: int| 0 <= i < j < m1.len() implies lex_lt(
                m1[i],
                m1[j],
            ) by {
                if i == p && j > p && j - 1 > p {
                    lemma_lex_lt_trans(x, m0[p as int], m0[j - 1]);
                }
            }
            assert forall|q: Seq<char>| string_set(v@).contains(q) implies (string_set(
                old(v)@,
            ).contains(q) || q == x) by {
                let k = choose|k: int| 0 <= k < v@.len() && v@[k]@ == q;
                if k < p {
                    assert(old(v)@[k]@ == q);
                } else if k > p {
                    assert(old(v)@[k - 1]@ == q);
                }
            }
            assert forall|q: Seq<char>| string_set(old(v)@).contains(q) || q == x implies
                string_set(v@).contains(q) by {
                if q == x {
                    assert(v@[p as int]@ == q);
                } else {
                    let k = choose|k: int| 0 <= k < old(v)@.len() && old(v)@[k]@ == q;
                    if k < p {
                        assert(v@[k]@ == q);
                    } else {
                        assert(v@[k + 1]@ == q);
                    }
                }
            }
            assert(string_set(v@) =~= string_set(old(v)@).insert(x));
        }
    }
}

/// Law: two strictly sorted string lists with the same members are
/// identical, so the sorted audit views of a denylist are deterministic.
pub proof fn lemma_sorted_strings_unique(s1: Seq<Seq<char>>, s2: Seq<Seq<char>>)
    requires
        strictly_sorted_strings(s1),
        strictly_sorted_strings(s2),
        forall|n: Seq<char>| s1.contains(n) <==> s2.contains(n),
    ensures
        s1 == s2,
    decreases s1.len(),
{
    if s1.len() == 0 {
        if s2.len() > 0 {
            assert(s2.contains(s2[0]));
        }
        assert(s1 =~= s2);
    } else {
        assert(s1.contains(s1[0]));
        assert(s2.len() > 0);
        let k = choose|k: int| 0 <= k < s2.len() && s2[k] == s1[0];
        assert(s2.contains(s2[0]));
        let m = choose|m: int| 0 <= m < s1.len() && s1[m] == s2[0];
        if k > 0 && m > 0 {
            assert(lex_lt(s2[0], s2[k]));
            assert(lex_lt(s1[0], s1[m]));
            lemma_lex_lt_trans(s1[0], s1[m], s1[0]);
        }
        assert(s1[0] == s2[0]);
        let t1 = s1.drop_first();
        let t2 = s2.drop_first();
        assert forall|n: Seq<char>| t1.contains(n) implies t2.contains(n) by {
            let i = choose|i: int| 0 <= i < t1.len() && t1[i] == n;
            assert(s1[i + 1] == n);
            assert(s1.contains(n));
            let j = choose|j: int| 0 <= j < s2.len() && s2[j] == n;
            assert(lex_lt(s1[0], s1[i + 1]));
            if j == 0 {
                assert(n == s1[0]);
            }
            assert(t2[j - 1] == n);
        }
        assert forall|n: Seq<char>| t2.contains(n) implies t1.contains(n) by {
            let i = choose|i: int| 0 <= i < t2.len() && t2[i] == n;
            assert(s2[i + 1] == n);
            assert(s2.contains(n));
            let j = choose|j: int| 0 <= j < s1.len() && s1[j] == n;
            assert(lex_lt(s2[0], s2[i + 1]));
            if j == 0 {
                assert(n == s2[0]);
            }
            assert(t1[j - 1] == n);
        }
        lemma_sorted_strings_unique(t1, t2);
        assert forall|i: int| 0 <= i < s1.len() implies s1[i] == s2[i] by {
            if i > 0 {
                assert(t1[i - 1] == s1[i]);
                assert(t2[i - 1] == s2[i]);
            }
        }
        assert(s1 =~= s2);
    }
}

/// The text `name@version` that labels an identity in reports.
pub open spec fn identity_label(n: Seq<char>, v: Seq<char>) -> Seq<char> {
    n + seq!['@'] + v
}

/// Render the `name@version` label of an identity.
pub fn identity_label_string(name: &String, version: &String) -> (r: String)
    ensures
        r@ == identity_label(name@, version@),
{
    let mut s = name.clone();
    s.append("@");
    s.append(version.as_str());
    proof {
        reveal_strlit("@");
        assert("@"@ =~= seq!['@']);
    }
    s
}

impl Lists {
    /// The denylisted bare names, each once, sorted ascending; the audit
    /// view of the name set.
    pub fn sorted_names(&self) -> (r: Vec<String>)
        ensures
            strictly_sorted_strings(string_views(r@)),
            string_set(r@) == self@.names,
    {
        let mut out: Vec<String> = Vec::new();
        let mut i: usize = 0;
        proof {
            assert(string_set(out@) =~= Set::<Seq<char>>::empty());
        }
        while i < self.names.len()
            invariant
                0 <= i <= self.names@.len(),
                strictly_sorted_strings(string_views(out@)),
                forall|n: Seq<char>|
                    #[trigger] string_set(out@).contains(n) <==> exists|k: int|
                        0 <= k < i && self.names@[k]@ == n,
            decreases self.names@.len() - i,
        {
            let ghost prev = out@;
            insert_sorted_string(&mut out, self.names[i].clone());
            proof {
                assert(string_set(out@) =~= string_set(prev).insert(self.names@[i as int]@));
                assert forall|n: Seq<char>| #[trigger]
                    string_set(out@).contains(n) implies exists|k: int|
                    0 <= k < i + 1 && self.names@[k]@ == n by {
                    if n == self.names@[i as int]@ {
                        assert(self.names@[i as int]@ == n);
                    } else {
                        let k = choose|k: int| 0 <= k < i && self.names@[k]@ == n;
                        assert(0 <= k < i + 1 && self.names@[k]@ == n);
                    }
                }
            }
            i = i + 1;
        }
        proof {
            assert forall|n: Seq<char>| #[trigger] string_set(out@).contains(n) implies
                self@.names.contains(n) by {
                let k = choose|k: int| 0 <= k < self.names@.len() && self.names@[k]@ == n;
                assert(lists_has_name(*self, n));
            }
            assert forall|n: Seq<char>| self@.names.contains(n) implies string_set(
                out@,
            ).contains(n) by {
                let k = choose|k: int| 0 <= k < self.names@.len() && self.names@[k]@ == n;
            }
            assert(string_set(out@) =~= self@.names);
        }
        out
    }

    /// The exactly denylisted identities as `name@version` labels, each
    /// label once, sorted ascending; the audit view of the exact set.
    pub fn sorted_exact_labels(&self) -> (r: Vec<String>)
        ensures
            strictly_sorted_strings(string_views(r@)),
            string_set(r@) == Set::new(
                |n: Seq<char>|
                    exists|p: (Seq<char>, Seq<char>)|
                        self@.exact.contains(p) && n == identity_label(p.0, p.1),
            ),
    {
        let mut out: Vec<String> = Vec::new();
        let mut i: usize = 0;
        proof {
            assert(string_set(out@) =~= Set::<Seq<char>>::empty());
        }
        while i < self.exact.len()
            invariant
                0 <= i <= self.exact@.len(),
                strictly_sorted_strings(string_views(out@)),
                forall|n: Seq<char>|
                    #[trigger] string_set(out@).contains(n) <==> exists|k: int|
                        0 <= k < i && identity_label(
                            self.exact@[k].0@,
                            self.exact@[k].1@,
                        ) == n,
            decreases self.exact@.len() - i,
        {
            let ghost prev = out@;
            let entry = &self.exact[i];
            let label = identity_label_string(&entry.0, &entry.1);
            insert_sorted_string(&mut out, label);
            proof {
                let lab = identity_label(self.exact@[i as int].0@, self.exact@[i as int].1@);
                assert(string_set(out@) =~= string_set(prev).insert(lab));
                assert forall|n: Seq<char>| #[trigger]
                    string_set(out@).contains(n) implies exists|k: int|
                    0 <= k < i + 1 && identity_label(
                        self.exact@[k].0@,
                        self.exact@[k].1@,
                    ) == n by {
                    if n == lab {
                        assert(identity_label(
                            self.exact@[i as int].0@,
                            self.exact@[i as int].1@,
                        ) == n);
                    } else {
                        let k = choose|k: int|
                            0 <= k < i && identity_label(
                                self.exact@[k].0@,
                                self.exact@[k].1@,
                            ) == n;
                        assert(0 <= k < i + 1 && identity_label(
                            self.exact@[k].0@,
                            self.exact@[k].1@,
                        ) == n);
                    }
                }
            }
            i = i + 1;
        }
        proof {
            let goal = Set::new(
                |n: Seq<char>|
                    exists|p: (Seq<char>, Seq<char>)|
                        self@.exact.contains(p) && n == identity_label(p.0, p.1),
            );
            assert forall|n: Seq<char>| #[trigger] string_set(out@).contains(n) implies
                goal.contains(n) by {
                let k = choose|k: int|
                    0 <= k < self.exact@.len() && identity_label(
                        self.exact@[k].0@,
                        self.exact@[k].1@,
                    ) == n;
                let p = (self.exact@[k].0@, self.exact@[k].1@);
                assert(lists_has_exact(*self, p.0, p.1));
                assert(self@.exact.contains(p) && n == identity_label(p.0, p.1));
            }
            assert forall|n: Seq<char>| goal.contains(n) implies string_set(out@).contains(
                n,
            ) by {
                let p = choose|p: (Seq<char>, Seq<char>)|
                    self@.exact.contains(p) && n == identity_label(p.0, p.1);
                let k = choose|k: int|
                    0 <= k < self.exact@.len() && self.exact@[k].0@ == p.0 && self.exact@[k].1@
                        == p.1;
                assert(identity_label(self.exact@[k].0@, self.exact@[k].1@) == n);
            }
            assert(string_set(out@) =~= goal);
        }
        out
    }
}

impl MatchRecord {
    /// Render this match as its report line: `[EXACT MATCH] name@version`
    /// for an exact match, `[NAME MATCH ] name@version` for a name match.
    pub fn render_line(&self) -> (r: String)
        ensures
            self.match_type == MatchType::Exact ==> r@ == "[EXACT MATCH] "@ + identity_label(
                self.name@,
                self.version@,
            ),
            self.match_type == MatchType::Name ==> r@ == "[NAME MATCH ] "@ + identity_label(
                self.name@,
                self.version@,
            ),
    {
        let mut s = match self.match_type {
            MatchType::Exact => "[EXACT MATCH] ".to_owned(),
            MatchType::Name => "[NAME MATCH ] ".to_owned(),
        };
        s.append(self.name.as_str());
        s.append("@");
        s.append(self.version.as_str());
        proof {
            reveal_strlit("@");
            assert("@"@ =~= seq!['@']);
            assert(s@ =~= (match self.match_type {
                MatchType::Exact => "[EXACT MATCH] "@,
                MatchType::Name => "[NAME MATCH ] "@,
            }) + identity_label(self.name@, self.version@));
        }
        s
    }
}

} // verus!
