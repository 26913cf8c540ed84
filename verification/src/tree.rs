//! The dependency-tree document and its flattening into a deduplicated,
//! lexicographically sorted list of `(name, version)` occurrences.
use vstd::prelude::*;

use crate::order::lemma_lex_le_refl;
use crate::order::lemma_pair_le_total;
use crate::order::lemma_pair_lt_trans;
use crate::order::lex_le;
use crate::order::pair_le;
use crate::order::pair_lt;
use crate::order::str_le;
use crate::order::strictly_sorted;

verus! {

/// One resolved package occurrence: a name and an exact version.
#[derive(Debug, PartialEq, Eq)]
pub struct Dep {
    pub name: String,
    pub version: String,
}

impl View for Dep {
    type V = (Seq<char>, Seq<char>);

    open spec fn view(&self) -> (Seq<char>, Seq<char>) {
        (self.name@, self.version@)
    }
}

/// One node of a dependency-tree document: an optional resolved version and
/// the node's own nested dependencies, as `(name, node)` entries.
pub struct TreeNode {
    pub version: Option<String>,
    pub deps: Vec<(String, TreeNode)>,
}

/// A whole dependency-tree document: the root's dependency entries.
pub struct DepTree {
    pub dependencies: Vec<(String, TreeNode)>,
}

/// The identities of a list of flattened dependencies.
pub open spec fn pairs_of(deps: Seq<Dep>) -> Seq<(Seq<char>, Seq<char>)> {
    deps.map_values(|d: Dep| d@)
}

/// The set of identities of a list of flattened dependencies.
pub open spec fn pair_set(deps: Seq<Dep>) -> Set<(Seq<char>, Seq<char>)> {
    Set::new(|p: (Seq<char>, Seq<char>)| pairs_of(deps).contains(p))
}

/// The pair a named node contributes for itself: its `(name, version)`
/// identity if it has a version, nothing if it is versionless.
pub open spec fn own_pairs(name: Seq<char>, node: TreeNode) -> Set<(Seq<char>, Seq<char>)> {
    match node.version {
        Some(v) => Set::<(Seq<char>, Seq<char>)>::empty().insert((name, v@)),
        None => Set::<(Seq<char>, Seq<char>)>::empty(),
    }
}

/// Every `(name, version)` occurrence in a forest of `(name, node)` entries:
/// a node with a version contributes its own pair, a versionless node
/// contributes nothing of its own, and either way the node's children
/// contribute theirs.
pub open spec fn forest_pairs(es: Seq<(String, TreeNode)>) -> Set<(Seq<char>, Seq<char>)>
    decreases es,
{
    if es.len() == 0 {
        Set::empty()
    } else {
        let entry = es[es.len() - 1];
        forest_pairs(es.drop_last()).union(
            own_pairs(entry.0@, entry.1).union(forest_pairs(entry.1.deps@)),
        )
    }
}

/// Every `(name, version)` occurrence contributed by one named node and its
/// descendants.
pub open spec fn node_pairs(name: Seq<char>, node: TreeNode) -> Set<(Seq<char>, Seq<char>)> {
    own_pairs(name, node).union(forest_pairs(node.deps@))
}

proof fn lemma_forest_pairs_take(es: Seq<(String, TreeNode)>, i: int)
    requires
        0 <= i < es.len(),
    ensures
        forest_pairs(es.take(i + 1)) == forest_pairs(es.take(i)).union(
            node_pairs(es[i].0@, es[i].1),
        ),
{
    let t = es.take(i + 1);
    assert(t.drop_last() =~= es.take(i));
    assert(t[t.len() - 1] == es[i]);
}

/// Decide whether `(name, version)` comes no later than `d` in the
/// lexicographic pair order.
fn dep_pair_le(name: &String, version: &String, d: &Dep) -> (r: bool)
    ensures
        r == pair_le((name@, version@), d@),
{
    if *name == d.name {
        let r = str_le(version.as_str(), d.version.as_str());
        proof {
            lemma_lex_le_refl(name@);
        }
        r
    } else {
        let ge = str_le(d.name.as_str(), name.as_str());
        proof {
            crate::order::lemma_lex_le_total(name@, d.name@);
            if ge && lex_le(name@, d.name@) {
                crate::order::lemma_lex_le_antisym(name@, d.name@);
            }
            if !ge {
                crate::order::lemma_lex_le_refl(name@);
            }
        }
        !ge
    }
}

/// Insert `(name, version)` into a strictly sorted dependency list, keeping
/// it sorted and duplicate-free; a pair already present is left alone.
fn insert_dep(acc: &mut Vec<Dep>, name: &String, version: &String)
    requires
        strictly_sorted(pairs_of(old(acc)@)),
    ensures
        strictly_sorted(pairs_of(final(acc)@)),
        pair_set(final(acc)@) == pair_set(old(acc)@).insert((name@, version@)),
{
    let ghost x = (name@, version@);
    let ghost m0 = pairs_of(old(acc)@);
    let mut p: usize = 0;
    while p < acc.len() && !dep_pair_le(name, version, &acc[p])
        invariant
            acc@ == old(acc)@,
            x == (name@, version@),
            0 <= p <= acc@.len(),
            forall|k: int| 0 <= k < p ==> pair_lt(#[trigger] pairs_of(acc@)[k], x),
        decreases acc@.len() - p,
    {
        proof {
            let cur = pairs_of(acc@)[p as int];
            lemma_pair_le_total(x, cur);
            lemma_lex_le_refl(x.0);
            lemma_lex_le_refl(x.1);
            assert(pair_lt(cur, x));
        }
        p = p + 1;
    }
    let mut already = false;
    if p < acc.len() {
        let same_name = *name == acc[p].name;
        let same_version = *version == acc[p].version;
        already = same_name && same_version;
        proof {
            assert(m0[p as int] == (acc@[p as int].name@, acc@[p as int].version@));
            if already {
                assert(m0[p as int] =~= x);
            } else if m0[p as int] == x {
                assert(m0[p as int].0 == x.0 && m0[p as int].1 == x.1);
            }
        }
    }
    proof {
        if p < acc@.len() {
            assert(pair_le(x, m0[p as int]));
        }
        lemma_lex_le_refl(x.0);
        lemma_lex_le_refl(x.1);
    }
    if already {
        proof {
            assert(pairs_of(acc@)[p as int] == x);
            assert(pairs_of(acc@).contains(x));
            assert(pair_set(acc@) =~= pair_set(old(acc)@).insert(x));
        }
    } else {
        let dep = Dep { name: name.clone(), version: version.clone() };
        acc.insert(p, dep);
        proof {
            let m1 = pairs_of(acc@);
            assert(acc@ == old(acc)@.insert(p as int, dep));
            assert(m1.len() == m0.len() + 1);
            assert forall|k: int| 0 <= k < m1.len() implies m1[k] == (if k < p {
                m0[k]
            } else if k == p {
                x
            } else {
                m0[k - 1]
            }) by {
                assert(m1[k] == acc@[k]@);
                if k < p {
                    assert(acc@[k] == old(acc)@[k]);
                } else if k > p {
                    assert(acc@[k] == old(acc)@[k - 1]);
                }
            }
            if p < m0.len() {
                assert(x != m0[p as int]);
                assert(pair_lt(x, m0[p as int]));
            }
            assert forall|i: int, j: int| 0 <= i < j < m1.len() implies pair_lt(
                m1[i],
                m1[j],
            ) by {
                if i < p && j == p {
                } else if i == p && j > p {
                    if j - 1 > p {
                        lemma_pair_lt_trans(x, m0[p as int], m0[j - 1]);
                    }
                } else if i < p && j > p {
                    if j - 1 == p {
                        if i < p {
                            if p < m0.len() {
                            }
                        }
                    }
                }
            }
            assert(strictly_sorted(m1));
            assert forall|q: (Seq<char>, Seq<char>)| m1.contains(q) implies (m0.contains(q) || q
                == x) by {
                let k = choose|k: int| 0 <= k < m1.len() && m1[k] == q;
                if k < p {
                    assert(m0[k] == q);
                } else if k > p {
                    assert(m0[k - 1] == q);
                }
            }
            assert forall|q: (Seq<char>, Seq<char>)| m0.contains(q) || q == x implies m1.contains(
                q,
            ) by {
                if q == x {
                    assert(m1[p as int] == q);
                } else {
                    let k = choose|k: int| 0 <= k < m0.len() && m0[k] == q;
                    if k < p {
                        assert(m1[k] == q);
                    } else {
                        assert(m1[k + 1] == q);
                    }
                }
            }
            assert(pair_set(acc@) =~= pair_set(old(acc)@).insert(x));
        }
    }
}

/// Record the named node's own identity, if it has one, and every identity
/// below it, keeping the accumulator sorted and duplicate-free.
pub fn traverse(name: &String, node: &TreeNode, acc: &mut Vec<Dep>)
    requires
        strictly_sorted(pairs_of(old(acc)@)),
    ensures
        strictly_sorted(pairs_of(final(acc)@)),
        pair_set(final(acc)@) == pair_set(old(acc)@).union(node_pairs(name@, *node)),
    decreases *node,
{
    match &node.version {
        Some(v) => {
            insert_dep(acc, name, v);
            proof {
                assert(pair_set(acc@) =~= pair_set(old(acc)@).union(own_pairs(name@, *node)));
            }
        },
        None => {
            proof {
                assert(pair_set(acc@) =~= pair_set(old(acc)@).union(own_pairs(name@, *node)));
            }
        },
    }
    let ghost mid = pair_set(acc@);
    let mut i: usize = 0;
    proof {
        assert(node.deps@.take(0) =~= Seq::<(String, TreeNode)>::empty());
        assert(mid.union(forest_pairs(node.deps@.take(0))) =~= mid);
    }
    while i < node.deps.len()
        invariant
            strictly_sorted(pairs_of(acc@)),
            0 <= i <= node.deps@.len(),
            mid == pair_set(old(acc)@).union(own_pairs(name@, *node)),
            pair_set(acc@) == mid.union(forest_pairs(node.deps@.take(i as int))),
        decreases node.deps@.len() - i,
    {
        let ghost before = pair_set(acc@);
        let entry = &node.deps[i];
        traverse(&entry.0, &entry.1, acc);
        proof {
            lemma_forest_pairs_take(node.deps@, i as int);
            assert(pair_set(acc@) =~= mid.union(forest_pairs(node.deps@.take(i + 1))));
        }
        i = i + 1;
    }
    proof {
        assert(node.deps@.take(node.deps@.len() as int) =~= node.deps@);
        assert(mid.union(forest_pairs(node.deps@)) =~= pair_set(old(acc)@).union(
            node_pairs(name@, *node),
        ));
    }
}

/// Flatten a dependency-tree document into the deduplicated list of every
/// `(name, version)` occurrence in it, sorted ascending by name and then
/// version in lexicographic order.
pub fn collect_deps(doc: &DepTree) -> (r: Vec<Dep>)
    ensures
        strictly_sorted(pairs_of(r@)),
        pair_set(r@) == forest_pairs(doc.dependencies@),
{
    let mut acc: Vec<Dep> = Vec::new();
    proof {
        assert(pair_set(acc@) =~= forest_pairs(doc.dependencies@.take(0)));
    }
    let mut i: usize = 0;
    while i < doc.dependencies.len()
        invariant
            strictly_sorted(pairs_of(acc@)),
            0 <= i <= doc.dependencies@.len(),
            pair_set(acc@) == forest_pairs(doc.dependencies@.take(i as int)),
        decreases doc.dependencies@.len() - i,
    {
        let entry = &doc.dependencies[i];
        traverse(&entry.0, &entry.1, &mut acc);
        proof {
            lemma_forest_pairs_take(doc.dependencies@, i as int);
            assert(pair_set(acc@) =~= forest_pairs(doc.dependencies@.take(i + 1)));
        }
        i = i + 1;
    }
    proof {
        assert(doc.dependencies@.take(doc.dependencies@.len() as int) =~= doc.dependencies@);
    }
    acc
}

/// Law: flattening is deterministic, so traversing the same document twice
/// yields identical sorted lists of identities.
pub proof fn lemma_flatten_deterministic(doc: DepTree, r1: Seq<Dep>, r2: Seq<Dep>)
    requires
        strictly_sorted(pairs_of(r1)),
        pair_set(r1) == forest_pairs(doc.dependencies@),
        strictly_sorted(pairs_of(r2)),
        pair_set(r2) == forest_pairs(doc.dependencies@),
    ensures
        pairs_of(r1) == pairs_of(r2),
{
    assert forall|p: (Seq<char>, Seq<char>)| pairs_of(r1).contains(p) implies pairs_of(
        r2,
    ).contains(p) by {
        assert(pair_set(r1).contains(p));
        assert(pair_set(r2).contains(p));
    }
    assert forall|p: (Seq<char>, Seq<char>)| pairs_of(r2).contains(p) implies pairs_of(
        r1,
    ).contains(p) by {
        assert(pair_set(r2).contains(p));
        assert(pair_set(r1).contains(p));
    }
    crate::order::lemma_strictly_sorted_unique(pairs_of(r1), pairs_of(r2));
}

/// Law: a versionless node contributes no identity for itself, while its
/// children still contribute theirs.
pub proof fn lemma_versionless_contributes_children(name: Seq<char>, node: TreeNode)
    requires
        node.version is None,
    ensures
        node_pairs(name, node) == forest_pairs(node.deps@),
{
    assert(node_pairs(name, node) =~= forest_pairs(node.deps@));
}

/// Law: a flattened list holds each `(name, version)` identity at most
/// once, however many paths of the document reach it; the same name at two
/// versions stands as two distinct entries.
pub proof fn lemma_flattened_no_duplicates(r: Seq<Dep>)
    requires
        strictly_sorted(pairs_of(r)),
    ensures
        forall|i: int, j: int|
            0 <= i < j < r.len() ==> (#[trigger] r[i])@ != (#[trigger] r[j])@,
{
    assert forall|i: int, j: int| 0 <= i < j < r.len() implies (#[trigger] r[i])@ != (
    #[trigger] r[j])@ by {
        assert(pair_lt(pairs_of(r)[i], pairs_of(r)[j]));
    }
}

} // verus!
