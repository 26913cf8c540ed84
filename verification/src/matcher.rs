//! Classification of flattened dependencies against a parsed denylist.
use vstd::prelude::*;

use crate::denylist::Lists;
use crate::denylist::ListsModel;
use crate::tree::Dep;
use crate::tree::pairs_of;

verus! {

/// How a dependency matched the denylist.
#[derive(Clone, Copy, Debug, PartialEq, Eq, Structural)]
pub enum MatchType {
    /// Both the name and the exact version are denylisted.
    Exact,
    /// The name is denylisted, but not this exact version.
    Name,
}

/// One reported match: how it matched, and the identity that matched.
#[derive(Debug, PartialEq, Eq)]
pub struct MatchRecord {
    pub match_type: MatchType,
    pub name: String,
    pub version: String,
}

impl View for MatchRecord {
    type V = (MatchType, Seq<char>, Seq<char>);

    open spec fn view(&self) -> (MatchType, Seq<char>, Seq<char>) {
        (self.match_type, self.name@, self.version@)
    }
}

/// How one identity is classified against a denylist. Precedence is strict:
/// an exactly denylisted identity is an exact match, else a denylisted name
/// is a name match, else there is no match.
pub open spec fn classify(p: (Seq<char>, Seq<char>), l: ListsModel) -> Option<MatchType> {
    if l.exact.contains(p) {
        Some(MatchType::Exact)
    } else if l.names.contains(p.0) {
        Some(MatchType::Name)
    } else {
        None
    }
}

/// The match records a list of identities yields, one per matching
/// identity, in the list's order.
pub open spec fn spec_matches(deps: Seq<(Seq<char>, Seq<char>)>, l: ListsModel) -> Seq<
    (MatchType, Seq<char>, Seq<char>),
>
    decreases deps.len(),
{
    if deps.len() == 0 {
        Seq::empty()
    } else {
        let rest = spec_matches(deps.drop_last(), l);
        let last = deps[deps.len() - 1];
        match classify(last, l) {
            Some(t) => rest.push((t, last.0, last.1)),
            None => rest,
        }
    }
}

/// Classify each flattened dependency against the denylist, in the list's
/// order, and report whether any match was found.
pub fn find_matches(deps: &Vec<Dep>, lists: &Lists) -> (r: (Vec<MatchRecord>, bool))
    ensures
        r.0@.map_values(|m: MatchRecord| m@) == spec_matches(pairs_of(deps@), lists@),
        r.1 == (r.0@.len() > 0),
{
    let mut out: Vec<MatchRecord> = Vec::new();
    let mut i: usize = 0;
    proof {
        assert(pairs_of(deps@).take(0) =~= Seq::<(Seq<char>, Seq<char>)>::empty());
        assert(out@.map_values(|m: MatchRecord| m@) =~= spec_matches(
            pairs_of(deps@).take(0),
            lists@,
        ));
    }
    while i < deps.len()
        invariant
            0 <= i <= deps@.len(),
            out@.map_values(|m: MatchRecord| m@) == spec_matches(
                pairs_of(deps@).take(i as int),
                lists@,
            ),
        decreases deps@.len() - i,
    {
        let d = &deps[i];
        let ghost p = pairs_of(deps@)[i as int];
        proof {
            assert(p == (d.name@, d.version@));
        }
        let ghost out_before = out@;
        let exact_hit = lists.contains_exact(&d.name, &d.version);
        if exact_hit {
            out.push(
                MatchRecord {
                    match_type: MatchType::Exact,
                    name: d.name.clone(),
                    version: d.version.clone(),
                },
            );
            proof {
                assert(out@.map_values(|m: MatchRecord| m@) =~= out_before.map_values(
                    |m: MatchRecord| m@,
                ).push((MatchType::Exact, p.0, p.1)));
            }
        } else {
            let name_hit = lists.contains_name(&d.name);
            if name_hit {
                out.push(
                    MatchRecord {
                        match_type: MatchType::Name,
                        name: d.name.clone(),
                        version: d.version.clone(),
                    },
                );
                proof {
                    assert(out@.map_values(|m: MatchRecord| m@) =~= out_before.map_values(
                        |m: MatchRecord| m@,
                    ).push((MatchType::Name, p.0, p.1)));
                }
            }
        }
        proof {
            let mp = pairs_of(deps@);
            assert(mp.take(i + 1).drop_last() =~= mp.take(i as int));
            assert(mp.take(i + 1)[i as int] == p);
        }
        i = i + 1;
    }
    proof {
        assert(pairs_of(deps@).take(deps@.len() as int) =~= pairs_of(deps@));
    }
    let any = out.len() > 0;
    (out, any)
}

/// Law: an empty denylist yields no match, whatever the dependency list.
pub proof fn lemma_empty_lists_no_matches(deps: Seq<(Seq<char>, Seq<char>)>, l: ListsModel)
    requires
        l.names == Set::<Seq<char>>::empty(),
        l.exact == Set::<(Seq<char>, Seq<char>)>::empty(),
    ensures
        spec_matches(deps, l) == Seq::<(MatchType, Seq<char>, Seq<char>)>::empty(),
    decreases deps.len(),
{
    if deps.len() > 0 {
        lemma_empty_lists_no_matches(deps.drop_last(), l);
        assert(!l.exact.contains(deps[deps.len() - 1]));
        assert(!l.names.contains(deps[deps.len() - 1].0));
    }
}

} // verus!
