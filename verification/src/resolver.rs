//! Ownership resolution: applying last-match-wins precedence over the
//! ordered rules of a manifest.
//!
//! Resolution is total: every path resolves to either the owner list of
//! the last rule whose pattern matches it, or to the unowned result.
//! An unmatched path is a normal outcome, never a failure.

use vstd::prelude::*;

use crate::code_owners::CodeOwners;
use crate::matcher::{is_match, norm_path, pattern_matches};

verus! {

/// The owners of `path` under the given rules, or `None` when no rule
/// matches. The last matching rule wins outright: its owner list fully
/// replaces any earlier match. `path` is taken in canonical form.
pub open spec fn resolve_model(
    rules: Seq<(Seq<char>, Seq<Seq<char>>)>,
    path: Seq<char>,
) -> Option<Seq<Seq<char>>>
    decreases rules.len(),
{
    if rules.len() == 0 {
        None
    } else if pattern_matches(rules.last().0, path) {
        Some(rules.last().1)
    } else {
        resolve_model(rules.drop_last(), path)
    }
}

/// The ownership of one queried path: the path itself, its resolved
/// owners, and whether any rule matched.
pub struct ResolvedOwnership {
    pub path: String,
    pub owners: Vec<String>,
    pub owned: bool,
}

impl View for ResolvedOwnership {
    type V = (Seq<char>, Seq<Seq<char>>, bool);

    open spec fn view(&self) -> (Seq<char>, Seq<Seq<char>>, bool) {
        (self.path@, self.owners.deep_view(), self.owned)
    }
}

/// The ownership resolved for a raw (not yet canonical) path.
pub open spec fn resolved_model(
    rules: Seq<(Seq<char>, Seq<Seq<char>>)>,
    path: Seq<char>,
) -> (Seq<char>, Seq<Seq<char>>, bool) {
    match resolve_model(rules, norm_path(path)) {
        Some(os) => (path, os, true),
        None => (path, Seq::empty(), false),
    }
}

/// When a rule matches and no later rule does, its owners are the
/// resolved owners: the last match wins and fully supersedes every
/// earlier one.
pub proof fn lemma_last_match_wins(
    rules: Seq<(Seq<char>, Seq<Seq<char>>)>,
    path: Seq<char>,
    j: int,
)
    requires
        0 <= j < rules.len(),
        pattern_matches(rules[j].0, path),
        forall|k: int| j < k < rules.len() ==> !pattern_matches((#[trigger] rules[k]).0, path),
    ensures
        resolve_model(rules, path) == Some(rules[j].1),
    decreases rules.len(),
{
    if j == rules.len() - 1 {
    } else {
        assert(rules.drop_last()[j] == rules[j]);
        lemma_last_match_wins(rules.drop_last(), path, j);
    }
}

/// Resolution is total: every path under every manifest resolves, to an
/// owner list exactly when some rule matches it, and to the unowned
/// result otherwise — never to a failure.
pub proof fn lemma_resolution_total(rules: Seq<(Seq<char>, Seq<Seq<char>>)>, path: Seq<char>)
    ensures
        resolve_model(rules, path) is Some <==> exists|k: int|
            0 <= k < rules.len() && pattern_matches((#[trigger] rules[k]).0, path),
    decreases rules.len(),
{
    if rules.len() == 0 {
    } else if pattern_matches(rules.last().0, path) {
        assert(pattern_matches(rules[rules.len() - 1].0, path));
    } else {
        lemma_resolution_total(rules.drop_last(), path);
        if exists|k: int| 0 <= k < rules.len() && pattern_matches((#[trigger] rules[k]).0, path) {
            let k = choose|k: int|
                0 <= k < rules.len() && pattern_matches((#[trigger] rules[k]).0, path);
            assert(k < rules.len() - 1);
            assert(rules.drop_last()[k] == rules[k]);
        }
        if exists|k: int|
            0 <= k < rules.drop_last().len() && pattern_matches(
                (#[trigger] rules.drop_last()[k]).0,
                path,
            ) {
            let k = choose|k: int|
                0 <= k < rules.drop_last().len() && pattern_matches(
                    (#[trigger] rules.drop_last()[k]).0,
                    path,
                );
            assert(rules.drop_last()[k] == rules[k]);
        }
    }
}

/// A path matched by no rule resolves as unowned.
pub proof fn lemma_no_match_unowned(rules: Seq<(Seq<char>, Seq<Seq<char>>)>, path: Seq<char>)
    requires
        forall|k: int| 0 <= k < rules.len() ==> !pattern_matches((#[trigger] rules[k]).0, path),
    ensures
        resolve_model(rules, path) is None,
    decreases rules.len(),
{
    if rules.len() > 0 {
        assert(forall|k: int|
            0 <= k < rules.drop_last().len() ==> rules.drop_last()[k] == rules[k]);
        lemma_no_match_unowned(rules.drop_last(), path);
    }
}

/// Copies an owner list.
fn clone_owners(v: &Vec<String>) -> (r: Vec<String>)
    ensures
        r@ == v@,
        r.deep_view() == v.deep_view(),
{
    let mut r: Vec<String> = Vec::new();
    let mut i: usize = 0;
    while i < v.len()
        invariant
            i <= v.len(),
            r@ == v@.subrange(0, i as int),
        decreases v.len() - i,
    {
        r.push(v[i].clone());
        proof {
            assert(v@.subrange(0, i as int).push(v@[i as int]) =~= v@.subrange(0, i as int + 1));
        }
        i += 1;
    }
    proof {
        assert(v@.subrange(0, v@.len() as int) =~= v@);
        assert(r.deep_view() =~~= v.deep_view());
    }
    r
}

/// Resolves the ownership of `path` under the manifest: the owner list
/// of the last matching rule, or the unowned result when no rule
/// matches. Total over all paths and manifests; it never fails.
pub fn resolve(manifest: &CodeOwners, path: &str) -> (r: ResolvedOwnership)
    ensures
        r@ == resolved_model(manifest@, path@),
{
    let ghost np = norm_path(path@);
    let mut i: usize = manifest.entries.len();
    proof {
        assert(manifest@.subrange(0, i as int) =~~= manifest@);
    }
    while i > 0
        invariant
            i <= manifest.entries.len(),
            np == norm_path(path@),
            resolve_model(manifest@, np) == resolve_model(manifest@.subrange(0, i as int), np),
        decreases i,
    {
        i -= 1;
        proof {
            let pre = manifest@.subrange(0, i as int + 1);
            assert(pre.last() == manifest@[i as int]);
            assert(pre.drop_last() =~~= manifest@.subrange(0, i as int));
        }
        if is_match(manifest.entries[i].path.as_str(), path) {
            let owners = clone_owners(&manifest.entries[i].owners);
            proof {
                let pre = manifest@.subrange(0, i as int + 1);
                assert(manifest@[i as int] == manifest.entries@[i as int]@);
                assert(pre.last() == manifest@[i as int]);
                assert(pattern_matches(pre.last().0, np));
                assert(resolve_model(pre, np) == Some(pre.last().1));
                assert(resolve_model(manifest@, np) == Some(manifest@[i as int].1));
            }
            return ResolvedOwnership { path: path.to_owned(), owners, owned: true };
        }
    }
    proof {
        assert(manifest@.subrange(0, 0) =~~= Seq::<(Seq<char>, Seq<Seq<char>>)>::empty());
        assert(resolve_model(manifest@, np) is None);
    }
    let r = ResolvedOwnership { path: path.to_owned(), owners: Vec::new(), owned: false };
    proof {
        assert(r.owners.deep_view() =~~= Seq::<Seq<char>>::empty());
    }
    r
}

impl CodeOwners {
    /// The owners of `path` under this manifest, or `None` when no rule
    /// matches: an explicit no-owners indicator, never a failure.
    pub fn get_owners(&self, path: &str) -> (r: Option<&Vec<String>>)
        ensures
            match r {
                Some(v) => resolve_model(self@, norm_path(path@)) == Some(v.deep_view()),
                None => resolve_model(self@, norm_path(path@)) is None,
            },
    {
        let ghost np = norm_path(path@);
        let mut i: usize = self.entries.len();
        proof {
            assert(self@.subrange(0, i as int) =~~= self@);
        }
        while i > 0
            invariant
                i <= self.entries.len(),
                np == norm_path(path@),
                resolve_model(self@, np) == resolve_model(self@.subrange(0, i as int), np),
            decreases i,
        {
            i -= 1;
            proof {
                let pre = self@.subrange(0, i as int + 1);
                assert(pre.last() == self@[i as int]);
                assert(pre.drop_last() =~~= self@.subrange(0, i as int));
            }
            if is_match(self.entries[i].path.as_str(), path) {
                proof {
                    let pre = self@.subrange(0, i as int + 1);
                    assert(self@[i as int] == self.entries@[i as int]@);
                    assert(pre.last() == self@[i as int]);
                    assert(pattern_matches(pre.last().0, np));
                    assert(resolve_model(pre, np) == Some(pre.last().1));
                    assert(resolve_model(self@, np) == Some(self@[i as int].1));
                }
                return Some(&self.entries[i].owners);
            }
        }
        proof {
            assert(self@.subrange(0, 0) =~~= Seq::<(Seq<char>, Seq<Seq<char>>)>::empty());
        }
        None
    }
}

} // verus!
