//! The audit and verify drivers, composed from the resolver.
//!
//! Audit resolves every path a tree walk produced, optionally keeping
//! only the unowned ones. Verify checks that a given set of users is a
//! subset of one path's resolved owners; an unowned path simply fails
//! the check, it never aborts.

use vstd::prelude::*;

use crate::code_owners::CodeOwners;
use crate::resolver::{resolve, resolved_model, ResolvedOwnership};

verus! {

/// The model of a sequence of resolution results.
pub open spec fn results_model(rs: Seq<ResolvedOwnership>) -> Seq<(Seq<char>, Seq<Seq<char>>, bool)> {
    Seq::new(rs.len(), |i: int| rs[i]@)
}

/// The audit of a sequence of walked paths: each resolved in emission
/// order; with `unowned_only`, only the unowned results are kept.
pub open spec fn audit_model(
    rules: Seq<(Seq<char>, Seq<Seq<char>>)>,
    paths: Seq<Seq<char>>,
    unowned_only: bool,
) -> Seq<(Seq<char>, Seq<Seq<char>>, bool)>
    decreases paths.len(),
{
    if paths.len() == 0 {
        Seq::empty()
    } else {
        let head = resolved_model(rules, paths[0]);
        let rest = audit_model(rules, paths.skip(1), unowned_only);
        if unowned_only && head.2 {
            rest
        } else {
            seq![head] + rest
        }
    }
}

/// Every path reported by an audit is one the walker handed in: a path
/// the walk never produced (hidden, ignored, or beyond the depth limit)
/// never appears in the output.
pub proof fn lemma_audit_paths_from_walk(
    rules: Seq<(Seq<char>, Seq<Seq<char>>)>,
    paths: Seq<Seq<char>>,
    unowned_only: bool,
)
    ensures
        forall|k: int|
            0 <= k < audit_model(rules, paths, unowned_only).len() ==> paths.contains(
                (#[trigger] audit_model(rules, paths, unowned_only)[k]).0,
            ),
    decreases paths.len(),
{
    if paths.len() > 0 {
        lemma_audit_paths_from_walk(rules, paths.skip(1), unowned_only);
        let out = audit_model(rules, paths, unowned_only);
        let rest = audit_model(rules, paths.skip(1), unowned_only);
        assert forall|k: int| 0 <= k < out.len() implies paths.contains(
            (#[trigger] out[k]).0,
        ) by {
            let head = resolved_model(rules, paths[0]);
            if unowned_only && head.2 {
                assert(out[k] == rest[k]);
                let w = choose|w: int| 0 <= w < paths.skip(1).len() && paths.skip(1)[w] == out[k].0;
                assert(paths[w + 1] == out[k].0);
            } else {
                if k == 0 {
                    assert(out[0].0 == paths[0]);
                } else {
                    assert(out[k] == rest[k - 1]);
                    let w = choose|w: int|
                        0 <= w < paths.skip(1).len() && paths.skip(1)[w] == out[k].0;
                    assert(paths[w + 1] == out[k].0);
                }
            }
        }
    }
}

/// Audits the paths a tree walk produced: resolves each in emission
/// order, keeping only the unowned results when `unowned_only` is set.
pub fn audit(manifest: &CodeOwners, paths: &Vec<String>, unowned_only: bool) -> (r: Vec<
    ResolvedOwnership,
>)
    ensures
        results_model(r@) == audit_model(manifest@, paths.deep_view(), unowned_only),
{
    let ghost pd = paths.deep_view();
    let mut out: Vec<ResolvedOwnership> = Vec::new();
    let mut i: usize = 0;
    proof {
        assert(pd.skip(0) =~~= pd);
        assert(results_model(out@) + audit_model(manifest@, pd, unowned_only) =~~= audit_model(
            manifest@,
            pd,
            unowned_only,
        ));
    }
    while i < paths.len()
        invariant
            i <= paths.len(),
            pd == paths.deep_view(),
            audit_model(manifest@, pd, unowned_only) == results_model(out@) + audit_model(
                manifest@,
                pd.skip(i as int),
                unowned_only,
            ),
        decreases paths.len() - i,
    {
        proof {
            assert(pd[i as int] == paths@[i as int]@);
            assert(pd.skip(i as int)[0] == pd[i as int]);
            assert(pd.skip(i as int).skip(1) =~~= pd.skip(i as int + 1));
        }
        let res = resolve(manifest, paths[i].as_str());
        let ghost head = resolved_model(manifest@, pd[i as int]);
        proof {
            assert(res@ == head);
            assert(audit_model(manifest@, pd.skip(i as int), unowned_only) == if unowned_only
                && head.2 {
                audit_model(manifest@, pd.skip(i as int + 1), unowned_only)
            } else {
                seq![head] + audit_model(manifest@, pd.skip(i as int + 1), unowned_only)
            });
        }
        if !unowned_only || !res.owned {
            let ghost r0 = results_model(out@);
            out.push(res);
            proof {
                assert(results_model(out@) =~~= r0.push(head));
                assert(results_model(out@) + audit_model(
                    manifest@,
                    pd.skip(i as int + 1),
                    unowned_only,
                ) =~~= r0 + audit_model(manifest@, pd.skip(i as int), unowned_only));
            }
        }
        i += 1;
    }
    proof {
        assert(audit_model(manifest@, pd.skip(i as int), unowned_only) =~~= Seq::<(
            Seq<char>,
            Seq<Seq<char>>,
            bool,
        )>::empty());
        assert(results_model(out@) =~~= audit_model(manifest@, pd, unowned_only));
    }
    out
}

/// Every expected user appears among the owners.
pub open spec fn all_present(expected: Seq<Seq<char>>, owners: Seq<Seq<char>>) -> bool {
    forall|i: int| 0 <= i < expected.len() ==> owners.contains(#[trigger] expected[i])
}

/// Whether `owners` holds the string `x`.
fn contains_string(owners: &Vec<String>, x: &String) -> (r: bool)
    ensures
        r == owners.deep_view().contains(x@),
{
    let mut i: usize = 0;
    while i < owners.len()
        invariant
            i <= owners.len(),
            forall|k: int| 0 <= k < i ==> owners.deep_view()[k] != x@,
        decreases owners.len() - i,
    {
        if owners[i].eq(x) {
            proof {
                assert(owners.deep_view()[i as int] == x@);
            }
            return true;
        }
        i += 1;
    }
    proof {
        assert(!owners.deep_view().contains(x@));
    }
    false
}

/// Verifies that every expected user is among the resolved owners of
/// `path` under the manifest: a subset check. An unowned path has no
/// owners, so the check fails for any nonempty expectation, without
/// panicking or aborting.
pub fn verify(manifest: &CodeOwners, path: &str, expected_users: &Vec<String>) -> (r: bool)
    ensures
        r == all_present(expected_users.deep_view(), resolved_model(manifest@, path@).1),
{
    let res = resolve(manifest, path);
    let ghost owners = resolved_model(manifest@, path@).1;
    proof {
        assert(res.owners.deep_view() == owners);
    }
    let ghost ed = expected_users.deep_view();
    let mut i: usize = 0;
    while i < expected_users.len()
        invariant
            i <= expected_users.len(),
            ed == expected_users.deep_view(),
            owners == res.owners.deep_view(),
            owners == resolved_model(manifest@, path@).1,
            forall|k: int| 0 <= k < i ==> owners.contains(#[trigger] ed[k]),
        decreases expected_users.len() - i,
    {
        proof {
            assert(ed[i as int] == expected_users@[i as int]@);
        }
        if !contains_string(&res.owners, &expected_users[i]) {
            proof {
                assert(!owners.contains(ed[i as int]));
            }
            return false;
        }
        i += 1;
    }
    true
}

} // verus!
