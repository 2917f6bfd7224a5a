use vstd::prelude::*;
use crate::assoc::{
    find, lemma_filter_entry, lemma_find_entry, lemma_find_put, lemma_find_rest,
    lemma_has_key, lemma_position, lemma_put_entry, put,
};
use crate::constraint::{matching, satisfies, satisfying, VersionConstraintView};
use crate::manifest::DepsView;
use crate::order::Order;
use crate::package::{lemma_name_order_equal, lemma_name_order_weak, name_order, NameView};
use crate::registry::{registry_wf, versions_of, RegistryView, ReleaseView};
use crate::solver::adapter::{
    constraint_set_for, constraint_set_from, dependency_constraint, gather, lemma_gather_wf,
};
use crate::solver::constraint_set::{
    constraint_set_wf, lemma_merge_sets_wf, lemma_rest_wf, merge_entry, merge_sets,
    ConstraintSetView,
};
use crate::solver::constraints::{admits, constraint_merge, ConstraintView};
use crate::solver::failure::FailureView;
use crate::solver::path::PathView;
use crate::solver::search::{
    attempt, attempts, lemma_choice_shrinks, lemma_gather_keys, lemma_step_ready, names, ready,
    remaining, search_outcome, solve_outcome,
};
use crate::solver::solution::{strip, JustifiedView, PartialView, SolutionView};
use crate::sorted::key_in;
use crate::version::{
    lemma_release_order_weak, lemma_version_order_equal, lemma_version_order_same, release_order,
    same_release, VersionView,
};

verus! {

/// The same release satisfies the same constraints, whatever its build
/// metadata.
pub proof fn lemma_satisfies_same(v: VersionView, w: VersionView, k: VersionConstraintView)
    requires
        same_release(v, w),
    ensures
        satisfies(v, k) == satisfies(w, k),
{
    match k {
        VersionConstraintView::Exact(x) => {},
        VersionConstraintView::Range(lo, hi) => {
            if let Some(l) = lo {
                lemma_version_order_same(v, w, l);
            }
            if let Some(h) = hi {
                lemma_version_order_same(v, w, h);
            }
        },
        VersionConstraintView::Caret(x) => {
            lemma_version_order_same(v, w, x);
        },
        VersionConstraintView::Tilde(x) => {
            lemma_version_order_same(v, w, x);
        },
        VersionConstraintView::Any => {},
    }
}

/// A constraint admits a version exactly when one of its candidates is the
/// same release.
pub proof fn lemma_admits(c: ConstraintView, v: VersionView)
    ensures
        admits(c, v) <==> exists|j: int| 0 <= j < c.len() && same_release(#[trigger] c[j].0, v),
{
    lemma_has_key(c, v, release_order());
    if admits(c, v) {
        let j = choose|j: int| 0 <= j < c.len() && release_order()(#[trigger] c[j].0, v)
            == Order::Equal;
        lemma_version_order_equal(c[j].0, v);
        assert(same_release(c[j].0, v));
    }
    if exists|j: int| 0 <= j < c.len() && same_release(#[trigger] c[j].0, v) {
        let j = choose|j: int| 0 <= j < c.len() && same_release(#[trigger] c[j].0, v);
        lemma_version_order_equal(c[j].0, v);
        assert(release_order()(c[j].0, v) == Order::Equal);
    }
}

/// Whether every candidate of `c` satisfies `k`.
pub open spec fn all_satisfy(c: ConstraintView, k: VersionConstraintView) -> bool {
    forall|j: int| 0 <= j < c.len() ==> satisfies((#[trigger] c[j]).0, k)
}

/// Every candidate of a merged constraint is a candidate of the first
/// constraint and the same release as a candidate of the second.
pub proof fn lemma_merge_candidate(a: ConstraintView, b: ConstraintView, j: int)
    requires
        0 <= j < constraint_merge(a, b).len(),
    ensures
        a.contains(constraint_merge(a, b)[j]),
        admits(b, constraint_merge(a, b)[j].0),
{
    lemma_filter_entry(a, key_in(b, release_order()), j);
}

/// A merged constraint satisfies what either of its parts satisfies.
pub proof fn lemma_merge_satisfies(a: ConstraintView, b: ConstraintView, k: VersionConstraintView)
    requires
        all_satisfy(a, k) || all_satisfy(b, k),
    ensures
        all_satisfy(constraint_merge(a, b), k),
{
    let m = constraint_merge(a, b);
    assert forall|j: int| 0 <= j < m.len() implies satisfies((#[trigger] m[j]).0, k) by {
        lemma_merge_candidate(a, b, j);
        if all_satisfy(a, k) {
            let i = choose|i: int| 0 <= i < a.len() && a[i] == m[j];
            assert(satisfies(a[i].0, k));
        } else {
            lemma_admits(b, m[j].0);
            let i = choose|i: int| 0 <= i < b.len() && same_release(#[trigger] b[i].0, m[j].0);
            assert(satisfies(b[i].0, k));
            lemma_satisfies_same(b[i].0, m[j].0, k);
        }
    }
}

/// The requirement `k` on `p` is taken care of: the version chosen for `p`
/// satisfies it, or `p` is in the work set and each of its candidates
/// satisfies it.
pub open spec fn covered(
    stack: ConstraintSetView,
    sol: PartialView,
    p: NameView,
    k: VersionConstraintView,
) -> bool {
    if sol.contains_key(p) {
        satisfies(sol[p].version, k)
    } else {
        match find(stack, p, name_order()) {
            Some(c) => all_satisfy(c, k),
            None => false,
        }
    }
}

/// Every requirement of `deps` is taken care of.
pub open spec fn deps_covered(stack: ConstraintSetView, sol: PartialView, deps: DepsView) -> bool {
    forall|i: int| 0 <= i < deps.len() ==> covered(stack, sol, (#[trigger] deps[i]).0, deps[i].1)
}

/// A requirement that is taken care of stays so when a constraint comes in.
pub proof fn lemma_entry_keeps_covered(
    acc: ConstraintSetView,
    p: NameView,
    c_new: ConstraintView,
    sol: PartialView,
    q: NameView,
    k: VersionConstraintView,
)
    requires
        covered(acc, sol, q, k),
    ensures
        merge_entry(acc, p, c_new, sol) matches Ok(next) ==> covered(next, sol, q, k),
{
    lemma_name_order_weak();
    lemma_name_order_equal(p, q);
    if !sol.contains_key(p) && !sol.contains_key(q) {
        match find(acc, p, name_order()) {
            Some(c_old) => {
                let m = constraint_merge(c_old, c_new);
                lemma_find_put(acc, p, m, q, name_order());
                if p == q {
                    lemma_merge_satisfies(c_old, c_new, k);
                }
            },
            None => {
                lemma_find_put(acc, p, c_new, q, name_order());
            },
        }
    }
}

/// A requirement that the candidates of an incoming constraint satisfy is
/// taken care of once the constraint came in.
pub proof fn lemma_entry_makes_covered(
    acc: ConstraintSetView,
    p: NameView,
    c_new: ConstraintView,
    sol: PartialView,
    k: VersionConstraintView,
)
    requires
        all_satisfy(c_new, k),
    ensures
        merge_entry(acc, p, c_new, sol) matches Ok(next) ==> covered(next, sol, p, k),
{
    lemma_name_order_weak();
    lemma_name_order_equal(p, p);
    if sol.contains_key(p) {
        if admits(c_new, sol[p].version) {
            lemma_admits(c_new, sol[p].version);
            let j = choose|j: int|
                0 <= j < c_new.len() && same_release(#[trigger] c_new[j].0, sol[p].version);
            assert(satisfies(c_new[j].0, k));
            lemma_satisfies_same(c_new[j].0, sol[p].version, k);
        }
    } else {
        match find(acc, p, name_order()) {
            Some(c_old) => {
                let m = constraint_merge(c_old, c_new);
                lemma_find_put(acc, p, m, p, name_order());
                lemma_merge_satisfies(c_old, c_new, k);
            },
            None => {
                lemma_find_put(acc, p, c_new, p, name_order());
            },
        }
    }
}

/// A requirement that is taken care of stays so when a set comes in.
pub proof fn lemma_sets_keep_covered(
    acc: ConstraintSetView,
    other: ConstraintSetView,
    sol: PartialView,
    q: NameView,
    k: VersionConstraintView,
)
    requires
        covered(acc, sol, q, k),
    ensures
        merge_sets(acc, other, sol) matches Ok(next) ==> covered(next, sol, q, k),
    decreases other.len(),
{
    if other.len() > 0 {
        lemma_entry_keeps_covered(acc, other[0].0, other[0].1, sol, q, k);
        match merge_entry(acc, other[0].0, other[0].1, sol) {
            Ok(next) => {
                lemma_sets_keep_covered(next, other.drop_first(), sol, q, k);
            },
            Err(_) => {},
        }
    }
}

/// A requirement that the candidates of an entry of an incoming set satisfy
/// is taken care of once the set came in.
pub proof fn lemma_sets_make_covered(
    acc: ConstraintSetView,
    other: ConstraintSetView,
    sol: PartialView,
    i: int,
    k: VersionConstraintView,
)
    requires
        0 <= i < other.len(),
        all_satisfy(other[i].1, k),
    ensures
        merge_sets(acc, other, sol) matches Ok(next) ==> covered(next, sol, other[i].0, k),
    decreases other.len(),
{
    match merge_entry(acc, other[0].0, other[0].1, sol) {
        Ok(next) => {
            let rest = other.drop_first();
            if i == 0 {
                lemma_entry_makes_covered(acc, other[0].0, other[0].1, sol, k);
                lemma_sets_keep_covered(next, rest, sol, other[0].0, k);
            } else {
                assert(rest[i - 1] == other[i]);
                lemma_sets_make_covered(next, rest, sol, i - 1, k);
            }
        },
        Err(_) => {},
    }
}

/// Whether every candidate of every package of `s` passes the test `ok`.
pub open spec fn all_candidates(
    s: ConstraintSetView,
    ok: spec_fn(NameView, (VersionView, PathView)) -> bool,
) -> bool {
    forall|i: int, j: int|
        0 <= i < s.len() && 0 <= j < s[i].1.len() ==> ok(s[i].0, #[trigger] s[i].1[j])
}

/// Every candidate of a set after a constraint came in is a candidate of the
/// set before or of that constraint.
pub proof fn lemma_entry_candidates(
    acc: ConstraintSetView,
    p: NameView,
    c_new: ConstraintView,
    sol: PartialView,
    ok: spec_fn(NameView, (VersionView, PathView)) -> bool,
)
    requires
        all_candidates(acc, ok),
        forall|j: int| 0 <= j < c_new.len() ==> ok(p, #[trigger] c_new[j]),
    ensures
        merge_entry(acc, p, c_new, sol) matches Ok(next) ==> all_candidates(next, ok),
{
    lemma_name_order_weak();
    match merge_entry(acc, p, c_new, sol) {
        Ok(next) => {
            if !sol.contains_key(p) {
                let m = match find(acc, p, name_order()) {
                    Some(c_old) => constraint_merge(c_old, c_new),
                    None => c_new,
                };
                assert(next == put(acc, p, m, name_order()));
                assert forall|j: int| 0 <= j < m.len() implies ok(p, #[trigger] m[j]) by {
                    match find(acc, p, name_order()) {
                        Some(c_old) => {
                            lemma_position(acc, p, name_order());
                            let at = crate::assoc::position(acc, p, name_order());
                            lemma_name_order_equal(acc[at].0, p);
                            lemma_merge_candidate(c_old, c_new, j);
                            let x = choose|x: int| 0 <= x < c_old.len() && c_old[x] == m[j];
                            assert(ok(acc[at].0, acc[at].1[x]));
                        },
                        None => {},
                    }
                }
                assert forall|i: int, j: int|
                    0 <= i < next.len() && 0 <= j < next[i].1.len() implies ok(
                    next[i].0,
                    #[trigger] next[i].1[j],
                ) by {
                    lemma_put_entry(acc, p, m, name_order(), i);
                    if next[i] != (p, m) {
                        let x = choose|x: int| 0 <= x < acc.len() && acc[x] == next[i];
                        assert(ok(acc[x].0, acc[x].1[j]));
                    }
                }
            }
        },
        Err(_) => {},
    }
}

/// Every candidate of a merged set is a candidate of one of the two sets.
pub proof fn lemma_sets_candidates(
    acc: ConstraintSetView,
    other: ConstraintSetView,
    sol: PartialView,
    ok: spec_fn(NameView, (VersionView, PathView)) -> bool,
)
    requires
        all_candidates(acc, ok),
        all_candidates(other, ok),
    ensures
        merge_sets(acc, other, sol) matches Ok(next) ==> all_candidates(next, ok),
    decreases other.len(),
{
    if other.len() > 0 {
        assert forall|j: int| 0 <= j < other[0].1.len() implies ok(
            other[0].0,
            #[trigger] other[0].1[j],
        ) by {}
        lemma_entry_candidates(acc, other[0].0, other[0].1, sol, ok);
        match merge_entry(acc, other[0].0, other[0].1, sol) {
            Ok(next) => {
                let rest = other.drop_first();
                assert forall|i: int, j: int|
                    0 <= i < rest.len() && 0 <= j < rest[i].1.len() implies ok(
                    rest[i].0,
                    #[trigger] rest[i].1[j],
                ) by {
                    assert(rest[i] == other[i + 1]);
                    assert(ok(other[i + 1].0, other[i + 1].1[j]));
                }
                lemma_sets_candidates(next, rest, sol, ok);
            },
            Err(_) => {},
        }
    }
}

/// Whether every candidate that the registry gives for a requirement of
/// `deps` stated at the end of `path` passes the test `ok`.
pub open spec fn fresh_candidates(
    reg: RegistryView,
    deps: DepsView,
    path: PathView,
    ok: spec_fn(NameView, (VersionView, PathView)) -> bool,
) -> bool {
    forall|i: int, j: int|
        0 <= i < deps.len() && 0 <= j < candidates_at(reg, deps, path, i).len() ==> ok(
            deps[i].0,
            #[trigger] candidates_at(reg, deps, path, i)[j],
        )
}

/// The candidates for the requirement at position `i` of `deps`, or none
/// where the registry gives a failure.
pub open spec fn candidates_at(reg: RegistryView, deps: DepsView, path: PathView, i: int) -> ConstraintView {
    given(reg, deps[i].0, deps[i].1, path)
}

/// The candidates for the requirement `k` on `p`, or none where the registry
/// gives a failure.
pub open spec fn given(
    reg: RegistryView,
    p: NameView,
    k: VersionConstraintView,
    path: PathView,
) -> ConstraintView {
    match dependency_constraint(reg, p, k, path) {
        Ok(c) => c,
        Err(_) => Seq::empty(),
    }
}

/// Every candidate of a gathered set is a candidate of the set before or one
/// that the registry gave for a requirement.
pub proof fn lemma_gather_candidates(
    reg: RegistryView,
    acc: ConstraintSetView,
    deps: DepsView,
    path: PathView,
    ok: spec_fn(NameView, (VersionView, PathView)) -> bool,
)
    requires
        all_candidates(acc, ok),
        fresh_candidates(reg, deps, path, ok),
    ensures
        gather(reg, acc, deps, path) matches Ok(s) ==> all_candidates(s, ok),
    decreases deps.len(),
{
    if deps.len() > 0 {
        match dependency_constraint(reg, deps[0].0, deps[0].1, path) {
            Ok(c) => {
                assert forall|j: int| 0 <= j < c.len() implies ok(deps[0].0, #[trigger] c[j]) by {
                    assert(c[j] == candidates_at(reg, deps, path, 0)[j]);
                }
                lemma_entry_candidates(acc, deps[0].0, c, Map::empty(), ok);
                match merge_entry(acc, deps[0].0, c, Map::empty()) {
                    Ok(next) => {
                        let rest = deps.drop_first();
                        assert forall|i: int, j: int|
                            0 <= i < rest.len() && 0 <= j < candidates_at(
                                reg,
                                rest,
                                path,
                                i,
                            ).len() implies ok(
                            rest[i].0,
                            #[trigger] candidates_at(reg, rest, path, i)[j],
                        ) by {
                            assert(rest[i] == deps[i + 1]);
                            assert(candidates_at(reg, rest, path, i) == candidates_at(
                                reg,
                                deps,
                                path,
                                i + 1,
                            ));
                            assert(ok(deps[i + 1].0, candidates_at(reg, deps, path, i + 1)[j]));
                        }
                        lemma_gather_candidates(reg, next, rest, path, ok);
                    },
                    Err(_) => {},
                }
            },
            Err(_) => {},
        }
    }
}

/// Every candidate that the registry gives for a requirement is a release of
/// the package that satisfies the requirement, with the given path.
pub proof fn lemma_candidate(
    reg: RegistryView,
    p: NameView,
    k: VersionConstraintView,
    path: PathView,
    j: int,
)
    requires
        0 <= j < given(reg, p, k, path).len(),
    ensures
        ({
            let e = given(reg, p, k, path)[j];
            &&& e.1 == path
            &&& satisfies(e.0, k)
            &&& release_of(reg, p, e.0) is Some
        }),
{
    lemma_release_order_weak();
    let package = find(reg, p, name_order()).unwrap();
    let versions = versions_of(package.releases);
    let m = matching(k, versions);
    lemma_filter_entry(versions, satisfying(k), j);
    let x = choose|x: int| 0 <= x < versions.len() && versions[x] == m[j];
    assert(package.releases[x].0 == m[j]);
    assert(release_order()(m[j], m[j]) == release_order()(m[j], m[j]).flip());
    lemma_has_key(package.releases, m[j], release_order());
}

/// The release of `p` at version `v`, if the registry has it.
pub open spec fn release_of(reg: RegistryView, p: NameView, v: VersionView) -> Option<ReleaseView> {
    match find(reg, p, name_order()) {
        Some(package) => find(package.releases, v, release_order()),
        None => None,
    }
}

/// The requirements stated at the end of `path`: those of the root for the
/// empty path, else those of the release that is its last step.
pub open spec fn stated_at(reg: RegistryView, root: DepsView, path: PathView) -> Option<DepsView> {
    if path.len() == 0 {
        Some(root)
    } else {
        match release_of(reg, path.last().0, path.last().1) {
            Some(release) => Some(release.dependencies),
            None => None,
        }
    }
}

/// Whether `deps` holds a requirement on `p` that `v` satisfies.
pub open spec fn asks_for(deps: DepsView, p: NameView, v: VersionView) -> bool {
    exists|i: int| 0 <= i < deps.len() && (#[trigger] deps[i]).0 == p && satisfies(v, deps[i].1)
}

/// The step at position `k` of `chain` is a release of the registry, and what
/// stands before it ends in a requirement on its package that it satisfies.
pub open spec fn link(reg: RegistryView, root: DepsView, chain: PathView, k: int) -> bool {
    &&& release_of(reg, chain[k].0, chain[k].1) is Some
    &&& stated_at(reg, root, chain.take(k)) matches Some(deps) && asks_for(
        deps,
        chain[k].0,
        chain[k].1,
    )
}

/// The path justifies the candidate `v` of `p`: from the root down, every
/// step of the path, and at its end `v` itself, is a release that satisfies
/// a requirement stated by the step before it.
pub open spec fn proof_path(
    reg: RegistryView,
    root: DepsView,
    p: NameView,
    v: VersionView,
    path: PathView,
) -> bool {
    forall|k: int| 0 <= k <= path.len() ==> #[trigger] link(reg, root, path.push((p, v)), k)
}

/// The test "is justified by its path" on candidates.
pub open spec fn proven(reg: RegistryView, root: DepsView) -> spec_fn(
    NameView,
    (VersionView, PathView),
) -> bool {
    |p: NameView, e: (VersionView, PathView)| proof_path(reg, root, p, e.0, e.1)
}

/// The candidates that the registry gives for the requirements of the root
/// are justified by the empty path.
pub proof fn lemma_root_candidates(reg: RegistryView, root: DepsView)
    ensures
        fresh_candidates(reg, root, Seq::empty(), proven(reg, root)),
{
    let ok = proven(reg, root);
    let path = PathView::empty();
    assert forall|i: int, j: int|
        0 <= i < root.len() && 0 <= j < candidates_at(reg, root, path, i).len() implies ok(
        root[i].0,
        #[trigger] candidates_at(reg, root, path, i)[j],
    ) by {
        lemma_candidate(reg, root[i].0, root[i].1, path, j);
        let e = candidates_at(reg, root, path, i)[j];
        let chain = path.push((root[i].0, e.0));
        assert(chain.take(0) =~= path);
        assert(asks_for(root, root[i].0, e.0));
        assert(link(reg, root, chain, 0));
    }
}

/// The candidates that the registry gives for the requirements of a release
/// that its path justifies are justified by that path with the release at its
/// end.
pub proof fn lemma_release_candidates(
    reg: RegistryView,
    root: DepsView,
    package: NameView,
    version: VersionView,
    path: PathView,
)
    requires
        proof_path(reg, root, package, version, path),
        release_of(reg, package, version) is Some,
    ensures
        fresh_candidates(
            reg,
            release_of(reg, package, version).unwrap().dependencies,
            path.push((package, version)),
            proven(reg, root),
        ),
{
    let ok = proven(reg, root);
    let deps = release_of(reg, package, version).unwrap().dependencies;
    let here = path.push((package, version));
    assert forall|i: int, j: int|
        0 <= i < deps.len() && 0 <= j < candidates_at(reg, deps, here, i).len() implies ok(
        deps[i].0,
        #[trigger] candidates_at(reg, deps, here, i)[j],
    ) by {
        lemma_candidate(reg, deps[i].0, deps[i].1, here, j);
        let e = candidates_at(reg, deps, here, i)[j];
        let chain = here.push((deps[i].0, e.0));
        assert forall|k: int| 0 <= k <= here.len() implies #[trigger] link(reg, root, chain, k) by {
            if k < here.len() {
                assert(link(reg, root, here, k));
                assert(chain[k] == here[k]);
                assert(chain.take(k) =~= here.take(k));
            } else {
                assert(chain.take(k) =~= here);
                assert(here.last() == (package, version));
                assert(asks_for(deps, deps[i].0, e.0));
            }
        }
    }
}

/// A requirement that is taken care of stays so while the candidates for a
/// list of requirements are gathered.
pub proof fn lemma_gather_keeps_covered(
    reg: RegistryView,
    acc: ConstraintSetView,
    deps: DepsView,
    path: PathView,
    q: NameView,
    k: VersionConstraintView,
)
    requires
        covered(acc, Map::empty(), q, k),
    ensures
        gather(reg, acc, deps, path) matches Ok(s) ==> covered(s, Map::empty(), q, k),
    decreases deps.len(),
{
    if deps.len() > 0 {
        match dependency_constraint(reg, deps[0].0, deps[0].1, path) {
            Ok(c) => {
                lemma_entry_keeps_covered(acc, deps[0].0, c, Map::empty(), q, k);
                match merge_entry(acc, deps[0].0, c, Map::empty()) {
                    Ok(next) => {
                        lemma_gather_keeps_covered(reg, next, deps.drop_first(), path, q, k);
                    },
                    Err(_) => {},
                }
            },
            Err(_) => {},
        }
    }
}

/// Every requirement of a list is taken care of by the set gathered for the
/// list: the set has the package, with candidates that satisfy the
/// requirement.
pub proof fn lemma_gather_covers(
    reg: RegistryView,
    acc: ConstraintSetView,
    deps: DepsView,
    path: PathView,
    i: int,
)
    requires
        0 <= i < deps.len(),
    ensures
        gather(reg, acc, deps, path) matches Ok(s) ==> covered(
            s,
            Map::empty(),
            deps[i].0,
            deps[i].1,
        ),
    decreases deps.len(),
{
    match dependency_constraint(reg, deps[0].0, deps[0].1, path) {
        Ok(c) => {
            match merge_entry(acc, deps[0].0, c, Map::empty()) {
                Ok(next) => {
                    let rest = deps.drop_first();
                    if i == 0 {
                        assert forall|j: int| 0 <= j < c.len() implies satisfies(
                            (#[trigger] c[j]).0,
                            deps[0].1,
                        ) by {
                            lemma_candidate(reg, deps[0].0, deps[0].1, path, j);
                        }
                        lemma_entry_makes_covered(acc, deps[0].0, c, Map::empty(), deps[0].1);
                        lemma_gather_keeps_covered(reg, next, rest, path, deps[0].0, deps[0].1);
                    } else {
                        assert(rest[i - 1] == deps[i]);
                        lemma_gather_covers(reg, next, rest, path, i - 1);
                    }
                },
                Err(_) => {},
            }
        },
        Err(_) => {},
    }
}

/// Whether the solution `sol` meets every requirement of `deps`: it has a
/// version for the package, and that version satisfies the constraint.
pub open spec fn deps_met(sol: SolutionView, deps: DepsView) -> bool {
    forall|i: int|
        0 <= i < deps.len() ==> sol.contains_key((#[trigger] deps[i]).0) && satisfies(
            sol[deps[i].0],
            deps[i].1,
        )
}

/// A solution is sound for the root requirements `root` when it meets them,
/// every version in it is a release of the registry, and it meets the
/// requirements of each of those releases.
pub open spec fn sound(reg: RegistryView, root: DepsView, sol: SolutionView) -> bool {
    &&& deps_met(sol, root)
    &&& forall|p: NameView| #[trigger] sol.contains_key(p) ==> release_met(reg, sol, p)
}

/// The version that `sol` has for `p` is a release of the registry, and
/// `sol` meets the requirements of that release.
pub open spec fn release_met(reg: RegistryView, sol: SolutionView, p: NameView) -> bool {
    match release_of(reg, p, sol[p]) {
        Some(release) => deps_met(sol, release.dependencies),
        None => false,
    }
}

/// The version chosen for `p` is a release of the registry, and every
/// requirement of that release is taken care of.
pub open spec fn chosen_covered(
    reg: RegistryView,
    stack: ConstraintSetView,
    sol: PartialView,
    p: NameView,
) -> bool {
    match release_of(reg, p, sol[p].version) {
        Some(release) => deps_covered(stack, sol, release.dependencies),
        None => false,
    }
}

/// What holds of the work set and the versions chosen whenever the search
/// is entered: the set is well formed and ready; every requirement, of the
/// root and of each release chosen, is taken care of; and every candidate in
/// the set, and every version chosen, is justified by its path.
pub open spec fn search_inv(
    reg: RegistryView,
    root: DepsView,
    stack: ConstraintSetView,
    sol: PartialView,
) -> bool {
    &&& registry_wf(reg)
    &&& constraint_set_wf(stack)
    &&& ready(reg, stack, sol)
    &&& deps_covered(stack, sol, root)
    &&& forall|p: NameView| #[trigger] sol.contains_key(p) ==> chosen_covered(reg, stack, sol, p)
    &&& all_candidates(stack, proven(reg, root))
    &&& forall|p: NameView| #[trigger]
        sol.contains_key(p) ==> proof_path(reg, root, p, sol[p].version, sol[p].path)
}

/// The invariant holds when the search is entered first: on the constraint
/// set of the root requirements, with no version chosen.
pub proof fn lemma_initial_inv(reg: RegistryView, root: DepsView)
    requires
        registry_wf(reg),
    ensures
        constraint_set_from(reg, root) matches Ok(stack) ==> search_inv(
            reg,
            root,
            stack,
            Map::empty(),
        ),
{
    match constraint_set_from(reg, root) {
        Ok(stack) => {
            let sol = Map::<NameView, JustifiedView>::empty();
            lemma_gather_wf(reg, Seq::empty(), root, Seq::empty());
            lemma_gather_keys(reg, Seq::empty(), root, Seq::empty());
            assert forall|i: int| 0 <= i < root.len() implies covered(
                stack,
                sol,
                (#[trigger] root[i]).0,
                root[i].1,
            ) by {
                lemma_gather_covers(reg, Seq::empty(), root, Seq::empty(), i);
            }
            lemma_root_candidates(reg, root);
            lemma_gather_candidates(reg, Seq::empty(), root, Seq::empty(), proven(reg, root));
        },
        Err(_) => {},
    }
}

/// A requirement that is taken care of stays so when a candidate of the
/// least package of the work set is chosen and that package leaves the set.
pub proof fn lemma_choice_keeps_covered(
    stack: ConstraintSetView,
    sol: PartialView,
    i: int,
    q: NameView,
    k: VersionConstraintView,
)
    requires
        constraint_set_wf(stack),
        stack.len() > 0,
        0 <= i < stack[0].1.len(),
        !sol.contains_key(stack[0].0),
        covered(stack, sol, q, k),
    ensures
        covered(
            stack.drop_first(),
            sol.insert(
                stack[0].0,
                JustifiedView { version: stack[0].1[i].0, path: stack[0].1[i].1 },
            ),
            q,
            k,
        ),
{
    lemma_name_order_weak();
    lemma_name_order_equal(stack[0].0, q);
    if !sol.contains_key(q) {
        if q == stack[0].0 {
            lemma_find_entry(stack, 0, name_order());
        } else {
            lemma_find_rest(stack, q, name_order());
        }
    }
}

/// The invariant holds again when the search is entered from a candidate:
/// after the candidate at position `i` of the least package was chosen and
/// the requirements of that release came into the rest of the work set.
pub proof fn lemma_step_inv(reg: RegistryView, root: DepsView, stack: ConstraintSetView, sol: PartialView, i: int)
    requires
        search_inv(reg, root, stack, sol),
        stack.len() > 0,
        0 <= i < stack[0].1.len(),
    ensures
        ({
            let package = stack[0].0;
            let version = stack[0].1[i].0;
            let path = stack[0].1[i].1;
            let chosen = sol.insert(package, JustifiedView { version, path });
            constraint_set_for(reg, package, version, path) matches Ok(deps) ==> (merge_sets(
                stack.drop_first(),
                deps,
                chosen,
            ) matches Ok(next) ==> search_inv(reg, root, next, chosen))
        }),
{
    let package = stack[0].0;
    let version = stack[0].1[i].0;
    let path = stack[0].1[i].1;
    let here = path.push((package, version));
    let tail = stack.drop_first();
    let chosen = sol.insert(package, JustifiedView { version, path });
    lemma_name_order_weak();
    if let Ok(deps) = constraint_set_for(reg, package, version, path) {
        if let Ok(next) = merge_sets(tail, deps, chosen) {
            let release = release_of(reg, package, version).unwrap();
            let nothing = Map::<NameView, JustifiedView>::empty();
            // the new work set is well formed and ready
            lemma_rest_wf(stack);
            lemma_gather_wf(reg, Seq::empty(), release.dependencies, here);
            lemma_merge_sets_wf(tail, deps, chosen);
            assert forall|j: int| 0 <= j < tail.len() implies names(reg).contains(
                #[trigger] tail[j].0,
            ) && !sol.contains_key(tail[j].0) && tail[j].0 != package by {
                assert(tail[j] == stack[j + 1]);
                assert(crate::assoc::increasing::<NameView, ConstraintView>(name_order())(
                    stack[0],
                    stack[j + 1],
                ));
                lemma_name_order_equal(package, tail[j].0);
            }
            lemma_step_ready(reg, tail, package, version, path, sol);
            // what was taken care of stays so
            assert forall|q: NameView, k: VersionConstraintView|
                covered(stack, sol, q, k) implies #[trigger] covered(next, chosen, q, k) by {
                lemma_choice_keeps_covered(stack, sol, i, q, k);
                lemma_sets_keep_covered(tail, deps, chosen, q, k);
            }
            // the requirements of the release chosen are taken care of
            assert forall|n: int| 0 <= n < release.dependencies.len() implies covered(
                next,
                chosen,
                (#[trigger] release.dependencies[n]).0,
                release.dependencies[n].1,
            ) by {
                let q = release.dependencies[n].0;
                let k = release.dependencies[n].1;
                lemma_gather_covers(reg, Seq::empty(), release.dependencies, here, n);
                lemma_position(deps, q, name_order());
                let at = crate::assoc::position(deps, q, name_order());
                lemma_name_order_equal(deps[at].0, q);
                lemma_sets_make_covered(tail, deps, chosen, at, k);
            }
            assert forall|p: NameView| #[trigger] chosen.contains_key(p) implies chosen_covered(
                reg,
                next,
                chosen,
                p,
            ) by {
                if p != package {
                    assert(sol.contains_key(p));
                    assert(chosen_covered(reg, stack, sol, p));
                    let r = release_of(reg, p, sol[p].version).unwrap();
                    assert forall|n: int| 0 <= n < r.dependencies.len() implies covered(
                        next,
                        chosen,
                        (#[trigger] r.dependencies[n]).0,
                        r.dependencies[n].1,
                    ) by {
                        assert(covered(stack, sol, r.dependencies[n].0, r.dependencies[n].1));
                    }
                }
            }
            assert forall|n: int| 0 <= n < root.len() implies covered(
                next,
                chosen,
                (#[trigger] root[n]).0,
                root[n].1,
            ) by {
                assert(covered(stack, sol, root[n].0, root[n].1));
            }
            // every candidate and every version chosen is justified
            let ok = proven(reg, root);
            assert(ok(stack[0].0, stack[0].1[i]));
            assert forall|a: int, b: int|
                0 <= a < tail.len() && 0 <= b < tail[a].1.len() implies ok(
                tail[a].0,
                #[trigger] tail[a].1[b],
            ) by {
                assert(tail[a] == stack[a + 1]);
                assert(ok(stack[a + 1].0, stack[a + 1].1[b]));
            }
            lemma_release_candidates(reg, root, package, version, path);
            lemma_gather_candidates(reg, Seq::empty(), release.dependencies, here, ok);
            lemma_sets_candidates(tail, deps, chosen, ok);
        }
    }
}

/// When nothing is left in the work set, the versions chosen are a sound
/// solution.
pub proof fn lemma_final_sound(reg: RegistryView, root: DepsView, sol: PartialView)
    requires
        search_inv(reg, root, Seq::empty(), sol),
    ensures
        sound(reg, root, strip(sol)),
{
    let stack = ConstraintSetView::empty();
    let out = strip(sol);
    assert forall|q: NameView, k: VersionConstraintView| #[trigger]
        covered(stack, sol, q, k) implies out.contains_key(q) && satisfies(out[q], k) by {
        lemma_position(stack, q, name_order());
    }
    assert forall|p: NameView| #[trigger] out.contains_key(p) implies release_met(reg, out, p) by {
        assert(sol.contains_key(p));
        assert(chosen_covered(reg, stack, sol, p));
        let release = release_of(reg, p, out[p]).unwrap();
        assert forall|i: int| 0 <= i < release.dependencies.len() implies out.contains_key(
            (#[trigger] release.dependencies[i]).0,
        ) && satisfies(out[release.dependencies[i].0], release.dependencies[i].1) by {
            assert(covered(stack, sol, release.dependencies[i].0, release.dependencies[i].1));
        }
    }
    assert forall|i: int| 0 <= i < root.len() implies out.contains_key((#[trigger] root[i]).0)
        && satisfies(out[root[i].0], root[i].1) by {
        assert(covered(stack, sol, root[i].0, root[i].1));
    }
}

/// Whatever the search returns as a solution is sound.
pub proof fn lemma_search_sound(
    reg: RegistryView,
    root: DepsView,
    stack: ConstraintSetView,
    cheap: bool,
    sol: PartialView,
)
    requires
        search_inv(reg, root, stack, sol),
    ensures
        search_outcome(reg, stack, cheap, sol) matches Ok(out) ==> sound(reg, root, strip(out)),
    decreases remaining(reg, sol), 1nat, 0nat,
{
    if stack.len() == 0 {
        assert(stack =~= ConstraintSetView::empty());
        lemma_final_sound(reg, root, sol);
    } else {
        lemma_attempts_sound(reg, root, stack, 0, cheap, sol, None);
    }
}

/// Whatever the candidates of the least package, from position `i` on, lead
/// to as a solution is sound.
pub proof fn lemma_attempts_sound(
    reg: RegistryView,
    root: DepsView,
    stack: ConstraintSetView,
    i: nat,
    cheap: bool,
    sol: PartialView,
    first: Option<FailureView>,
)
    requires
        search_inv(reg, root, stack, sol),
        stack.len() > 0,
    ensures
        attempts(reg, stack.drop_first(), stack[0].0, stack[0].1, i, cheap, sol, first) matches Ok(
            out,
        ) ==> sound(reg, root, strip(out)),
    decreases remaining(reg, sol), 0nat, stack[0].1.len() - i,
{
    let tail = stack.drop_first();
    let package = stack[0].0;
    let constraint = stack[0].1;
    if i < constraint.len() {
        lemma_attempt_sound(reg, root, stack, i as int, cheap, sol);
        let outcome = attempt(
            reg,
            tail,
            package,
            constraint[i as int].0,
            constraint[i as int].1,
            cheap,
            sol,
        );
        if !cheap {
            if let Err(f) = outcome {
                lemma_attempts_sound(
                    reg,
                    root,
                    stack,
                    i + 1,
                    cheap,
                    sol,
                    match first {
                        Some(g) => Some(g),
                        None => Some(f),
                    },
                );
            }
        }
    }
}

/// Whatever one candidate of the least package leads to as a solution is
/// sound.
pub proof fn lemma_attempt_sound(
    reg: RegistryView,
    root: DepsView,
    stack: ConstraintSetView,
    i: int,
    cheap: bool,
    sol: PartialView,
)
    requires
        search_inv(reg, root, stack, sol),
        stack.len() > 0,
        0 <= i < stack[0].1.len(),
    ensures
        attempt(
            reg,
            stack.drop_first(),
            stack[0].0,
            stack[0].1[i].0,
            stack[0].1[i].1,
            cheap,
            sol,
        ) matches Ok(out) ==> sound(reg, root, strip(out)),
    decreases remaining(reg, sol), 0nat, 0nat,
{
    let package = stack[0].0;
    let version = stack[0].1[i].0;
    let path = stack[0].1[i].1;
    let chosen = sol.insert(package, JustifiedView { version, path });
    if !crate::solver::path::path_visits(path, package) {
        if let Ok(deps) = constraint_set_for(reg, package, version, path) {
            if let Ok(next) = merge_sets(stack.drop_first(), deps, chosen) {
                lemma_step_inv(reg, root, stack, sol, i);
                lemma_choice_shrinks(reg, sol, package, JustifiedView { version, path });
                lemma_search_sound(reg, root, next, cheap, chosen);
            }
        }
    }
}

/// Every solution that `solve` returns is sound: it has a version for every
/// package that the root requires, each version is a release of the
/// registry that satisfies every requirement on its package, of the root and
/// of every release in the solution, and every package that such a release
/// requires has a version in the solution too.
pub proof fn lemma_solve_sound(reg: RegistryView, root: DepsView)
    requires
        registry_wf(reg),
    ensures
        solve_outcome(reg, root) matches Ok(sol) ==> sound(reg, root, sol),
{
    if let Ok(stack) = constraint_set_from(reg, root) {
        lemma_initial_inv(reg, root);
        lemma_search_sound(reg, root, stack, false, Map::empty());
    }
}

/// What `solve` returns is decided by the values of the registry and of the
/// root requirements: two runs on inputs of the same value return the same
/// value, solution or failure.
pub proof fn lemma_solve_deterministic(
    reg_a: RegistryView,
    root_a: DepsView,
    reg_b: RegistryView,
    root_b: DepsView,
)
    requires
        reg_a =~~= reg_b,
        root_a =~~= root_b,
    ensures
        solve_outcome(reg_a, root_a) == solve_outcome(reg_b, root_b),
{
}

} // verus!
