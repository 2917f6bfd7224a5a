use vstd::prelude::*;
use crate::assoc::{find, lemma_find_same_key, lemma_position, lemma_put_entry, position, put};
use crate::constraint::{matching, satisfies, satisfying, VersionConstraintView};
use crate::manifest::DepsView;
use crate::package::{lemma_name_order_equal, name_order, NameView};
use crate::registry::{registry_wf, versions_of, RegistryView};
use crate::solver::adapter::{
    constraint_set_for, constraint_set_from, dependency_constraint, gather, lemma_gather_wf,
};
use crate::solver::constraint_set::{
    constraint_set_wf, lemma_merge_sets_wf, lemma_rest_wf, merge_entry, merge_sets,
    ConstraintSetView,
};
use crate::solver::constraints::{
    admits, constraint_merge, lemma_merge_commutative, tagged, ConstraintView,
};
use crate::solver::failure::FailureView;
use crate::solver::laws::{
    all_candidates, candidates_at, deps_met, lemma_admits, lemma_candidate,
    lemma_gather_candidates, lemma_satisfies_same, lemma_sets_candidates, release_met, release_of,
    sound,
};
use crate::solver::path::{path_visits, PathView};
use crate::solver::search::{
    attempt, attempts, lemma_choice_shrinks, lemma_gather_keys, lemma_step_ready, names, ready,
    remaining, search_outcome, solve_outcome,
};
use crate::solver::solution::{JustifiedView, PartialView, SolutionView};
use crate::version::{
    lemma_release_order_weak, lemma_version_order_equal, release_order, same_release, VersionView,
};

verus! {

/// Every version of `s` is a release of the registry whose requirements `s`
/// meets.
pub open spec fn closed(reg: RegistryView, s: SolutionView) -> bool {
    forall|p: NameView| #[trigger] s.contains_key(p) ==> release_met(reg, s, p)
}

/// The versions chosen so far are the releases that `s` has for those
/// packages.
pub open spec fn agrees(sol: PartialView, s: SolutionView) -> bool {
    forall|p: NameView| #[trigger]
        sol.contains_key(p) ==> s.contains_key(p) && same_release(sol[p].version, s[p])
}

/// The package `p` has a version in `s`, and `c` admits it.
pub open spec fn allows(c: ConstraintView, s: SolutionView, p: NameView) -> bool {
    s.contains_key(p) && admits(c, s[p])
}

/// Every package of the work set has a version in `s` that is among its
/// candidates.
pub open spec fn set_allows(stack: ConstraintSetView, s: SolutionView) -> bool {
    forall|i: int| 0 <= i < stack.len() ==> allows((#[trigger] stack[i]).1, s, stack[i].0)
}

/// A constraint that admits a version has a candidate.
pub proof fn lemma_admits_nonempty(c: ConstraintView, v: VersionView)
    requires
        admits(c, v),
    ensures
        c.len() > 0,
{
    lemma_position(c, v, release_order());
}

/// A constraint admits the same release whatever its build metadata.
pub proof fn lemma_admits_same(c: ConstraintView, v: VersionView, w: VersionView)
    requires
        same_release(v, w),
    ensures
        admits(c, v) == admits(c, w),
{
    lemma_release_order_weak();
    lemma_version_order_equal(v, w);
    lemma_find_same_key(c, v, w, release_order());
}

/// A constraint that admits the version that `s` has for its package comes
/// into a set without failure, where the set and the versions chosen so far
/// go with `s` too; and the set goes with `s` afterwards.
pub proof fn lemma_entry_goes(
    acc: ConstraintSetView,
    p: NameView,
    c_new: ConstraintView,
    sol: PartialView,
    s: SolutionView,
)
    requires
        set_allows(acc, s),
        allows(c_new, s, p),
        agrees(sol, s),
    ensures
        merge_entry(acc, p, c_new, sol) matches Ok(next) && set_allows(next, s),
{
    if sol.contains_key(p) {
        lemma_admits_same(c_new, sol[p].version, s[p]);
    } else {
        let m = match find(acc, p, name_order()) {
            Some(c_old) => constraint_merge(c_old, c_new),
            None => c_new,
        };
        if let Some(c_old) = find(acc, p, name_order()) {
            lemma_position(acc, p, name_order());
            let at = position(acc, p, name_order());
            lemma_name_order_equal(acc[at].0, p);
            assert(allows(acc[at].1, s, acc[at].0));
            lemma_merge_commutative(c_old, c_new, s[p]);
        }
        lemma_admits_nonempty(m, s[p]);
        let next = put(acc, p, m, name_order());
        assert forall|i: int| 0 <= i < next.len() implies allows(
            (#[trigger] next[i]).1,
            s,
            next[i].0,
        ) by {
            lemma_put_entry(acc, p, m, name_order(), i);
            if next[i] != (p, m) {
                let x = choose|x: int| 0 <= x < acc.len() && acc[x] == next[i];
                assert(allows(acc[x].1, s, acc[x].0));
            }
        }
    }
}

/// A set that goes with `s` comes into another such set without failure.
pub proof fn lemma_sets_go(
    acc: ConstraintSetView,
    other: ConstraintSetView,
    sol: PartialView,
    s: SolutionView,
)
    requires
        set_allows(acc, s),
        set_allows(other, s),
        agrees(sol, s),
    ensures
        merge_sets(acc, other, sol) matches Ok(next) && set_allows(next, s),
    decreases other.len(),
{
    if other.len() > 0 {
        assert(allows(other[0].1, s, other[0].0));
        lemma_entry_goes(acc, other[0].0, other[0].1, sol, s);
        let rest = other.drop_first();
        assert forall|i: int| 0 <= i < rest.len() implies allows(
            (#[trigger] rest[i]).1,
            s,
            rest[i].0,
        ) by {
            assert(rest[i] == other[i + 1]);
            assert(allows(other[i + 1].1, s, other[i + 1].0));
        }
        if let Ok(next) = merge_entry(acc, other[0].0, other[0].1, sol) {
            lemma_sets_go(next, rest, sol, s);
        }
    }
}

/// The registry gives candidates for a requirement that `s` meets with a
/// release of the registry, and the version of `s` is among them.
pub proof fn lemma_requirement_goes(
    reg: RegistryView,
    p: NameView,
    k: VersionConstraintView,
    path: PathView,
    s: SolutionView,
)
    requires
        s.contains_key(p),
        satisfies(s[p], k),
        release_of(reg, p, s[p]) is Some,
    ensures
        dependency_constraint(reg, p, k, path) matches Ok(c) && allows(c, s, p),
{
    lemma_release_order_weak();
    let package = find(reg, p, name_order()).unwrap();
    let versions = versions_of(package.releases);
    lemma_position(package.releases, s[p], release_order());
    let at = position(package.releases, s[p], release_order());
    let v = versions[at];
    lemma_version_order_equal(v, s[p]);
    lemma_satisfies_same(v, s[p], k);
    assert(satisfying(k)(versions[at]));
    versions.lemma_filter_contains(satisfying(k), at);
    let m = matching(k, versions);
    let j = choose|j: int| 0 <= j < m.len() && m[j] == v;
    let c = tagged(m, path);
    assert(same_release(c[j].0, s[p]));
    lemma_admits(c, s[p]);
}

/// The registry gives a constraint set for requirements that `s` meets, and
/// the set goes with `s`.
pub proof fn lemma_gather_goes(
    reg: RegistryView,
    acc: ConstraintSetView,
    deps: DepsView,
    path: PathView,
    s: SolutionView,
)
    requires
        closed(reg, s),
        deps_met(s, deps),
        set_allows(acc, s),
    ensures
        gather(reg, acc, deps, path) matches Ok(next) && set_allows(next, s),
    decreases deps.len(),
{
    if deps.len() > 0 {
        let p = deps[0].0;
        assert(s.contains_key(p) && satisfies(s[p], deps[0].1));
        assert(release_met(reg, s, p));
        lemma_requirement_goes(reg, p, deps[0].1, path, s);
        if let Ok(c) = dependency_constraint(reg, p, deps[0].1, path) {
            lemma_entry_goes(acc, p, c, Map::empty(), s);
            if let Ok(next) = merge_entry(acc, p, c, Map::empty()) {
                let rest = deps.drop_first();
                assert forall|i: int| 0 <= i < rest.len() implies s.contains_key(
                    (#[trigger] rest[i]).0,
                ) && satisfies(s[rest[i].0], rest[i].1) by {
                    assert(rest[i] == deps[i + 1]);
                }
                lemma_gather_goes(reg, next, rest, path, s);
            }
        }
    }
}

/// The test "every step of the path is a package that has its version" on
/// candidates.
pub open spec fn within(sol: PartialView) -> spec_fn(NameView, (VersionView, PathView)) -> bool {
    |p: NameView, e: (VersionView, PathView)|
        forall|k: int| 0 <= k < e.1.len() ==> sol.contains_key((#[trigger] e.1[k]).0)
}

/// What holds of the work set and the versions chosen, beside their being
/// well formed and ready, while the search goes the way of `s`: the versions
/// chosen are those of `s`, every package of the work set has its version of
/// `s` among its candidates, and the paths lead through packages that have
/// their version.
pub open spec fn on_course(
    reg: RegistryView,
    stack: ConstraintSetView,
    sol: PartialView,
    s: SolutionView,
) -> bool {
    &&& registry_wf(reg)
    &&& constraint_set_wf(stack)
    &&& ready(reg, stack, sol)
    &&& closed(reg, s)
    &&& agrees(sol, s)
    &&& set_allows(stack, s)
    &&& all_candidates(stack, within(sol))
}

/// Choosing for the least package of the work set the candidate that is its
/// version in `s` leads to no failure before the search is entered again, and
/// the search is then on course again.
pub proof fn lemma_step_goes(
    reg: RegistryView,
    stack: ConstraintSetView,
    sol: PartialView,
    s: SolutionView,
    i: int,
)
    requires
        on_course(reg, stack, sol, s),
        stack.len() > 0,
        0 <= i < stack[0].1.len(),
        same_release(stack[0].1[i].0, s[stack[0].0]),
    ensures
        ({
            let package = stack[0].0;
            let version = stack[0].1[i].0;
            let path = stack[0].1[i].1;
            let chosen = sol.insert(package, JustifiedView { version, path });
            &&& !path_visits(path, package)
            &&& constraint_set_for(reg, package, version, path) matches Ok(deps) && (merge_sets(
                stack.drop_first(),
                deps,
                chosen,
            ) matches Ok(next) && on_course(reg, next, chosen, s))
        }),
{
    let package = stack[0].0;
    let version = stack[0].1[i].0;
    let path = stack[0].1[i].1;
    let here = path.push((package, version));
    let tail = stack.drop_first();
    let chosen = sol.insert(package, JustifiedView { version, path });
    lemma_release_order_weak();
    // the path does not come back to the package
    assert(within(sol)(stack[0].0, stack[0].1[i]));
    if path_visits(path, package) {
        let k = choose|k: int| 0 <= k < path.len() && (#[trigger] path[k]).0 == package;
        assert(sol.contains_key(path[k].0));
    }
    // the release is that of `s`, and `s` meets its requirements
    assert(allows(stack[0].1, s, stack[0].0));
    assert(release_met(reg, s, package));
    let p = find(reg, package, name_order()).unwrap();
    lemma_version_order_equal(version, s[package]);
    lemma_find_same_key(p.releases, version, s[package], release_order());
    let release = release_of(reg, package, version).unwrap();
    lemma_gather_goes(reg, Seq::empty(), release.dependencies, here, s);
    let deps = constraint_set_for(reg, package, version, path)->Ok_0;
    // the rest of the work set takes the new requirements
    assert forall|j: int| 0 <= j < tail.len() implies allows((#[trigger] tail[j]).1, s, tail[j].0)
        && names(reg).contains(tail[j].0) && !sol.contains_key(tail[j].0) && tail[j].0
        != package by {
        assert(tail[j] == stack[j + 1]);
        assert(allows(stack[j + 1].1, s, stack[j + 1].0));
        assert(crate::assoc::increasing::<NameView, ConstraintView>(name_order())(
            stack[0],
            stack[j + 1],
        ));
        lemma_name_order_equal(package, tail[j].0);
    }
    assert(agrees(chosen, s));
    lemma_sets_go(tail, deps, chosen, s);
    let next = merge_sets(tail, deps, chosen)->Ok_0;
    lemma_rest_wf(stack);
    lemma_gather_wf(reg, Seq::empty(), release.dependencies, here);
    lemma_merge_sets_wf(tail, deps, chosen);
    lemma_step_ready(reg, tail, package, version, path, sol);
    // the paths lead through packages that have their version
    let ok = within(chosen);
    assert forall|a: int, b: int| 0 <= a < tail.len() && 0 <= b < tail[a].1.len() implies ok(
        tail[a].0,
        #[trigger] tail[a].1[b],
    ) by {
        assert(tail[a] == stack[a + 1]);
        assert(within(sol)(stack[a + 1].0, stack[a + 1].1[b]));
    }
    assert forall|a: int, b: int|
        0 <= a < release.dependencies.len() && 0 <= b < candidates_at(
            reg,
            release.dependencies,
            here,
            a,
        ).len() implies ok(
        release.dependencies[a].0,
        #[trigger] candidates_at(reg, release.dependencies, here, a)[b],
    ) by {
        lemma_candidate(reg, release.dependencies[a].0, release.dependencies[a].1, here, b);
        assert forall|k: int| 0 <= k < here.len() implies chosen.contains_key(
            (#[trigger] here[k]).0,
        ) by {
            if k < path.len() {
                assert(here[k] == path[k]);
                assert(sol.contains_key(path[k].0));
            }
        }
    }
    lemma_gather_candidates(reg, Seq::empty(), release.dependencies, here, ok);
    lemma_sets_candidates(tail, deps, chosen, ok);
}

/// A search that is on course finds a solution.
pub proof fn lemma_search_finds(
    reg: RegistryView,
    stack: ConstraintSetView,
    sol: PartialView,
    s: SolutionView,
)
    requires
        on_course(reg, stack, sol, s),
    ensures
        search_outcome(reg, stack, false, sol) is Ok,
    decreases remaining(reg, sol), 1nat, 0nat,
{
    if stack.len() > 0 {
        assert(allows(stack[0].1, s, stack[0].0));
        lemma_admits(stack[0].1, s[stack[0].0]);
        let at = choose|j: int|
            0 <= j < stack[0].1.len() && same_release(#[trigger] stack[0].1[j].0, s[stack[0].0]);
        lemma_attempts_find(reg, stack, sol, s, 0, None, at);
    }
}

/// Where the candidate at position `at` is the version of `s`, the candidates
/// from any position up to `at` on lead to a solution.
pub proof fn lemma_attempts_find(
    reg: RegistryView,
    stack: ConstraintSetView,
    sol: PartialView,
    s: SolutionView,
    i: nat,
    first: Option<FailureView>,
    at: int,
)
    requires
        on_course(reg, stack, sol, s),
        stack.len() > 0,
        i <= at < stack[0].1.len(),
        same_release(stack[0].1[at].0, s[stack[0].0]),
    ensures
        attempts(reg, stack.drop_first(), stack[0].0, stack[0].1, i, false, sol, first) is Ok,
    decreases remaining(reg, sol), 0nat, at - i,
{
    let package = stack[0].0;
    let constraint = stack[0].1;
    let version = constraint[i as int].0;
    let path = constraint[i as int].1;
    let outcome = attempt(reg, stack.drop_first(), package, version, path, false, sol);
    if i == at {
        lemma_step_goes(reg, stack, sol, s, at);
        let chosen = sol.insert(package, JustifiedView { version, path });
        let deps = constraint_set_for(reg, package, version, path)->Ok_0;
        let next = merge_sets(stack.drop_first(), deps, chosen)->Ok_0;
        lemma_choice_shrinks(reg, sol, package, JustifiedView { version, path });
        lemma_search_finds(reg, next, chosen, s);
    } else {
        if let Err(f) = outcome {
            lemma_attempts_find(
                reg,
                stack,
                sol,
                s,
                i + 1,
                match first {
                    Some(g) => Some(g),
                    None => Some(f),
                },
                at,
            );
        }
    }
}

/// Where there is a sound solution, `solve` returns one: a failure is
/// returned only where no choice of versions meets all the requirements.
pub proof fn lemma_solve_complete(reg: RegistryView, root: DepsView, s: SolutionView)
    requires
        registry_wf(reg),
        sound(reg, root, s),
    ensures
        solve_outcome(reg, root) is Ok,
{
    let nothing = Map::<NameView, JustifiedView>::empty();
    lemma_gather_goes(reg, Seq::empty(), root, Seq::empty(), s);
    let stack = constraint_set_from(reg, root)->Ok_0;
    lemma_gather_wf(reg, Seq::empty(), root, Seq::empty());
    lemma_gather_keys(reg, Seq::empty(), root, Seq::empty());
    let ok = within(nothing);
    assert forall|a: int, b: int|
        0 <= a < root.len() && 0 <= b < candidates_at(reg, root, Seq::empty(), a).len() implies ok(
        root[a].0,
        #[trigger] candidates_at(reg, root, Seq::empty(), a)[b],
    ) by {
        lemma_candidate(reg, root[a].0, root[a].1, Seq::empty(), b);
    }
    lemma_gather_candidates(reg, Seq::empty(), root, Seq::empty(), ok);
    lemma_search_finds(reg, stack, nothing, s);
}

} // verus!
