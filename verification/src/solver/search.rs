use vstd::prelude::*;
use crate::assoc::{find, has_key, lemma_has_key, lemma_put_entry};
use crate::manifest::{DependencySet, DepsView};
use crate::package::{lemma_name_order_equal, name_order, NameView, PackageName};
use crate::registry::{registry_wf, Registry, RegistryView};
use crate::solver::adapter::{
    constraint_set_for, constraint_set_from, dependency_constraint, gather, RegistryAdapter,
};
use crate::solver::constraint_set::{
    merge_entry, merge_sets, ConstraintSet, ConstraintSetView,
};
use crate::solver::constraints::ConstraintView;
use crate::solver::completeness::lemma_solve_complete;
use crate::solver::failure::{Failure, FailureView};
use crate::solver::laws::{lemma_solve_sound, sound};
use crate::solver::path::{path_visits, Path, PathView};
use crate::solver::solution::{
    strip, JustifiedVersion, JustifiedView, PartialSolution, PartialView, Solution, SolutionView,
};
use crate::version::{Version, VersionView};

verus! {

/// The names of the packages of a registry.
pub open spec fn names(reg: RegistryView) -> Set<NameView> {
    Seq::new(reg.len(), |i: int| reg[i].0).to_set()
}

/// The number of packages of the registry that have no version yet: what
/// bounds the depth of the search.
pub open spec fn remaining(reg: RegistryView, sol: PartialView) -> nat {
    names(reg).difference(sol.dom()).len()
}

/// A registry has a package exactly when the name is among its names.
pub proof fn lemma_names(reg: RegistryView, p: NameView)
    ensures
        names(reg).contains(p) == has_key(reg, p, name_order()),
        names(reg).finite(),
{
    let keys = Seq::new(reg.len(), |i: int| reg[i].0);
    vstd::seq_lib::seq_to_set_is_finite(keys);
    lemma_has_key(reg, p, name_order());
    if has_key(reg, p, name_order()) {
        let i = choose|i: int| 0 <= i < reg.len() && name_order()(#[trigger] reg[i].0, p)
            == crate::order::Order::Equal;
        lemma_name_order_equal(reg[i].0, p);
        assert(keys[i] == p);
        assert(keys.contains(p));
    }
    if names(reg).contains(p) {
        assert(keys.contains(p));
        let i = choose|i: int| 0 <= i < keys.len() && keys[i] == p;
        lemma_name_order_equal(reg[i].0, p);
        assert(name_order()(reg[i].0, p) == crate::order::Order::Equal);
    }
}

/// Choosing a version for one more package of the registry leaves fewer
/// packages without a version.
pub proof fn lemma_choice_shrinks(
    reg: RegistryView,
    sol: PartialView,
    package: NameView,
    choice: JustifiedView,
)
    requires
        names(reg).contains(package),
        !sol.contains_key(package),
    ensures
        remaining(reg, sol.insert(package, choice)) < remaining(reg, sol),
{
    lemma_names(reg, package);
    let a = names(reg).difference(sol.dom());
    let b = names(reg).difference(sol.insert(package, choice).dom());
    assert(b =~= a.remove(package));
    assert(a.contains(package));
    assert(a.finite());
}

/// Every package of the work set is in the registry and has no version yet.
pub open spec fn ready(reg: RegistryView, stack: ConstraintSetView, sol: PartialView) -> bool {
    forall|i: int|
        0 <= i < stack.len() ==> names(reg).contains(#[trigger] stack[i].0) && !sol.contains_key(
            stack[i].0,
        )
}

/// What the search gives on the work set `stack` with the versions `sol`
/// chosen so far: `sol` itself where nothing is left to do; else what the
/// candidates of the least package give, tried best first.
pub open spec fn search_outcome(
    reg: RegistryView,
    stack: ConstraintSetView,
    cheap: bool,
    sol: PartialView,
) -> Result<PartialView, FailureView>
    decreases remaining(reg, sol), 1nat, 0nat,
{
    if stack.len() == 0 {
        Ok(sol)
    } else {
        attempts(reg, stack.drop_first(), stack[0].0, stack[0].1, 0, cheap, sol, None)
    }
}

/// What the candidates of `package` from position `i` on give, where `first`
/// is the first failure of the candidates before `i`. The first candidate
/// that leads to a solution decides; where none does, the first failure is
/// the outcome. In cheap mode the candidate at `i` decides alone.
pub open spec fn attempts(
    reg: RegistryView,
    tail: ConstraintSetView,
    package: NameView,
    constraint: ConstraintView,
    i: nat,
    cheap: bool,
    sol: PartialView,
    first: Option<FailureView>,
) -> Result<PartialView, FailureView>
    decreases remaining(reg, sol), 0nat, constraint.len() - i,
    when names(reg).contains(package) && !sol.contains_key(package)
{
    if i >= constraint.len() {
        match first {
            Some(f) => Err(f),
            None => Err(FailureView::Conflict(package, constraint, constraint)),
        }
    } else {
        let outcome = attempt(
            reg,
            tail,
            package,
            constraint[i as int].0,
            constraint[i as int].1,
            cheap,
            sol,
        );
        if cheap {
            outcome
        } else {
            match outcome {
                Ok(out) => Ok(out),
                Err(f) => attempts(
                    reg,
                    tail,
                    package,
                    constraint,
                    i + 1,
                    cheap,
                    sol,
                    match first {
                        Some(g) => Some(g),
                        None => Some(f),
                    },
                ),
            }
        }
    }
}

/// What the candidate `version` of `package`, justified by `path`, gives: a
/// cycle where `path` visits `package` already; else the version is chosen,
/// the requirements of that release come into the rest of the work set, and
/// the search goes on from there.
pub open spec fn attempt(
    reg: RegistryView,
    tail: ConstraintSetView,
    package: NameView,
    version: VersionView,
    path: PathView,
    cheap: bool,
    sol: PartialView,
) -> Result<PartialView, FailureView>
    decreases remaining(reg, sol), 0nat, 0nat,
    when names(reg).contains(package) && !sol.contains_key(package)
{
    if path_visits(path, package) {
        Err(FailureView::GraphCycle(path.push((package, version))))
    } else {
        let chosen = sol.insert(package, JustifiedView { version, path });
        match constraint_set_for(reg, package, version, path) {
            Err(f) => Err(f),
            Ok(deps) => match merge_sets(tail, deps, chosen) {
                Err(f) => Err(f),
                Ok(stack) => {
                    proof {
                        lemma_choice_shrinks(reg, sol, package, JustifiedView { version, path });
                    }
                    search_outcome(reg, stack, cheap, chosen)
                },
            },
        }
    }
}

/// What `solve` gives for the root requirements `root`: the failure of the
/// root's own constraint set, or what the search gives from that set with no
/// version chosen, without the paths.
pub open spec fn solve_outcome(reg: RegistryView, root: DepsView) -> Result<SolutionView, FailureView> {
    match constraint_set_from(reg, root) {
        Err(f) => Err(f),
        Ok(stack) => match search_outcome(reg, stack, false, Map::empty()) {
            Ok(sol) => Ok(strip(sol)),
            Err(f) => Err(f),
        },
    }
}

/// Whether every key of `s` passes the test `good`.
pub open spec fn all_keys(s: ConstraintSetView, good: spec_fn(NameView) -> bool) -> bool {
    forall|i: int| 0 <= i < s.len() ==> good(#[trigger] s[i].0)
}

/// The keys of a set after one constraint came in are its keys before, and
/// the package of the constraint where that has no version.
pub proof fn lemma_merge_entry_keys(
    acc: ConstraintSetView,
    p: NameView,
    c_new: ConstraintView,
    sol: PartialView,
    good: spec_fn(NameView) -> bool,
)
    requires
        all_keys(acc, good),
        !sol.contains_key(p) ==> good(p),
    ensures
        merge_entry(acc, p, c_new, sol) matches Ok(next) ==> all_keys(next, good),
{
    match merge_entry(acc, p, c_new, sol) {
        Ok(next) => {
            assert forall|i: int| 0 <= i < next.len() implies good(#[trigger] next[i].0) by {
                if !sol.contains_key(p) {
                    let c = next[i].1;
                    match find(acc, p, name_order()) {
                        Some(c_old) => {
                            lemma_put_entry(
                                acc,
                                p,
                                crate::solver::constraints::constraint_merge(c_old, c_new),
                                name_order(),
                                i,
                            );
                        },
                        None => {
                            lemma_put_entry(acc, p, c_new, name_order(), i);
                        },
                    }
                    if next[i].0 != p {
                        let j = choose|j: int| 0 <= j < acc.len() && acc[j] == next[i];
                        assert(good(acc[j].0));
                    }
                }
            }
        },
        Err(_) => {},
    }
}

/// The keys of a merged set are keys of the receiver or keys of the other set
/// that have no version.
pub proof fn lemma_merge_sets_keys(
    acc: ConstraintSetView,
    other: ConstraintSetView,
    sol: PartialView,
    good: spec_fn(NameView) -> bool,
)
    requires
        all_keys(acc, good),
        forall|i: int| 0 <= i < other.len() && !sol.contains_key(#[trigger] other[i].0) ==> good(other[i].0),
    ensures
        merge_sets(acc, other, sol) matches Ok(next) ==> all_keys(next, good),
    decreases other.len(),
{
    if other.len() > 0 {
        lemma_merge_entry_keys(acc, other[0].0, other[0].1, sol, good);
        match merge_entry(acc, other[0].0, other[0].1, sol) {
            Ok(next) => {
                let rest = other.drop_first();
                assert forall|i: int| 0 <= i < rest.len() && !sol.contains_key(
                    #[trigger] rest[i].0,
                ) implies good(rest[i].0) by {
                    assert(rest[i] == other[i + 1]);
                }
                lemma_merge_sets_keys(next, rest, sol, good);
            },
            Err(_) => {},
        }
    }
}

/// The test "is a package of the registry".
pub open spec fn in_registry(reg: RegistryView) -> spec_fn(NameView) -> bool {
    |n: NameView| names(reg).contains(n)
}

/// The test "has no version yet".
pub open spec fn unsolved(sol: PartialView) -> spec_fn(NameView) -> bool {
    |n: NameView| !sol.contains_key(n)
}

/// Every package of a constraint set that the registry gave is a package of
/// the registry.
pub proof fn lemma_gather_keys(reg: RegistryView, acc: ConstraintSetView, deps: DepsView, path: PathView)
    requires
        all_keys(acc, in_registry(reg)),
    ensures
        gather(reg, acc, deps, path) matches Ok(s) ==> all_keys(s, in_registry(reg)),
    decreases deps.len(),
{
    if deps.len() > 0 {
        match dependency_constraint(reg, deps[0].0, deps[0].1, path) {
            Ok(c) => {
                lemma_names(reg, deps[0].0);
                lemma_merge_entry_keys(acc, deps[0].0, c, Map::empty(), in_registry(reg));
                match merge_entry(acc, deps[0].0, c, Map::empty()) {
                    Ok(next) => {
                        lemma_gather_keys(reg, next, deps.drop_first(), path);
                    },
                    Err(_) => {},
                }
            },
            Err(_) => {},
        }
    }
}

/// After a candidate of `package` was chosen and the requirements of that
/// release came into the rest of the work set, every package of the work set
/// is again in the registry and without a version.
pub proof fn lemma_step_ready(
    reg: RegistryView,
    tail: ConstraintSetView,
    package: NameView,
    version: VersionView,
    path: PathView,
    sol: PartialView,
)
    requires
        ready(reg, tail, sol),
        forall|i: int| 0 <= i < tail.len() ==> (#[trigger] tail[i]).0 != package,
    ensures
        ({
            let chosen = sol.insert(package, JustifiedView { version, path });
            constraint_set_for(reg, package, version, path) matches Ok(deps) ==> (merge_sets(
                tail,
                deps,
                chosen,
            ) matches Ok(stack) ==> ready(reg, stack, chosen))
        }),
{
    let chosen = sol.insert(package, JustifiedView { version, path });
    match constraint_set_for(reg, package, version, path) {
        Ok(deps) => {
            let release = find(
                find(reg, package, name_order()).unwrap().releases,
                version,
                crate::version::release_order(),
            ).unwrap();
            lemma_gather_keys(reg, Seq::empty(), release.dependencies, path.push((package, version)));
            lemma_merge_sets_keys(tail, deps, chosen, in_registry(reg));
            lemma_merge_sets_keys(tail, deps, chosen, unsolved(chosen));
        },
        Err(_) => {},
    }
}

/// Whether a result and the value that it should have agree.
pub open spec fn outcome_is(
    r: Result<PartialSolution, Failure>,
    want: Result<PartialView, FailureView>,
) -> bool {
    match want {
        Ok(s) => r is Ok && r.unwrap()@ == s,
        Err(f) => r is Err && r.unwrap_err()@ == f,
    }
}

/// Tries one candidate: chooses `version` for `package`, brings the
/// requirements of that release into `tail` and searches on.
fn try_version(
    ra: &RegistryAdapter,
    tail: &ConstraintSet,
    package: &PackageName,
    version: &Version,
    path: &Path,
    cheap: bool,
    solution: &PartialSolution,
) -> (r: Result<PartialSolution, Failure>)
    requires
        registry_wf(ra@),
        tail.wf(),
        ready(ra@, tail@, solution@),
        forall|i: int| 0 <= i < tail@.len() ==> (#[trigger] tail@[i]).0 != package@,
        names(ra@).contains(package@),
        !solution@.contains_key(package@),
    ensures
        outcome_is(r, attempt(ra@, tail@, package@, version@, path@, cheap, solution@)),
    decreases remaining(ra@, solution@), 0nat, 0nat,
{
    if path.visits(package) {
        return Err(Failure::GraphCycle(path.push(package.clone(), version.clone())));
    }
    let new_solution = solution.insert(
        package.clone(),
        JustifiedVersion { version: version.clone(), path: path.clone() },
    );
    let constraint_set = match ra.constraint_set_for(package.clone(), version.clone(), path.clone()) {
        Ok(s) => s,
        Err(f) => {
            return Err(f);
        },
    };
    let new_deps = match tail.merge(&constraint_set, &new_solution) {
        Ok(s) => s,
        Err(f) => {
            return Err(f);
        },
    };
    proof {
        lemma_step_ready(ra@, tail@, package@, version@, path@, solution@);
        lemma_choice_shrinks(
            ra@,
            solution@,
            package@,
            JustifiedView { version: version@, path: path@ },
        );
    }
    search(ra, &new_deps, cheap, &new_solution)
}

/// Searches for versions for every package of the work set `stack`, given
/// the versions chosen so far. The package of the least name is taken first
/// and its candidates are tried best first; the first that leads to a
/// solution decides, and where none does the failure of the first candidate
/// is returned. In cheap mode the best candidate alone is tried.
pub fn search(ra: &RegistryAdapter, stack: &ConstraintSet, cheap: bool, solution: &PartialSolution) -> (r:
    Result<PartialSolution, Failure>)
    requires
        registry_wf(ra@),
        stack.wf(),
        ready(ra@, stack@, solution@),
    ensures
        outcome_is(r, search_outcome(ra@, stack@, cheap, solution@)),
    decreases remaining(ra@, solution@), 1nat, 0nat,
{
    match stack.pop() {
        None => Ok(solution.clone()),
        Some((tail, (package, constraint))) => {
            let ghost whole = attempts(
                ra@,
                tail@,
                package@,
                constraint@,
                0,
                cheap,
                solution@,
                None,
            );
            proof {
                assert(stack@[0].0 == package@);
                assert forall|i: int| 0 <= i < tail@.len() implies names(ra@).contains(
                    #[trigger] tail@[i].0,
                ) && !solution@.contains_key(tail@[i].0) && tail@[i].0 != package@ by {
                    assert(tail@[i] == stack@[i + 1]);
                    lemma_name_order_equal(package@, tail@[i].0);
                }
            }
            let mut first_failure: Option<Failure> = None;
            let mut i: usize = 0;
            while i < constraint.len()
                invariant
                    i <= constraint@.len(),
                    registry_wf(ra@),
                    tail.wf(),
                    ready(ra@, tail@, solution@),
                    forall|j: int| 0 <= j < tail@.len() ==> (#[trigger] tail@[j]).0 != package@,
                    names(ra@).contains(package@),
                    !solution@.contains_key(package@),
                    whole == search_outcome(ra@, stack@, cheap, solution@),
                    constraint@.len() > 0,
                    i > 0 ==> first_failure is Some,
                    whole == attempts(
                        ra@,
                        tail@,
                        package@,
                        constraint@,
                        i as nat,
                        cheap,
                        solution@,
                        first_failure.deep_view(),
                    ),
                decreases constraint@.len() - i,
            {
                let (version, path) = constraint.candidate(i);
                let outcome = try_version(ra, &tail, &package, version, path, cheap, solution);
                if cheap {
                    return outcome;
                }
                match outcome {
                    Ok(out) => {
                        return Ok(out);
                    },
                    Err(failure) => {
                        if first_failure.is_none() {
                            first_failure = Some(failure);
                        }
                    },
                }
                i += 1;
            }
            match first_failure {
                Some(f) => Err(f),
                None => vstd::pervasive::unreached(),
            }
        },
    }
}

/// Finds one version for every package that the requirements `deps` need,
/// directly or through the requirements of the versions chosen, such that
/// every requirement is satisfied; or says why there is none to be found.
/// The result is that of the search from the constraint set of `deps`; a
/// solution returned is sound, and a failure is returned only where no sound
/// solution exists.
pub fn solve(reg: &Registry, deps: &DependencySet) -> (r: Result<Solution, Failure>)
    requires
        reg.wf(),
    ensures
        match solve_outcome(reg@, deps@) {
            Ok(s) => r is Ok && r.unwrap()@ == s,
            Err(f) => r is Err && r.unwrap_err()@ == f,
        },
        r is Ok ==> sound(reg@, deps@, r.unwrap()@),
        forall|s: SolutionView| #[trigger] sound(reg@, deps@, s) ==> r is Ok,
{
    proof {
        lemma_solve_sound(reg@, deps@);
        assert forall|s: SolutionView| #[trigger] sound(reg@, deps@, s) implies solve_outcome(
            reg@,
            deps@,
        ) is Ok by {
            lemma_solve_complete(reg@, deps@, s);
        }
    }
    let ra = RegistryAdapter::new(reg);
    let constraint_set = match ra.constraint_set_from(deps) {
        Ok(s) => s,
        Err(f) => {
            return Err(f);
        },
    };
    let nothing = PartialSolution::new();
    proof {
        lemma_gather_keys(reg@, Seq::empty(), deps@, Seq::empty());
    }
    match search(&ra, &constraint_set, false, &nothing) {
        Err(failure) => Err(failure),
        Ok(partial_solution) => Ok(partial_solution_to_solution(partial_solution)),
    }
}

/// The versions of a partial solution, without their paths.
pub fn partial_solution_to_solution(partial_solution: PartialSolution) -> (r: Solution)
    ensures
        r@ == strip(partial_solution@),
{
    Solution::from(partial_solution)
}

} // verus!
