use vstd::prelude::*;
use crate::assoc::find;
use crate::constraint::{
    all_versions_matching, descending, matching, newer, VersionConstraint, VersionConstraintView,
};
use crate::manifest::{DependencySet, DepsView};
use crate::package::{name_order, NameView, PackageName};
use crate::registry::{
    lemma_found_wf, registry_wf, versions_of, Registry, RegistryView, ReleasesView,
};
use crate::solver::constraint_set::{
    constraint_set_wf, merge_entry, set_result_is, ConstraintSet, ConstraintSetView,
};
use crate::solver::constraints::{constraint_wf, tagged, Constraint, ConstraintView};
use crate::solver::failure::{Failure, FailureView};
use crate::solver::path::{Path, PathView};
use crate::solver::solution::PartialSolution;
use crate::version::{release_order, Version, VersionView};

verus! {

/// The releases that satisfy `c`, best first, each justified by `path`.
pub open spec fn candidates(releases: ReleasesView, c: VersionConstraintView, path: PathView) -> ConstraintView {
    tagged(matching(c, versions_of(releases)), path)
}

/// The candidates for the requirement `c` on `p`, stated by the release at
/// the end of `path`: a failure where the registry has no package `p`, or no
/// release of it that satisfies `c`.
pub open spec fn dependency_constraint(
    reg: RegistryView,
    p: NameView,
    c: VersionConstraintView,
    path: PathView,
) -> Result<ConstraintView, FailureView> {
    match find(reg, p, name_order()) {
        None => Err(FailureView::PackageMissing(p, path)),
        Some(package) => {
            let found = candidates(package.releases, c, path);
            if found.len() == 0 {
                Err(FailureView::UnavailableDependencies(p, c, path))
            } else {
                Ok(found)
            }
        },
    }
}

/// The set `acc` after the candidates for each requirement of `deps` came in,
/// in the order of `deps`; the first failure ends it.
pub open spec fn gather(reg: RegistryView, acc: ConstraintSetView, deps: DepsView, path: PathView) -> Result<
    ConstraintSetView,
    FailureView,
>
    decreases deps.len(),
{
    if deps.len() == 0 {
        Ok(acc)
    } else {
        match dependency_constraint(reg, deps[0].0, deps[0].1, path) {
            Err(f) => Err(f),
            Ok(c) => match merge_entry(acc, deps[0].0, c, Map::empty()) {
                Err(f) => Err(f),
                Ok(next) => gather(reg, next, deps.drop_first(), path),
            },
        }
    }
}

/// The constraint set of the root requirements `deps`.
pub open spec fn constraint_set_from(reg: RegistryView, deps: DepsView) -> Result<
    ConstraintSetView,
    FailureView,
> {
    gather(reg, Seq::empty(), deps, Seq::empty())
}

/// The constraint set of the requirements of the release `version` of
/// `package`, which was reached by `path`: a failure where the registry has
/// no such package or no such release of it.
pub open spec fn constraint_set_for(
    reg: RegistryView,
    package: NameView,
    version: VersionView,
    path: PathView,
) -> Result<ConstraintSetView, FailureView> {
    match find(reg, package, name_order()) {
        None => Err(FailureView::PackageMissing(package, path)),
        Some(p) => match find(p.releases, version, release_order()) {
            None => Err(
                FailureView::UnavailableDependencies(
                    package,
                    VersionConstraintView::Exact(version),
                    path,
                ),
            ),
            Some(release) => gather(
                reg,
                Seq::empty(),
                release.dependencies,
                path.push((package, version)),
            ),
        },
    }
}

/// The versions of the releases of a well-formed package are descending.
pub proof fn lemma_versions_descending(releases: ReleasesView)
    requires
        crate::assoc::ascending(releases, release_order()),
    ensures
        descending(versions_of(releases)),
{
    let vs = versions_of(releases);
    assert forall|i: int, j: int| #![trigger vs[i], vs[j]] 0 <= i < j < vs.len() implies newer()(
        vs[i],
        vs[j],
    ) by {
        assert(crate::assoc::increasing::<VersionView, crate::registry::ReleaseView>(release_order())(
            releases[i],
            releases[j],
        ));
    }
}

/// The candidates that a well-formed registry gives are well formed.
pub proof fn lemma_dependency_constraint_wf(
    reg: RegistryView,
    p: NameView,
    c: VersionConstraintView,
    path: PathView,
)
    requires
        registry_wf(reg),
    ensures
        dependency_constraint(reg, p, c, path) matches Ok(found) ==> constraint_wf(found)
            && found.len() > 0,
{
    lemma_found_wf(reg, p);
    match find(reg, p, name_order()) {
        Some(package) => {
            lemma_versions_descending(package.releases);
            crate::constraint::lemma_matching_descending(c, versions_of(package.releases));
            let vs = matching(c, versions_of(package.releases));
            let out = tagged(vs, path);
            assert forall|i: int, j: int|
                #![trigger out[i], out[j]]
                0 <= i < j < out.len() implies crate::assoc::increasing::<VersionView, PathView>(
                release_order(),
            )(out[i], out[j]) by {
                assert(newer()(vs[i], vs[j]));
            }
        },
        None => {},
    }
}

/// The constraint sets that a well-formed registry gives are well formed.
pub proof fn lemma_gather_wf(reg: RegistryView, acc: ConstraintSetView, deps: DepsView, path: PathView)
    requires
        registry_wf(reg),
        constraint_set_wf(acc),
    ensures
        gather(reg, acc, deps, path) matches Ok(s) ==> constraint_set_wf(s),
    decreases deps.len(),
{
    if deps.len() > 0 {
        lemma_dependency_constraint_wf(reg, deps[0].0, deps[0].1, path);
        match dependency_constraint(reg, deps[0].0, deps[0].1, path) {
            Ok(c) => {
                crate::solver::constraint_set::lemma_merge_entry_wf(acc, deps[0].0, c, Map::empty());
                match merge_entry(acc, deps[0].0, c, Map::empty()) {
                    Ok(next) => {
                        lemma_gather_wf(reg, next, deps.drop_first(), path);
                    },
                    Err(_) => {},
                }
            },
            Err(_) => {},
        }
    }
}

/// A registry snapshot as the solver reads it: requirements in, candidates
/// out.
pub struct RegistryAdapter<'a> {
    registry: &'a Registry,
}

impl<'a> View for RegistryAdapter<'a> {
    type V = RegistryView;

    closed spec fn view(&self) -> RegistryView {
        self.registry@
    }
}

impl<'a> RegistryAdapter<'a> {
    /// The adapter of `registry`.
    pub fn new(registry: &'a Registry) -> (r: RegistryAdapter<'a>)
        ensures
            r@ == registry@,
    {
        RegistryAdapter { registry }
    }

    /// The candidates for the requirement `constraint` on `package`.
    pub fn constraint_for(&self, package: &PackageName, constraint: &VersionConstraint, path: &Path) -> (r:
        Result<Constraint, Failure>)
        requires
            registry_wf(self@),
        ensures
            match dependency_constraint(self@, package@, constraint@, path@) {
                Ok(c) => r is Ok && r.unwrap()@ == c,
                Err(f) => r is Err && r.unwrap_err()@ == f,
            },
            r is Ok ==> r.unwrap().wf() && r.unwrap()@.len() > 0,
    {
        proof {
            lemma_dependency_constraint_wf(self@, package@, constraint@, path@);
        }
        match self.registry.package(package) {
            None => Err(Failure::PackageMissing(package.clone(), path.clone())),
            Some(p) => {
                let versions = p.versions();
                let found = all_versions_matching(constraint, &versions);
                if found.len() == 0 {
                    Err(
                        Failure::UnavailableDependencies(
                            package.clone(),
                            constraint.clone(),
                            path.clone(),
                        ),
                    )
                } else {
                    Ok(Constraint::from_versions(found, path))
                }
            },
        }
    }

    /// The constraint set of the requirements `deps`, each justified by
    /// `path`.
    pub fn gather(&self, deps: &DependencySet, path: &Path) -> (r: Result<ConstraintSet, Failure>)
        requires
            registry_wf(self@),
        ensures
            set_result_is(r, gather(self@, Seq::empty(), deps@, path@)),
            r is Ok ==> r.unwrap().wf(),
    {
        let nothing = PartialSolution::new();
        let mut acc = ConstraintSet::new();
        let mut i: usize = 0;
        assert(deps@.skip(0) =~= deps@);
        while i < deps.len()
            invariant
                i <= deps@.len(),
                registry_wf(self@),
                acc.wf(),
                nothing@ == Map::<NameView, crate::solver::solution::JustifiedView>::empty(),
                gather(self@, Seq::empty(), deps@, path@) == gather(
                    self@,
                    acc@,
                    deps@.skip(i as int),
                    path@,
                ),
            decreases deps@.len() - i,
        {
            let (name, constraint) = deps.entry(i);
            proof {
                assert(deps@.skip(i as int)[0] == deps@[i as int]);
                assert(deps@.skip(i as int).drop_first() =~= deps@.skip(i + 1));
            }
            let c = match self.constraint_for(name, constraint, path) {
                Ok(c) => c,
                Err(f) => {
                    return Err(f);
                },
            };
            match acc.merge_one(name, &c, &nothing) {
                Ok(next) => {
                    acc = next;
                },
                Err(f) => {
                    return Err(f);
                },
            }
            i += 1;
        }
        Ok(acc)
    }

    /// The constraint set of the root requirements `deps`: for each package
    /// named, the releases that satisfy its constraint, best first, each
    /// justified by the empty path.
    pub fn constraint_set_from(&self, deps: &DependencySet) -> (r: Result<ConstraintSet, Failure>)
        requires
            registry_wf(self@),
        ensures
            set_result_is(r, constraint_set_from(self@, deps@)),
            r is Ok ==> r.unwrap().wf(),
    {
        let root = Path::new();
        self.gather(deps, &root)
    }

    /// The constraint set of the requirements of the release `version` of
    /// `package`, each justified by `path` with that release at its end.
    pub fn constraint_set_for(&self, package: PackageName, version: Version, path: Path) -> (r: Result<
        ConstraintSet,
        Failure,
    >)
        requires
            registry_wf(self@),
        ensures
            set_result_is(r, constraint_set_for(self@, package@, version@, path@)),
            r is Ok ==> r.unwrap().wf(),
    {
        match self.registry.package(&package) {
            None => Err(Failure::PackageMissing(package, path)),
            Some(p) => match p.release(&version) {
                None => Err(
                    Failure::UnavailableDependencies(
                        package,
                        VersionConstraint::Exact(version),
                        path,
                    ),
                ),
                Some(release) => {
                    let next = path.push(package, version);
                    self.gather(&release.dependencies, &next)
                },
            },
        }
    }
}

} // verus!
