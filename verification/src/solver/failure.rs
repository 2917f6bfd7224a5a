use vstd::prelude::*;
use crate::constraint::{VersionConstraint, VersionConstraintView};
use crate::package::{NameView, PackageName};
use crate::solver::constraints::{Constraint, ConstraintView};
use crate::solver::path::{Path, PathView};

verus! {

/// The mathematical value of a failure.
pub enum FailureView {
    PackageMissing(NameView, PathView),
    UnavailableDependencies(NameView, VersionConstraintView, PathView),
    Conflict(NameView, ConstraintView, ConstraintView),
    GraphCycle(PathView),
}

/// Why no assignment of versions was found.
#[derive(Debug, PartialEq, Eq)]
pub enum Failure {
    /// The registry knows no package of that name; the path leads to the
    /// release that asked for it.
    PackageMissing(PackageName, Path),
    /// No release of the package satisfies the constraint; the path leads to
    /// the release that stated it.
    UnavailableDependencies(PackageName, VersionConstraint, Path),
    /// Two constraints on one package share no candidate; each side carries
    /// the paths that justify its candidates.
    Conflict(PackageName, Constraint, Constraint),
    /// A package occurs twice on one path.
    GraphCycle(Path),
}

impl DeepView for Failure {
    type V = FailureView;

    open spec fn deep_view(&self) -> FailureView {
        match self {
            Failure::PackageMissing(p, path) => FailureView::PackageMissing(p@, path@),
            Failure::UnavailableDependencies(p, c, path) => FailureView::UnavailableDependencies(
                p@,
                c@,
                path@,
            ),
            Failure::Conflict(p, left, right) => FailureView::Conflict(p@, left@, right@),
            Failure::GraphCycle(path) => FailureView::GraphCycle(path@),
        }
    }
}

impl View for Failure {
    type V = FailureView;

    open spec fn view(&self) -> FailureView {
        self.deep_view()
    }
}

impl Clone for Failure {
    fn clone(&self) -> (r: Self)
        ensures
            r@ == self@,
    {
        match self {
            Failure::PackageMissing(p, path) => Failure::PackageMissing(p.clone(), path.clone()),
            Failure::UnavailableDependencies(p, c, path) => Failure::UnavailableDependencies(
                p.clone(),
                c.clone(),
                path.clone(),
            ),
            Failure::Conflict(p, left, right) => Failure::Conflict(
                p.clone(),
                left.clone(),
                right.clone(),
            ),
            Failure::GraphCycle(path) => Failure::GraphCycle(path.clone()),
        }
    }
}

impl Failure {
    /// The failure of a package that the registry does not know.
    pub fn package_missing(package: PackageName, path: Path) -> (f: Failure)
        ensures
            f@ == FailureView::PackageMissing(package@, path@),
    {
        Failure::PackageMissing(package, path)
    }

    /// The failure of a constraint that no release satisfies.
    pub fn unavailable_dependencies(
        package: PackageName,
        constraint: VersionConstraint,
        path: Path,
    ) -> (f: Failure)
        ensures
            f@ == FailureView::UnavailableDependencies(package@, constraint@, path@),
    {
        Failure::UnavailableDependencies(package, constraint, path)
    }

    /// The failure of two constraints on `package` that share no candidate.
    pub fn conflict(package: PackageName, left: Constraint, right: Constraint) -> (f: Failure)
        ensures
            f@ == FailureView::Conflict(package@, left@, right@),
    {
        Failure::Conflict(package, left, right)
    }

    /// The failure of a path on which a package occurs twice.
    pub fn graph_cycle(path: Path) -> (f: Failure)
        ensures
            f@ == FailureView::GraphCycle(path@),
    {
        Failure::GraphCycle(path)
    }
}

} // verus!
