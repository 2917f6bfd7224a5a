//! The core of a package manager: versions and version constraints, package
//! names, manifests, the registry of published releases, and the solver that
//! chooses one release for every package that a set of requirements needs.
//!
//! `solver::solve` is the entry point. Its result is the value of the
//! mathematical function `solver::search::solve_outcome`; that every solution
//! returned meets all requirements, and that a failure is returned only where
//! no choice of releases meets them, is shown in `solver::laws` and
//! `solver::completeness`.

pub mod assoc;
pub mod auth;
pub mod constraint;
pub mod manifest;
pub mod notation;
pub mod order;
pub mod package;
pub mod registry;
pub mod solver;
pub mod sorted;
pub mod text;
pub mod version;

pub use crate::auth::{AuthError, AuthSource};
pub use crate::constraint::{all_versions_matching, satisfies_constraint, VersionConstraint};
pub use crate::manifest::{
    denormalise_manifest, normalise_manifest, validate_manifest, Dependency, DependencySet, Error,
    Manifest,
};
pub use crate::notation::{parse_constraint, parse_version, ParseError};
pub use crate::order::Order;
pub use crate::package::PackageName;
pub use crate::registry::{Package, Registry, Release, Repository, Username};
pub use crate::version::{Version, VersionIdentifier};
