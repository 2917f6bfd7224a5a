use vstd::prelude::*;
use crate::assoc::{ascending, find, lemma_put_ascending, put};
use crate::constraint::{VersionConstraint, VersionConstraintView};
use crate::package::{lemma_name_order_weak, name_order, NameView, PackageName};
use crate::sorted::{entries_copy, entries_find, entries_put, Replica};

verus! {

/// The mathematical value of a set of dependencies: its entries by ascending
/// package name.
pub type DepsView = Seq<(NameView, VersionConstraintView)>;

/// One requirement: a package and the versions of it that are acceptable.
#[derive(Debug, PartialEq, Eq)]
pub struct Dependency {
    pub name: PackageName,
    pub version_constraint: VersionConstraint,
}

/// The requirements of a manifest or of a release: for each package named,
/// one version constraint.
#[derive(Debug, PartialEq, Eq)]
pub struct DependencySet {
    entries: Vec<(PackageName, VersionConstraint)>,
}

impl DeepView for DependencySet {
    type V = DepsView;

    closed spec fn deep_view(&self) -> DepsView {
        self.entries.deep_view()
    }
}

impl View for DependencySet {
    type V = DepsView;

    open spec fn view(&self) -> DepsView {
        self.deep_view()
    }
}

impl Clone for DependencySet {
    fn clone(&self) -> (r: Self)
        ensures
            r@ == self@,
    {
        DependencySet { entries: entries_copy(&self.entries) }
    }
}

impl Replica for DependencySet {
    fn replica(&self) -> (r: Self) {
        self.clone()
    }
}

impl Default for DependencySet {
    fn default() -> (r: Self)
        ensures
            r@ == DepsView::empty(),
    {
        DependencySet::new()
    }
}

impl DependencySet {
    /// The package names rise strictly, so that no package is named twice.
    pub open spec fn wf(&self) -> bool {
        ascending(self@, name_order())
    }

    /// The set without requirements.
    pub fn new() -> (r: DependencySet)
        ensures
            r@ == DepsView::empty(),
            r.wf(),
    {
        let entries: Vec<(PackageName, VersionConstraint)> = Vec::new();
        assert(entries.deep_view() =~= DepsView::empty());
        DependencySet { entries }
    }

    /// The number of requirements.
    pub fn len(&self) -> (n: usize)
        ensures
            n == self@.len(),
    {
        self.entries.len()
    }

    /// Whether there is no requirement.
    pub fn is_empty(&self) -> (r: bool)
        ensures
            r == (self@.len() == 0),
    {
        self.entries.len() == 0
    }

    /// The requirement at position `i`, counted by ascending package name.
    pub fn entry(&self, i: usize) -> (r: (&PackageName, &VersionConstraint))
        requires
            i < self@.len(),
        ensures
            r.0@ == self@[i as int].0,
            r.1@ == self@[i as int].1,
    {
        assert(self.entries.deep_view()[i as int] == self.entries[i as int].deep_view());
        (&self.entries[i].0, &self.entries[i].1)
    }

    /// The constraint on `name`, if the set has one.
    pub fn get(&self, name: &PackageName) -> (r: Option<&VersionConstraint>)
        ensures
            r.deep_view() == find(self@, name@, name_order()),
    {
        entries_find(&self.entries, name)
    }

    /// The requirements, by ascending package name.
    pub fn dependencies(&self) -> (r: Vec<Dependency>)
        ensures
            r.len() == self@.len(),
            forall|i: int|
                0 <= i < r.len() ==> (#[trigger] r[i]).name@ == self@[i].0
                    && r[i].version_constraint@ == self@[i].1,
    {
        let mut out: Vec<Dependency> = Vec::new();
        let mut i: usize = 0;
        while i < self.entries.len()
            invariant
                i <= self.entries.len(),
                out.len() == i,
                forall|j: int|
                    0 <= j < i ==> (#[trigger] out[j]).name@ == self@[j].0
                        && out[j].version_constraint@ == self@[j].1,
            decreases self.entries.len() - i,
        {
            assert(self.entries.deep_view()[i as int] == self.entries[i as int].deep_view());
            out.push(
                Dependency {
                    name: self.entries[i].0.clone(),
                    version_constraint: self.entries[i].1.clone(),
                },
            );
            i += 1;
        }
        out
    }

    /// Sets the constraint on `name`, in place of any that the set had.
    pub fn insert(&mut self, name: PackageName, constraint: VersionConstraint)
        ensures
            final(self)@ == put(old(self)@, name@, constraint@, name_order()),
            old(self).wf() ==> final(self).wf(),
    {
        proof {
            lemma_name_order_weak();
            if self.wf() {
                lemma_put_ascending(self@, name@, constraint@, name_order());
            }
        }
        self.entries = entries_put(&self.entries, name, constraint);
    }
}

/// The mathematical value of a manifest.
pub struct ManifestView {
    pub name: NameView,
    pub description: Seq<char>,
    pub author: Seq<char>,
    pub license: Option<Seq<char>>,
    pub license_file: Option<Seq<char>>,
    pub homepage: Option<Seq<char>>,
    pub bugs: Option<Seq<char>>,
    pub repository: Option<Seq<char>>,
    pub keywords: Seq<Seq<char>>,
    pub files: Seq<Seq<char>>,
    pub private: bool,
    pub dependencies: DepsView,
    pub dev_dependencies: DepsView,
}

/// The description of a package by its author.
#[derive(Debug, PartialEq, Eq)]
pub struct Manifest {
    pub name: PackageName,
    pub description: String,
    pub author: String,
    pub license: Option<String>,
    pub license_file: Option<String>,
    pub homepage: Option<String>,
    pub bugs: Option<String>,
    pub repository: Option<String>,
    pub keywords: Vec<String>,
    pub files: Vec<String>,
    pub private: bool,
    pub dependencies: DependencySet,
    pub dev_dependencies: DependencySet,
}

impl DeepView for Manifest {
    type V = ManifestView;

    open spec fn deep_view(&self) -> ManifestView {
        ManifestView {
            name: self.name@,
            description: self.description@,
            author: self.author@,
            license: self.license.deep_view(),
            license_file: self.license_file.deep_view(),
            homepage: self.homepage.deep_view(),
            bugs: self.bugs.deep_view(),
            repository: self.repository.deep_view(),
            keywords: self.keywords.deep_view(),
            files: self.files.deep_view(),
            private: self.private,
            dependencies: self.dependencies@,
            dev_dependencies: self.dev_dependencies@,
        }
    }
}

impl View for Manifest {
    type V = ManifestView;

    open spec fn view(&self) -> ManifestView {
        self.deep_view()
    }
}

/// A copy of an optional string.
pub fn clone_text(s: &Option<String>) -> (r: Option<String>)
    ensures
        r.deep_view() == s.deep_view(),
{
    match s {
        Some(t) => Some(t.clone()),
        None => None,
    }
}

/// A copy of a list of strings.
pub fn clone_texts(v: &Vec<String>) -> (r: Vec<String>)
    ensures
        r.deep_view() == v.deep_view(),
{
    let mut out: Vec<String> = Vec::new();
    let mut i: usize = 0;
    while i < v.len()
        invariant
            i <= v.len(),
            out.len() == i,
            forall|j: int| 0 <= j < i ==> (#[trigger] out[j])@ == v[j]@,
        decreases v.len() - i,
    {
        out.push(v[i].clone());
        i += 1;
    }
    assert(out.deep_view() =~= v.deep_view());
    out
}

impl Clone for Manifest {
    fn clone(&self) -> (r: Self)
        ensures
            r@ == self@,
    {
        Manifest {
            name: self.name.clone(),
            description: self.description.clone(),
            author: self.author.clone(),
            license: clone_text(&self.license),
            license_file: clone_text(&self.license_file),
            homepage: clone_text(&self.homepage),
            bugs: clone_text(&self.bugs),
            repository: clone_text(&self.repository),
            keywords: clone_texts(&self.keywords),
            files: clone_texts(&self.files),
            private: self.private,
            dependencies: self.dependencies.clone(),
            dev_dependencies: self.dev_dependencies.clone(),
        }
    }
}

/// Why a manifest was not accepted.
#[derive(Debug, PartialEq, Eq)]
pub enum Error {
    Custom(String),
}

impl DeepView for Error {
    type V = Seq<char>;

    open spec fn deep_view(&self) -> Seq<char> {
        match self {
            Error::Custom(s) => s@,
        }
    }
}

impl Error {
    /// The message of the error.
    pub fn to_string(&self) -> (s: String)
        ensures
            s@ == self.deep_view(),
    {
        match self {
            Error::Custom(m) => m.clone(),
        }
    }
}

/// What the SPDX check of the `license-exprs` crate finds wrong with a
/// license expression: the text of its error, or nothing for an expression
/// that it accepts.
pub uninterp spec fn license_fault(expr: Seq<char>) -> Option<Seq<char>>;

/// `validate_license_expr` of `license-exprs`, with its error in the text
/// form that the crate gives it.
#[verifier::external_body]
fn license_expr_fault(expr: &str) -> (out: Option<String>)
    ensures
        out.deep_view() == license_fault(expr@),
{
    match license_exprs::validate_license_expr(expr) {
        Ok(()) => None,
        Err(e) => Some(format!("{}", e)),
    }
}

/// The message for a package name without a namespace.
pub open spec fn namespace_missing() -> Seq<char> {
    "Package name must contain a namespace!"@
}

/// What is wrong with a manifest, given what the license check said of its
/// license, if it has one: a name without a namespace first, then the
/// license.
pub open spec fn manifest_fault(m: ManifestView, license: Option<Seq<char>>) -> Option<Seq<char>> {
    if m.name.namespace is None {
        Some(namespace_missing())
    } else if m.license is Some {
        license
    } else {
        None
    }
}

/// What the license check says of the license of a manifest that has one.
pub open spec fn license_fault_of(m: ManifestView) -> Option<Seq<char>> {
    match m.license {
        Some(l) => license_fault(l),
        None => None,
    }
}

/// Accepts a manifest whose name has a namespace and whose license, if any,
/// passed the license check with the outcome `license`.
pub fn check_manifest(manifest: &Manifest, license: Option<String>) -> (r: Result<(), Error>)
    ensures
        match manifest_fault(manifest@, license.deep_view()) {
            Some(msg) => r is Err && r.unwrap_err().deep_view() == msg,
            None => r is Ok,
        },
{
    if manifest.name.namespace.is_none() {
        return Err(Error::Custom("Package name must contain a namespace!".to_string()));
    }
    if manifest.license.is_some() {
        match license {
            Some(msg) => {
                return Err(Error::Custom(msg));
            },
            None => {},
        }
    }
    Ok(())
}

/// Accepts a manifest whose name has a namespace and whose license, if any,
/// is a valid SPDX expression.
pub fn validate_manifest(manifest: &Manifest) -> (r: Result<(), Error>)
    ensures
        match manifest_fault(manifest@, license_fault_of(manifest@)) {
            Some(msg) => r is Err && r.unwrap_err().deep_view() == msg,
            None => r is Ok,
        },
{
    let license = match &manifest.license {
        Some(l) => license_expr_fault(l.as_str()),
        None => None,
    };
    check_manifest(manifest, license)
}

/// `dep` with `path` for its namespace where it has none.
pub open spec fn normalised(path: Seq<char>, dep: NameView) -> NameView {
    NameView {
        namespace: Some(
            match dep.namespace {
                Some(ns) => ns,
                None => path,
            },
        ),
        name: dep.name,
    }
}

/// `dep` without its namespace where that is `path`.
pub open spec fn denormalised(path: Seq<char>, dep: NameView) -> NameView {
    match dep.namespace {
        Some(ns) => NameView {
            namespace: if ns == path {
                None
            } else {
                Some(ns)
            },
            name: dep.name,
        },
        None => dep,
    }
}

/// The dependency set made of the entries of `deps`, taken in order, each
/// under its normalised name; of two entries that come under one name the
/// later stays.
pub open spec fn normalised_deps(path: Seq<char>, deps: DepsView) -> DepsView
    decreases deps.len(),
{
    if deps.len() == 0 {
        Seq::empty()
    } else {
        put(
            normalised_deps(path, deps.drop_last()),
            normalised(path, deps.last().0),
            deps.last().1,
            name_order(),
        )
    }
}

/// The dependency set made of the entries of `deps`, taken in order, each
/// under its denormalised name; of two entries that come under one name the
/// later stays.
pub open spec fn denormalised_deps(path: Seq<char>, deps: DepsView) -> DepsView
    decreases deps.len(),
{
    if deps.len() == 0 {
        Seq::empty()
    } else {
        put(
            denormalised_deps(path, deps.drop_last()),
            denormalised(path, deps.last().0),
            deps.last().1,
            name_order(),
        )
    }
}

/// The name `dep` with the namespace `path` where it has none.
pub fn normalise_dep(path: &String, dep: &PackageName) -> (r: PackageName)
    ensures
        r@ == normalised(path@, dep@),
{
    PackageName {
        namespace: Some(
            match &dep.namespace {
                Some(ns) => ns.clone(),
                None => path.clone(),
            },
        ),
        name: dep.name.clone(),
    }
}

/// The name `dep` without its namespace where that is `path`.
pub fn denormalise_dep(path: &String, dep: &PackageName) -> (r: PackageName)
    ensures
        r@ == denormalised(path@, dep@),
{
    match &dep.namespace {
        Some(ns) => PackageName {
            namespace: if *ns == *path {
                None
            } else {
                Some(ns.clone())
            },
            name: dep.name.clone(),
        },
        None => dep.clone(),
    }
}

/// The dependencies `deps` with every name normalised.
pub fn normalise_deps(path: &String, deps: &DependencySet) -> (r: DependencySet)
    ensures
        r@ == normalised_deps(path@, deps@),
        r.wf(),
{
    let mut out = DependencySet::new();
    let mut i: usize = 0;
    assert(deps@.take(0) =~= DepsView::empty());
    while i < deps.len()
        invariant
            i <= deps@.len(),
            out@ == normalised_deps(path@, deps@.take(i as int)),
            out.wf(),
        decreases deps@.len() - i,
    {
        let (name, constraint) = deps.entry(i);
        proof {
            assert(deps@.take(i + 1).drop_last() =~= deps@.take(i as int));
            assert(deps@.take(i + 1).last() == deps@[i as int]);
        }
        out.insert(normalise_dep(path, name), constraint.clone());
        i += 1;
    }
    assert(deps@.take(deps@.len() as int) =~= deps@);
    out
}

/// The dependencies `deps` with every name denormalised.
pub fn denormalise_deps(path: &String, deps: &DependencySet) -> (r: DependencySet)
    ensures
        r@ == denormalised_deps(path@, deps@),
        r.wf(),
{
    let mut out = DependencySet::new();
    let mut i: usize = 0;
    assert(deps@.take(0) =~= DepsView::empty());
    while i < deps.len()
        invariant
            i <= deps@.len(),
            out@ == denormalised_deps(path@, deps@.take(i as int)),
            out.wf(),
        decreases deps@.len() - i,
    {
        let (name, constraint) = deps.entry(i);
        proof {
            assert(deps@.take(i + 1).drop_last() =~= deps@.take(i as int));
            assert(deps@.take(i + 1).last() == deps@[i as int]);
        }
        out.insert(denormalise_dep(path, name), constraint.clone());
        i += 1;
    }
    assert(deps@.take(deps@.len() as int) =~= deps@);
    out
}

/// The manifest `m` with both of its dependency sets replaced.
pub open spec fn with_deps(m: ManifestView, deps: DepsView, dev_deps: DepsView) -> ManifestView {
    ManifestView { dependencies: deps, dev_dependencies: dev_deps, ..m }
}

/// The valid manifest `manifest` with the namespace of its own name given to
/// every dependency that has none; the error of an invalid one.
pub fn normalise_manifest(manifest: &Manifest) -> (r: Result<Manifest, Error>)
    ensures
        match manifest_fault(manifest@, license_fault_of(manifest@)) {
            Some(msg) => r is Err && r.unwrap_err().deep_view() == msg,
            None => r is Ok && r.unwrap()@ == with_deps(
                manifest@,
                normalised_deps(manifest@.name.namespace.unwrap(), manifest@.dependencies),
                normalised_deps(manifest@.name.namespace.unwrap(), manifest@.dev_dependencies),
            ),
        },
{
    match validate_manifest(manifest) {
        Err(e) => {
            return Err(e);
        },
        Ok(()) => {},
    }
    match &manifest.name.namespace {
        None => Err(Error::Custom("Package name must contain a namespace!".to_string())),
        Some(path) => {
            let deps = normalise_deps(path, &manifest.dependencies);
            let dev_deps = normalise_deps(path, &manifest.dev_dependencies);
            let mut m = manifest.clone();
            m.dependencies = deps;
            m.dev_dependencies = dev_deps;
            Ok(m)
        },
    }
}

/// The valid manifest `manifest` with the namespace taken from every
/// dependency that has the namespace of the manifest's own name; the error of
/// an invalid one.
pub fn denormalise_manifest(manifest: &Manifest) -> (r: Result<Manifest, Error>)
    ensures
        match manifest_fault(manifest@, license_fault_of(manifest@)) {
            Some(msg) => r is Err && r.unwrap_err().deep_view() == msg,
            None => r is Ok && r.unwrap()@ == with_deps(
                manifest@,
                denormalised_deps(manifest@.name.namespace.unwrap(), manifest@.dependencies),
                denormalised_deps(manifest@.name.namespace.unwrap(), manifest@.dev_dependencies),
            ),
        },
{
    match validate_manifest(manifest) {
        Err(e) => {
            return Err(e);
        },
        Ok(()) => {},
    }
    match &manifest.name.namespace {
        None => Err(Error::Custom("Package name must contain a namespace!".to_string())),
        Some(path) => {
            let deps = denormalise_deps(path, &manifest.dependencies);
            let dev_deps = denormalise_deps(path, &manifest.dev_dependencies);
            let mut m = manifest.clone();
            m.dependencies = deps;
            m.dev_dependencies = dev_deps;
            Ok(m)
        },
    }
}

} // verus!
