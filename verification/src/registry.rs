use vstd::prelude::*;
use crate::assoc::{ascending, find, lemma_put_ascending, put};
use crate::manifest::{clone_texts, DependencySet, DepsView};
use crate::package::{lemma_name_order_weak, name_order, NameView, PackageName};
use crate::sorted::{entries_copy, entries_find, entries_put, Replica};
use crate::version::{lemma_release_order_weak, release_order, Version, VersionView};

verus! {

/// The name of a user who owns a package.
pub type Username = String;

/// The mathematical value of a repository reference.
pub struct RepositoryView {
    pub repository_type: Seq<char>,
    pub url: Seq<char>,
}

/// Where the source of a release is kept.
#[derive(Debug, PartialEq, Eq)]
pub struct Repository {
    pub repository_type: String,
    pub url: String,
}

impl DeepView for Repository {
    type V = RepositoryView;

    open spec fn deep_view(&self) -> RepositoryView {
        RepositoryView { repository_type: self.repository_type@, url: self.url@ }
    }
}

impl Clone for Repository {
    fn clone(&self) -> (r: Self)
        ensures
            r.deep_view() == self.deep_view(),
    {
        Repository { repository_type: self.repository_type.clone(), url: self.url.clone() }
    }
}

/// The mathematical value of a release.
pub struct ReleaseView {
    pub dependencies: DepsView,
    pub artifact_url: Seq<char>,
    pub description: Seq<char>,
    pub author: Seq<char>,
    pub license: Seq<char>,
    pub license_file: Seq<char>,
    pub homepage: Seq<char>,
    pub bugs: Seq<char>,
    pub repository: RepositoryView,
    pub keywords: Seq<Seq<char>>,
}

/// One published version of a package: what it depends on, and what its
/// author said of it.
#[derive(Debug, PartialEq, Eq)]
pub struct Release {
    pub dependencies: DependencySet,
    pub artifact_url: String,
    pub description: String,
    pub author: String,
    pub license: String,
    pub license_file: String,
    pub homepage: String,
    pub bugs: String,
    pub repository: Repository,
    pub keywords: Vec<String>,
}

impl DeepView for Release {
    type V = ReleaseView;

    open spec fn deep_view(&self) -> ReleaseView {
        ReleaseView {
            dependencies: self.dependencies@,
            artifact_url: self.artifact_url@,
            description: self.description@,
            author: self.author@,
            license: self.license@,
            license_file: self.license_file@,
            homepage: self.homepage@,
            bugs: self.bugs@,
            repository: self.repository.deep_view(),
            keywords: self.keywords.deep_view(),
        }
    }
}

impl View for Release {
    type V = ReleaseView;

    open spec fn view(&self) -> ReleaseView {
        self.deep_view()
    }
}

impl Clone for Release {
    fn clone(&self) -> (r: Self)
        ensures
            r@ == self@,
    {
        Release {
            dependencies: self.dependencies.clone(),
            artifact_url: self.artifact_url.clone(),
            description: self.description.clone(),
            author: self.author.clone(),
            license: self.license.clone(),
            license_file: self.license_file.clone(),
            homepage: self.homepage.clone(),
            bugs: self.bugs.clone(),
            repository: self.repository.clone(),
            keywords: clone_texts(&self.keywords),
        }
    }
}

impl Replica for Release {
    fn replica(&self) -> (r: Self) {
        self.clone()
    }
}

impl Release {
    /// A release with the given dependencies and nothing said of it: every
    /// text is empty and there are no keywords.
    pub fn new(dependencies: DependencySet) -> (r: Release)
        ensures
            r@ == bare_release(dependencies@),
    {
        let keywords: Vec<String> = Vec::new();
        assert(keywords.deep_view() =~= Seq::<Seq<char>>::empty());
        Release {
            dependencies,
            artifact_url: String::new(),
            description: String::new(),
            author: String::new(),
            license: String::new(),
            license_file: String::new(),
            homepage: String::new(),
            bugs: String::new(),
            repository: Repository { repository_type: String::new(), url: String::new() },
            keywords,
        }
    }
}

/// The value of a release with the given dependencies and nothing said of it.
pub open spec fn bare_release(dependencies: DepsView) -> ReleaseView {
    ReleaseView {
        dependencies,
        artifact_url: Seq::empty(),
        description: Seq::empty(),
        author: Seq::empty(),
        license: Seq::empty(),
        license_file: Seq::empty(),
        homepage: Seq::empty(),
        bugs: Seq::empty(),
        repository: RepositoryView { repository_type: Seq::empty(), url: Seq::empty() },
        keywords: Seq::empty(),
    }
}

/// The releases of a package, best first.
pub type ReleasesView = Seq<(VersionView, ReleaseView)>;

/// The mathematical value of a package.
pub struct PackageView {
    pub releases: ReleasesView,
    pub owners: Seq<Seq<char>>,
}

/// A package of the registry: its releases and its owners.
#[derive(Debug, PartialEq, Eq)]
pub struct Package {
    releases: Vec<(Version, Release)>,
    pub owners: Vec<Username>,
}

impl DeepView for Package {
    type V = PackageView;

    closed spec fn deep_view(&self) -> PackageView {
        PackageView { releases: self.releases.deep_view(), owners: self.owners.deep_view() }
    }
}

impl View for Package {
    type V = PackageView;

    open spec fn view(&self) -> PackageView {
        self.deep_view()
    }
}

impl Clone for Package {
    fn clone(&self) -> (r: Self)
        ensures
            r@ == self@,
    {
        Package { releases: entries_copy(&self.releases), owners: clone_texts(&self.owners) }
    }
}

impl Replica for Package {
    fn replica(&self) -> (r: Self) {
        self.clone()
    }
}

/// The releases stand best first, and none occurs twice.
pub open spec fn package_wf(p: PackageView) -> bool {
    ascending(p.releases, release_order())
}

/// The versions of a list of releases, in the order of the list.
pub open spec fn versions_of(releases: ReleasesView) -> Seq<VersionView> {
    Seq::new(releases.len(), |i: int| releases[i].0)
}

impl Package {
    /// Whether the releases stand best first without repetition.
    pub open spec fn wf(&self) -> bool {
        package_wf(self@)
    }

    /// A package without releases or owners.
    pub fn new() -> (r: Package)
        ensures
            r@.releases == ReleasesView::empty(),
            r@.owners == Seq::<Seq<char>>::empty(),
            r.wf(),
    {
        let releases: Vec<(Version, Release)> = Vec::new();
        let owners: Vec<Username> = Vec::new();
        assert(releases.deep_view() =~= ReleasesView::empty());
        assert(owners.deep_view() =~= Seq::<Seq<char>>::empty());
        Package { releases, owners }
    }

    /// The number of releases.
    pub fn len(&self) -> (n: usize)
        ensures
            n == self@.releases.len(),
    {
        self.releases.len()
    }

    /// The release of version `version`, if the package has it.
    pub fn release(&self, version: &Version) -> (r: Option<&Release>)
        ensures
            r.deep_view() == find(self@.releases, version@, release_order()),
    {
        entries_find(&self.releases, version)
    }

    /// Sets the release of version `version`, in place of any that the
    /// package had of it.
    pub fn insert(&mut self, version: Version, release: Release)
        ensures
            final(self)@.releases == put(old(self)@.releases, version@, release@, release_order()),
            final(self)@.owners == old(self)@.owners,
            old(self).wf() ==> final(self).wf(),
    {
        proof {
            lemma_release_order_weak();
            if self.wf() {
                lemma_put_ascending(self@.releases, version@, release@, release_order());
            }
        }
        self.releases = entries_put(&self.releases, version, release);
    }

    /// The versions of the releases, best first.
    pub fn versions(&self) -> (r: Vec<Version>)
        ensures
            r.deep_view() == versions_of(self@.releases),
    {
        let mut out: Vec<Version> = Vec::new();
        let mut i: usize = 0;
        while i < self.releases.len()
            invariant
                i <= self.releases.len(),
                out.len() == i,
                forall|j: int| 0 <= j < i ==> (#[trigger] out[j])@ == self.releases[j].0@,
            decreases self.releases.len() - i,
        {
            out.push(self.releases[i].0.clone());
            i += 1;
        }
        assert(out.deep_view() =~= versions_of(self@.releases));
        out
    }
}

/// The mathematical value of a registry: its packages by ascending name.
pub type RegistryView = Seq<(NameView, PackageView)>;

/// The package names rise strictly, and each package is well formed.
pub open spec fn registry_wf(r: RegistryView) -> bool {
    &&& ascending(r, name_order())
    &&& forall|i: int| 0 <= i < r.len() ==> package_wf(#[trigger] r[i].1)
}

/// A snapshot of what is published: every package with its releases.
#[derive(Debug, PartialEq, Eq)]
pub struct Registry {
    packages: Vec<(PackageName, Package)>,
}

impl DeepView for Registry {
    type V = RegistryView;

    closed spec fn deep_view(&self) -> RegistryView {
        self.packages.deep_view()
    }
}

impl View for Registry {
    type V = RegistryView;

    open spec fn view(&self) -> RegistryView {
        self.deep_view()
    }
}

/// The registry `r` with the release `release` of `name` at `version`: the
/// package is made where `r` has none of that name.
pub open spec fn with_release(
    r: RegistryView,
    name: NameView,
    version: VersionView,
    release: ReleaseView,
) -> RegistryView {
    let had = match find(r, name, name_order()) {
        Some(p) => p,
        None => PackageView { releases: Seq::empty(), owners: Seq::empty() },
    };
    put(
        r,
        name,
        PackageView {
            releases: put(had.releases, version, release, release_order()),
            owners: had.owners,
        },
        name_order(),
    )
}

impl Registry {
    /// Whether the packages stand by ascending name, each well formed.
    pub open spec fn wf(&self) -> bool {
        registry_wf(self@)
    }

    /// The registry without packages.
    pub fn new() -> (r: Registry)
        ensures
            r@ == RegistryView::empty(),
            r.wf(),
    {
        let packages: Vec<(PackageName, Package)> = Vec::new();
        assert(packages.deep_view() =~= RegistryView::empty());
        Registry { packages }
    }

    /// The number of packages.
    pub fn len(&self) -> (n: usize)
        ensures
            n == self@.len(),
    {
        self.packages.len()
    }

    /// The package of name `name`, if the registry has it.
    pub fn package(&self, name: &PackageName) -> (r: Option<&Package>)
        ensures
            r.deep_view() == find(self@, name@, name_order()),
    {
        entries_find(&self.packages, name)
    }

    /// Sets the package of name `name`, in place of any that the registry had
    /// of that name.
    pub fn insert(&mut self, name: PackageName, package: Package)
        requires
            package.wf(),
        ensures
            final(self)@ == put(old(self)@, name@, package@, name_order()),
            old(self).wf() ==> final(self).wf(),
    {
        proof {
            lemma_name_order_weak();
            if self.wf() {
                lemma_put_wf(self@, name@, package@);
            }
        }
        self.packages = entries_put(&self.packages, name, package);
    }

    /// Publishes `release` as version `version` of the package `name`.
    pub fn add_release(&mut self, name: PackageName, version: Version, release: Release)
        requires
            old(self).wf(),
        ensures
            final(self)@ == with_release(old(self)@, name@, version@, release@),
            final(self).wf(),
    {
        let mut package = match self.package(&name) {
            Some(p) => {
                proof {
                    lemma_found_wf(self@, name@);
                }
                p.clone()
            },
            None => Package::new(),
        };
        package.insert(version, release);
        self.insert(name, package);
    }
}

/// Every package found in a well-formed registry is well formed.
pub proof fn lemma_found_wf(r: RegistryView, name: NameView)
    requires
        registry_wf(r),
    ensures
        find(r, name, name_order()) matches Some(p) ==> package_wf(p),
{
    crate::assoc::lemma_position(r, name, name_order());
}

/// Setting a well-formed package keeps a registry well formed.
pub proof fn lemma_put_wf(r: RegistryView, name: NameView, package: PackageView)
    requires
        registry_wf(r),
        package_wf(package),
    ensures
        registry_wf(put(r, name, package, name_order())),
{
    lemma_name_order_weak();
    lemma_put_ascending(r, name, package, name_order());
    let out = put(r, name, package, name_order());
    let lo = r.filter(crate::assoc::key_is(name, name_order(), crate::order::Order::Less));
    let hi = r.filter(crate::assoc::key_is(name, name_order(), crate::order::Order::Greater));
    assert forall|i: int| 0 <= i < out.len() implies package_wf(#[trigger] out[i].1) by {
        if i < lo.len() {
            assert(out[i] == lo[i]);
            crate::assoc::lemma_filter_entry(
                r,
                crate::assoc::key_is(name, name_order(), crate::order::Order::Less),
                i,
            );
            let j = choose|j: int| 0 <= j < r.len() && r[j] == lo[i];
            assert(package_wf(r[j].1));
        } else if i > lo.len() {
            assert(out[i] == hi[i - lo.len() - 1]);
            crate::assoc::lemma_filter_entry(
                r,
                crate::assoc::key_is(name, name_order(), crate::order::Order::Greater),
                i - lo.len() - 1,
            );
            let j = choose|j: int| 0 <= j < r.len() && r[j] == hi[i - lo.len() - 1];
            assert(package_wf(r[j].1));
        }
    }
}

} // verus!
