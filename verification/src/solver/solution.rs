use vstd::prelude::*;
use crate::package::{NameView, PackageName};
use crate::solver::path::{Path, PathView};
use crate::version::{same_release, Version, VersionView};

verus! {

/// The mathematical value of a justified version.
pub struct JustifiedView {
    pub version: VersionView,
    pub path: PathView,
}

/// A chosen version together with the path that justified it.
#[derive(Debug, PartialEq, Eq)]
pub struct JustifiedVersion {
    pub version: Version,
    pub path: Path,
}

impl DeepView for JustifiedVersion {
    type V = JustifiedView;

    open spec fn deep_view(&self) -> JustifiedView {
        JustifiedView { version: self.version@, path: self.path@ }
    }
}

impl View for JustifiedVersion {
    type V = JustifiedView;

    open spec fn view(&self) -> JustifiedView {
        self.deep_view()
    }
}

impl Clone for JustifiedVersion {
    fn clone(&self) -> (r: Self)
        ensures
            r@ == self@,
    {
        JustifiedVersion { version: self.version.clone(), path: self.path.clone() }
    }
}

/// The persistent ordered map of the `im` crate, which holds the solutions.
/// The map finds its keys by their order; what is stated of it below speaks
/// of what it holds alone, never of the order in which it holds it.
#[verifier::external_type_specification]
#[verifier::external_body]
#[verifier::reject_recursive_types(K)]
#[verifier::reject_recursive_types(V)]
pub struct ExOrdMap<K, V>(im::OrdMap<K, V>);

/// What a map of justified versions holds: for each package in it, the
/// version chosen and its path.
pub uninterp spec fn partial_entries(m: im::OrdMap<PackageName, JustifiedVersion>) -> Map<
    NameView,
    JustifiedView,
>;

/// What a map of versions holds: for each package in it, the version chosen.
pub uninterp spec fn solution_entries(m: im::OrdMap<PackageName, Version>) -> Map<
    NameView,
    VersionView,
>;

/// `OrdMap::new` of `im`: a map that holds nothing.
#[verifier::external_body]
fn partial_map_new() -> (out: im::OrdMap<PackageName, JustifiedVersion>)
    ensures
        partial_entries(out) =~= Map::empty(),
{
    im::OrdMap::new()
}

/// `OrdMap::get` of `im`: the value under `k`, or nothing where the map has
/// no such key.
#[verifier::external_body]
fn partial_map_get<'a>(m: &'a im::OrdMap<PackageName, JustifiedVersion>, k: &PackageName) -> (out:
    Option<&'a JustifiedVersion>)
    ensures
        out.deep_view() == (if partial_entries(*m).contains_key(k@) {
            Some(partial_entries(*m)[k@])
        } else {
            None
        }),
{
    m.get(k)
}

/// `OrdMap::update` of `im`: a new map that holds `v` under `k` and, under
/// every other key, what `m` holds.
#[verifier::external_body]
fn partial_map_update(
    m: &im::OrdMap<PackageName, JustifiedVersion>,
    k: PackageName,
    v: JustifiedVersion,
) -> (out: im::OrdMap<PackageName, JustifiedVersion>)
    ensures
        partial_entries(out) == partial_entries(*m).insert(k@, v@),
{
    m.update(k, v)
}

/// `OrdMap::clone` of `im`: a map that holds what `m` holds.
#[verifier::external_body]
fn partial_map_clone(m: &im::OrdMap<PackageName, JustifiedVersion>) -> (out: im::OrdMap<
    PackageName,
    JustifiedVersion,
>)
    ensures
        partial_entries(out) == partial_entries(*m),
{
    m.clone()
}

/// `OrdMap::iter` of `im`, with each entry as the pair of its package and its
/// version: every pair handed out is an entry of the map, and every key of
/// the map is handed out.
#[verifier::external_body]
fn partial_map_items(m: &im::OrdMap<PackageName, JustifiedVersion>) -> (out: Vec<
    (PackageName, Version),
>)
    ensures
        forall|i: int|
            0 <= i < out.len() ==> partial_entries(*m).contains_key((#[trigger] out[i]).0@)
                && partial_entries(*m)[out[i].0@].version == out[i].1@,
        forall|k: NameView|
            partial_entries(*m).contains_key(k) ==> exists|i: int|
                0 <= i < out.len() && (#[trigger] out[i]).0@ == k,
{
    m.iter().map(|(k, v)| (k.clone(), v.version.clone())).collect()
}

/// `OrdMap::new` of `im`: a map that holds nothing.
#[verifier::external_body]
fn solution_map_new() -> (out: im::OrdMap<PackageName, Version>)
    ensures
        solution_entries(out) =~= Map::empty(),
{
    im::OrdMap::new()
}

/// `OrdMap::get` of `im`: the value under `k`, or nothing where the map has
/// no such key.
#[verifier::external_body]
fn solution_map_get<'a>(m: &'a im::OrdMap<PackageName, Version>, k: &PackageName) -> (out: Option<
    &'a Version,
>)
    ensures
        out.deep_view() == (if solution_entries(*m).contains_key(k@) {
            Some(solution_entries(*m)[k@])
        } else {
            None
        }),
{
    m.get(k)
}

/// `OrdMap::insert` of `im`: the map then holds `v` under `k` and, under
/// every other key, what it held.
#[verifier::external_body]
fn solution_map_insert(m: &mut im::OrdMap<PackageName, Version>, k: PackageName, v: Version)
    ensures
        solution_entries(*final(m)) == solution_entries(*old(m)).insert(k@, v@),
{
    m.insert(k, v);
}

/// Whether `s` has exactly `n` keys.
pub open spec fn has_size(s: Map<NameView, VersionView>, n: nat) -> bool {
    s.dom().finite() && s.dom().len() == n
}

/// `OrdMap::len` of `im`: the number of keys.
#[verifier::external_body]
fn solution_map_len(m: &im::OrdMap<PackageName, Version>) -> (out: usize)
    ensures
        has_size(solution_entries(*m), out as nat),
{
    m.len()
}

/// The mathematical value of a partial solution.
pub type PartialView = Map<NameView, JustifiedView>;

/// The mathematical value of a solution.
pub type SolutionView = Map<NameView, VersionView>;

/// The versions chosen so far, each with its justification.
#[derive(Debug, PartialEq, Eq)]
pub struct PartialSolution(pub im::OrdMap<PackageName, JustifiedVersion>);

impl View for PartialSolution {
    type V = PartialView;

    open spec fn view(&self) -> PartialView {
        partial_entries(self.0)
    }
}

impl Clone for PartialSolution {
    fn clone(&self) -> (r: Self)
        ensures
            r@ == self@,
    {
        PartialSolution(partial_map_clone(&self.0))
    }
}

/// The value of a partial solution after `package` was given `choice`: an
/// entry that is there already stays as it is.
pub open spec fn partial_insert(s: PartialView, package: NameView, choice: JustifiedView) -> PartialView {
    if s.contains_key(package) {
        s
    } else {
        s.insert(package, choice)
    }
}

/// Whether `package` can be given `version` in `s`: it has no version yet, or
/// has that release.
pub open spec fn can_choose(s: PartialView, package: NameView, version: VersionView) -> bool {
    s.contains_key(package) ==> same_release(s[package].version, version)
}

impl PartialSolution {
    /// The solution that chooses nothing.
    pub fn new() -> (r: PartialSolution)
        ensures
            r@ == PartialView::empty(),
    {
        PartialSolution(partial_map_new())
    }

    /// The version chosen for `package`, with its path.
    pub fn get(&self, package: &PackageName) -> (r: Option<&JustifiedVersion>)
        ensures
            r.deep_view() == (if self@.contains_key(package@) {
                Some(self@[package@])
            } else {
                None
            }),
    {
        partial_map_get(&self.0, package)
    }

    /// The solution with `choice` for `package`. Choosing again the release
    /// that a package has changes nothing.
    pub fn insert(&self, package: PackageName, choice: JustifiedVersion) -> (r: PartialSolution)
        requires
            can_choose(self@, package@, choice@.version),
        ensures
            r@ == partial_insert(self@, package@, choice@),
    {
        match partial_map_get(&self.0, &package) {
            Some(_) => self.clone(),
            None => PartialSolution(partial_map_update(&self.0, package, choice)),
        }
    }

    /// The solution with `choice` for `package`, or nothing where `package`
    /// has another release already.
    pub fn try_insert(&self, package: PackageName, choice: JustifiedVersion) -> (r: Option<
        PartialSolution,
    >)
        ensures
            can_choose(self@, package@, choice@.version) ==> r is Some && r.unwrap()@
                == partial_insert(self@, package@, choice@),
            !can_choose(self@, package@, choice@.version) ==> r is None,
    {
        let fits = match partial_map_get(&self.0, &package) {
            Some(had) => had.version.same_release(&choice.version),
            None => true,
        };
        if fits {
            Some(self.insert(package, choice))
        } else {
            None
        }
    }
}

/// The versions chosen, one for each package that the root needs.
#[derive(Debug, PartialEq, Eq)]
pub struct Solution(pub im::OrdMap<PackageName, Version>);

impl View for Solution {
    type V = SolutionView;

    open spec fn view(&self) -> SolutionView {
        solution_entries(self.0)
    }
}

/// The value of a partial solution without its paths.
pub open spec fn strip(s: PartialView) -> SolutionView {
    Map::new(|k: NameView| s.contains_key(k), |k: NameView| s[k].version)
}

impl Solution {
    /// The solution that chooses nothing.
    pub fn new() -> (r: Solution)
        ensures
            r@ == SolutionView::empty(),
    {
        Solution(solution_map_new())
    }

    /// The version chosen for `package`.
    pub fn get(&self, package: &PackageName) -> (r: Option<&Version>)
        ensures
            r.deep_view() == (if self@.contains_key(package@) {
                Some(self@[package@])
            } else {
                None
            }),
    {
        solution_map_get(&self.0, package)
    }

    /// The number of packages that have a version.
    pub fn len(&self) -> (n: usize)
        ensures
            has_size(self@, n as nat),
    {
        solution_map_len(&self.0)
    }

    /// The solution with `version` for `package`, in place of any version
    /// that `package` had.
    pub fn insert(&mut self, package: PackageName, version: Version)
        ensures
            final(self)@ == old(self)@.insert(package@, version@),
    {
        solution_map_insert(&mut self.0, package, version);
    }

    /// The versions of a partial solution, without their paths.
    pub fn from(partial_solution: PartialSolution) -> (r: Solution)
        ensures
            r@ == strip(partial_solution@),
    {
        let items = partial_map_items(&partial_solution.0);
        let mut out = solution_map_new();
        let ghost whole = partial_solution@;
        let mut i: usize = 0;
        while i < items.len()
            invariant
                i <= items.len(),
                whole == partial_entries(partial_solution.0),
                forall|j: int|
                    0 <= j < items.len() ==> whole.contains_key((#[trigger] items[j]).0@)
                        && whole[items[j].0@].version == items[j].1@,
                forall|k: NameView|
                    solution_entries(out).contains_key(k) ==> whole.contains_key(k)
                        && solution_entries(out)[k] == whole[k].version,
                forall|j: int|
                    0 <= j < i ==> solution_entries(out).contains_key((#[trigger] items[j]).0@),
            decreases items.len() - i,
        {
            solution_map_insert(&mut out, items[i].0.clone(), items[i].1.clone());
            i += 1;
        }
        assert(solution_entries(out) =~= strip(whole)) by {
            assert forall|k: NameView| whole.contains_key(k) implies solution_entries(
                out,
            ).contains_key(k) by {
                let j = choose|j: int| 0 <= j < items.len() && (#[trigger] items[j]).0@ == k;
                assert(solution_entries(out).contains_key(items[j].0@));
            }
        }
        Solution(out)
    }
}

} // verus!
