use vstd::prelude::*;
use crate::assoc::{
    ascending, find, has_key, lemma_put_ascending, put, without,
};
use crate::order::lemma_filter_sorted;
use crate::assoc::{increasing, key_differs};
use crate::solver::path::{Path, PathView};
use crate::sorted::{
    common, entries_common, entries_copy, entries_find, entries_has_key, entries_put,
    entries_without, lemma_common_ascending, lemma_common_associative, lemma_common_find,
    lemma_common_self, Replica,
};
use crate::constraint::descending;
use crate::version::{lemma_release_order_weak, release_order, Version, VersionView};

verus! {

/// The mathematical value of a constraint: its candidates, best first, each
/// with the path that justifies it.
pub type ConstraintView = Seq<(VersionView, PathView)>;

/// The candidates stand best first, and no release occurs twice.
pub open spec fn constraint_wf(c: ConstraintView) -> bool {
    ascending(c, release_order())
}

/// Whether `v` is among the candidates of `c`.
pub open spec fn admits(c: ConstraintView, v: VersionView) -> bool {
    has_key(c, v, release_order())
}

/// The candidates of `a` that are candidates of `b` too, each with the path
/// that it has in `a`.
pub open spec fn constraint_merge(a: ConstraintView, b: ConstraintView) -> ConstraintView {
    common(a, b, release_order())
}

/// The versions `versions`, each justified by `path`.
pub open spec fn tagged(versions: Seq<VersionView>, path: PathView) -> ConstraintView {
    Seq::new(versions.len(), |i: int| (versions[i], path))
}

/// The versions that are admissible for one package, best first, each tagged
/// with the path that justifies it.
#[derive(Debug, PartialEq, Eq)]
pub struct Constraint {
    entries: Vec<(Version, Path)>,
}

impl DeepView for Constraint {
    type V = ConstraintView;

    closed spec fn deep_view(&self) -> ConstraintView {
        self.entries.deep_view()
    }
}

impl View for Constraint {
    type V = ConstraintView;

    open spec fn view(&self) -> ConstraintView {
        self.deep_view()
    }
}

impl Clone for Constraint {
    fn clone(&self) -> (r: Self)
        ensures
            r@ == self@,
    {
        Constraint { entries: entries_copy(&self.entries) }
    }
}

impl Replica for Constraint {
    fn replica(&self) -> (r: Self) {
        self.clone()
    }
}

impl Constraint {
    /// Whether the candidates stand best first without repetition.
    pub open spec fn wf(&self) -> bool {
        constraint_wf(self@)
    }

    /// The constraint without candidates.
    pub fn new() -> (r: Constraint)
        ensures
            r@ == ConstraintView::empty(),
            r.wf(),
    {
        let entries: Vec<(Version, Path)> = Vec::new();
        assert(entries.deep_view() =~= ConstraintView::empty());
        Constraint { entries }
    }

    /// The constraint whose candidates are `versions`, in that order, each
    /// justified by `path`.
    pub fn from_versions(versions: Vec<Version>, path: &Path) -> (r: Constraint)
        ensures
            r@ == tagged(versions.deep_view(), path@),
            descending(versions.deep_view()) ==> r.wf(),
    {
        let mut entries: Vec<(Version, Path)> = Vec::new();
        let mut i: usize = 0;
        while i < versions.len()
            invariant
                i <= versions.len(),
                entries.len() == i,
                forall|j: int|
                    0 <= j < i ==> (#[trigger] entries[j]).deep_view() == (versions[j]@, path@),
            decreases versions.len() - i,
        {
            entries.push((versions[i].clone(), path.clone()));
            i += 1;
        }
        let ghost vs = versions.deep_view();
        let ghost out = entries.deep_view();
        assert(out =~= tagged(vs, path@));
        proof {
            if descending(vs) {
                assert forall|i: int, j: int|
                    #![trigger out[i], out[j]]
                    0 <= i < j < out.len() implies increasing::<VersionView, PathView>(
                    release_order(),
                )(out[i], out[j]) by {
                    assert(crate::constraint::newer()(vs[i], vs[j]));
                }
            }
        }
        Constraint { entries }
    }

    /// The number of candidates.
    pub fn len(&self) -> (n: usize)
        ensures
            n == self@.len(),
    {
        self.entries.len()
    }

    /// Whether there is no candidate.
    pub fn is_empty(&self) -> (r: bool)
        ensures
            r == (self@.len() == 0),
    {
        self.entries.len() == 0
    }

    /// The candidate at position `i`, counted from the best.
    pub fn candidate(&self, i: usize) -> (r: (&Version, &Path))
        requires
            i < self@.len(),
        ensures
            r.0@ == self@[i as int].0,
            r.1@ == self@[i as int].1,
    {
        assert(self.entries.deep_view()[i as int] == self.entries[i as int].deep_view());
        (&self.entries[i].0, &self.entries[i].1)
    }

    /// Whether `version` is among the candidates.
    pub fn contains(&self, version: &Version) -> (r: bool)
        ensures
            r == admits(self@, version@),
    {
        entries_has_key(&self.entries, version)
    }

    /// The path that justifies `version`, if it is among the candidates.
    pub fn get(&self, version: &Version) -> (r: Option<&Path>)
        ensures
            r.deep_view() == find(self@, version@, release_order()),
    {
        entries_find(&self.entries, version)
    }

    /// The constraint with `version` as a candidate justified by `path`; a
    /// candidate for the same release is replaced.
    pub fn insert(&self, version: Version, path: Path) -> (r: Constraint)
        ensures
            r@ == put(self@, version@, path@, release_order()),
            self.wf() ==> r.wf(),
    {
        proof {
            lemma_release_order_weak();
            if self.wf() {
                lemma_put_ascending(self@, version@, path@, release_order());
            }
        }
        Constraint { entries: entries_put(&self.entries, version, path) }
    }

    /// The constraint without the candidate `version`.
    pub fn remove(&self, version: &Version) -> (r: Constraint)
        ensures
            r@ == without(self@, version@, release_order()),
            self.wf() ==> r.wf(),
    {
        proof {
            if self.wf() {
                lemma_filter_sorted(
                    self@,
                    key_differs(version@, release_order()),
                    increasing::<VersionView, PathView>(release_order()),
                );
            }
        }
        Constraint { entries: entries_without(&self.entries, version) }
    }

    /// The candidates that `self` and `other` share, each with the path that
    /// it has in `self`.
    pub fn merge(&self, other: &Constraint) -> (r: Constraint)
        ensures
            r@ == constraint_merge(self@, other@),
            self.wf() ==> r.wf(),
    {
        proof {
            if self.wf() {
                lemma_common_ascending(self@, other@, release_order());
            }
        }
        Constraint { entries: entries_common(&self.entries, &other.entries) }
    }
}

/// Merging a constraint with itself changes nothing.
pub proof fn lemma_merge_idempotent(a: ConstraintView)
    ensures
        constraint_merge(a, a) == a,
{
    lemma_release_order_weak();
    lemma_common_self(a, release_order());
}

/// Merging is associative.
pub proof fn lemma_merge_associative(a: ConstraintView, b: ConstraintView, c: ConstraintView)
    ensures
        constraint_merge(constraint_merge(a, b), c) == constraint_merge(a, constraint_merge(b, c)),
{
    lemma_release_order_weak();
    lemma_common_associative(a, b, c, release_order());
}

/// Merging is commutative in what it admits: the two results admit the same
/// versions, namely those that both constraints admit. They differ in the
/// paths alone, as each keeps the paths of its first operand.
pub proof fn lemma_merge_commutative(a: ConstraintView, b: ConstraintView, v: VersionView)
    ensures
        admits(constraint_merge(a, b), v) == admits(constraint_merge(b, a), v),
        admits(constraint_merge(a, b), v) == (admits(a, v) && admits(b, v)),
        find(constraint_merge(a, b), v, release_order()) == if admits(b, v) {
            find(a, v, release_order())
        } else {
            None
        },
{
    lemma_release_order_weak();
    lemma_common_find(a, b, v, release_order());
    lemma_common_find(b, a, v, release_order());
}

/// Removing a version takes the candidate for that release away and leaves
/// every other candidate with its path.
pub proof fn lemma_remove_forgets(c: ConstraintView, v: VersionView, w: VersionView)
    ensures
        find(without(c, v, release_order()), w, release_order()) == if release_order()(v, w)
            == crate::order::Order::Equal {
            None
        } else {
            find(c, w, release_order())
        },
{
    lemma_release_order_weak();
    crate::assoc::lemma_find_without(c, v, w, release_order());
}

/// Inserting a version makes it a candidate with the given path and leaves
/// every other candidate with its path.
pub proof fn lemma_insert_remembers(c: ConstraintView, v: VersionView, path: PathView, w: VersionView)
    ensures
        find(put(c, v, path, release_order()), w, release_order()) == if release_order()(v, w)
            == crate::order::Order::Equal {
            Some(path)
        } else {
            find(c, w, release_order())
        },
{
    lemma_release_order_weak();
    crate::assoc::lemma_find_put(c, v, path, w, release_order());
}

} // verus!
