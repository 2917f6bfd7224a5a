use vstd::prelude::*;
use crate::assoc::{
    ascending, find, lemma_find_rest, lemma_position, lemma_put_ascending,
    lemma_put_entry, put,
};
use crate::package::{lemma_name_order_weak, name_order, name_order_of, NameView, PackageName};
use crate::order::Order;
use crate::solver::constraints::{
    admits, constraint_merge, constraint_wf, Constraint, ConstraintView,
};
use crate::solver::failure::{Failure, FailureView};
use crate::solver::solution::{PartialSolution, PartialView};
use crate::sorted::{entries_copy, entries_find, entries_put, lemma_common_ascending};
use crate::version::{release_order, Version, VersionView};
use crate::assoc::{increasing, key_differs, without};
use crate::order::lemma_filter_sorted;
use crate::solver::path::PathView;

verus! {

/// The mathematical value of a constraint set: its entries by ascending
/// package name.
pub type ConstraintSetView = Seq<(NameView, ConstraintView)>;

/// The package names rise strictly, and every constraint is well formed and
/// has a candidate.
pub open spec fn constraint_set_wf(s: ConstraintSetView) -> bool {
    &&& ascending(s, name_order())
    &&& forall|i: int| 0 <= i < s.len() ==> constraint_wf(#[trigger] s[i].1) && s[i].1.len() > 0
}

/// The constraint of one candidate.
pub open spec fn single(version: VersionView, path: PathView) -> ConstraintView {
    seq![(version, path)]
}

/// The set `acc` after the constraint `c_new` on `p` came in, where `sol`
/// holds the versions chosen so far. A package that has its version must have
/// it among the candidates of `c_new`, and the set stays as it is. A package
/// that the set knows keeps the candidates that `c_new` shares, which must
/// not be none. A package that the set does not know enters with `c_new`.
pub open spec fn merge_entry(
    acc: ConstraintSetView,
    p: NameView,
    c_new: ConstraintView,
    sol: PartialView,
) -> Result<ConstraintSetView, FailureView> {
    if sol.contains_key(p) {
        if admits(c_new, sol[p].version) {
            Ok(acc)
        } else {
            Err(FailureView::Conflict(p, single(sol[p].version, sol[p].path), c_new))
        }
    } else {
        match find(acc, p, name_order()) {
            Some(c_old) => {
                let m = constraint_merge(c_old, c_new);
                if m.len() == 0 {
                    Err(FailureView::Conflict(p, c_old, c_new))
                } else {
                    Ok(put(acc, p, m, name_order()))
                }
            },
            None => Ok(put(acc, p, c_new, name_order())),
        }
    }
}

/// The set `acc` after the entries of `other` came in one by one, in their
/// order; the first failure ends it.
pub open spec fn merge_sets(acc: ConstraintSetView, other: ConstraintSetView, sol: PartialView) -> Result<
    ConstraintSetView,
    FailureView,
>
    decreases other.len(),
{
    if other.len() == 0 {
        Ok(acc)
    } else {
        match merge_entry(acc, other[0].0, other[0].1, sol) {
            Ok(next) => merge_sets(next, other.drop_first(), sol),
            Err(f) => Err(f),
        }
    }
}

/// The set `s` without the candidate `version` of `package`; the failure
/// where that was the last candidate of `package`.
pub open spec fn remove_candidate(s: ConstraintSetView, package: NameView, version: VersionView) -> Result<
    ConstraintSetView,
    FailureView,
> {
    match find(s, package, name_order()) {
        Some(c) => {
            let rest = without(c, version, release_order());
            if rest.len() == 0 {
                Err(FailureView::Conflict(package, c, rest))
            } else {
                Ok(put(s, package, rest, name_order()))
            }
        },
        None => Ok(s),
    }
}

/// Whether a result and the value that it should have agree.
pub open spec fn set_result_is(
    r: Result<ConstraintSet, Failure>,
    want: Result<ConstraintSetView, FailureView>,
) -> bool {
    match want {
        Ok(s) => r is Ok && r.unwrap()@ == s,
        Err(f) => r is Err && r.unwrap_err()@ == f,
    }
}

/// Setting a well-formed constraint with a candidate keeps a set well formed.
pub proof fn lemma_set_put_wf(s: ConstraintSetView, p: NameView, c: ConstraintView)
    requires
        constraint_set_wf(s),
        constraint_wf(c),
        c.len() > 0,
    ensures
        constraint_set_wf(put(s, p, c, name_order())),
{
    lemma_name_order_weak();
    lemma_put_ascending(s, p, c, name_order());
    let out = put(s, p, c, name_order());
    assert forall|i: int| 0 <= i < out.len() implies constraint_wf(#[trigger] out[i].1)
        && out[i].1.len() > 0 by {
        lemma_put_entry(s, p, c, name_order(), i);
        if out[i] != (p, c) {
            let j = choose|j: int| 0 <= j < s.len() && s[j] == out[i];
            assert(constraint_wf(s[j].1));
        }
    }
}

/// Every constraint found in a well-formed set is well formed and has a
/// candidate.
pub proof fn lemma_set_found_wf(s: ConstraintSetView, p: NameView)
    requires
        constraint_set_wf(s),
    ensures
        find(s, p, name_order()) matches Some(c) ==> constraint_wf(c) && c.len() > 0,
{
    lemma_position(s, p, name_order());
}

/// One constraint coming in keeps a set well formed.
pub proof fn lemma_merge_entry_wf(
    acc: ConstraintSetView,
    p: NameView,
    c_new: ConstraintView,
    sol: PartialView,
)
    requires
        constraint_set_wf(acc),
        constraint_wf(c_new),
        c_new.len() > 0,
    ensures
        merge_entry(acc, p, c_new, sol) matches Ok(next) ==> constraint_set_wf(next),
{
    if !sol.contains_key(p) {
        lemma_set_found_wf(acc, p);
        match find(acc, p, name_order()) {
            Some(c_old) => {
                let m = constraint_merge(c_old, c_new);
                lemma_common_ascending(c_old, c_new, release_order());
                if m.len() > 0 {
                    lemma_set_put_wf(acc, p, m);
                }
            },
            None => {
                lemma_set_put_wf(acc, p, c_new);
            },
        }
    }
}

/// The entries of another set coming in keep a set well formed: no
/// constraint of the result is empty.
pub proof fn lemma_merge_sets_wf(acc: ConstraintSetView, other: ConstraintSetView, sol: PartialView)
    requires
        constraint_set_wf(acc),
        constraint_set_wf(other),
    ensures
        merge_sets(acc, other, sol) matches Ok(next) ==> constraint_set_wf(next),
    decreases other.len(),
{
    if other.len() > 0 {
        lemma_name_order_weak();
        lemma_merge_entry_wf(acc, other[0].0, other[0].1, sol);
        lemma_rest_wf(other);
        match merge_entry(acc, other[0].0, other[0].1, sol) {
            Ok(next) => {
                lemma_merge_sets_wf(next, other.drop_first(), sol);
            },
            Err(_) => {},
        }
    }
}

/// Taking a candidate out of a set keeps it well formed: where the last
/// candidate of a package would go, there is a failure and no set.
pub proof fn lemma_remove_wf(s: ConstraintSetView, package: NameView, version: VersionView)
    requires
        constraint_set_wf(s),
    ensures
        remove_candidate(s, package, version) matches Ok(next) ==> constraint_set_wf(next),
{
    lemma_set_found_wf(s, package);
    if let Some(c) = find(s, package, name_order()) {
        let rest = without(c, version, release_order());
        lemma_filter_sorted(
            c,
            key_differs(version, release_order()),
            increasing::<VersionView, PathView>(release_order()),
        );
        if rest.len() > 0 {
            lemma_set_put_wf(s, package, rest);
        }
    }
}

/// A well-formed set without its first entry is well formed.
pub proof fn lemma_rest_wf(s: ConstraintSetView)
    requires
        constraint_set_wf(s),
        s.len() > 0,
    ensures
        constraint_set_wf(s.drop_first()),
{
    lemma_name_order_weak();
    lemma_find_rest(s, s[0].0, name_order());
    let t = s.drop_first();
    assert forall|i: int| 0 <= i < t.len() implies constraint_wf(#[trigger] t[i].1) && t[i].1.len()
        > 0 by {
        assert(t[i] == s[i + 1]);
    }
}

/// The work set of the search: for each package that still needs a version,
/// the candidates that are admissible for it.
#[derive(Debug, PartialEq, Eq)]
pub struct ConstraintSet {
    entries: Vec<(PackageName, Constraint)>,
}

impl DeepView for ConstraintSet {
    type V = ConstraintSetView;

    closed spec fn deep_view(&self) -> ConstraintSetView {
        self.entries.deep_view()
    }
}

impl View for ConstraintSet {
    type V = ConstraintSetView;

    open spec fn view(&self) -> ConstraintSetView {
        self.deep_view()
    }
}

impl Clone for ConstraintSet {
    fn clone(&self) -> (r: Self)
        ensures
            r@ == self@,
    {
        ConstraintSet { entries: entries_copy(&self.entries) }
    }
}

impl ConstraintSet {
    /// Whether the set is ordered by package name and holds no constraint
    /// without candidates.
    pub open spec fn wf(&self) -> bool {
        constraint_set_wf(self@)
    }

    /// The set without entries.
    pub fn new() -> (r: ConstraintSet)
        ensures
            r@ == ConstraintSetView::empty(),
            r.wf(),
    {
        let entries: Vec<(PackageName, Constraint)> = Vec::new();
        assert(entries.deep_view() =~= ConstraintSetView::empty());
        ConstraintSet { entries }
    }

    /// The number of packages in the set.
    pub fn len(&self) -> (n: usize)
        ensures
            n == self@.len(),
    {
        self.entries.len()
    }

    /// Whether the set has no entry.
    pub fn is_empty(&self) -> (r: bool)
        ensures
            r == (self@.len() == 0),
    {
        self.entries.len() == 0
    }

    /// The constraint on `package`, if the set has one.
    pub fn get(&self, package: &PackageName) -> (r: Option<&Constraint>)
        ensures
            r.deep_view() == find(self@, package@, name_order()),
    {
        entries_find(&self.entries, package)
    }

    /// The set with `constraint` on `package`, in place of any constraint
    /// that the set had on it.
    pub fn insert(&self, package: PackageName, constraint: Constraint) -> (r: ConstraintSet)
        requires
            constraint.wf(),
            constraint@.len() > 0,
        ensures
            r@ == put(self@, package@, constraint@, name_order()),
            self.wf() ==> r.wf(),
    {
        proof {
            if self.wf() {
                lemma_set_put_wf(self@, package@, constraint@);
            }
        }
        ConstraintSet { entries: entries_put(&self.entries, package, constraint) }
    }

    /// Takes the entry of the least package name out of the set: the rest of
    /// the set and that entry, or nothing for the empty set.
    pub fn pop(&self) -> (r: Option<(ConstraintSet, (PackageName, Constraint))>)
        ensures
            self@.len() == 0 ==> r is None,
            self@.len() > 0 ==> r is Some && r.unwrap().0@ == self@.drop_first() && r.unwrap().1.0@
                == self@[0].0 && r.unwrap().1.1@ == self@[0].1,
            self.wf() && self@.len() > 0 ==> r.unwrap().0.wf() && r.unwrap().1.1.wf() && forall|i: int|
                0 <= i < r.unwrap().0@.len() ==> name_order_of(
                    r.unwrap().1.0@,
                    (#[trigger] r.unwrap().0@[i]).0,
                ) == Order::Less,
    {
        if self.entries.len() == 0 {
            return None;
        }
        let mut rest: Vec<(PackageName, Constraint)> = Vec::new();
        let mut i: usize = 1;
        while i < self.entries.len()
            invariant
                1 <= i <= self.entries.len(),
                rest.len() == i - 1,
                forall|j: int|
                    0 <= j < i - 1 ==> (#[trigger] rest[j]).deep_view() == self.entries[j
                        + 1].deep_view(),
            decreases self.entries.len() - i,
        {
            rest.push((self.entries[i].0.clone(), self.entries[i].1.clone()));
            i += 1;
        }
        assert(rest.deep_view() =~= self@.drop_first());
        let first = (self.entries[0].0.clone(), self.entries[0].1.clone());
        assert(self.entries.deep_view()[0] == self.entries[0].deep_view());
        proof {
            if self.wf() {
                lemma_rest_wf(self@);
                let t = self@.drop_first();
                assert forall|i: int| 0 <= i < t.len() implies name_order_of(
                    self@[0].0,
                    (#[trigger] t[i]).0,
                ) == Order::Less by {
                    assert(t[i] == self@[i + 1]);
                    assert(crate::assoc::increasing::<NameView, ConstraintView>(name_order())(
                        self@[0],
                        self@[i + 1],
                    ));
                }
            }
        }
        Some((ConstraintSet { entries: rest }, first))
    }

    /// The set without the candidate `version` of `package`. Where that is
    /// the last candidate of `package`, the result is the conflict of the
    /// constraint with what is left of it, and no set.
    pub fn remove(&self, package: &PackageName, version: &Version) -> (r: Result<
        ConstraintSet,
        Failure,
    >)
        requires
            self.wf(),
        ensures
            set_result_is(r, remove_candidate(self@, package@, version@)),
            r is Ok ==> r.unwrap().wf(),
    {
        match entries_find(&self.entries, package) {
            Some(c) => {
                proof {
                    lemma_set_found_wf(self@, package@);
                }
                let rest = c.remove(version);
                if rest.is_empty() {
                    Err(Failure::Conflict(package.clone(), c.clone(), rest))
                } else {
                    Ok(self.insert(package.clone(), rest))
                }
            },
            None => Ok(self.clone()),
        }
    }

    /// The set after the constraint `c_new` on `package` came in.
    pub fn merge_one(&self, package: &PackageName, c_new: &Constraint, solution: &PartialSolution) -> (r:
        Result<ConstraintSet, Failure>)
        requires
            self.wf(),
            c_new.wf(),
            c_new@.len() > 0,
        ensures
            set_result_is(r, merge_entry(self@, package@, c_new@, solution@)),
            r is Ok ==> r.unwrap().wf(),
    {
        proof {
            lemma_merge_entry_wf(self@, package@, c_new@, solution@);
            lemma_set_found_wf(self@, package@);
        }
        match solution.get(package) {
            Some(chosen) => {
                if c_new.contains(&chosen.version) {
                    Ok(self.clone())
                } else {
                    let had = Constraint::new().insert(chosen.version.clone(), chosen.path.clone());
                    proof {
                        reveal(Seq::filter);
                        assert(had@ =~= single(chosen@.version, chosen@.path));
                    }
                    Err(Failure::Conflict(package.clone(), had, c_new.clone()))
                }
            },
            None => match entries_find(&self.entries, package) {
                Some(c_old) => {
                    let m = c_old.merge(c_new);
                    if m.is_empty() {
                        Err(Failure::Conflict(package.clone(), c_old.clone(), c_new.clone()))
                    } else {
                        proof {
                            lemma_common_ascending(c_old@, c_new@, release_order());
                        }
                        Ok(ConstraintSet { entries: entries_put(&self.entries, package.clone(), m) })
                    }
                },
                None => Ok(
                    ConstraintSet {
                        entries: entries_put(&self.entries, package.clone(), c_new.clone()),
                    },
                ),
            },
        }
    }

    /// The set after every entry of `other` came in, in the order of
    /// `other`, given the versions chosen so far: the first entry that
    /// conflicts ends the merge with its failure.
    pub fn merge(&self, other: &ConstraintSet, solution: &PartialSolution) -> (r: Result<
        ConstraintSet,
        Failure,
    >)
        requires
            self.wf(),
            other.wf(),
        ensures
            set_result_is(r, merge_sets(self@, other@, solution@)),
            r is Ok ==> r.unwrap().wf(),
    {
        let mut acc = self.clone();
        let mut i: usize = 0;
        assert(other@.skip(0) =~= other@);
        while i < other.entries.len()
            invariant
                i <= other.entries.len(),
                other.wf(),
                acc.wf(),
                merge_sets(self@, other@, solution@) == merge_sets(
                    acc@,
                    other@.skip(i as int),
                    solution@,
                ),
            decreases other.entries.len() - i,
        {
            proof {
                assert(other@.skip(i as int)[0] == other@[i as int]);
                assert(other@.skip(i as int).drop_first() =~= other@.skip(i + 1));
                assert(other@[i as int] == other.entries[i as int].deep_view());
            }
            match acc.merge_one(&other.entries[i].0, &other.entries[i].1, solution) {
                Ok(next) => {
                    acc = next;
                },
                Err(f) => {
                    return Err(f);
                },
            }
            i += 1;
        }
        Ok(acc)
    }
}

} // verus!
