use vstd::prelude::*;
use crate::order::{
    int_order, lemma_filter_sorted, lemma_filter_take_push, lemma_lex_skip, lex_order, sorted_by,
    total_order, Order,
};
use crate::sorted::Replica;
use crate::version::{same_release, version_order, Version, VersionView};

verus! {

/// The mathematical value of a version constraint.
pub enum VersionConstraintView {
    Exact(VersionView),
    Range(Option<VersionView>, Option<VersionView>),
    Caret(VersionView),
    Tilde(VersionView),
    Any,
}

/// A symbolic range of versions.
#[derive(Debug, PartialEq, Eq, Hash)]
pub enum VersionConstraint {
    /// That release and no other.
    Exact(Version),
    /// From the first bound, inclusive, up to the second, exclusive; a missing
    /// bound leaves that side open.
    Range(Option<Version>, Option<Version>),
    /// From the version up to the next incompatible one.
    Caret(Version),
    /// From the version up to the next minor one.
    Tilde(Version),
    /// Every version.
    Any,
}

impl DeepView for VersionConstraint {
    type V = VersionConstraintView;

    open spec fn deep_view(&self) -> VersionConstraintView {
        match self {
            VersionConstraint::Exact(v) => VersionConstraintView::Exact(v@),
            VersionConstraint::Range(lo, hi) => VersionConstraintView::Range(
                lo.deep_view(),
                hi.deep_view(),
            ),
            VersionConstraint::Caret(v) => VersionConstraintView::Caret(v@),
            VersionConstraint::Tilde(v) => VersionConstraintView::Tilde(v@),
            VersionConstraint::Any => VersionConstraintView::Any,
        }
    }
}

impl View for VersionConstraint {
    type V = VersionConstraintView;

    open spec fn view(&self) -> VersionConstraintView {
        self.deep_view()
    }
}

impl Clone for VersionConstraint {
    fn clone(&self) -> (r: Self)
        ensures
            r@ == self@,
    {
        match self {
            VersionConstraint::Exact(v) => VersionConstraint::Exact(v.clone()),
            VersionConstraint::Range(lo, hi) => {
                let l = match lo {
                    Some(v) => Some(v.clone()),
                    None => None,
                };
                let h = match hi {
                    Some(v) => Some(v.clone()),
                    None => None,
                };
                VersionConstraint::Range(l, h)
            },
            VersionConstraint::Caret(v) => VersionConstraint::Caret(v.clone()),
            VersionConstraint::Tilde(v) => VersionConstraint::Tilde(v.clone()),
            VersionConstraint::Any => VersionConstraint::Any,
        }
    }
}

/// Integers compare by value.
pub open spec fn plain_order() -> spec_fn(int, int) -> Order {
    |x: int, y: int| int_order(x, y)
}

/// The order of the integers is a strict total order.
pub proof fn lemma_plain_order_total()
    ensures
        total_order(plain_order()),
{
}

/// The fields of a version as unbounded integers.
pub open spec fn as_ints(f: Seq<u64>) -> Seq<int> {
    Seq::new(f.len(), |i: int| f[i] as int)
}

/// The field that a caret constraint holds fixed last: the first field that
/// is not zero, or the last field where all are zero.
pub open spec fn caret_pivot(f: Seq<u64>) -> int
    decreases f.len(),
{
    if f.len() <= 1 || f[0] != 0 {
        0
    } else {
        1 + caret_pivot(f.drop_first())
    }
}

/// The field that a tilde constraint holds fixed last: the second field, or
/// the only one.
pub open spec fn tilde_pivot(f: Seq<u64>) -> int {
    if f.len() >= 2 {
        1
    } else {
        0
    }
}

/// The fields up to position `i`, the last of them raised by one: the least
/// list of fields that a constraint with its pivot at `i` excludes.
pub open spec fn bumped(f: Seq<u64>, i: int) -> Seq<int> {
    as_ints(f.take(i)).push(f[i] + 1)
}

/// Whether the fields `w` come before `bound` lexicographically.
pub open spec fn fields_below(w: Seq<u64>, bound: Seq<int>) -> bool {
    lex_order(as_ints(w), bound, plain_order()) == Order::Less
}

/// Whether `w` lies in the interval from `v`, inclusive, up to the fields of
/// `v` bumped at `pivot`, exclusive.
pub open spec fn within_bump(w: VersionView, v: VersionView, pivot: int) -> bool {
    &&& v.fields.len() > 0
    &&& version_order(w, v) != Order::Less
    &&& fields_below(w.fields, bumped(v.fields, pivot))
}

/// Whether the version `w` satisfies the constraint `c`.
pub open spec fn satisfies(w: VersionView, c: VersionConstraintView) -> bool {
    match c {
        VersionConstraintView::Exact(v) => same_release(w, v),
        VersionConstraintView::Range(lo, hi) => {
            &&& lo matches Some(l) ==> version_order(w, l) != Order::Less
            &&& hi matches Some(h) ==> version_order(w, h) == Order::Less
        },
        VersionConstraintView::Caret(v) => within_bump(w, v, caret_pivot(v.fields)),
        VersionConstraintView::Tilde(v) => within_bump(w, v, tilde_pivot(v.fields)),
        VersionConstraintView::Any => true,
    }
}

/// The test "satisfies `c`" as a predicate on versions.
pub open spec fn satisfying(c: VersionConstraintView) -> spec_fn(VersionView) -> bool {
    |w: VersionView| satisfies(w, c)
}

/// The relation "takes precedence over" on versions.
pub open spec fn newer() -> spec_fn(VersionView, VersionView) -> bool {
    |a: VersionView, b: VersionView| version_order(a, b) == Order::Greater
}

/// A list of versions is descending when each takes precedence over all later
/// ones; no release occurs twice in such a list.
pub open spec fn descending(s: Seq<VersionView>) -> bool {
    sorted_by(s, newer())
}

/// The versions of `releases` that satisfy `c`, in the order of `releases`.
pub open spec fn matching(c: VersionConstraintView, releases: Seq<VersionView>) -> Seq<VersionView> {
    releases.filter(satisfying(c))
}

/// The matching versions of a descending list are descending.
pub proof fn lemma_matching_descending(c: VersionConstraintView, releases: Seq<VersionView>)
    requires
        descending(releases),
    ensures
        descending(matching(c, releases)),
{
    lemma_filter_sorted(releases, satisfying(c), newer());
}

/// The position of the field that a caret constraint on `f` holds fixed last.
fn find_caret_pivot(f: &Vec<u64>) -> (i: usize)
    requires
        f.len() > 0,
    ensures
        i == caret_pivot(f@),
        i < f.len(),
{
    let mut i: usize = 0;
    assert(f@.skip(0) =~= f@);
    while i + 1 < f.len() && f[i] == 0
        invariant
            i < f.len(),
            caret_pivot(f@) == i + caret_pivot(f@.skip(i as int)),
        decreases f.len() - i,
    {
        assert(f@.skip(i as int).drop_first() =~= f@.skip(i + 1));
        i += 1;
    }
    i
}

/// Whether the fields `w` come before the fields of `v` bumped at `pivot`.
fn below_bump(w: &Vec<u64>, v: &Vec<u64>, pivot: usize) -> (r: bool)
    requires
        pivot < v.len(),
    ensures
        r == fields_below(w@, bumped(v@, pivot as int)),
{
    let ghost a = as_ints(w@);
    let ghost b = bumped(v@, pivot as int);
    proof {
        lemma_plain_order_total();
    }
    let mut j: usize = 0;
    while j < pivot
        invariant
            j <= pivot < v.len(),
            j <= w.len(),
            a == as_ints(w@),
            b == bumped(v@, pivot as int),
            a.take(j as int) == b.take(j as int),
            total_order(plain_order()),
        decreases pivot - j,
    {
        proof {
            lemma_lex_skip(a, b, plain_order(), j as int);
            assert(b.skip(j as int)[0] == v@[j as int] as int);
        }
        if j >= w.len() {
            return true;
        }
        proof {
            assert(a.skip(j as int)[0] == w@[j as int] as int);
            assert(plain_order()(w@[j as int] as int, v@[j as int] as int) == int_order(
                w@[j as int] as int,
                v@[j as int] as int,
            ));
        }
        if w[j] < v[j] {
            return true;
        }
        if w[j] > v[j] {
            return false;
        }
        proof {
            assert(a.take(j + 1) =~= a.take(j as int).push(a[j as int]));
            assert(b.take(j + 1) =~= b.take(j as int).push(b[j as int]));
        }
        j += 1;
    }
    proof {
        lemma_lex_skip(a, b, plain_order(), pivot as int);
        assert(b.skip(pivot as int) =~= seq![v@[pivot as int] + 1]);
    }
    if w.len() <= pivot {
        return true;
    }
    proof {
        let x = a.skip(pivot as int);
        let y = b.skip(pivot as int);
        assert(x[0] == w@[pivot as int] as int);
        assert(plain_order()(x[0], y[0]) == int_order(x[0], y[0]));
        assert(y.drop_first() =~= Seq::<int>::empty());
        assert(lex_order(x.drop_first(), y.drop_first(), plain_order()) != Order::Less);
    }
    w[pivot] <= v[pivot]
}

impl VersionConstraint {
    /// Whether the version `w` satisfies the constraint.
    pub fn satisfied_by(&self, w: &Version) -> (r: bool)
        ensures
            r == satisfies(w@, self@),
    {
        match self {
            VersionConstraint::Exact(v) => w.same_release(v),
            VersionConstraint::Range(lo, hi) => {
                let above = match lo {
                    Some(l) => match w.compare(l) {
                        Order::Less => false,
                        _ => true,
                    },
                    None => true,
                };
                let under = match hi {
                    Some(h) => match w.compare(h) {
                        Order::Less => true,
                        _ => false,
                    },
                    None => true,
                };
                above && under
            },
            VersionConstraint::Caret(v) => {
                if v.fields.len() == 0 {
                    return false;
                }
                match w.compare(v) {
                    Order::Less => false,
                    _ => below_bump(&w.fields, &v.fields, find_caret_pivot(&v.fields)),
                }
            },
            VersionConstraint::Tilde(v) => {
                if v.fields.len() == 0 {
                    return false;
                }
                let pivot: usize = if v.fields.len() >= 2 {
                    1
                } else {
                    0
                };
                match w.compare(v) {
                    Order::Less => false,
                    _ => below_bump(&w.fields, &v.fields, pivot),
                }
            },
            VersionConstraint::Any => true,
        }
    }
}

/// Whether the version `v` satisfies the constraint `c`.
pub fn satisfies_constraint(v: &Version, c: &VersionConstraint) -> (r: bool)
    ensures
        r == satisfies(v@, c@),
{
    c.satisfied_by(v)
}

/// The versions of `releases` that satisfy `c`, in the order in which
/// `releases` lists them: best first where `releases` is descending.
pub fn all_versions_matching(c: &VersionConstraint, releases: &Vec<Version>) -> (r: Vec<Version>)
    ensures
        r.deep_view() == matching(c@, releases.deep_view()),
        descending(releases.deep_view()) ==> descending(r.deep_view()),
{
    let ghost all = releases.deep_view();
    let ghost pred = satisfying(c@);
    let mut out: Vec<Version> = Vec::new();
    let mut i: usize = 0;
    proof {
        reveal(Seq::filter);
        assert(all.take(0) =~= Seq::<VersionView>::empty());
        assert(out.deep_view() =~= all.take(0).filter(pred));
    }
    while i < releases.len()
        invariant
            i <= releases.len(),
            all == releases.deep_view(),
            pred == satisfying(c@),
            out.deep_view() == all.take(i as int).filter(pred),
        decreases releases.len() - i,
    {
        let ghost before = out.deep_view();
        proof {
            lemma_filter_take_push(all, pred, i as int);
            assert(all[i as int] == releases[i as int]@);
        }
        if c.satisfied_by(&releases[i]) {
            out.push(releases[i].clone());
            assert(out.deep_view() =~= before.push(all[i as int]));
        }
        i += 1;
    }
    proof {
        assert(all.take(releases.len() as int) =~= all);
        if descending(all) {
            lemma_matching_descending(c@, all);
        }
    }
    out
}

impl Replica for VersionConstraint {
    fn replica(&self) -> (r: Self) {
        self.clone()
    }
}

} // verus!
