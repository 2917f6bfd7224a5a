use vstd::prelude::*;
use crate::notation::version_text;
use crate::package::{name_text, NameView, PackageName};
use crate::sorted::Replica;
use crate::version::{Version, VersionView};

verus! {

/// The mathematical value of a path: its steps from the root down.
pub type PathView = Seq<(NameView, VersionView)>;

/// The chain of chosen releases, from the root requirement down, that made a
/// candidate come under consideration. The empty path stands for a
/// requirement of the root itself.
#[derive(Debug, PartialEq, Eq)]
pub struct Path {
    pub steps: Vec<(PackageName, Version)>,
}

impl DeepView for Path {
    type V = PathView;

    open spec fn deep_view(&self) -> PathView {
        self.steps.deep_view()
    }
}

impl View for Path {
    type V = PathView;

    open spec fn view(&self) -> PathView {
        self.deep_view()
    }
}

/// The arrow that stands between two steps of a rendered path.
pub open spec fn arrow() -> Seq<char> {
    " \u{2192} "@
}

/// The rendering of a path for diagnostics: `root`, then for each step an
/// arrow, the package, `@` and the version.
pub open spec fn path_text(path: PathView) -> Seq<char>
    decreases path.len(),
{
    if path.len() == 0 {
        "root"@
    } else {
        path_text(path.drop_last()) + arrow() + name_text(path.last().0) + seq!['@'] + version_text(
            path.last().1,
        )
    }
}

/// Whether one of the steps of `path` is a release of `name`.
pub open spec fn path_visits(path: PathView, name: NameView) -> bool {
    exists|i: int| 0 <= i < path.len() && (#[trigger] path[i]).0 == name
}

impl Clone for Path {
    fn clone(&self) -> (r: Self)
        ensures
            r@ == self@,
    {
        let mut steps: Vec<(PackageName, Version)> = Vec::new();
        let mut i: usize = 0;
        while i < self.steps.len()
            invariant
                i <= self.steps.len(),
                steps.len() == i,
                forall|j: int| 0 <= j < i ==> (#[trigger] steps[j]).deep_view() == self.steps[j].deep_view(),
            decreases self.steps.len() - i,
        {
            steps.push((self.steps[i].0.clone(), self.steps[i].1.clone()));
            i += 1;
        }
        assert(steps.deep_view() =~= self.steps.deep_view());
        Path { steps }
    }
}

impl Replica for Path {
    fn replica(&self) -> (r: Self) {
        self.clone()
    }
}

impl Path {
    /// The empty path.
    pub fn new() -> (r: Path)
        ensures
            r@ == PathView::empty(),
    {
        let steps: Vec<(PackageName, Version)> = Vec::new();
        assert(steps.deep_view() =~= PathView::empty());
        Path { steps }
    }

    /// The number of steps.
    pub fn len(&self) -> (n: usize)
        ensures
            n == self@.len(),
    {
        self.steps.len()
    }

    /// The path with one more step at its end.
    pub fn push(&self, name: PackageName, version: Version) -> (r: Path)
        ensures
            r@ == self@.push((name@, version@)),
    {
        let mut next = self.clone();
        let ghost before = next.steps.deep_view();
        next.steps.push((name, version));
        assert(next.steps.deep_view() =~= before.push((name@, version@)));
        next
    }

    /// The rendering of the path for diagnostics.
    pub fn to_string(&self) -> (s: String)
        ensures
            s@ == path_text(self@),
    {
        let mut out = String::new();
        out.append("root");
        let mut i: usize = 0;
        assert(self@.take(0) =~= PathView::empty());
        assert(out@ =~= path_text(self@.take(0)));
        while i < self.steps.len()
            invariant
                i <= self.steps.len(),
                out@ == path_text(self@.take(i as int)),
            decreases self.steps.len() - i,
        {
            proof {
                reveal_strlit("@");
                assert(self@.take(i + 1).drop_last() =~= self@.take(i as int));
                assert(self@.take(i + 1).last() == self@[i as int]);
                assert(self@[i as int] == self.steps[i as int].deep_view());
            }
            let ghost before = out@;
            out.append(" \u{2192} ");
            let name = self.steps[i].0.to_string();
            out.append(name.as_str());
            out.append("@");
            self.steps[i].1.write_to(&mut out);
            assert(out@ =~= before + arrow() + name_text(self@[i as int].0) + seq!['@']
                + version_text(self@[i as int].1));
            i += 1;
        }
        assert(self@.take(self.steps.len() as int) =~= self@);
        out
    }

    /// Whether one of the steps is a release of `name`.
    pub fn visits(&self, name: &PackageName) -> (r: bool)
        ensures
            r == path_visits(self@, name@),
    {
        let mut i: usize = 0;
        while i < self.steps.len()
            invariant
                i <= self.steps.len(),
                forall|j: int| 0 <= j < i ==> (#[trigger] self@[j]).0 != name@,
            decreases self.steps.len() - i,
        {
            assert(self@[i as int].0 == self.steps[i as int].0@);
            if self.steps[i].0.same(name) {
                return true;
            }
            i += 1;
        }
        false
    }
}

} // verus!
