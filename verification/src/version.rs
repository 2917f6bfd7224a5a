use vstd::prelude::*;
use crate::order::{
    int_order, lemma_lex_equal, lemma_lex_flip, lemma_lex_skip, lemma_lex_transitive, lex_order,
    total_order, Order,
};
use crate::assoc::weak_order;
use crate::sorted::{Key, Replica};
use crate::text::{char_order, compare_text, lemma_char_order_total, text_order};

verus! {

/// The mathematical value of a prerelease or build identifier.
pub enum IdentView {
    Numeric(u64),
    AlphaNumeric(Seq<char>),
}

/// The mathematical value of a version.
pub struct VersionView {
    pub fields: Seq<u64>,
    pub prerelease: Seq<IdentView>,
    pub build: Seq<IdentView>,
}

/// One dot-separated part of a version's prerelease or build tail.
#[derive(Debug, PartialEq, Eq, Hash)]
pub enum VersionIdentifier {
    Numeric(u64),
    AlphaNumeric(String),
}

impl DeepView for VersionIdentifier {
    type V = IdentView;

    open spec fn deep_view(&self) -> IdentView {
        match self {
            VersionIdentifier::Numeric(n) => IdentView::Numeric(*n),
            VersionIdentifier::AlphaNumeric(s) => IdentView::AlphaNumeric(s@),
        }
    }
}

impl View for VersionIdentifier {
    type V = IdentView;

    open spec fn view(&self) -> IdentView {
        self.deep_view()
    }
}

impl Clone for VersionIdentifier {
    fn clone(&self) -> (r: Self)
        ensures
            r@ == self@,
    {
        match self {
            VersionIdentifier::Numeric(n) => VersionIdentifier::Numeric(*n),
            VersionIdentifier::AlphaNumeric(s) => VersionIdentifier::AlphaNumeric(s.clone()),
        }
    }
}

/// A semantic version: numeric fields, an optional prerelease tail and
/// optional build metadata.
#[derive(Debug, PartialEq, Eq, Hash)]
pub struct Version {
    pub fields: Vec<u64>,
    pub prerelease: Vec<VersionIdentifier>,
    pub build: Vec<VersionIdentifier>,
}

impl DeepView for Version {
    type V = VersionView;

    open spec fn deep_view(&self) -> VersionView {
        VersionView {
            fields: self.fields@,
            prerelease: self.prerelease.deep_view(),
            build: self.build.deep_view(),
        }
    }
}

impl View for Version {
    type V = VersionView;

    open spec fn view(&self) -> VersionView {
        self.deep_view()
    }
}

/// A copy of a list of identifiers.
pub fn clone_idents(v: &Vec<VersionIdentifier>) -> (r: Vec<VersionIdentifier>)
    ensures
        r.deep_view() == v.deep_view(),
{
    let mut r: Vec<VersionIdentifier> = Vec::new();
    let mut i: usize = 0;
    while i < v.len()
        invariant
            i <= v.len(),
            r.len() == i,
            forall|k: int| 0 <= k < i ==> r[k]@ == v[k]@,
        decreases v.len() - i,
    {
        r.push(v[i].clone());
        i += 1;
    }
    assert(r.deep_view() =~= v.deep_view());
    r
}

impl Clone for Version {
    fn clone(&self) -> (r: Self)
        ensures
            r@ == self@,
    {
        let mut fields: Vec<u64> = Vec::new();
        let mut i: usize = 0;
        while i < self.fields.len()
            invariant
                i <= self.fields.len(),
                fields@ == self.fields@.take(i as int),
            decreases self.fields.len() - i,
        {
            fields.push(self.fields[i]);
            assert(self.fields@.take(i + 1) =~= self.fields@.take(i as int).push(self.fields@[i as int]));
            i += 1;
        }
        assert(self.fields@.take(i as int) =~= self.fields@);
        Version {
            fields,
            prerelease: clone_idents(&self.prerelease),
            build: clone_idents(&self.build),
        }
    }
}

/// Numbers compare by value.
pub open spec fn u64_order() -> spec_fn(u64, u64) -> Order {
    |x: u64, y: u64| int_order(x as int, y as int)
}

/// The order of the numbers is a strict total order.
pub proof fn lemma_u64_order_total()
    ensures
        total_order(u64_order()),
{
}

/// Comparison of two identifiers: a numeric one is smaller than an
/// alphanumeric one, numeric ones compare by value and alphanumeric ones
/// lexicographically.
pub open spec fn ident_order_of(a: IdentView, b: IdentView) -> Order {
    match (a, b) {
        (IdentView::Numeric(x), IdentView::Numeric(y)) => int_order(x as int, y as int),
        (IdentView::Numeric(_), IdentView::AlphaNumeric(_)) => Order::Less,
        (IdentView::AlphaNumeric(_), IdentView::Numeric(_)) => Order::Greater,
        (IdentView::AlphaNumeric(s), IdentView::AlphaNumeric(t)) => text_order(s, t),
    }
}

/// The order of identifiers as a function.
pub open spec fn ident_order() -> spec_fn(IdentView, IdentView) -> Order {
    |a: IdentView, b: IdentView| ident_order_of(a, b)
}

/// The order of identifiers is a strict total order.
pub proof fn lemma_ident_order_total()
    ensures
        total_order(ident_order()),
{
    let ord = ident_order();
    lemma_char_order_total();
    assert forall|x: IdentView, y: IdentView| #![trigger ord(x, y)] (ord(x, y) == Order::Equal)
        <==> (x == y) by {
        if let (IdentView::AlphaNumeric(s), IdentView::AlphaNumeric(t)) = (x, y) {
            lemma_lex_equal(s, t, char_order());
        }
    }
    assert forall|x: IdentView, y: IdentView| #![trigger ord(x, y)] ord(x, y) == ord(y, x).flip() by {
        if let (IdentView::AlphaNumeric(s), IdentView::AlphaNumeric(t)) = (x, y) {
            lemma_lex_flip(s, t, char_order());
        }
    }
    assert forall|x: IdentView, y: IdentView, z: IdentView|
        #![trigger ord(x, y), ord(y, z)]
        ord(x, y) == Order::Less && ord(y, z) == Order::Less implies ord(x, z) == Order::Less by {
        if let (IdentView::AlphaNumeric(s), IdentView::AlphaNumeric(t), IdentView::AlphaNumeric(u)) = (
            x,
            y,
            z,
        ) {
            lemma_lex_transitive(s, t, u, char_order());
        }
    }
}

/// Comparison of two prerelease tails: a version without a tail is greater
/// than one with a tail; two tails compare lexicographically.
pub open spec fn prerelease_order(a: Seq<IdentView>, b: Seq<IdentView>) -> Order {
    if a.len() == 0 {
        if b.len() == 0 {
            Order::Equal
        } else {
            Order::Greater
        }
    } else if b.len() == 0 {
        Order::Less
    } else {
        lex_order(a, b, ident_order())
    }
}

/// The precedence of two versions: the numeric fields decide
/// lexicographically, then the prerelease tails; build metadata plays no part.
pub open spec fn version_order(a: VersionView, b: VersionView) -> Order {
    match lex_order(a.fields, b.fields, u64_order()) {
        Order::Equal => prerelease_order(a.prerelease, b.prerelease),
        o => o,
    }
}

/// Two versions are the same release when they differ in build metadata at
/// most.
pub open spec fn same_release(a: VersionView, b: VersionView) -> bool {
    a.fields == b.fields && a.prerelease == b.prerelease
}

/// Two versions compare `Equal` exactly when they are the same release.
pub proof fn lemma_version_order_equal(a: VersionView, b: VersionView)
    ensures
        (version_order(a, b) == Order::Equal) <==> same_release(a, b),
{
    lemma_u64_order_total();
    lemma_ident_order_total();
    lemma_lex_equal(a.fields, b.fields, u64_order());
    lemma_lex_equal(a.prerelease, b.prerelease, ident_order());
}

/// Exchanging two versions flips the outcome of their comparison.
pub proof fn lemma_version_order_flip(a: VersionView, b: VersionView)
    ensures
        version_order(a, b) == version_order(b, a).flip(),
{
    lemma_u64_order_total();
    lemma_ident_order_total();
    lemma_lex_flip(a.fields, b.fields, u64_order());
    lemma_lex_flip(a.prerelease, b.prerelease, ident_order());
}

/// Precedence is transitive.
pub proof fn lemma_version_order_transitive(a: VersionView, b: VersionView, c: VersionView)
    requires
        version_order(a, b) == Order::Less,
        version_order(b, c) == Order::Less,
    ensures
        version_order(a, c) == Order::Less,
{
    lemma_u64_order_total();
    lemma_ident_order_total();
    let fab = lex_order(a.fields, b.fields, u64_order());
    let fbc = lex_order(b.fields, c.fields, u64_order());
    lemma_lex_equal(a.fields, b.fields, u64_order());
    lemma_lex_equal(b.fields, c.fields, u64_order());
    lemma_lex_equal(a.fields, c.fields, u64_order());
    if fab == Order::Less && fbc == Order::Less {
        lemma_lex_transitive(a.fields, b.fields, c.fields, u64_order());
    } else if fab == Order::Equal && fbc == Order::Equal {
        if a.prerelease.len() > 0 && b.prerelease.len() > 0 && c.prerelease.len() > 0 {
            lemma_lex_transitive(a.prerelease, b.prerelease, c.prerelease, ident_order());
        }
    }
}

/// The same release takes the same place in every comparison.
pub proof fn lemma_version_order_same(a: VersionView, b: VersionView, c: VersionView)
    requires
        same_release(a, b),
    ensures
        version_order(a, c) == version_order(b, c),
        version_order(c, a) == version_order(c, b),
{
}

/// Compares two lists of numeric fields lexicographically.
pub fn compare_fields(a: &Vec<u64>, b: &Vec<u64>) -> (o: Order)
    ensures
        o == lex_order(a@, b@, u64_order()),
{
    let mut i: usize = 0;
    proof {
        lemma_u64_order_total();
    }
    while i < a.len() && i < b.len()
        invariant
            i <= a.len(),
            i <= b.len(),
            a@.take(i as int) == b@.take(i as int),
            total_order(u64_order()),
        decreases a.len() - i,
    {
        proof {
            lemma_lex_skip(a@, b@, u64_order(), i as int);
            let x = a@[i as int];
            let y = b@[i as int];
            assert(a@.skip(i as int)[0] == x);
            assert(b@.skip(i as int)[0] == y);
            assert(u64_order()(x, y) == int_order(x as int, y as int));
        }
        if a[i] < b[i] {
            return Order::Less;
        }
        if b[i] < a[i] {
            return Order::Greater;
        }
        proof {
            assert(a@.take(i + 1) =~= a@.take(i as int).push(a@[i as int]));
            assert(b@.take(i + 1) =~= b@.take(i as int).push(b@[i as int]));
        }
        i += 1;
    }
    proof {
        lemma_lex_skip(a@, b@, u64_order(), i as int);
    }
    if i < b.len() {
        Order::Less
    } else if i < a.len() {
        Order::Greater
    } else {
        Order::Equal
    }
}

impl VersionIdentifier {
    /// Compares two identifiers.
    pub fn compare(&self, other: &VersionIdentifier) -> (o: Order)
        ensures
            o == ident_order_of(self@, other@),
    {
        match (self, other) {
            (VersionIdentifier::Numeric(x), VersionIdentifier::Numeric(y)) => {
                if *x < *y {
                    Order::Less
                } else if *x == *y {
                    Order::Equal
                } else {
                    Order::Greater
                }
            },
            (VersionIdentifier::Numeric(_), VersionIdentifier::AlphaNumeric(_)) => Order::Less,
            (VersionIdentifier::AlphaNumeric(_), VersionIdentifier::Numeric(_)) => Order::Greater,
            (VersionIdentifier::AlphaNumeric(s), VersionIdentifier::AlphaNumeric(t)) => compare_text(
                s.as_str(),
                t.as_str(),
            ),
        }
    }
}

/// Compares two lists of identifiers lexicographically.
pub fn compare_idents(a: &Vec<VersionIdentifier>, b: &Vec<VersionIdentifier>) -> (o: Order)
    ensures
        o == lex_order(a.deep_view(), b.deep_view(), ident_order()),
{
    let ghost av = a.deep_view();
    let ghost bv = b.deep_view();
    let mut i: usize = 0;
    proof {
        lemma_ident_order_total();
    }
    while i < a.len() && i < b.len()
        invariant
            i <= a.len(),
            i <= b.len(),
            av == a.deep_view(),
            bv == b.deep_view(),
            av.take(i as int) == bv.take(i as int),
            total_order(ident_order()),
        decreases a.len() - i,
    {
        proof {
            lemma_lex_skip(av, bv, ident_order(), i as int);
            let x = av[i as int];
            let y = bv[i as int];
            assert(av.skip(i as int)[0] == x);
            assert(bv.skip(i as int)[0] == y);
            assert(ident_order()(x, y) == ident_order_of(x, y));
        }
        let o = a[i].compare(&b[i]);
        match o {
            Order::Equal => {},
            _ => {
                return o;
            },
        }
        proof {
            assert(av[i as int] == bv[i as int]);
            assert(av.take(i + 1) =~= av.take(i as int).push(av[i as int]));
            assert(bv.take(i + 1) =~= bv.take(i as int).push(bv[i as int]));
        }
        i += 1;
    }
    proof {
        lemma_lex_skip(av, bv, ident_order(), i as int);
    }
    if i < b.len() {
        Order::Less
    } else if i < a.len() {
        Order::Greater
    } else {
        Order::Equal
    }
}

impl Version {
    /// A version made of the given parts.
    pub fn new(
        fields: Vec<u64>,
        prerelease: Vec<VersionIdentifier>,
        build: Vec<VersionIdentifier>,
    ) -> (v: Version)
        ensures
            v.fields == fields,
            v.prerelease == prerelease,
            v.build == build,
    {
        Version { fields, prerelease, build }
    }

    /// The precedence of `self` relative to `other`.
    pub fn compare(&self, other: &Version) -> (o: Order)
        ensures
            o == version_order(self@, other@),
    {
        let o = compare_fields(&self.fields, &other.fields);
        match o {
            Order::Equal => {
                if self.prerelease.len() == 0 {
                    if other.prerelease.len() == 0 {
                        Order::Equal
                    } else {
                        Order::Greater
                    }
                } else if other.prerelease.len() == 0 {
                    Order::Less
                } else {
                    compare_idents(&self.prerelease, &other.prerelease)
                }
            },
            _ => o,
        }
    }

    /// Whether `self` and `other` are the same release.
    pub fn same_release(&self, other: &Version) -> (r: bool)
        ensures
            r == same_release(self@, other@),
    {
        proof {
            lemma_version_order_equal(self@, other@);
        }
        match self.compare(other) {
            Order::Equal => true,
            _ => false,
        }
    }
}

/// The order in which releases are listed: best first, that is, descending
/// by precedence.
pub open spec fn release_order() -> spec_fn(VersionView, VersionView) -> Order {
    |a: VersionView, b: VersionView| version_order(a, b).flip()
}

/// The order of releases is an order up to build metadata.
pub proof fn lemma_release_order_weak()
    ensures
        weak_order(release_order()),
{
    let ord = release_order();
    assert forall|x: VersionView, y: VersionView| #![trigger ord(x, y)] ord(x, y) == ord(
        y,
        x,
    ).flip() by {
        lemma_version_order_flip(x, y);
    }
    assert forall|x: VersionView, y: VersionView, z: VersionView|
        #![trigger ord(x, y), ord(y, z)]
        ord(x, y) == Order::Less && ord(y, z) == Order::Less implies ord(x, z) == Order::Less by {
        lemma_version_order_flip(x, y);
        lemma_version_order_flip(y, z);
        lemma_version_order_flip(x, z);
        lemma_version_order_transitive(z, y, x);
    }
    assert forall|x: VersionView, y: VersionView, z: VersionView|
        #![trigger ord(x, y), ord(x, z)]
        ord(x, y) == Order::Equal implies ord(x, z) == ord(y, z) by {
        lemma_version_order_equal(x, y);
        lemma_version_order_same(x, y, z);
    }
}

impl Replica for Version {
    fn replica(&self) -> (r: Self) {
        self.clone()
    }
}

impl Key for Version {
    open spec fn order() -> spec_fn(VersionView, VersionView) -> Order {
        release_order()
    }

    proof fn order_is_weak() {
        lemma_release_order_weak();
    }

    fn compare_to(&self, other: &Self) -> (o: Order) {
        match self.compare(other) {
            Order::Less => Order::Greater,
            Order::Equal => Order::Equal,
            Order::Greater => Order::Less,
        }
    }
}

} // verus!
