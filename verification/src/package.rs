use vstd::prelude::*;
use crate::assoc::weak_order;
use crate::sorted::{Key, Replica};
use crate::order::{lemma_lex_equal, lemma_lex_flip, lemma_lex_transitive, Order};
use crate::text::{
    char_order, chars_of, compare_text, join, lemma_char_order_total, lemma_split_join, split_on,
    split_ranges, text_of, text_order,
};

verus! {

/// The mathematical value of a package name: an optional namespace and a name,
/// each a sequence of characters.
pub struct NameView {
    pub namespace: Option<Seq<char>>,
    pub name: Seq<char>,
}

/// A namespaced package identifier. A missing namespace stands for "the
/// namespace of the enclosing manifest".
#[derive(Debug, PartialEq, Eq, PartialOrd, Ord, Hash, Default)]
pub struct PackageName {
    pub namespace: Option<String>,
    pub name: String,
}

impl DeepView for PackageName {
    type V = NameView;

    open spec fn deep_view(&self) -> NameView {
        NameView { namespace: self.namespace.deep_view(), name: self.name@ }
    }
}

impl View for PackageName {
    type V = NameView;

    open spec fn view(&self) -> NameView {
        self.deep_view()
    }
}

impl Clone for PackageName {
    fn clone(&self) -> (r: Self)
        ensures
            r@ == self@,
    {
        PackageName {
            namespace: match &self.namespace {
                Some(ns) => Some(ns.clone()),
                None => None,
            },
            name: self.name.clone(),
        }
    }
}

/// Whether `c` may stand in a namespace: a lower-case ASCII letter, a digit,
/// `_` or `-`.
pub open spec fn is_namespace_char(c: char) -> bool {
    ('a' <= c <= 'z') || ('0' <= c <= '9') || c == '_' || c == '-'
}

/// Whether `c` may stand in a name: an ASCII letter, a digit, `_` or `-`.
pub open spec fn is_name_char(c: char) -> bool {
    ('a' <= c <= 'z') || ('A' <= c <= 'Z') || ('0' <= c <= '9') || c == '_' || c == '-'
}

/// A namespace is 1 to 128 namespace characters, the first of which is not a
/// hyphen.
pub open spec fn valid_namespace(s: Seq<char>) -> bool {
    &&& 0 < s.len() <= 128
    &&& s[0] != '-'
    &&& forall|i: int| 0 <= i < s.len() ==> is_namespace_char(#[trigger] s[i])
}

/// A name is 1 to 128 name characters, the first of which is not a hyphen.
pub open spec fn valid_name(s: Seq<char>) -> bool {
    &&& 0 < s.len() <= 128
    &&& s[0] != '-'
    &&& forall|i: int| 0 <= i < s.len() ==> is_name_char(#[trigger] s[i])
}

/// The package name that a text denotes: a valid name alone, or a valid
/// namespace, a slash and a valid name.
pub open spec fn name_of_text(s: Seq<char>) -> Option<NameView> {
    let parts = split_on(s, '/');
    if parts.len() == 1 {
        if valid_name(s) {
            Some(NameView { namespace: None, name: s })
        } else {
            None
        }
    } else if parts.len() == 2 {
        if valid_namespace(parts[0]) && valid_name(parts[1]) {
            Some(NameView { namespace: Some(parts[0]), name: parts[1] })
        } else {
            None
        }
    } else {
        None
    }
}

/// The notation of a package name: `namespace/name`, or the bare name where
/// there is no namespace.
pub open spec fn name_text(n: NameView) -> Seq<char> {
    match n.namespace {
        Some(ns) => ns + seq!['/'] + n.name,
        None => n.name,
    }
}

/// A well-formed package name has a valid name and, where it has a namespace,
/// a valid one.
pub open spec fn name_wf(n: NameView) -> bool {
    &&& valid_name(n.name)
    &&& n.namespace matches Some(ns) ==> valid_namespace(ns)
}

/// Reading the notation of a well-formed package name gives the name back.
pub proof fn lemma_name_round_trip(n: NameView)
    requires
        name_wf(n),
    ensures
        name_of_text(name_text(n)) == Some(n),
{
    let parts = match n.namespace {
        Some(ns) => seq![ns, n.name],
        None => seq![n.name],
    };
    assert forall|i: int| 0 <= i < parts.len() implies !(#[trigger] parts[i]).contains('/') by {
        let part = parts[i];
        if part.contains('/') {
            let j = choose|j: int| 0 <= j < part.len() && part[j] == '/';
            assert(is_name_char(part[j]) || is_namespace_char(part[j]));
        }
    }
    lemma_split_join(parts, '/');
    if let Some(ns) = n.namespace {
        assert(parts.drop_first() =~= seq![n.name]);
        assert(join(parts.drop_first(), '/') == n.name);
        assert(join(parts, '/') =~= name_text(n));
    }
}

/// Comparison of two optional namespaces: a missing one comes first.
pub open spec fn namespace_order(a: Option<Seq<char>>, b: Option<Seq<char>>) -> Order {
    match (a, b) {
        (None, None) => Order::Equal,
        (None, Some(_)) => Order::Less,
        (Some(_), None) => Order::Greater,
        (Some(x), Some(y)) => text_order(x, y),
    }
}

/// Comparison of two package names: by namespace, then by name, each
/// lexicographically.
pub open spec fn name_order_of(a: NameView, b: NameView) -> Order {
    match namespace_order(a.namespace, b.namespace) {
        Order::Equal => text_order(a.name, b.name),
        o => o,
    }
}

/// The order of package names as a function.
pub open spec fn name_order() -> spec_fn(NameView, NameView) -> Order {
    |a: NameView, b: NameView| name_order_of(a, b)
}

/// Two names compare `Equal` exactly when they are the same name.
pub proof fn lemma_name_order_equal(a: NameView, b: NameView)
    ensures
        (name_order_of(a, b) == Order::Equal) <==> a == b,
{
    lemma_char_order_total();
    lemma_lex_equal(a.name, b.name, char_order());
    if let (Some(x), Some(y)) = (a.namespace, b.namespace) {
        lemma_lex_equal(x, y, char_order());
    }
}

/// The order of package names is a strict total order.
pub proof fn lemma_name_order_weak()
    ensures
        weak_order(name_order()),
{
    let ord = name_order();
    lemma_char_order_total();
    assert forall|x: NameView, y: NameView| #![trigger ord(x, y)] ord(x, y) == ord(y, x).flip() by {
        lemma_lex_flip(x.name, y.name, char_order());
        if let (Some(a), Some(b)) = (x.namespace, y.namespace) {
            lemma_lex_flip(a, b, char_order());
        }
    }
    assert forall|x: NameView, y: NameView, z: NameView|
        #![trigger ord(x, y), ord(y, z)]
        ord(x, y) == Order::Less && ord(y, z) == Order::Less implies ord(x, z) == Order::Less by {
        let nxy = namespace_order(x.namespace, y.namespace);
        let nyz = namespace_order(y.namespace, z.namespace);
        if let (Some(a), Some(b), Some(c)) = (x.namespace, y.namespace, z.namespace) {
            lemma_lex_equal(a, b, char_order());
            lemma_lex_equal(b, c, char_order());
            lemma_lex_equal(a, c, char_order());
            if nxy == Order::Less && nyz == Order::Less {
                lemma_lex_transitive(a, b, c, char_order());
            }
        }
        if nxy == Order::Equal && nyz == Order::Equal {
            lemma_lex_transitive(x.name, y.name, z.name, char_order());
        }
    }
    assert forall|x: NameView, y: NameView, z: NameView|
        #![trigger ord(x, y), ord(x, z)]
        ord(x, y) == Order::Equal implies ord(x, z) == ord(y, z) by {
        lemma_name_order_equal(x, y);
    }
}

/// Whether the characters `v[from..to]` make a valid name, or a valid
/// namespace where `upper` is false.
fn valid_chars(v: &Vec<char>, from: usize, to: usize, upper: bool) -> (r: bool)
    requires
        from <= to <= v.len(),
    ensures
        r == if upper {
            valid_name(v@.subrange(from as int, to as int))
        } else {
            valid_namespace(v@.subrange(from as int, to as int))
        },
{
    let ghost s = v@.subrange(from as int, to as int);
    if from == to || to - from > 128 {
        return false;
    }
    assert(s[0] == v@[from as int]);
    if v[from] == '-' {
        return false;
    }
    let mut i: usize = from;
    while i < to
        invariant
            from <= i <= to <= v.len(),
            s == v@.subrange(from as int, to as int),
            forall|j: int|
                0 <= j < i - from ==> if upper {
                    is_name_char(#[trigger] s[j])
                } else {
                    is_namespace_char(s[j])
                },
        decreases to - i,
    {
        let c = v[i];
        assert(s[i - from] == c);
        let ok = ('a' <= c && c <= 'z') || (upper && 'A' <= c && c <= 'Z') || ('0' <= c && c <= '9')
            || c == '_' || c == '-';
        if !ok {
            return false;
        }
        i += 1;
    }
    true
}

/// Whether `s` is a valid namespace.
pub fn validate_package_namespace(s: &str) -> (r: bool)
    ensures
        r == valid_namespace(s@),
{
    let v = chars_of(s);
    assert(v@.subrange(0, v.len() as int) =~= s@);
    valid_chars(&v, 0, v.len(), false)
}

/// Whether `s` is a valid name.
pub fn validate_package_name(s: &str) -> (r: bool)
    ensures
        r == valid_name(s@),
{
    let v = chars_of(s);
    assert(v@.subrange(0, v.len() as int) =~= s@);
    valid_chars(&v, 0, v.len(), true)
}

impl PackageName {
    /// Reads a package name from `namespace/name`, or from a bare `name`, which
    /// gives a name without a namespace.
    pub fn from_str(s: &str) -> (r: Option<PackageName>)
        ensures
            r.deep_view() == name_of_text(s@),
    {
        let v = chars_of(s);
        let n = v.len();
        assert(v@.subrange(0, n as int) =~= s@);
        let ranges = split_ranges(&v, 0, n, '/');
        if ranges.len() == 1 {
            if valid_chars(&v, 0, n, true) {
                Some(PackageName { namespace: None, name: text_of(&v, 0, n) })
            } else {
                None
            }
        } else if ranges.len() == 2 {
            let (a, b) = ranges[0];
            let (c, d) = ranges[1];
            if valid_chars(&v, a, b, false) && valid_chars(&v, c, d, true) {
                Some(PackageName { namespace: Some(text_of(&v, a, b)), name: text_of(&v, c, d) })
            } else {
                None
            }
        } else {
            None
        }
    }

    /// The notation of the name.
    pub fn to_string(&self) -> (s: String)
        ensures
            s@ == name_text(self@),
    {
        let mut out = String::new();
        match &self.namespace {
            Some(ns) => {
                proof {
                    reveal_strlit("/");
                }
                out.append(ns.as_str());
                out.append("/");
                out.append(self.name.as_str());
            },
            None => {
                out.append(self.name.as_str());
            },
        }
        assert(out@ =~= name_text(self@));
        out
    }

    /// The place of `self` relative to `other` in the order of package names.
    pub fn compare(&self, other: &PackageName) -> (o: Order)
        ensures
            o == name_order_of(self@, other@),
    {
        let first = match (&self.namespace, &other.namespace) {
            (None, None) => Order::Equal,
            (None, Some(_)) => Order::Less,
            (Some(_), None) => Order::Greater,
            (Some(x), Some(y)) => compare_text(x.as_str(), y.as_str()),
        };
        match first {
            Order::Equal => compare_text(self.name.as_str(), other.name.as_str()),
            _ => first,
        }
    }

    /// Whether `self` and `other` are the same name.
    pub fn same(&self, other: &PackageName) -> (r: bool)
        ensures
            r == (self@ == other@),
    {
        proof {
            lemma_name_order_equal(self@, other@);
        }
        match self.compare(other) {
            Order::Equal => true,
            _ => false,
        }
    }
}

impl Replica for PackageName {
    fn replica(&self) -> (r: Self) {
        self.clone()
    }
}

impl Key for PackageName {
    open spec fn order() -> spec_fn(NameView, NameView) -> Order {
        name_order()
    }

    proof fn order_is_weak() {
        lemma_name_order_weak();
    }

    fn compare_to(&self, other: &Self) -> (o: Order) {
        self.compare(other)
    }
}

} // verus!
