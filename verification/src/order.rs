use vstd::prelude::*;

verus! {

/// The outcome of comparing two values.
#[derive(Clone, Copy, Debug, PartialEq, Eq, Structural)]
pub enum Order {
    Less,
    Equal,
    Greater,
}

impl Order {
    /// The outcome of the same comparison with its operands exchanged.
    pub open spec fn flip(self) -> Order {
        match self {
            Order::Less => Order::Greater,
            Order::Equal => Order::Equal,
            Order::Greater => Order::Less,
        }
    }
}

/// Comparison of two integers.
pub open spec fn int_order(x: int, y: int) -> Order {
    if x < y {
        Order::Less
    } else if x == y {
        Order::Equal
    } else {
        Order::Greater
    }
}

/// `ord` is a strict total order: it answers `Equal` exactly on equal values,
/// exchanging the operands flips the answer, and `Less` is transitive.
pub open spec fn total_order<T>(ord: spec_fn(T, T) -> Order) -> bool {
    &&& forall|x: T, y: T| #![trigger ord(x, y)] (ord(x, y) == Order::Equal) <==> (x == y)
    &&& forall|x: T, y: T| #![trigger ord(x, y)] ord(x, y) == ord(y, x).flip()
    &&& forall|x: T, y: T, z: T|
        #![trigger ord(x, y), ord(y, z)]
        ord(x, y) == Order::Less && ord(y, z) == Order::Less ==> ord(x, z) == Order::Less
}

/// Lexicographic comparison of two sequences under the element order `ord`:
/// the first differing position decides, and a proper prefix is smaller.
pub open spec fn lex_order<T>(a: Seq<T>, b: Seq<T>, ord: spec_fn(T, T) -> Order) -> Order
    decreases a.len(),
{
    if a.len() == 0 {
        if b.len() == 0 {
            Order::Equal
        } else {
            Order::Less
        }
    } else if b.len() == 0 {
        Order::Greater
    } else {
        match ord(a[0], b[0]) {
            Order::Equal => lex_order(a.drop_first(), b.drop_first(), ord),
            o => o,
        }
    }
}

/// Two sequences compare `Equal` exactly when they are the same sequence.
pub proof fn lemma_lex_equal<T>(a: Seq<T>, b: Seq<T>, ord: spec_fn(T, T) -> Order)
    requires
        total_order(ord),
    ensures
        (lex_order(a, b, ord) == Order::Equal) <==> (a == b),
    decreases a.len(),
{
    if a.len() == 0 || b.len() == 0 {
        if a.len() == 0 && b.len() == 0 {
            assert(a =~= b);
        }
    } else {
        lemma_lex_equal(a.drop_first(), b.drop_first(), ord);
        if ord(a[0], b[0]) == Order::Equal && a.drop_first() == b.drop_first() {
            assert(a =~= seq![a[0]] + a.drop_first());
            assert(b =~= seq![b[0]] + b.drop_first());
        }
        if a == b {
            assert(ord(a[0], b[0]) == Order::Equal);
        }
    }
}

/// Exchanging the two sequences flips the outcome.
pub proof fn lemma_lex_flip<T>(a: Seq<T>, b: Seq<T>, ord: spec_fn(T, T) -> Order)
    requires
        total_order(ord),
    ensures
        lex_order(a, b, ord) == lex_order(b, a, ord).flip(),
    decreases a.len(),
{
    if a.len() > 0 && b.len() > 0 {
        lemma_lex_flip(a.drop_first(), b.drop_first(), ord);
        assert(ord(a[0], b[0]) == ord(b[0], a[0]).flip());
    }
}

/// `Less` is transitive on sequences.
pub proof fn lemma_lex_transitive<T>(
    a: Seq<T>,
    b: Seq<T>,
    c: Seq<T>,
    ord: spec_fn(T, T) -> Order,
)
    requires
        total_order(ord),
        lex_order(a, b, ord) == Order::Less,
        lex_order(b, c, ord) == Order::Less,
    ensures
        lex_order(a, c, ord) == Order::Less,
    decreases a.len(),
{
    if a.len() > 0 {
        let x = ord(a[0], b[0]);
        let y = ord(b[0], c[0]);
        assert(ord(a[0], c[0]) == ord(c[0], a[0]).flip());
        if x == Order::Equal && y == Order::Equal {
            lemma_lex_transitive(a.drop_first(), b.drop_first(), c.drop_first(), ord);
        } else if x == Order::Equal {
            assert(a[0] == b[0]);
        } else if y == Order::Equal {
            assert(b[0] == c[0]);
        }
    }
}

/// After a common prefix of `i` elements the comparison is decided by the rest.
pub proof fn lemma_lex_skip<T>(a: Seq<T>, b: Seq<T>, ord: spec_fn(T, T) -> Order, i: int)
    requires
        total_order(ord),
        0 <= i <= a.len(),
        i <= b.len(),
        a.take(i) == b.take(i),
    ensures
        lex_order(a, b, ord) == lex_order(a.skip(i), b.skip(i), ord),
    decreases i,
{
    if i == 0 {
        assert(a.skip(0) =~= a);
        assert(b.skip(0) =~= b);
    } else {
        assert(a[0] == a.take(i)[0]);
        assert(b[0] == b.take(i)[0]);
        assert(ord(a[0], b[0]) == Order::Equal);
        assert(a.drop_first().take(i - 1) =~= a.take(i).drop_first());
        assert(b.drop_first().take(i - 1) =~= b.take(i).drop_first());
        lemma_lex_skip(a.drop_first(), b.drop_first(), ord, i - 1);
        assert(a.drop_first().skip(i - 1) =~= a.skip(i));
        assert(b.drop_first().skip(i - 1) =~= b.skip(i));
    }
}

/// Every element of `s` stands in the relation `rel` to every later one.
pub open spec fn sorted_by<T>(s: Seq<T>, rel: spec_fn(T, T) -> bool) -> bool {
    forall|i: int, j: int| #![trigger s[i], s[j]] 0 <= i < j < s.len() ==> rel(s[i], s[j])
}

/// Leaving elements out of a sorted sequence leaves it sorted.
pub proof fn lemma_filter_sorted<T>(s: Seq<T>, pred: spec_fn(T) -> bool, rel: spec_fn(T, T) -> bool)
    requires
        sorted_by(s, rel),
    ensures
        sorted_by(s.filter(pred), rel),
    decreases s.len(),
{
    reveal(Seq::filter);
    if s.len() > 0 {
        let front = s.drop_last();
        assert forall|i: int, j: int| #![trigger front[i], front[j]] 0 <= i < j < front.len() implies rel(
            front[i],
            front[j],
        ) by {
            assert(front[i] == s[i] && front[j] == s[j]);
        }
        lemma_filter_sorted(front, pred, rel);
        let kept = front.filter(pred);
        let out = s.filter(pred);
        if pred(s.last()) {
            assert forall|i: int, j: int| #![trigger out[i], out[j]] 0 <= i < j < out.len() implies rel(
                out[i],
                out[j],
            ) by {
                if j < kept.len() {
                    assert(out[i] == kept[i] && out[j] == kept[j]);
                } else {
                    assert(out[i] == kept[i]);
                    assert(kept.contains(kept[i]));
                    front.lemma_filter_contains_rev(pred, kept[i]);
                    let k = choose|k: int| 0 <= k < front.len() && front[k] == kept[i];
                    assert(front[k] == s[k]);
                    assert(out[j] == s[s.len() - 1]);
                }
            }
        }
    }
}

/// What stays after filtering is what the filter accepts.
pub proof fn lemma_filter_take_push<T>(s: Seq<T>, pred: spec_fn(T) -> bool, i: int)
    requires
        0 <= i < s.len(),
    ensures
        s.take(i + 1).filter(pred) == if pred(s[i]) {
            s.take(i).filter(pred).push(s[i])
        } else {
            s.take(i).filter(pred)
        },
{
    reveal(Seq::filter);
    assert(s.take(i + 1).drop_last() =~= s.take(i));
    assert(s.take(i + 1).last() == s[i]);
}

/// A test that every element of `s` passes keeps all of `s`.
pub proof fn lemma_filter_all<T>(s: Seq<T>, p: spec_fn(T) -> bool)
    requires
        forall|i: int| 0 <= i < s.len() ==> p(#[trigger] s[i]),
    ensures
        s.filter(p) == s,
    decreases s.len(),
{
    reveal(Seq::filter);
    if s.len() > 0 {
        let front = s.drop_last();
        assert forall|i: int| 0 <= i < front.len() implies p(#[trigger] front[i]) by {
            assert(front[i] == s[i]);
        }
        lemma_filter_all(front, p);
        assert(s.last() == s[s.len() - 1]);
        assert(s =~= front.push(s.last()));
    } else {
        assert(s.filter(p) =~= s);
    }
}

/// Filtering twice keeps what passes both tests.
pub proof fn lemma_filter_twice<T>(
    s: Seq<T>,
    p: spec_fn(T) -> bool,
    q: spec_fn(T) -> bool,
    both: spec_fn(T) -> bool,
)
    requires
        forall|i: int| 0 <= i < s.len() ==> both(#[trigger] s[i]) == (p(s[i]) && q(s[i])),
    ensures
        s.filter(p).filter(q) == s.filter(both),
    decreases s.len(),
{
    reveal(Seq::filter);
    if s.len() > 0 {
        let front = s.drop_last();
        assert forall|i: int| 0 <= i < front.len() implies both(#[trigger] front[i]) == (p(front[i])
            && q(front[i])) by {
            assert(front[i] == s[i]);
        }
        lemma_filter_twice(front, p, q, both);
        let x = s.last();
        assert(x == s[s.len() - 1]);
        if p(x) {
            let fp = front.filter(p);
            assert(fp.push(x).drop_last() =~= fp);
            assert(fp.push(x).last() == x);
        }
    }
}

} // verus!
