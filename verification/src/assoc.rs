use vstd::prelude::*;
use crate::order::{lemma_filter_sorted, sorted_by, Order};

verus! {

/// `ord` orders keys up to an equivalence: exchanging the operands flips the
/// answer, `Less` is transitive, and keys that compare `Equal` take the same
/// place in every comparison.
pub open spec fn weak_order<K>(ord: spec_fn(K, K) -> Order) -> bool {
    &&& forall|x: K, y: K| #![trigger ord(x, y)] ord(x, y) == ord(y, x).flip()
    &&& forall|x: K, y: K, z: K|
        #![trigger ord(x, y), ord(y, z)]
        ord(x, y) == Order::Less && ord(y, z) == Order::Less ==> ord(x, z) == Order::Less
    &&& forall|x: K, y: K, z: K|
        #![trigger ord(x, y), ord(x, z)]
        ord(x, y) == Order::Equal ==> ord(x, z) == ord(y, z)
}

/// The test "the key compares to `k` as `o`" on entries.
pub open spec fn key_is<K, V>(k: K, ord: spec_fn(K, K) -> Order, o: Order) -> spec_fn((K, V)) -> bool {
    |e: (K, V)| ord(e.0, k) == o
}

/// The test "the key is not `k`" on entries.
pub open spec fn key_differs<K, V>(k: K, ord: spec_fn(K, K) -> Order) -> spec_fn((K, V)) -> bool {
    |e: (K, V)| ord(e.0, k) != Order::Equal
}

/// The relation "has the smaller key" on entries.
pub open spec fn increasing<K, V>(ord: spec_fn(K, K) -> Order) -> spec_fn((K, V), (K, V)) -> bool {
    |a: (K, V), b: (K, V)| ord(a.0, b.0) == Order::Less
}

/// The keys of `s` rise strictly; in particular no key occurs twice.
pub open spec fn ascending<K, V>(s: Seq<(K, V)>, ord: spec_fn(K, K) -> Order) -> bool {
    sorted_by(s, increasing(ord))
}

/// The position of the first entry with key `k`, or the length of `s` where
/// there is none.
pub open spec fn position<K, V>(s: Seq<(K, V)>, k: K, ord: spec_fn(K, K) -> Order) -> int
    decreases s.len(),
{
    if s.len() == 0 || ord(s[0].0, k) == Order::Equal {
        0
    } else {
        1 + position(s.drop_first(), k, ord)
    }
}

/// Whether `s` has an entry with key `k`.
pub open spec fn has_key<K, V>(s: Seq<(K, V)>, k: K, ord: spec_fn(K, K) -> Order) -> bool {
    position(s, k, ord) < s.len()
}

/// The value of the first entry with key `k`.
pub open spec fn find<K, V>(s: Seq<(K, V)>, k: K, ord: spec_fn(K, K) -> Order) -> Option<V> {
    if has_key(s, k, ord) {
        Some(s[position(s, k, ord)].1)
    } else {
        None
    }
}

/// The entries with a smaller key, then `k` with `v`, then the entries with a
/// greater key: `s` with the value of `k` set to `v`.
pub open spec fn put<K, V>(s: Seq<(K, V)>, k: K, v: V, ord: spec_fn(K, K) -> Order) -> Seq<(K, V)> {
    s.filter(key_is(k, ord, Order::Less)) + seq![(k, v)] + s.filter(key_is(k, ord, Order::Greater))
}

/// The entries of `s` but those with key `k`.
pub open spec fn without<K, V>(s: Seq<(K, V)>, k: K, ord: spec_fn(K, K) -> Order) -> Seq<(K, V)> {
    s.filter(key_differs(k, ord))
}

/// `i` is the position of `k` exactly when no entry before `i` has key `k` and
/// `i` is the end of `s` or the place of an entry with key `k`.
pub proof fn lemma_position_is<K, V>(s: Seq<(K, V)>, k: K, ord: spec_fn(K, K) -> Order, i: int)
    requires
        0 <= i <= s.len(),
        forall|j: int| 0 <= j < i ==> ord(#[trigger] s[j].0, k) != Order::Equal,
        i < s.len() ==> ord(s[i].0, k) == Order::Equal,
    ensures
        position(s, k, ord) == i,
    decreases s.len(),
{
    if i > 0 {
        let t = s.drop_first();
        assert(ord(s[0].0, k) != Order::Equal);
        assert forall|j: int| 0 <= j < i - 1 implies ord(#[trigger] t[j].0, k) != Order::Equal by {
            assert(t[j] == s[j + 1]);
        }
        lemma_position_is(t, k, ord, i - 1);
    }
}

/// The position of `k` is within `s` or at its end; no entry before it has
/// the key `k`, and the entry at it has, where there is one.
pub proof fn lemma_position<K, V>(s: Seq<(K, V)>, k: K, ord: spec_fn(K, K) -> Order)
    ensures
        0 <= position(s, k, ord) <= s.len(),
        forall|j: int| 0 <= j < position(s, k, ord) ==> ord(#[trigger] s[j].0, k) != Order::Equal,
        has_key(s, k, ord) ==> ord(s[position(s, k, ord)].0, k) == Order::Equal,
    decreases s.len(),
{
    if !(s.len() == 0 || ord(s[0].0, k) == Order::Equal) {
        let t = s.drop_first();
        lemma_position(t, k, ord);
        assert forall|j: int| 0 <= j < position(s, k, ord) implies ord(#[trigger] s[j].0, k)
            != Order::Equal by {
            if j > 0 {
                assert(s[j] == t[j - 1]);
            }
        }
    }
}

/// `s` has the key `k` exactly when one of its entries has it.
pub proof fn lemma_has_key<K, V>(s: Seq<(K, V)>, k: K, ord: spec_fn(K, K) -> Order)
    ensures
        has_key(s, k, ord) <==> exists|i: int| 0 <= i < s.len() && ord(#[trigger] s[i].0, k)
            == Order::Equal,
{
    lemma_position(s, k, ord);
    if has_key(s, k, ord) {
        let p = position(s, k, ord);
        assert(ord(s[p].0, k) == Order::Equal);
    }
}

/// What is found behind one more entry at the end.
pub proof fn lemma_find_push<K, V>(s: Seq<(K, V)>, e: (K, V), k: K, ord: spec_fn(K, K) -> Order)
    ensures
        find(s.push(e), k, ord) == if has_key(s, k, ord) {
            find(s, k, ord)
        } else if ord(e.0, k) == Order::Equal {
            Some(e.1)
        } else {
            None
        },
        has_key(s.push(e), k, ord) == (has_key(s, k, ord) || ord(e.0, k) == Order::Equal),
{
    lemma_position(s, k, ord);
    let t = s.push(e);
    let p = position(s, k, ord);
    if p < s.len() {
        assert forall|j: int| 0 <= j < p implies ord(#[trigger] t[j].0, k) != Order::Equal by {
            assert(t[j] == s[j]);
        }
        assert(t[p] == s[p]);
        lemma_position_is(t, k, ord, p);
    } else {
        assert forall|j: int| 0 <= j < s.len() implies ord(#[trigger] t[j].0, k) != Order::Equal by {
            assert(t[j] == s[j]);
        }
        if ord(e.0, k) == Order::Equal {
            lemma_position_is(t, k, ord, s.len() as int);
        } else {
            lemma_position_is(t, k, ord, t.len() as int);
        }
    }
}

/// What is found in two sequences put one behind the other.
pub proof fn lemma_find_add<K, V>(a: Seq<(K, V)>, b: Seq<(K, V)>, k: K, ord: spec_fn(K, K) -> Order)
    ensures
        find(a + b, k, ord) == if has_key(a, k, ord) {
            find(a, k, ord)
        } else {
            find(b, k, ord)
        },
        has_key(a + b, k, ord) == (has_key(a, k, ord) || has_key(b, k, ord)),
    decreases b.len(),
{
    if b.len() == 0 {
        assert(a + b =~= a);
    } else {
        let front = b.drop_last();
        lemma_find_add(a, front, k, ord);
        assert(a + b =~= (a + front).push(b.last()));
        assert(b =~= front.push(b.last()));
        lemma_find_push(a + front, b.last(), k, ord);
        lemma_find_push(front, b.last(), k, ord);
    }
}

/// A filter that lets every entry with key `k` pass changes nothing of what
/// is found under `k`.
pub proof fn lemma_find_filter_pass<K, V>(
    s: Seq<(K, V)>,
    pred: spec_fn((K, V)) -> bool,
    k: K,
    ord: spec_fn(K, K) -> Order,
)
    requires
        forall|i: int| 0 <= i < s.len() && ord(#[trigger] s[i].0, k) == Order::Equal ==> pred(s[i]),
    ensures
        find(s.filter(pred), k, ord) == find(s, k, ord),
        has_key(s.filter(pred), k, ord) == has_key(s, k, ord),
    decreases s.len(),
{
    reveal(Seq::filter);
    if s.len() > 0 {
        let front = s.drop_last();
        let x = s.last();
        assert forall|i: int| 0 <= i < front.len() && ord(#[trigger] front[i].0, k)
            == Order::Equal implies pred(front[i]) by {
            assert(front[i] == s[i]);
        }
        lemma_find_filter_pass(front, pred, k, ord);
        assert(s =~= front.push(x));
        lemma_find_push(front, x, k, ord);
        if pred(x) {
            lemma_find_push(front.filter(pred), x, k, ord);
        } else {
            assert(x == s[s.len() - 1]);
        }
    }
}

/// A filter that stops every entry with key `k` leaves nothing under `k`.
pub proof fn lemma_find_filter_stop<K, V>(
    s: Seq<(K, V)>,
    pred: spec_fn((K, V)) -> bool,
    k: K,
    ord: spec_fn(K, K) -> Order,
)
    requires
        forall|i: int| 0 <= i < s.len() && ord(#[trigger] s[i].0, k) == Order::Equal ==> !pred(s[i]),
    ensures
        !has_key(s.filter(pred), k, ord),
    decreases s.len(),
{
    reveal(Seq::filter);
    if s.len() > 0 {
        let front = s.drop_last();
        let x = s.last();
        assert forall|i: int| 0 <= i < front.len() && ord(#[trigger] front[i].0, k)
            == Order::Equal implies !pred(front[i]) by {
            assert(front[i] == s[i]);
        }
        lemma_find_filter_stop(front, pred, k, ord);
        if pred(x) {
            assert(x == s[s.len() - 1]);
            lemma_find_push(front.filter(pred), x, k, ord);
        }
    }
}

/// After `put`, the key `k` holds `v` and every other key holds what it held.
pub proof fn lemma_find_put<K, V>(s: Seq<(K, V)>, k: K, v: V, q: K, ord: spec_fn(K, K) -> Order)
    requires
        weak_order(ord),
    ensures
        find(put(s, k, v, ord), q, ord) == if ord(k, q) == Order::Equal {
            Some(v)
        } else {
            find(s, q, ord)
        },
        has_key(put(s, k, v, ord), q, ord) == (ord(k, q) == Order::Equal || has_key(s, q, ord)),
{
    let lo = s.filter(key_is(k, ord, Order::Less));
    let hi = s.filter(key_is(k, ord, Order::Greater));
    let mid = seq![(k, v)];
    let o = ord(q, k);
    assert(ord(k, q) == o.flip());
    assert forall|i: int| 0 <= i < s.len() && ord(#[trigger] s[i].0, q) == Order::Equal implies ord(
        s[i].0,
        k,
    ) == o by {
        assert(ord(s[i].0, q) == ord(q, s[i].0).flip());
        assert(ord(q, s[i].0) == Order::Equal);
        assert(ord(q, k) == ord(s[i].0, k));
    }
    assert(mid =~= Seq::<(K, V)>::empty().push((k, v)));
    lemma_find_push(Seq::<(K, V)>::empty(), (k, v), q, ord);
    lemma_position(Seq::<(K, V)>::empty(), q, ord);
    lemma_find_add(lo, mid, q, ord);
    lemma_find_add(lo + mid, hi, q, ord);
    if o == Order::Less {
        lemma_find_filter_pass(s, key_is(k, ord, Order::Less), q, ord);
        lemma_find_filter_stop(s, key_is(k, ord, Order::Greater), q, ord);
    } else if o == Order::Greater {
        lemma_find_filter_stop(s, key_is(k, ord, Order::Less), q, ord);
        lemma_find_filter_pass(s, key_is(k, ord, Order::Greater), q, ord);
    } else {
        lemma_find_filter_stop(s, key_is(k, ord, Order::Less), q, ord);
        lemma_find_filter_stop(s, key_is(k, ord, Order::Greater), q, ord);
    }
}

/// After `without`, the key `k` is gone and every other key holds what it
/// held.
pub proof fn lemma_find_without<K, V>(s: Seq<(K, V)>, k: K, q: K, ord: spec_fn(K, K) -> Order)
    requires
        weak_order(ord),
    ensures
        find(without(s, k, ord), q, ord) == if ord(k, q) == Order::Equal {
            None
        } else {
            find(s, q, ord)
        },
{
    assert(ord(k, q) == ord(q, k).flip());
    assert forall|i: int| 0 <= i < s.len() && ord(#[trigger] s[i].0, q) == Order::Equal implies ord(
        s[i].0,
        k,
    ) == ord(q, k) by {
        assert(ord(s[i].0, q) == ord(q, s[i].0).flip());
        assert(ord(q, s[i].0) == Order::Equal);
        assert(ord(q, k) == ord(s[i].0, k));
    }
    if ord(k, q) == Order::Equal {
        lemma_find_filter_stop(s, key_differs(k, ord), q, ord);
    } else {
        lemma_find_filter_pass(s, key_differs(k, ord), q, ord);
    }
}

/// Every entry of a filtered sequence is an entry of the sequence that the
/// filter accepts.
pub proof fn lemma_filter_entry<T>(s: Seq<T>, pred: spec_fn(T) -> bool, i: int)
    requires
        0 <= i < s.filter(pred).len(),
    ensures
        pred(s.filter(pred)[i]),
        s.contains(s.filter(pred)[i]),
{
    let x = s.filter(pred)[i];
    s.lemma_filter_pred(pred, i);
    assert(s.filter(pred).contains(x));
    s.lemma_filter_contains_rev(pred, x);
}

/// `put` keeps the keys ascending.
pub proof fn lemma_put_ascending<K, V>(s: Seq<(K, V)>, k: K, v: V, ord: spec_fn(K, K) -> Order)
    requires
        weak_order(ord),
        ascending(s, ord),
    ensures
        ascending(put(s, k, v, ord), ord),
{
    let lo = s.filter(key_is(k, ord, Order::Less));
    let hi = s.filter(key_is(k, ord, Order::Greater));
    let out = put(s, k, v, ord);
    let rel = increasing::<K, V>(ord);
    lemma_filter_sorted(s, key_is(k, ord, Order::Less), rel);
    lemma_filter_sorted(s, key_is(k, ord, Order::Greater), rel);
    assert forall|i: int, j: int| #![trigger out[i], out[j]] 0 <= i < j < out.len() implies rel(
        out[i],
        out[j],
    ) by {
        if j < lo.len() {
            assert(out[i] == lo[i] && out[j] == lo[j]);
        } else if i > lo.len() {
            assert(out[i] == hi[i - lo.len() - 1] && out[j] == hi[j - lo.len() - 1]);
        } else if i < lo.len() && j == lo.len() {
            assert(out[i] == lo[i]);
            lemma_filter_entry(s, key_is(k, ord, Order::Less), i);
        } else if i == lo.len() {
            assert(out[j] == hi[j - lo.len() - 1]);
            lemma_filter_entry(s, key_is(k, ord, Order::Greater), j - lo.len() - 1);
            assert(ord(out[j].0, k) == Order::Greater);
            assert(ord(k, out[j].0) == ord(out[j].0, k).flip());
        } else {
            assert(out[i] == lo[i]);
            assert(out[j] == hi[j - lo.len() - 1]);
            lemma_filter_entry(s, key_is(k, ord, Order::Less), i);
            lemma_filter_entry(s, key_is(k, ord, Order::Greater), j - lo.len() - 1);
            assert(ord(out[i].0, k) == Order::Less);
            assert(ord(out[j].0, k) == Order::Greater);
            assert(ord(k, out[j].0) == ord(out[j].0, k).flip());
        }
    }
}

/// Keys that compare `Equal` are found, or missing, together.
pub proof fn lemma_find_same_key<K, V>(s: Seq<(K, V)>, k: K, q: K, ord: spec_fn(K, K) -> Order)
    requires
        weak_order(ord),
        ord(k, q) == Order::Equal,
    ensures
        position(s, k, ord) == position(s, q, ord),
        has_key(s, k, ord) == has_key(s, q, ord),
        find(s, k, ord) == find(s, q, ord),
{
    lemma_position(s, k, ord);
    let p = position(s, k, ord);
    assert forall|j: int| 0 <= j < s.len() implies (ord(#[trigger] s[j].0, q) == Order::Equal) == (
    ord(s[j].0, k) == Order::Equal) by {
        assert(ord(s[j].0, k) == ord(k, s[j].0).flip());
        assert(ord(s[j].0, q) == ord(q, s[j].0).flip());
        assert(ord(k, s[j].0) == ord(q, s[j].0));
    }
    lemma_position_is(s, q, ord, p);
}

/// The entries of a sequence with ascending keys are found under their keys.
pub proof fn lemma_find_entry<K, V>(s: Seq<(K, V)>, i: int, ord: spec_fn(K, K) -> Order)
    requires
        weak_order(ord),
        ascending(s, ord),
        0 <= i < s.len(),
    ensures
        position(s, s[i].0, ord) == i,
        find(s, s[i].0, ord) == Some(s[i].1),
{
    let k = s[i].0;
    assert(ord(k, k) == ord(k, k).flip());
    assert forall|j: int| 0 <= j < i implies ord(#[trigger] s[j].0, k) != Order::Equal by {
        assert(increasing::<K, V>(ord)(s[j], s[i]));
    }
    lemma_position_is(s, k, ord, i);
}

/// Every entry of `put(s, k, v)` is the new entry or an entry of `s`.
pub proof fn lemma_put_entry<K, V>(s: Seq<(K, V)>, k: K, v: V, ord: spec_fn(K, K) -> Order, i: int)
    requires
        0 <= i < put(s, k, v, ord).len(),
    ensures
        put(s, k, v, ord)[i] == (k, v) || s.contains(put(s, k, v, ord)[i]),
{
    let lo = s.filter(key_is(k, ord, Order::Less));
    let hi = s.filter(key_is(k, ord, Order::Greater));
    let out = put(s, k, v, ord);
    if i < lo.len() {
        assert(out[i] == lo[i]);
        lemma_filter_entry(s, key_is(k, ord, Order::Less), i);
    } else if i > lo.len() {
        assert(out[i] == hi[i - lo.len() - 1]);
        lemma_filter_entry(s, key_is(k, ord, Order::Greater), i - lo.len() - 1);
    }
}

/// What is found in a sequence with ascending keys behind its first entry.
pub proof fn lemma_find_rest<K, V>(s: Seq<(K, V)>, q: K, ord: spec_fn(K, K) -> Order)
    requires
        weak_order(ord),
        ascending(s, ord),
        s.len() > 0,
    ensures
        ascending(s.drop_first(), ord),
        ord(s[0].0, q) == Order::Equal ==> !has_key(s.drop_first(), q, ord),
        ord(s[0].0, q) != Order::Equal ==> find(s.drop_first(), q, ord) == find(s, q, ord) && has_key(
            s.drop_first(),
            q,
            ord,
        ) == has_key(s, q, ord),
{
    let t = s.drop_first();
    let rel = increasing::<K, V>(ord);
    assert forall|i: int, j: int| #![trigger t[i], t[j]] 0 <= i < j < t.len() implies rel(
        t[i],
        t[j],
    ) by {
        assert(t[i] == s[i + 1] && t[j] == s[j + 1]);
    }
    lemma_position(t, q, ord);
    if ord(s[0].0, q) == Order::Equal {
        if has_key(t, q, ord) {
            let p = position(t, q, ord);
            assert(t[p] == s[p + 1]);
            assert(rel(s[0], s[p + 1]));
            assert(ord(s[0].0, s[p + 1].0) == ord(q, s[p + 1].0));
            assert(ord(q, s[p + 1].0) == ord(s[p + 1].0, q).flip());
        }
    }
}

} // verus!
