use vstd::prelude::*;
use crate::assoc::{
    ascending, find, has_key, increasing, key_differs, key_is, lemma_find_filter_pass,
    lemma_find_filter_stop, lemma_find_same_key, lemma_has_key, lemma_position_is, position, put,
    weak_order, without,
};
use crate::order::{
    lemma_filter_all, lemma_filter_sorted, lemma_filter_take_push,
    lemma_filter_twice, Order,
};

verus! {

/// A value that can be copied with its mathematical value kept.
pub trait Replica: DeepView + Sized {
    fn replica(&self) -> (r: Self)
        ensures
            r.deep_view() == self.deep_view(),
    ;
}

/// A value that is ordered, up to an equivalence, and so can be the key of an
/// ordered list of entries.
pub trait Key: Replica {
    /// The order of the keys' mathematical values.
    spec fn order() -> spec_fn(Self::V, Self::V) -> Order;

    proof fn order_is_weak()
        ensures
            weak_order(Self::order()),
    ;

    fn compare_to(&self, other: &Self) -> (o: Order)
        ensures
            o == Self::order()(self.deep_view(), other.deep_view()),
    ;
}

/// The test "the key occurs in `b`" on entries.
pub open spec fn key_in<K, V, W>(b: Seq<(K, W)>, ord: spec_fn(K, K) -> Order) -> spec_fn(
    (K, V),
) -> bool {
    |e: (K, V)| has_key(b, e.0, ord)
}

/// The entries of `a` whose key occurs in `b`.
pub open spec fn common<K, V, W>(a: Seq<(K, V)>, b: Seq<(K, W)>, ord: spec_fn(K, K) -> Order) -> Seq<
    (K, V),
> {
    a.filter(key_in(b, ord))
}

/// The position in `s` of the first entry with key `k`, or the length of `s`.
pub fn entries_position<K: Key, V: DeepView>(s: &Vec<(K, V)>, k: &K) -> (i: usize)
    ensures
        i == position(s.deep_view(), k.deep_view(), K::order()),
        i <= s.len(),
{
    let ghost sv = s.deep_view();
    let mut i: usize = 0;
    while i < s.len()
        invariant
            i <= s.len(),
            sv == s.deep_view(),
            forall|j: int| 0 <= j < i ==> (K::order())(#[trigger] sv[j].0, k.deep_view()) != Order::Equal,
        decreases s.len() - i,
    {
        assert(sv[i as int].0 == s[i as int].0.deep_view());
        match s[i].0.compare_to(k) {
            Order::Equal => {
                proof {
                    lemma_position_is(sv, k.deep_view(), K::order(), i as int);
                }
                return i;
            },
            _ => {},
        }
        i += 1;
    }
    proof {
        lemma_position_is(sv, k.deep_view(), K::order(), i as int);
    }
    i
}

/// The value of the first entry of `s` with key `k`.
pub fn entries_find<'a, K: Key, V: DeepView>(s: &'a Vec<(K, V)>, k: &K) -> (r: Option<&'a V>)
    ensures
        r.deep_view() == find(s.deep_view(), k.deep_view(), K::order()),
{
    let i = entries_position(s, k);
    if i < s.len() {
        assert(s.deep_view()[i as int].1 == s[i as int].1.deep_view());
        Some(&s[i].1)
    } else {
        None
    }
}

/// Whether `s` has an entry with key `k`.
pub fn entries_has_key<K: Key, V: DeepView>(s: &Vec<(K, V)>, k: &K) -> (r: bool)
    ensures
        r == has_key(s.deep_view(), k.deep_view(), K::order()),
{
    entries_position(s, k) < s.len()
}

/// A copy of a list of entries.
pub fn entries_copy<K: Replica, V: Replica>(s: &Vec<(K, V)>) -> (r: Vec<(K, V)>)
    ensures
        r.deep_view() == s.deep_view(),
{
    let mut out: Vec<(K, V)> = Vec::new();
    let mut i: usize = 0;
    while i < s.len()
        invariant
            i <= s.len(),
            out.len() == i,
            forall|j: int| 0 <= j < i ==> (#[trigger] out[j]).deep_view() == s[j].deep_view(),
        decreases s.len() - i,
    {
        out.push((s[i].0.replica(), s[i].1.replica()));
        i += 1;
    }
    assert(out.deep_view() =~= s.deep_view());
    out
}

/// Appends to `out` a copy of each entry of `s` whose key compares to `k` as
/// `want`.
fn push_side<K: Key, V: Replica>(out: &mut Vec<(K, V)>, s: &Vec<(K, V)>, k: &K, want: Order)
    ensures
        final(out).deep_view() == old(out).deep_view() + s.deep_view().filter(
            key_is(k.deep_view(), K::order(), want),
        ),
{
    let ghost sv = s.deep_view();
    let ghost pred = key_is::<K::V, V::V>(k.deep_view(), K::order(), want);
    let ghost start = out.deep_view();
    let mut i: usize = 0;
    proof {
        reveal(Seq::filter);
        assert(sv.take(0) =~= Seq::<(K::V, V::V)>::empty());
        assert(out.deep_view() =~= start + sv.take(0).filter(pred));
    }
    while i < s.len()
        invariant
            i <= s.len(),
            sv == s.deep_view(),
            pred == key_is::<K::V, V::V>(k.deep_view(), K::order(), want),
            out.deep_view() == start + sv.take(i as int).filter(pred),
        decreases s.len() - i,
    {
        let ghost before = out.deep_view();
        proof {
            lemma_filter_take_push(sv, pred, i as int);
            assert(sv[i as int] == s[i as int].deep_view());
        }
        let o = s[i].0.compare_to(k);
        if o == want {
            out.push((s[i].0.replica(), s[i].1.replica()));
            assert(out.deep_view() =~= before.push(sv[i as int]));
            assert(out.deep_view() =~= start + sv.take(i + 1).filter(pred));
        }
        i += 1;
    }
    assert(sv.take(s.len() as int) =~= sv);
}

/// The list `s` with the value of `k` set to `v`.
pub fn entries_put<K: Key, V: Replica>(s: &Vec<(K, V)>, k: K, v: V) -> (r: Vec<(K, V)>)
    ensures
        r.deep_view() == put(s.deep_view(), k.deep_view(), v.deep_view(), K::order()),
{
    let mut out: Vec<(K, V)> = Vec::new();
    assert(out.deep_view() =~= Seq::<(K::V, V::V)>::empty());
    push_side(&mut out, s, &k, Order::Less);
    let ghost lo = out.deep_view();
    let kk = k.replica();
    out.push((k, v));
    assert(out.deep_view() =~= lo.push((kk.deep_view(), v.deep_view())));
    push_side(&mut out, s, &kk, Order::Greater);
    assert(out.deep_view() =~= put(s.deep_view(), kk.deep_view(), v.deep_view(), K::order()));
    out
}

/// The list `s` without its entries with key `k`.
pub fn entries_without<K: Key, V: Replica>(s: &Vec<(K, V)>, k: &K) -> (r: Vec<(K, V)>)
    ensures
        r.deep_view() == without(s.deep_view(), k.deep_view(), K::order()),
{
    let ghost sv = s.deep_view();
    let ghost pred = key_differs::<K::V, V::V>(k.deep_view(), K::order());
    let mut out: Vec<(K, V)> = Vec::new();
    let mut i: usize = 0;
    proof {
        reveal(Seq::filter);
        assert(sv.take(0) =~= Seq::<(K::V, V::V)>::empty());
        assert(out.deep_view() =~= sv.take(0).filter(pred));
    }
    while i < s.len()
        invariant
            i <= s.len(),
            sv == s.deep_view(),
            pred == key_differs::<K::V, V::V>(k.deep_view(), K::order()),
            out.deep_view() == sv.take(i as int).filter(pred),
        decreases s.len() - i,
    {
        let ghost before = out.deep_view();
        proof {
            lemma_filter_take_push(sv, pred, i as int);
            assert(sv[i as int] == s[i as int].deep_view());
        }
        match s[i].0.compare_to(k) {
            Order::Equal => {},
            _ => {
                out.push((s[i].0.replica(), s[i].1.replica()));
                assert(out.deep_view() =~= before.push(sv[i as int]));
            },
        }
        i += 1;
    }
    assert(sv.take(s.len() as int) =~= sv);
    out
}

/// The entries of `a` whose key occurs in `b`.
pub fn entries_common<K: Key, V: Replica, W: DeepView>(a: &Vec<(K, V)>, b: &Vec<(K, W)>) -> (r: Vec<
    (K, V),
>)
    ensures
        r.deep_view() == common(a.deep_view(), b.deep_view(), K::order()),
{
    let ghost av = a.deep_view();
    let ghost pred = key_in::<K::V, V::V, W::V>(b.deep_view(), K::order());
    let mut out: Vec<(K, V)> = Vec::new();
    let mut i: usize = 0;
    proof {
        reveal(Seq::filter);
        assert(av.take(0) =~= Seq::<(K::V, V::V)>::empty());
        assert(out.deep_view() =~= av.take(0).filter(pred));
    }
    while i < a.len()
        invariant
            i <= a.len(),
            av == a.deep_view(),
            pred == key_in::<K::V, V::V, W::V>(b.deep_view(), K::order()),
            out.deep_view() == av.take(i as int).filter(pred),
        decreases a.len() - i,
    {
        let ghost before = out.deep_view();
        proof {
            lemma_filter_take_push(av, pred, i as int);
            assert(av[i as int] == a[i as int].deep_view());
        }
        if entries_has_key(b, &a[i].0) {
            out.push((a[i].0.replica(), a[i].1.replica()));
            assert(out.deep_view() =~= before.push(av[i as int]));
        }
        i += 1;
    }
    assert(av.take(a.len() as int) =~= av);
    out
}

/// The common entries keep the keys ascending.
pub proof fn lemma_common_ascending<K, V, W>(a: Seq<(K, V)>, b: Seq<(K, W)>, ord: spec_fn(K, K) -> Order)
    requires
        ascending(a, ord),
    ensures
        ascending(common(a, b, ord), ord),
{
    lemma_filter_sorted(a, key_in(b, ord), increasing::<K, V>(ord));
}

/// A key occurs among the common entries exactly when it occurs in both
/// lists, and it then holds what it holds in the first.
pub proof fn lemma_common_find<K, V, W>(
    a: Seq<(K, V)>,
    b: Seq<(K, W)>,
    k: K,
    ord: spec_fn(K, K) -> Order,
)
    requires
        weak_order(ord),
    ensures
        has_key(common(a, b, ord), k, ord) == (has_key(a, k, ord) && has_key(b, k, ord)),
        find(common(a, b, ord), k, ord) == if has_key(b, k, ord) {
            find(a, k, ord)
        } else {
            None
        },
{
    let pred = key_in::<K, V, W>(b, ord);
    assert forall|i: int| 0 <= i < a.len() && ord(#[trigger] a[i].0, k) == Order::Equal implies pred(
        a[i],
    ) == has_key(b, k, ord) by {
        lemma_find_same_key(b, a[i].0, k, ord);
    }
    if has_key(b, k, ord) {
        lemma_find_filter_pass(a, pred, k, ord);
    } else {
        lemma_find_filter_stop(a, pred, k, ord);
    }
}

/// The entries that a list has in common with itself are all its entries.
pub proof fn lemma_common_self<K, V>(a: Seq<(K, V)>, ord: spec_fn(K, K) -> Order)
    requires
        weak_order(ord),
    ensures
        common(a, a, ord) == a,
{
    let pred = key_in::<K, V, V>(a, ord);
    assert forall|i: int| 0 <= i < a.len() implies pred(#[trigger] a[i]) by {
        assert(ord(a[i].0, a[i].0) == ord(a[i].0, a[i].0).flip());
        lemma_has_key(a, a[i].0, ord);
    }
    lemma_filter_all(a, pred);
}

/// Taking the common entries with one list and then with another is taking
/// those with what the two have in common.
pub proof fn lemma_common_associative<K, V, W, X>(
    a: Seq<(K, V)>,
    b: Seq<(K, W)>,
    c: Seq<(K, X)>,
    ord: spec_fn(K, K) -> Order,
)
    requires
        weak_order(ord),
    ensures
        common(common(a, b, ord), c, ord) == common(a, common(b, c, ord), ord),
{
    let in_b = key_in::<K, V, W>(b, ord);
    let in_c = key_in::<K, V, X>(c, ord);
    let in_bc = key_in::<K, V, W>(common(b, c, ord), ord);
    assert forall|i: int| 0 <= i < a.len() implies in_bc(#[trigger] a[i]) == (in_b(a[i]) && in_c(
        a[i],
    )) by {
        lemma_common_find(b, c, a[i].0, ord);
    }
    lemma_filter_twice(a, in_b, in_c, in_bc);
}

} // verus!
