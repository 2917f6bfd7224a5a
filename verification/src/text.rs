use vstd::prelude::*;
use crate::order::{int_order, lex_order, total_order, lemma_lex_skip, Order};

verus! {

/// The characters of a string slice, in order.
pub fn chars_of(s: &str) -> (v: Vec<char>)
    ensures
        v@ == s@,
{
    let mut v: Vec<char> = Vec::new();
    for c in it: s.chars()
        invariant
            v@ == it.seq().take(it.index() as int),
            it.seq() == s@,
    {
        v.push(c);
    }
    v
}

/// `String::push` of std: the character is added at the end and nothing else
/// changes.
#[verifier::external_body]
fn push_char(s: &mut String, c: char)
    ensures
        final(s)@ == old(s)@.push(c),
{
    s.push(c)
}

/// The string made of the characters `v[from..to]`.
pub fn text_of(v: &Vec<char>, from: usize, to: usize) -> (s: String)
    requires
        from <= to <= v.len(),
    ensures
        s@ == v@.subrange(from as int, to as int),
{
    let mut s = String::new();
    let mut i: usize = from;
    while i < to
        invariant
            from <= i <= to <= v.len(),
            s@ == v@.subrange(from as int, i as int),
        decreases to - i,
    {
        push_char(&mut s, v[i]);
        assert(v@.subrange(from as int, i + 1) =~= v@.subrange(from as int, i as int).push(v@[i as int]));
        i += 1;
    }
    s
}

/// Characters compare by code point.
pub open spec fn char_order() -> spec_fn(char, char) -> Order {
    |x: char, y: char| int_order(x as int, y as int)
}

/// The order of the characters is a strict total order.
pub proof fn lemma_char_order_total()
    ensures
        total_order(char_order()),
{
    let ord = char_order();
    assert forall|x: char, y: char| #![trigger ord(x, y)] (ord(x, y) == Order::Equal) <==> (x == y) by {
        assert((x as int == y as int) ==> x == y);
    }
}

/// Lexicographic order of two texts by code point, which is the order of
/// std's strings.
pub open spec fn text_order(a: Seq<char>, b: Seq<char>) -> Order {
    lex_order(a, b, char_order())
}

/// Compares two character vectors lexicographically.
pub fn compare_chars(a: &Vec<char>, b: &Vec<char>) -> (o: Order)
    ensures
        o == text_order(a@, b@),
{
    let mut i: usize = 0;
    proof {
        lemma_char_order_total();
    }
    while i < a.len() && i < b.len()
        invariant
            i <= a.len(),
            i <= b.len(),
            a@.take(i as int) == b@.take(i as int),
            total_order(char_order()),
        decreases a.len() - i,
    {
        proof {
            lemma_lex_skip(a@, b@, char_order(), i as int);
            let x = a@[i as int];
            let y = b@[i as int];
            assert(a@.skip(i as int)[0] == x);
            assert(b@.skip(i as int)[0] == y);
            assert(char_order()(x, y) == int_order(x as int, y as int));
            assert(lex_order(a@.skip(i as int), b@.skip(i as int), char_order()) == match char_order()(x, y) {
                Order::Equal => lex_order(a@.skip(i as int).drop_first(), b@.skip(i as int).drop_first(), char_order()),
                o => o,
            });
        }
        if a[i] < b[i] {
            return Order::Less;
        }
        if b[i] < a[i] {
            return Order::Greater;
        }
        proof {
            assert(a@[i as int] == b@[i as int]);
            assert(a@.take(i + 1) =~= a@.take(i as int).push(a@[i as int]));
            assert(b@.take(i + 1) =~= b@.take(i as int).push(b@[i as int]));
        }
        i += 1;
    }
    proof {
        lemma_lex_skip(a@, b@, char_order(), i as int);
    }
    if i < b.len() {
        Order::Less
    } else if i < a.len() {
        Order::Greater
    } else {
        Order::Equal
    }
}

/// Compares two strings lexicographically by code point.
pub fn compare_text(a: &str, b: &str) -> (o: Order)
    ensures
        o == text_order(a@, b@),
{
    let x = chars_of(a);
    let y = chars_of(b);
    compare_chars(&x, &y)
}

/// Whether `c` is one of the ten decimal digits.
pub open spec fn is_digit(c: char) -> bool {
    '0' <= c <= '9'
}

/// The number that a decimal digit stands for.
pub open spec fn digit_value(c: char) -> nat {
    (c as int - '0' as int) as nat
}

/// The decimal digit that stands for `d`, for `d` below ten.
pub open spec fn digit_char(d: nat) -> char {
    if d == 0 {
        '0'
    } else if d == 1 {
        '1'
    } else if d == 2 {
        '2'
    } else if d == 3 {
        '3'
    } else if d == 4 {
        '4'
    } else if d == 5 {
        '5'
    } else if d == 6 {
        '6'
    } else if d == 7 {
        '7'
    } else if d == 8 {
        '8'
    } else {
        '9'
    }
}

/// Whether every character of `s` is a decimal digit.
pub open spec fn all_digits(s: Seq<char>) -> bool {
    forall|i: int| 0 <= i < s.len() ==> is_digit(#[trigger] s[i])
}

/// The number written by the digits of `s`, most significant first.
pub open spec fn decimal_value(s: Seq<char>) -> nat
    decreases s.len(),
{
    if s.len() == 0 {
        0
    } else {
        decimal_value(s.drop_last()) * 10 + digit_value(s.last())
    }
}

/// The shortest decimal notation of `n`.
pub open spec fn decimal_text(n: nat) -> Seq<char>
    decreases n,
{
    if n < 10 {
        seq![digit_char(n)]
    } else {
        decimal_text(n / 10).push(digit_char(n % 10))
    }
}

/// The number that a text denotes: `Some` exactly when the text is one or more
/// decimal digits whose value fits in 64 bits.
pub open spec fn number_of_text(s: Seq<char>) -> Option<u64> {
    if s.len() > 0 && all_digits(s) && decimal_value(s) <= u64::MAX {
        Some(decimal_value(s) as u64)
    } else {
        None
    }
}

/// A number's decimal notation is made of digits and denotes that number.
pub proof fn lemma_decimal_text(n: nat)
    ensures
        decimal_text(n).len() > 0,
        all_digits(decimal_text(n)),
        decimal_value(decimal_text(n)) == n,
    decreases n,
{
    if n < 10 {
        let s = seq![digit_char(n)];
        assert(s.drop_last() =~= Seq::<char>::empty());
        assert(decimal_value(s.drop_last()) == 0);
        assert(s.last() == digit_char(n));
    } else {
        lemma_decimal_text(n / 10);
        let t = decimal_text(n / 10);
        let s = t.push(digit_char(n % 10));
        assert(s.drop_last() =~= t);
        assert(s.last() == digit_char(n % 10));
        assert forall|i: int| 0 <= i < s.len() implies is_digit(#[trigger] s[i]) by {
            if i < t.len() {
                assert(s[i] == t[i]);
            }
        }
    }
}

/// The value of a prefix never exceeds the value of the whole text.
pub proof fn lemma_decimal_value_prefix(s: Seq<char>, k: int)
    requires
        0 <= k <= s.len(),
    ensures
        decimal_value(s.take(k)) <= decimal_value(s),
    decreases s.len() - k,
{
    if k == s.len() {
        assert(s.take(k) =~= s);
    } else {
        lemma_decimal_value_prefix(s.drop_last(), k);
        assert(s.drop_last().take(k) =~= s.take(k));
    }
}

/// The digit for `d` as a string slice.
fn digit_text(d: u64) -> (r: &'static str)
    requires
        d < 10,
    ensures
        r@ == seq![digit_char(d as nat)],
{
    proof {
        reveal_strlit("0");
        reveal_strlit("1");
        reveal_strlit("2");
        reveal_strlit("3");
        reveal_strlit("4");
        reveal_strlit("5");
        reveal_strlit("6");
        reveal_strlit("7");
        reveal_strlit("8");
        reveal_strlit("9");
    }
    let r = if d == 0 {
        "0"
    } else if d == 1 {
        "1"
    } else if d == 2 {
        "2"
    } else if d == 3 {
        "3"
    } else if d == 4 {
        "4"
    } else if d == 5 {
        "5"
    } else if d == 6 {
        "6"
    } else if d == 7 {
        "7"
    } else if d == 8 {
        "8"
    } else {
        "9"
    };
    assert(r@ =~= seq![digit_char(d as nat)]);
    r
}

/// Appends the decimal notation of `n` to `out`.
pub fn push_decimal(out: &mut String, n: u64)
    ensures
        final(out)@ == old(out)@ + decimal_text(n as nat),
    decreases n,
{
    if n >= 10 {
        push_decimal(out, n / 10);
    }
    out.append(digit_text(n % 10));
    proof {
        if n >= 10 {
            assert(final(out)@ =~= old(out)@ + decimal_text(n as nat));
        } else {
            assert(final(out)@ =~= old(out)@ + decimal_text(n as nat));
        }
    }
}

/// Reads `v[from..to]` as a decimal number.
pub fn parse_number(v: &Vec<char>, from: usize, to: usize) -> (r: Option<u64>)
    requires
        from <= to <= v.len(),
    ensures
        r == number_of_text(v@.subrange(from as int, to as int)),
{
    let ghost s = v@.subrange(from as int, to as int);
    if from == to {
        return None;
    }
    let mut acc: u64 = 0;
    let mut i: usize = from;
    while i < to
        invariant
            from <= i <= to <= v.len(),
            s == v@.subrange(from as int, to as int),
            all_digits(s.take(i - from)),
            acc == decimal_value(s.take(i - from)),
        decreases to - i,
    {
        let c = v[i];
        let ghost k = i - from;
        proof {
            assert(s[k] == c);
            assert(s.take(k + 1).drop_last() =~= s.take(k));
            assert(s.take(k + 1).last() == c);
            lemma_decimal_value_prefix(s, k + 1);
        }
        if c < '0' || c > '9' {
            assert(!is_digit(s[k]));
            return None;
        }
        let d: u64 = (c as u32 - '0' as u32) as u64;
        assert(d == digit_value(c));
        if acc > (u64::MAX - d) / 10 {
            return None;
        }
        acc = acc * 10 + d;
        proof {
            assert forall|j: int| 0 <= j < s.take(k + 1).len() implies is_digit(
                #[trigger] s.take(k + 1)[j],
            ) by {
                if j < k {
                    assert(s.take(k + 1)[j] == s.take(k)[j]);
                }
            }
        }
        i += 1;
    }
    assert(s.take(to - from) =~= s);
    Some(acc)
}

/// The position of the first `c` in `s`, or the length of `s` where there is
/// none.
pub open spec fn first_index(s: Seq<char>, c: char) -> int
    decreases s.len(),
{
    if s.len() == 0 || s[0] == c {
        0
    } else {
        1 + first_index(s.drop_first(), c)
    }
}

/// `k` is the position of the first `c` in `s` exactly when no `c` stands
/// before `k` and `k` is either the end of `s` or the position of a `c`.
pub proof fn lemma_first_index(s: Seq<char>, c: char, k: int)
    requires
        0 <= k <= s.len(),
        forall|j: int| 0 <= j < k ==> s[j] != c,
        k < s.len() ==> s[k] == c,
    ensures
        first_index(s, c) == k,
    decreases s.len(),
{
    if k > 0 {
        let t = s.drop_first();
        assert forall|j: int| 0 <= j < k - 1 implies t[j] != c by {
            assert(t[j] == s[j + 1]);
        }
        lemma_first_index(t, c, k - 1);
    }
}

/// The pieces of `s` between the occurrences of `c`; there is always at least
/// one piece, and a piece may be empty.
pub open spec fn split_on(s: Seq<char>, c: char) -> Seq<Seq<char>>
    decreases s.len(),
{
    let i = first_index(s, c);
    if i < 0 || i >= s.len() {
        seq![s]
    } else {
        seq![s.take(i)] + split_on(s.skip(i + 1), c)
    }
}

/// The pieces of `parts` with one `c` between each two neighbours.
pub open spec fn join(parts: Seq<Seq<char>>, c: char) -> Seq<char>
    decreases parts.len(),
{
    if parts.len() == 0 {
        Seq::empty()
    } else if parts.len() == 1 {
        parts[0]
    } else {
        parts[0] + seq![c] + join(parts.drop_first(), c)
    }
}

/// Adding a piece at the end of a non-empty list adds a separator and the
/// piece to the joined text.
pub proof fn lemma_join_push(parts: Seq<Seq<char>>, x: Seq<char>, c: char)
    requires
        parts.len() > 0,
    ensures
        join(parts.push(x), c) == join(parts, c) + seq![c] + x,
    decreases parts.len(),
{
    let p = parts.push(x);
    assert(p[0] == parts[0]);
    if parts.len() == 1 {
        assert(p.drop_first() =~= seq![x]);
        assert(join(p.drop_first(), c) == x);
        assert(join(p, c) =~= join(parts, c) + seq![c] + x);
    } else {
        lemma_join_push(parts.drop_first(), x, c);
        assert(p.drop_first() =~= parts.drop_first().push(x));
        assert(join(p, c) =~= join(parts, c) + seq![c] + x);
    }
}

/// Splitting a joined text gives the pieces back, provided that there is at
/// least one piece and none holds the separator.
pub proof fn lemma_split_join(parts: Seq<Seq<char>>, c: char)
    requires
        parts.len() > 0,
        forall|i: int| 0 <= i < parts.len() ==> !(#[trigger] parts[i]).contains(c),
    ensures
        split_on(join(parts, c), c) == parts,
    decreases parts.len(),
{
    let s = join(parts, c);
    let a = parts[0];
    assert(!a.contains(c));
    if parts.len() == 1 {
        assert forall|j: int| 0 <= j < a.len() implies a[j] != c by {
            if a[j] == c {
                assert(a.contains(c));
            }
        }
        lemma_first_index(a, c, a.len() as int);
        assert(parts =~= seq![a]);
    } else {
        let rest = parts.drop_first();
        assert forall|i: int| 0 <= i < rest.len() implies !(#[trigger] rest[i]).contains(c) by {
            assert(rest[i] == parts[i + 1]);
        }
        lemma_split_join(rest, c);
        assert forall|j: int| 0 <= j < a.len() implies s[j] != c by {
            if a[j] == c {
                assert(a.contains(c));
            }
        }
        assert(s[a.len() as int] == c);
        lemma_first_index(s, c, a.len() as int);
        assert(s.take(a.len() as int) =~= a);
        assert(s.skip(a.len() as int + 1) =~= join(rest, c));
        assert(parts =~= seq![a] + rest);
    }
}

/// The position in `v[from..to]` of the first `c`, counted from the start of
/// `v`; `to` where there is none.
pub fn find_char(v: &Vec<char>, from: usize, to: usize, c: char) -> (j: usize)
    requires
        from <= to <= v.len(),
    ensures
        from <= j <= to,
        j - from == first_index(v@.subrange(from as int, to as int), c),
{
    let mut j: usize = from;
    while j < to && v[j] != c
        invariant
            from <= j <= to <= v.len(),
            forall|k: int| from <= k < j ==> v@[k] != c,
        decreases to - j,
    {
        j += 1;
    }
    proof {
        lemma_first_index(v@.subrange(from as int, to as int), c, j - from);
    }
    j
}

/// The pieces of `v[from..to]` between the occurrences of `sep`, each as the
/// pair of its bounds in `v`.
pub fn split_ranges(v: &Vec<char>, from: usize, to: usize, sep: char) -> (r: Vec<(usize, usize)>)
    requires
        from <= to <= v.len(),
    ensures
        r.len() == split_on(v@.subrange(from as int, to as int), sep).len(),
        forall|k: int|
            0 <= k < r.len() ==> from <= (#[trigger] r[k]).0 <= r[k].1 <= to && v@.subrange(
                r[k].0 as int,
                r[k].1 as int,
            ) == split_on(v@.subrange(from as int, to as int), sep)[k],
{
    let ghost whole = split_on(v@.subrange(from as int, to as int), sep);
    let mut r: Vec<(usize, usize)> = Vec::new();
    let mut start: usize = from;
    let ghost mut parts: Seq<Seq<char>> = Seq::empty();
    loop
        invariant_except_break
            whole == parts + split_on(v@.subrange(start as int, to as int), sep),
        invariant
            from <= start <= to <= v.len(),
            whole == split_on(v@.subrange(from as int, to as int), sep),
            parts.len() == r.len(),
            forall|k: int|
                0 <= k < r.len() ==> from <= (#[trigger] r[k]).0 <= r[k].1 <= to && v@.subrange(
                    r[k].0 as int,
                    r[k].1 as int,
                ) == parts[k],
        ensures
            r.len() == whole.len(),
            forall|k: int|
                0 <= k < r.len() ==> from <= (#[trigger] r[k]).0 <= r[k].1 <= to && v@.subrange(
                    r[k].0 as int,
                    r[k].1 as int,
                ) == whole[k],
        decreases to - start,
    {
        let j = find_char(v, start, to, sep);
        let ghost rest = v@.subrange(start as int, to as int);
        let ghost piece = v@.subrange(start as int, j as int);
        proof {
            assert(rest.take(j - start) =~= piece);
        }
        r.push((start, j));
        if j == to {
            proof {
                assert(piece =~= rest);
                assert(split_on(rest, sep) == seq![rest]);
                parts = parts.push(piece);
                assert(whole =~= parts);
            }
            break;
        }
        proof {
            assert(rest.skip(j - start + 1) =~= v@.subrange(j + 1, to as int));
            assert(split_on(rest, sep) == seq![piece] + split_on(
                v@.subrange(j + 1, to as int),
                sep,
            ));
            let old_parts = parts;
            parts = parts.push(piece);
            assert(whole =~= parts + split_on(v@.subrange(j + 1, to as int), sep));
        }
        start = j + 1;
    }
    r
}

} // verus!
