use vstd::prelude::*;
use crate::text::{
    all_digits, chars_of, decimal_text, find_char, first_index, is_digit, join, lemma_decimal_text,
    lemma_first_index, lemma_join_push, lemma_split_join, number_of_text,
    parse_number, push_decimal, split_on, split_ranges, text_of,
};
use crate::constraint::{VersionConstraint, VersionConstraintView};
use crate::version::{IdentView, Version, VersionIdentifier, VersionView};

verus! {

/// Why a text was not accepted.
#[derive(Clone, Copy, Debug, PartialEq, Eq, Structural)]
pub enum ParseError {
    /// The text is not the notation of a version.
    InvalidVersion,
    /// The text is not the notation of a version constraint.
    InvalidConstraint,
}

/// The notation of one identifier.
pub open spec fn ident_text(i: IdentView) -> Seq<char> {
    match i {
        IdentView::Numeric(n) => decimal_text(n as nat),
        IdentView::AlphaNumeric(s) => s,
    }
}

/// The notations of a list of numeric fields.
pub open spec fn field_texts(f: Seq<u64>) -> Seq<Seq<char>> {
    Seq::new(f.len(), |i: int| decimal_text(f[i] as nat))
}

/// The notations of a list of identifiers.
pub open spec fn ident_texts(s: Seq<IdentView>) -> Seq<Seq<char>> {
    Seq::new(s.len(), |i: int| ident_text(s[i]))
}

/// A tail of identifiers behind its mark, or nothing for an empty tail.
pub open spec fn tail_text(mark: char, s: Seq<IdentView>) -> Seq<char> {
    if s.len() > 0 {
        seq![mark] + join(ident_texts(s), '.')
    } else {
        Seq::empty()
    }
}

/// The canonical notation of a version: the fields joined by dots, then the
/// prerelease tail behind `-` and the build tail behind `+`, each joined by
/// dots and left out when empty.
pub open spec fn version_text(v: VersionView) -> Seq<char> {
    join(field_texts(v.fields), '.') + tail_text('-', v.prerelease) + tail_text('+', v.build)
}

/// Whether `c` may stand in an identifier: a digit, an ASCII letter or a
/// hyphen.
pub open spec fn is_ident_char(c: char) -> bool {
    is_digit(c) || ('a' <= c <= 'z') || ('A' <= c <= 'Z') || c == '-'
}

/// Whether every character of `s` may stand in an identifier.
pub open spec fn all_ident_chars(s: Seq<char>) -> bool {
    forall|i: int| 0 <= i < s.len() ==> is_ident_char(#[trigger] s[i])
}

/// The identifier that a text denotes: a non-empty text of identifier
/// characters; one made of digits alone is numeric and must fit in 64 bits.
pub open spec fn ident_of_text(s: Seq<char>) -> Option<IdentView> {
    if s.len() == 0 || !all_ident_chars(s) {
        None
    } else if all_digits(s) {
        match number_of_text(s) {
            Some(n) => Some(IdentView::Numeric(n)),
            None => None,
        }
    } else {
        Some(IdentView::AlphaNumeric(s))
    }
}

/// The identifiers that a list of texts denotes, if each text denotes one.
pub open spec fn idents_of_parts(parts: Seq<Seq<char>>) -> Option<Seq<IdentView>> {
    if forall|i: int| 0 <= i < parts.len() ==> (#[trigger] ident_of_text(parts[i])) is Some {
        Some(Seq::new(parts.len(), |i: int| ident_of_text(parts[i]).unwrap()))
    } else {
        None
    }
}

/// The numbers that a list of texts denotes, if each text denotes one.
pub open spec fn fields_of_parts(parts: Seq<Seq<char>>) -> Option<Seq<u64>> {
    if forall|i: int| 0 <= i < parts.len() ==> (#[trigger] number_of_text(parts[i])) is Some {
        Some(Seq::new(parts.len(), |i: int| number_of_text(parts[i]).unwrap()))
    } else {
        None
    }
}

/// The identifiers of a tail that starts behind the mark at `at`, or no
/// identifiers where `at` is the end of the text.
pub open spec fn tail_of_text(s: Seq<char>, at: int) -> Option<Seq<IdentView>> {
    if at < s.len() {
        idents_of_parts(split_on(s.subrange(at + 1, s.len() as int), '.'))
    } else {
        Some(Seq::empty())
    }
}

/// The version that a text denotes. The text up to the first `+` is the
/// version proper and the rest its build tail; of the version proper, the
/// text up to the first `-` holds the fields and the rest the prerelease tail.
pub open spec fn version_of_text(s: Seq<char>) -> Option<VersionView> {
    let plus = first_index(s, '+');
    let head = s.subrange(0, plus);
    let dash = first_index(head, '-');
    match (
        fields_of_parts(split_on(head.subrange(0, dash), '.')),
        tail_of_text(head, dash),
        tail_of_text(s, plus),
    ) {
        (Some(fields), Some(prerelease), Some(build)) => Some(
            VersionView { fields, prerelease, build },
        ),
        _ => None,
    }
}

/// An identifier that its notation denotes again: an alphanumeric one is not
/// empty, holds identifier characters only and at least one that is no digit.
pub open spec fn ident_wf(i: IdentView) -> bool {
    match i {
        IdentView::Numeric(_) => true,
        IdentView::AlphaNumeric(s) => s.len() > 0 && all_ident_chars(s) && !all_digits(s),
    }
}

/// A well-formed version has at least one field and well-formed identifiers.
pub open spec fn version_wf(v: VersionView) -> bool {
    &&& v.fields.len() > 0
    &&& forall|i: int| 0 <= i < v.prerelease.len() ==> ident_wf(#[trigger] v.prerelease[i])
    &&& forall|i: int| 0 <= i < v.build.len() ==> ident_wf(#[trigger] v.build[i])
}

/// Appends the notations of `v`, joined by dots, to `out`.
fn push_idents(out: &mut String, v: &Vec<VersionIdentifier>)
    ensures
        final(out)@ == old(out)@ + join(ident_texts(v.deep_view()), '.'),
{
    let ghost texts = ident_texts(v.deep_view());
    let mut i: usize = 0;
    assert(texts.take(0) =~= Seq::<Seq<char>>::empty());
    assert(out@ =~= old(out)@ + join(texts.take(0), '.'));
    while i < v.len()
        invariant
            i <= v.len(),
            texts == ident_texts(v.deep_view()),
            texts.len() == v.len(),
            out@ == old(out)@ + join(texts.take(i as int), '.'),
        decreases v.len() - i,
    {
        let ghost before = out@;
        if i > 0 {
            proof {
                reveal_strlit(".");
            }
            out.append(".");
        }
        match &v[i] {
            VersionIdentifier::Numeric(n) => {
                push_decimal(out, *n);
            },
            VersionIdentifier::AlphaNumeric(s) => {
                out.append(s.as_str());
            },
        }
        proof {
            let t = texts[i as int];
            assert(t == ident_text(v[i as int]@));
            assert(texts.take(i + 1) =~= texts.take(i as int).push(t));
            if i > 0 {
                lemma_join_push(texts.take(i as int), t, '.');
                assert(out@ =~= before + seq!['.'] + t);
                assert(out@ =~= old(out)@ + join(texts.take(i + 1), '.'));
            } else {
                assert(texts.take(1) =~= seq![t]);
                assert(join(texts.take(1), '.') == t);
                assert(join(texts.take(0), '.') =~= Seq::<char>::empty());
                assert(out@ =~= old(out)@ + join(texts.take(1), '.'));
            }
        }
        i += 1;
    }
    assert(texts.take(v.len() as int) =~= texts);
}

/// Appends the notations of `v`, joined by dots, to `out`.
fn push_fields(out: &mut String, v: &Vec<u64>)
    ensures
        final(out)@ == old(out)@ + join(field_texts(v@), '.'),
{
    let ghost texts = field_texts(v@);
    let mut i: usize = 0;
    assert(texts.take(0) =~= Seq::<Seq<char>>::empty());
    assert(out@ =~= old(out)@ + join(texts.take(0), '.'));
    while i < v.len()
        invariant
            i <= v.len(),
            texts == field_texts(v@),
            texts.len() == v.len(),
            out@ == old(out)@ + join(texts.take(i as int), '.'),
        decreases v.len() - i,
    {
        let ghost before = out@;
        if i > 0 {
            proof {
                reveal_strlit(".");
            }
            out.append(".");
        }
        push_decimal(out, v[i]);
        proof {
            let t = texts[i as int];
            assert(texts.take(i + 1) =~= texts.take(i as int).push(t));
            if i > 0 {
                lemma_join_push(texts.take(i as int), t, '.');
                assert(out@ =~= before + seq!['.'] + t);
                assert(out@ =~= old(out)@ + join(texts.take(i + 1), '.'));
            } else {
                assert(texts.take(1) =~= seq![t]);
                assert(join(texts.take(1), '.') == t);
                assert(join(texts.take(0), '.') =~= Seq::<char>::empty());
                assert(out@ =~= old(out)@ + join(texts.take(1), '.'));
            }
        }
        i += 1;
    }
    assert(texts.take(v.len() as int) =~= texts);
}

impl VersionIdentifier {
    /// The notation of the identifier.
    pub fn to_string(&self) -> (s: String)
        ensures
            s@ == ident_text(self@),
    {
        match self {
            VersionIdentifier::Numeric(n) => {
                let mut out = String::new();
                push_decimal(&mut out, *n);
                assert(out@ =~= decimal_text(*n as nat));
                out
            },
            VersionIdentifier::AlphaNumeric(s) => s.clone(),
        }
    }
}

impl Version {
    /// Appends the canonical notation of the version to `out`.
    pub fn write_to(&self, out: &mut String)
        ensures
            final(out)@ == old(out)@ + version_text(self@),
    {
        push_fields(out, &self.fields);
        if self.prerelease.len() > 0 {
            proof {
                reveal_strlit("-");
            }
            out.append("-");
            push_idents(out, &self.prerelease);
        }
        let ghost mid = out@;
        assert(mid =~= old(out)@ + join(field_texts(self@.fields), '.') + tail_text(
            '-',
            self@.prerelease,
        ));
        if self.build.len() > 0 {
            proof {
                reveal_strlit("+");
            }
            out.append("+");
            push_idents(out, &self.build);
        }
        assert(out@ =~= mid + tail_text('+', self@.build));
        assert(out@ =~= old(out)@ + version_text(self@));
    }

    /// The canonical notation of the version.
    pub fn to_string(&self) -> (s: String)
        ensures
            s@ == version_text(self@),
    {
        let mut out = String::new();
        self.write_to(&mut out);
        assert(out@ =~= version_text(self@));
        out
    }
}

/// Reads `v[from..to]` as one identifier.
fn parse_ident(v: &Vec<char>, from: usize, to: usize) -> (r: Option<VersionIdentifier>)
    requires
        from <= to <= v.len(),
    ensures
        r.deep_view() == ident_of_text(v@.subrange(from as int, to as int)),
{
    let ghost s = v@.subrange(from as int, to as int);
    if from == to {
        return None;
    }
    let mut digits = true;
    let mut i: usize = from;
    while i < to
        invariant
            from <= i <= to <= v.len(),
            s == v@.subrange(from as int, to as int),
            all_ident_chars(s.take(i - from)),
            digits == all_digits(s.take(i - from)),
        decreases to - i,
    {
        let c = v[i];
        let ghost k = i - from;
        assert(s[k] == c);
        let digit = '0' <= c && c <= '9';
        let letter = ('a' <= c && c <= 'z') || ('A' <= c && c <= 'Z');
        if !(digit || letter || c == '-') {
            assert(!is_ident_char(s[k]));
            return None;
        }
        proof {
            assert forall|j: int| 0 <= j < s.take(k + 1).len() implies is_ident_char(
                #[trigger] s.take(k + 1)[j],
            ) by {
                if j < k {
                    assert(s.take(k + 1)[j] == s.take(k)[j]);
                }
            }
            if digits && digit {
                assert forall|j: int| 0 <= j < s.take(k + 1).len() implies is_digit(
                    #[trigger] s.take(k + 1)[j],
                ) by {
                    if j < k {
                        assert(s.take(k + 1)[j] == s.take(k)[j]);
                    }
                }
            } else if !digit {
                assert(s.take(k + 1)[k] == c);
            } else {
                let j = choose|j: int| 0 <= j < s.take(k).len() && !is_digit(s.take(k)[j]);
                assert(s.take(k + 1)[j] == s.take(k)[j]);
            }
        }
        digits = digits && digit;
        i += 1;
    }
    assert(s.take(to - from) =~= s);
    if digits {
        match parse_number(v, from, to) {
            Some(n) => Some(VersionIdentifier::Numeric(n)),
            None => None,
        }
    } else {
        Some(VersionIdentifier::AlphaNumeric(text_of(v, from, to)))
    }
}

/// Reads `v[from..to]` as identifiers separated by dots.
fn parse_idents(v: &Vec<char>, from: usize, to: usize) -> (r: Option<Vec<VersionIdentifier>>)
    requires
        from <= to <= v.len(),
    ensures
        r.deep_view() == idents_of_parts(split_on(v@.subrange(from as int, to as int), '.')),
{
    let ghost parts = split_on(v@.subrange(from as int, to as int), '.');
    let ranges = split_ranges(v, from, to, '.');
    let mut out: Vec<VersionIdentifier> = Vec::new();
    let mut i: usize = 0;
    while i < ranges.len()
        invariant
            i <= ranges.len(),
            from <= to <= v.len(),
            parts == split_on(v@.subrange(from as int, to as int), '.'),
            ranges.len() == parts.len(),
            forall|k: int|
                0 <= k < ranges.len() ==> from <= (#[trigger] ranges[k]).0 <= ranges[k].1 <= to
                    && v@.subrange(ranges[k].0 as int, ranges[k].1 as int) == parts[k],
            out.len() == i,
            forall|k: int| 0 <= k < i ==> ident_of_text(parts[k]) == Some(#[trigger] out[k]@),
        decreases ranges.len() - i,
    {
        let (a, b) = ranges[i];
        assert(v@.subrange(ranges[i as int].0 as int, ranges[i as int].1 as int) == parts[i as int]);
        match parse_ident(v, a, b) {
            Some(id) => {
                out.push(id);
            },
            None => {
                assert(ident_of_text(parts[i as int]) is None);
                return None;
            },
        }
        i += 1;
    }
    proof {
        assert forall|k: int| 0 <= k < parts.len() implies (#[trigger] ident_of_text(
            parts[k],
        )) is Some by {
            assert(ident_of_text(parts[k]) == Some(out[k]@));
        }
        let want = idents_of_parts(parts).unwrap();
        assert forall|k: int| 0 <= k < out.len() implies out.deep_view()[k] == want[k] by {
            assert(ident_of_text(parts[k]) == Some(out[k]@));
        }
        assert(out.deep_view() =~= want);
    }
    Some(out)
}

/// Reads `v[from..to]` as numbers separated by dots.
fn parse_fields(v: &Vec<char>, from: usize, to: usize) -> (r: Option<Vec<u64>>)
    requires
        from <= to <= v.len(),
    ensures
        r.deep_view() == fields_of_parts(split_on(v@.subrange(from as int, to as int), '.')),
{
    let ghost parts = split_on(v@.subrange(from as int, to as int), '.');
    let ranges = split_ranges(v, from, to, '.');
    let mut out: Vec<u64> = Vec::new();
    let mut i: usize = 0;
    while i < ranges.len()
        invariant
            i <= ranges.len(),
            from <= to <= v.len(),
            parts == split_on(v@.subrange(from as int, to as int), '.'),
            ranges.len() == parts.len(),
            forall|k: int|
                0 <= k < ranges.len() ==> from <= (#[trigger] ranges[k]).0 <= ranges[k].1 <= to
                    && v@.subrange(ranges[k].0 as int, ranges[k].1 as int) == parts[k],
            out.len() == i,
            forall|k: int| 0 <= k < i ==> number_of_text(parts[k]) == Some(#[trigger] out[k]),
        decreases ranges.len() - i,
    {
        let (a, b) = ranges[i];
        assert(v@.subrange(ranges[i as int].0 as int, ranges[i as int].1 as int) == parts[i as int]);
        match parse_number(v, a, b) {
            Some(n) => {
                out.push(n);
            },
            None => {
                assert(number_of_text(parts[i as int]) is None);
                return None;
            },
        }
        i += 1;
    }
    proof {
        assert forall|k: int| 0 <= k < parts.len() implies (#[trigger] number_of_text(
            parts[k],
        )) is Some by {
            assert(number_of_text(parts[k]) == Some(out[k]));
        }
        assert(out.deep_view() =~= fields_of_parts(parts).unwrap());
    }
    Some(out)
}

/// Reads the tail of `v[from..to]` that starts behind the mark at `at`.
fn parse_tail(v: &Vec<char>, from: usize, at: usize, to: usize) -> (r: Option<
    Vec<VersionIdentifier>,
>)
    requires
        from <= at <= to <= v.len(),
    ensures
        r.deep_view() == tail_of_text(v@.subrange(from as int, to as int), at - from),
{
    if at < to {
        assert(v@.subrange(from as int, to as int).subrange(at - from + 1, to - from) =~= v@.subrange(
            at + 1,
            to as int,
        ));
        parse_idents(v, at + 1, to)
    } else {
        let r: Vec<VersionIdentifier> = Vec::new();
        assert(r.deep_view() =~= Seq::<IdentView>::empty());
        Some(r)
    }
}

/// Reads the characters `v[from..to]` as a version.
pub fn parse_version_chars(v: &Vec<char>, from: usize, to: usize) -> (r: Option<Version>)
    requires
        from <= to <= v.len(),
    ensures
        r.deep_view() == version_of_text(v@.subrange(from as int, to as int)),
{
    let ghost s = v@.subrange(from as int, to as int);
    let plus = find_char(v, from, to, '+');
    let ghost head = s.subrange(0, plus - from);
    assert(head =~= v@.subrange(from as int, plus as int));
    let dash = find_char(v, from, plus, '-');
    assert(head.subrange(0, dash - from) =~= v@.subrange(from as int, dash as int));
    let fields = parse_fields(v, from, dash);
    let prerelease = parse_tail(v, from, dash, plus);
    let build = parse_tail(v, from, plus, to);
    match (fields, prerelease, build) {
        (Some(fields), Some(prerelease), Some(build)) => {
            assert(fields.deep_view() =~= fields@);
            Some(Version { fields, prerelease, build })
        },
        _ => None,
    }
}

/// Reads a version from its notation: one or more numbers joined by dots,
/// then optionally `-` and a prerelease tail, then optionally `+` and a build
/// tail, each tail being identifiers joined by dots.
pub fn parse_version(s: &str) -> (r: Result<Version, ParseError>)
    ensures
        match version_of_text(s@) {
            Some(v) => r is Ok && r.unwrap()@ == v,
            None => r == Err::<Version, ParseError>(ParseError::InvalidVersion),
        },
{
    let v = chars_of(s);
    assert(v@.subrange(0, v.len() as int) =~= s@);
    match parse_version_chars(&v, 0, v.len()) {
        Some(version) => Ok(version),
        None => Err(ParseError::InvalidVersion),
    }
}

/// A joined text holds no character that is neither the separator nor in one
/// of the pieces.
pub proof fn lemma_join_free_of(parts: Seq<Seq<char>>, sep: char, c: char)
    requires
        c != sep,
        forall|i: int| 0 <= i < parts.len() ==> !(#[trigger] parts[i]).contains(c),
    ensures
        !join(parts, sep).contains(c),
    decreases parts.len(),
{
    let s = join(parts, sep);
    if parts.len() == 0 {
    } else if parts.len() == 1 {
        assert(!parts[0].contains(c));
    } else {
        let rest = parts.drop_first();
        assert forall|i: int| 0 <= i < rest.len() implies !(#[trigger] rest[i]).contains(c) by {
            assert(rest[i] == parts[i + 1]);
        }
        lemma_join_free_of(rest, sep, c);
        let a = parts[0];
        let r = join(rest, sep);
        assert(!a.contains(c));
        assert forall|j: int| 0 <= j < s.len() implies s[j] != c by {
            if j < a.len() {
                assert(s[j] == a[j]);
                if a[j] == c {
                    assert(a.contains(c));
                }
            } else if j > a.len() {
                assert(s[j] == r[j - a.len() - 1]);
                if r[j - a.len() - 1] == c {
                    assert(r.contains(c));
                }
            }
        }
    }
}

/// The notations of numeric fields denote those fields again.
pub proof fn lemma_fields_round_trip(f: Seq<u64>)
    ensures
        fields_of_parts(field_texts(f)) == Some(f),
        forall|i: int| 0 <= i < f.len() ==> all_digits(#[trigger] field_texts(f)[i]),
{
    let parts = field_texts(f);
    assert forall|i: int| 0 <= i < parts.len() implies number_of_text(#[trigger] parts[i]) == Some(
        f[i],
    ) && all_digits(parts[i]) by {
        lemma_decimal_text(f[i] as nat);
    }
    assert(fields_of_parts(parts).unwrap() =~= f);
}

/// The notations of well-formed identifiers denote those identifiers again.
pub proof fn lemma_idents_round_trip(s: Seq<IdentView>)
    requires
        forall|i: int| 0 <= i < s.len() ==> ident_wf(#[trigger] s[i]),
    ensures
        idents_of_parts(ident_texts(s)) == Some(s),
        forall|i: int| 0 <= i < s.len() ==> all_ident_chars(#[trigger] ident_texts(s)[i]),
{
    let parts = ident_texts(s);
    assert forall|i: int| 0 <= i < parts.len() implies ident_of_text(#[trigger] parts[i]) == Some(
        s[i],
    ) && all_ident_chars(parts[i]) by {
        assert(ident_wf(s[i]));
        match s[i] {
            IdentView::Numeric(n) => {
                lemma_decimal_text(n as nat);
            },
            IdentView::AlphaNumeric(t) => {},
        }
    }
    assert(idents_of_parts(parts).unwrap() =~= s);
}

/// The joined notations of well-formed identifiers hold neither `.` nor `+`
/// inside a piece, so that they split again into the same pieces and hold no
/// `+` at all.
proof fn lemma_tail_shape(s: Seq<IdentView>)
    requires
        s.len() > 0,
        forall|i: int| 0 <= i < s.len() ==> ident_wf(#[trigger] s[i]),
    ensures
        idents_of_parts(split_on(join(ident_texts(s), '.'), '.')) == Some(s),
        !join(ident_texts(s), '.').contains('+'),
{
    let parts = ident_texts(s);
    lemma_idents_round_trip(s);
    assert forall|i: int| 0 <= i < parts.len() implies !(#[trigger] parts[i]).contains('.') && !(
    parts[i]).contains('+') by {
        assert(all_ident_chars(parts[i]));
    }
    lemma_split_join(parts, '.');
    lemma_join_free_of(parts, '.', '+');
}

/// Reading the canonical notation of a well-formed version gives the version
/// back.
pub proof fn lemma_version_round_trip(v: VersionView)
    requires
        version_wf(v),
    ensures
        version_of_text(version_text(v)) == Some(v),
{
    let ftexts = field_texts(v.fields);
    let f = join(ftexts, '.');
    let p = tail_text('-', v.prerelease);
    let b = tail_text('+', v.build);
    let s = version_text(v);
    assert(s == f + p + b);
    lemma_fields_round_trip(v.fields);
    assert forall|i: int| 0 <= i < ftexts.len() implies !(#[trigger] ftexts[i]).contains('.') && !(
    ftexts[i]).contains('+') && !(ftexts[i]).contains('-') by {
        assert(all_digits(ftexts[i]));
    }
    lemma_split_join(ftexts, '.');
    lemma_join_free_of(ftexts, '.', '+');
    lemma_join_free_of(ftexts, '.', '-');
    if v.prerelease.len() > 0 {
        lemma_tail_shape(v.prerelease);
    }
    if v.build.len() > 0 {
        lemma_tail_shape(v.build);
    }
    // the first `+` is where the build tail starts
    let plus = f.len() + p.len();
    assert forall|j: int| 0 <= j < plus implies s[j] != '+' by {
        if j < f.len() {
            assert(s[j] == f[j]);
            if f[j] == '+' {
                assert(f.contains('+'));
            }
        } else if j > f.len() {
            let t = join(ident_texts(v.prerelease), '.');
            assert(s[j] == t[j - f.len() - 1]);
            if t[j - f.len() - 1] == '+' {
                assert(t.contains('+'));
            }
        } else {
            assert(s[j] == '-');
        }
    }
    lemma_first_index(s, '+', plus as int);
    let head = s.subrange(0, plus as int);
    assert(head =~= f + p);
    // the first `-` is where the prerelease tail starts
    assert forall|j: int| 0 <= j < f.len() implies head[j] != '-' by {
        assert(head[j] == f[j]);
        if f[j] == '-' {
            assert(f.contains('-'));
        }
    }
    lemma_first_index(head, '-', f.len() as int);
    assert(head.subrange(0, f.len() as int) =~= f);
    if v.prerelease.len() > 0 {
        assert(head.subrange(f.len() as int + 1, head.len() as int) =~= join(
            ident_texts(v.prerelease),
            '.',
        ));
    } else {
        assert(v.prerelease =~= Seq::<IdentView>::empty());
    }
    if v.build.len() > 0 {
        assert(s.subrange(plus as int + 1, s.len() as int) =~= join(ident_texts(v.build), '.'));
    } else {
        assert(v.build =~= Seq::<IdentView>::empty());
    }
}

/// The mark that opens the lower bound of a range.
pub open spec fn from_mark() -> Seq<char> {
    seq!['>', '=', ' ']
}

/// The mark that opens the upper bound of a range.
pub open spec fn below_mark() -> Seq<char> {
    seq!['<', ' ']
}

/// The canonical notation of a version constraint: the bare version for an
/// exact one, `^` or `~` before the version, `>= A < B` for a range with
/// either part left out where that side is open, and `*` where nothing is
/// asked.
pub open spec fn constraint_text(c: VersionConstraintView) -> Seq<char> {
    match c {
        VersionConstraintView::Exact(v) => version_text(v),
        VersionConstraintView::Caret(v) => seq!['^'] + version_text(v),
        VersionConstraintView::Tilde(v) => seq!['~'] + version_text(v),
        VersionConstraintView::Range(Some(a), Some(b)) => from_mark() + version_text(a) + seq![' ']
            + below_mark() + version_text(b),
        VersionConstraintView::Range(Some(a), None) => from_mark() + version_text(a),
        VersionConstraintView::Range(None, Some(b)) => below_mark() + version_text(b),
        VersionConstraintView::Range(None, None) => seq!['*'],
        VersionConstraintView::Any => seq!['*'],
    }
}

/// Whether `s` begins with `mark`.
pub open spec fn starts_with(s: Seq<char>, mark: Seq<char>) -> bool {
    mark.len() <= s.len() && s.subrange(0, mark.len() as int) == mark
}

/// The range that a text behind `>= ` denotes: a version alone, or a version,
/// a blank, `< ` and a second version.
pub open spec fn range_of_text(rest: Seq<char>) -> Option<VersionConstraintView> {
    let i = first_index(rest, ' ');
    if i >= rest.len() {
        match version_of_text(rest) {
            Some(a) => Some(VersionConstraintView::Range(Some(a), None)),
            None => None,
        }
    } else {
        let tail = rest.subrange(i + 1, rest.len() as int);
        if starts_with(tail, below_mark()) {
            match (
                version_of_text(rest.subrange(0, i)),
                version_of_text(tail.subrange(2, tail.len() as int)),
            ) {
                (Some(a), Some(b)) => Some(VersionConstraintView::Range(Some(a), Some(b))),
                _ => None,
            }
        } else {
            None
        }
    }
}

/// The constraint that a text denotes.
pub open spec fn constraint_of_text(s: Seq<char>) -> Option<VersionConstraintView> {
    if s == seq!['*'] {
        Some(VersionConstraintView::Any)
    } else if s.len() > 0 && s[0] == '^' {
        match version_of_text(s.subrange(1, s.len() as int)) {
            Some(v) => Some(VersionConstraintView::Caret(v)),
            None => None,
        }
    } else if s.len() > 0 && s[0] == '~' {
        match version_of_text(s.subrange(1, s.len() as int)) {
            Some(v) => Some(VersionConstraintView::Tilde(v)),
            None => None,
        }
    } else if starts_with(s, from_mark()) {
        range_of_text(s.subrange(3, s.len() as int))
    } else if starts_with(s, below_mark()) {
        match version_of_text(s.subrange(2, s.len() as int)) {
            Some(b) => Some(VersionConstraintView::Range(None, Some(b))),
            None => None,
        }
    } else {
        match version_of_text(s) {
            Some(v) => Some(VersionConstraintView::Exact(v)),
            None => None,
        }
    }
}

impl VersionConstraint {
    /// The canonical notation of the constraint.
    pub fn to_string(&self) -> (s: String)
        ensures
            s@ == constraint_text(self@),
    {
        let mut out = String::new();
        proof {
            reveal_strlit("^");
            reveal_strlit("~");
            reveal_strlit(">= ");
            reveal_strlit("< ");
            reveal_strlit(" ");
            reveal_strlit("*");
        }
        match self {
            VersionConstraint::Exact(v) => {
                v.write_to(&mut out);
            },
            VersionConstraint::Caret(v) => {
                out.append("^");
                v.write_to(&mut out);
            },
            VersionConstraint::Tilde(v) => {
                out.append("~");
                v.write_to(&mut out);
            },
            VersionConstraint::Range(Some(a), Some(b)) => {
                out.append(">= ");
                a.write_to(&mut out);
                out.append(" ");
                out.append("< ");
                b.write_to(&mut out);
            },
            VersionConstraint::Range(Some(a), None) => {
                out.append(">= ");
                a.write_to(&mut out);
            },
            VersionConstraint::Range(None, Some(b)) => {
                out.append("< ");
                b.write_to(&mut out);
            },
            VersionConstraint::Range(None, None) => {
                out.append("*");
            },
            VersionConstraint::Any => {
                out.append("*");
            },
        }
        assert(out@ =~= constraint_text(self@));
        out
    }
}

/// Whether `v[from..to]` begins with the two characters `a`, `b`.
fn starts_with_pair(v: &Vec<char>, from: usize, to: usize, a: char, b: char) -> (r: bool)
    requires
        from <= to <= v.len(),
    ensures
        r == starts_with(v@.subrange(from as int, to as int), seq![a, b]),
{
    let ghost s = v@.subrange(from as int, to as int);
    if to - from < 2 {
        return false;
    }
    let r = v[from] == a && v[from + 1] == b;
    proof {
        if r {
            assert(s.subrange(0, 2) =~= seq![a, b]);
        } else {
            assert(s.subrange(0, 2)[0] == s[0]);
            assert(s.subrange(0, 2)[1] == s[1]);
            assert(seq![a, b][0] == a);
            assert(seq![a, b][1] == b);
        }
    }
    r
}

/// Reads `v[from..to]`, the text behind `>= `, as a range.
fn parse_range(v: &Vec<char>, from: usize, to: usize) -> (r: Option<VersionConstraint>)
    requires
        from <= to <= v.len(),
    ensures
        r.deep_view() == range_of_text(v@.subrange(from as int, to as int)),
{
    let ghost rest = v@.subrange(from as int, to as int);
    let blank = find_char(v, from, to, ' ');
    if blank == to {
        return match parse_version_chars(v, from, to) {
            Some(a) => Some(VersionConstraint::Range(Some(a), None)),
            None => None,
        };
    }
    let ghost tail = rest.subrange(blank - from + 1, rest.len() as int);
    assert(tail =~= v@.subrange(blank + 1, to as int));
    assert(rest.subrange(0, blank - from) =~= v@.subrange(from as int, blank as int));
    if !starts_with_pair(v, blank + 1, to, '<', ' ') {
        return None;
    }
    assert(tail.subrange(2, tail.len() as int) =~= v@.subrange(blank + 3, to as int));
    match (parse_version_chars(v, from, blank), parse_version_chars(v, blank + 3, to)) {
        (Some(a), Some(b)) => Some(VersionConstraint::Range(Some(a), Some(b))),
        _ => None,
    }
}

/// Reads the characters of `v` as a version constraint.
fn parse_constraint_chars(v: &Vec<char>) -> (r: Option<VersionConstraint>)
    ensures
        r.deep_view() == constraint_of_text(v@),
{
    let n = v.len();
    let ghost s = v@;
    assert(s.subrange(0, n as int) =~= s);
    if n == 1 && v[0] == '*' {
        assert(s =~= seq!['*']);
        return Some(VersionConstraint::Any);
    }
    assert(s != seq!['*']) by {
        if s == seq!['*'] {
            assert(s.len() == 1);
            assert(s[0] == '*');
        }
    }
    if n > 0 && v[0] == '^' {
        return match parse_version_chars(v, 1, n) {
            Some(w) => Some(VersionConstraint::Caret(w)),
            None => None,
        };
    }
    if n > 0 && v[0] == '~' {
        return match parse_version_chars(v, 1, n) {
            Some(w) => Some(VersionConstraint::Tilde(w)),
            None => None,
        };
    }
    if starts_with_pair(v, 0, n, '>', '=') && n >= 3 && v[2] == ' ' {
        assert(s.subrange(0, 3) =~= from_mark()) by {
            assert(s.subrange(0, 2) == seq!['>', '=']);
            assert(s.subrange(0, 2)[0] == s[0]);
            assert(s.subrange(0, 2)[1] == s[1]);
        }
        return parse_range(v, 3, n);
    }
    assert(!starts_with(s, from_mark())) by {
        if starts_with(s, from_mark()) {
            let m = s.subrange(0, 3);
            assert(m[0] == '>' && m[1] == '=' && m[2] == ' ');
            assert(s.subrange(0, 2) =~= seq!['>', '=']);
        }
    }
    if starts_with_pair(v, 0, n, '<', ' ') {
        return match parse_version_chars(v, 2, n) {
            Some(b) => Some(VersionConstraint::Range(None, Some(b))),
            None => None,
        };
    }
    match parse_version_chars(v, 0, n) {
        Some(w) => Some(VersionConstraint::Exact(w)),
        None => None,
    }
}

/// Reads a version constraint from its notation: `*`; a version, alone or
/// behind `^` or `~`; or a range `>= A`, `< B` or `>= A < B`.
pub fn parse_constraint(s: &str) -> (r: Result<VersionConstraint, ParseError>)
    ensures
        match constraint_of_text(s@) {
            Some(c) => r is Ok && r.unwrap()@ == c,
            None => r == Err::<VersionConstraint, ParseError>(ParseError::InvalidConstraint),
        },
{
    let v = chars_of(s);
    match parse_constraint_chars(&v) {
        Some(c) => Ok(c),
        None => Err(ParseError::InvalidConstraint),
    }
}

/// The notation of a well-formed version starts with a digit and holds no
/// blank.
pub proof fn lemma_version_text_shape(v: VersionView)
    requires
        version_wf(v),
    ensures
        version_text(v).len() > 0,
        is_digit(version_text(v)[0]),
        !version_text(v).contains(' '),
{
    let ftexts = field_texts(v.fields);
    let f = join(ftexts, '.');
    let p = tail_text('-', v.prerelease);
    let b = tail_text('+', v.build);
    let s = version_text(v);
    lemma_fields_round_trip(v.fields);
    lemma_decimal_text(v.fields[0] as nat);
    assert(ftexts[0] == decimal_text(v.fields[0] as nat));
    assert(ftexts[0].len() > 0 && is_digit(ftexts[0][0]));
    assert(f.len() > 0 && f[0] == ftexts[0][0]) by {
        if ftexts.len() > 1 {
            assert(f == ftexts[0] + seq!['.'] + join(ftexts.drop_first(), '.'));
        }
    }
    assert(s[0] == f[0]);
    assert forall|i: int| 0 <= i < ftexts.len() implies !(#[trigger] ftexts[i]).contains(' ') by {
        assert(all_digits(ftexts[i]));
    }
    lemma_join_free_of(ftexts, '.', ' ');
    lemma_tail_free_of_blank('-', v.prerelease);
    lemma_tail_free_of_blank('+', v.build);
    assert forall|j: int| 0 <= j < s.len() implies s[j] != ' ' by {
        if j < f.len() {
            assert(s[j] == f[j]);
            if f[j] == ' ' {
                assert(f.contains(' '));
            }
        } else if j < f.len() + p.len() {
            assert(s[j] == p[j - f.len()]);
            if p[j - f.len()] == ' ' {
                assert(p.contains(' '));
            }
        } else {
            assert(s[j] == b[j - f.len() - p.len()]);
            if b[j - f.len() - p.len()] == ' ' {
                assert(b.contains(' '));
            }
        }
    }
}

/// The notation of a tail of well-formed identifiers holds no blank.
proof fn lemma_tail_free_of_blank(mark: char, s: Seq<IdentView>)
    requires
        mark != ' ',
        forall|i: int| 0 <= i < s.len() ==> ident_wf(#[trigger] s[i]),
    ensures
        !tail_text(mark, s).contains(' '),
{
    if s.len() > 0 {
        let parts = ident_texts(s);
        lemma_idents_round_trip(s);
        assert forall|i: int| 0 <= i < parts.len() implies !(#[trigger] parts[i]).contains(' ') by {
            assert(all_ident_chars(parts[i]));
        }
        lemma_join_free_of(parts, '.', ' ');
        let body = join(parts, '.');
        let t = tail_text(mark, s);
        assert forall|j: int| 0 <= j < t.len() implies t[j] != ' ' by {
            if j > 0 {
                assert(t[j] == body[j - 1]);
                if body[j - 1] == ' ' {
                    assert(body.contains(' '));
                }
            }
        }
    }
}

/// A constraint that its notation denotes again: its versions are well formed,
/// and it is not the range without bounds, which is written as `*`.
pub open spec fn constraint_text_wf(c: VersionConstraintView) -> bool {
    match c {
        VersionConstraintView::Exact(v) => version_wf(v),
        VersionConstraintView::Caret(v) => version_wf(v),
        VersionConstraintView::Tilde(v) => version_wf(v),
        VersionConstraintView::Range(Some(a), Some(b)) => version_wf(a) && version_wf(b),
        VersionConstraintView::Range(Some(a), None) => version_wf(a),
        VersionConstraintView::Range(None, Some(b)) => version_wf(b),
        VersionConstraintView::Range(None, None) => false,
        VersionConstraintView::Any => true,
    }
}

/// Reading the canonical notation of a well-formed constraint gives the
/// constraint back.
pub proof fn lemma_constraint_round_trip(c: VersionConstraintView)
    requires
        constraint_text_wf(c),
    ensures
        constraint_of_text(constraint_text(c)) == Some(c),
{
    let s = constraint_text(c);
    match c {
        VersionConstraintView::Exact(v) => {
            lemma_version_text_shape(v);
            lemma_version_round_trip(v);
            assert(s != seq!['*']) by {
                assert(seq!['*'][0] == '*');
            }
            assert(!starts_with(s, from_mark())) by {
                if starts_with(s, from_mark()) {
                    assert(s.subrange(0, 3)[0] == s[0]);
                }
            }
            assert(!starts_with(s, below_mark())) by {
                if starts_with(s, below_mark()) {
                    assert(s.subrange(0, 2)[0] == s[0]);
                }
            }
        },
        VersionConstraintView::Caret(v) => {
            lemma_version_round_trip(v);
            lemma_version_text_shape(v);
            assert(s.subrange(1, s.len() as int) =~= version_text(v));
            assert(s != seq!['*']) by {
                assert(seq!['*'][0] == '*');
            }
        },
        VersionConstraintView::Tilde(v) => {
            lemma_version_round_trip(v);
            lemma_version_text_shape(v);
            assert(s.subrange(1, s.len() as int) =~= version_text(v));
            assert(s != seq!['*']) by {
                assert(seq!['*'][0] == '*');
            }
        },
        VersionConstraintView::Range(Some(a), Some(b)) => {
            lemma_version_round_trip(a);
            lemma_version_round_trip(b);
            lemma_version_text_shape(a);
            lemma_version_text_shape(b);
            let at = version_text(a);
            let bt = version_text(b);
            assert(s != seq!['*']) by {
                assert(seq!['*'][0] == '*');
            }
            assert(s.subrange(0, 3) =~= from_mark());
            let rest = s.subrange(3, s.len() as int);
            assert(rest =~= at + seq![' '] + below_mark() + bt);
            assert forall|j: int| 0 <= j < at.len() implies rest[j] != ' ' by {
                assert(rest[j] == at[j]);
                if at[j] == ' ' {
                    assert(at.contains(' '));
                }
            }
            assert(rest[at.len() as int] == ' ');
            lemma_first_index(rest, ' ', at.len() as int);
            let tail = rest.subrange(at.len() as int + 1, rest.len() as int);
            assert(tail =~= below_mark() + bt);
            assert(tail.subrange(0, 2) =~= below_mark());
            assert(rest.subrange(0, at.len() as int) =~= at);
            assert(tail.subrange(2, tail.len() as int) =~= bt);
        },
        VersionConstraintView::Range(Some(a), None) => {
            lemma_version_round_trip(a);
            lemma_version_text_shape(a);
            let at = version_text(a);
            assert(s != seq!['*']) by {
                assert(seq!['*'][0] == '*');
            }
            assert(s.subrange(0, 3) =~= from_mark());
            let rest = s.subrange(3, s.len() as int);
            assert(rest =~= at);
            assert forall|j: int| 0 <= j < rest.len() implies rest[j] != ' ' by {
                if at[j] == ' ' {
                    assert(at.contains(' '));
                }
            }
            lemma_first_index(rest, ' ', rest.len() as int);
        },
        VersionConstraintView::Range(None, Some(b)) => {
            lemma_version_round_trip(b);
            lemma_version_text_shape(b);
            assert(s != seq!['*']) by {
                assert(seq!['*'][0] == '*');
            }
            assert(!starts_with(s, from_mark())) by {
                if starts_with(s, from_mark()) {
                    assert(s.subrange(0, 3)[0] == s[0]);
                }
            }
            assert(s.subrange(0, 2) =~= below_mark());
            assert(s.subrange(2, s.len() as int) =~= version_text(b));
        },
        VersionConstraintView::Range(None, None) => {},
        VersionConstraintView::Any => {},
    }
}

} // verus!
