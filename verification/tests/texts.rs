use pm_lib::text::{
    chars_of, compare_chars, compare_text, find_char, parse_number, push_decimal, split_ranges,
    text_of,
};
use pm_lib::Order;

fn chars(s: &str) -> Vec<char> {
    s.chars().collect()
}

#[test]
fn characters_and_back() {
    assert_eq!(chars_of("a\u{e9}\u{1f600}z"), vec!['a', '\u{e9}', '\u{1f600}', 'z']);
    assert_eq!(chars_of(""), Vec::<char>::new());
    let v = chars("hello");
    assert_eq!(text_of(&v, 1, 4), "ell");
    assert_eq!(text_of(&v, 0, 5), "hello");
    assert_eq!(text_of(&v, 2, 2), "");
}

#[test]
fn texts_compare_as_strings_do() {
    let words = ["", "a", "a-b", "a/", "aa", "ab", "b", "B", "\u{e9}", "z\u{1f600}", "zz"];
    for a in words {
        for b in words {
            let want = if a < b {
                Order::Less
            } else if a == b {
                Order::Equal
            } else {
                Order::Greater
            };
            assert_eq!(compare_text(a, b), want, "{:?} {:?}", a, b);
            assert_eq!(compare_chars(&chars(a), &chars(b)), want);
        }
    }
}

#[test]
fn decimal_notation() {
    for (n, text) in [(0u64, "0"), (7, "7"), (10, "10"), (1203, "1203"), (u64::MAX, "18446744073709551615")] {
        let mut out = "v".to_string();
        push_decimal(&mut out, n);
        assert_eq!(out, format!("v{}", text));
        let v = chars(text);
        assert_eq!(parse_number(&v, 0, v.len()), Some(n));
    }
    let v = chars("x0042y");
    assert_eq!(parse_number(&v, 1, 5), Some(42));
    assert_eq!(parse_number(&v, 0, 5), None);
    assert_eq!(parse_number(&v, 1, 6), None);
    assert_eq!(parse_number(&v, 3, 3), None);
    let big = chars("18446744073709551616");
    assert_eq!(parse_number(&big, 0, big.len()), None);
    let huge = chars("99999999999999999999999");
    assert_eq!(parse_number(&huge, 0, huge.len()), None);
}

#[test]
fn finding_and_splitting() {
    let v = chars("a.bc..d");
    assert_eq!(find_char(&v, 0, v.len(), '.'), 1);
    assert_eq!(find_char(&v, 2, v.len(), '.'), 4);
    assert_eq!(find_char(&v, 2, 4, '.'), 4);
    assert_eq!(find_char(&v, 6, 7, '.'), 7);
    assert_eq!(find_char(&v, 0, v.len(), 'x'), v.len());
    assert_eq!(split_ranges(&v, 0, v.len(), '.'), vec![(0, 1), (2, 4), (5, 5), (6, 7)]);
    assert_eq!(split_ranges(&v, 0, v.len(), 'x'), vec![(0, 7)]);
    assert_eq!(split_ranges(&v, 3, 3, '.'), vec![(3, 3)]);
    assert_eq!(split_ranges(&v, 4, 6, '.'), vec![(4, 4), (5, 5), (6, 6)]);
}
