use pm_lib::{
    all_versions_matching, parse_constraint, parse_version, satisfies_constraint, Order,
    ParseError, Version, VersionConstraint, VersionIdentifier,
};

fn ver(s: &str) -> Version {
    parse_version(s).unwrap()
}

fn range(s: &str) -> VersionConstraint {
    parse_constraint(s).unwrap()
}

#[test]
fn version_parsing() {
    assert_eq!(ver("1.2.3"), Version::new(vec![1, 2, 3], vec![], vec![]));
    assert_eq!(ver("8.23"), Version::new(vec![8, 23], vec![], vec![]));
    assert_eq!(ver("9"), Version::new(vec![9], vec![], vec![]));
    assert_eq!(ver("1.2.3.4.5"), Version::new(vec![1, 2, 3, 4, 5], vec![], vec![]));
    assert_eq!(
        ver("1.0.0-rc.1+build.5-x"),
        Version::new(
            vec![1, 0, 0],
            vec![VersionIdentifier::AlphaNumeric("rc".to_string()), VersionIdentifier::Numeric(1)],
            vec![
                VersionIdentifier::AlphaNumeric("build".to_string()),
                VersionIdentifier::AlphaNumeric("5-x".to_string())
            ]
        )
    );
    assert_eq!(
        ver("1.0-a-b"),
        Version::new(vec![1, 0], vec![VersionIdentifier::AlphaNumeric("a-b".to_string())], vec![])
    );
    assert_eq!(
        ver("1+007"),
        Version::new(vec![1], vec![], vec![VersionIdentifier::Numeric(7)])
    );
    assert_eq!(
        ver("18446744073709551615"),
        Version::new(vec![u64::MAX], vec![], vec![])
    );
}

#[test]
fn version_parsing_rejects() {
    for text in [
        "", ".", "1.", ".1", "1..2", "a", "1.a", "1.2.3-", "1.2.3+", "1.2.3-a..b", "1.2.3-a_b",
        "1.2.3 ", " 1", "18446744073709551616", "1.0.0-18446744073709551616", "1.0.0+a+b",
        "1.0.0-\u{e9}", "-1", "+1",
    ] {
        assert_eq!(parse_version(text), Err(ParseError::InvalidVersion), "{:?}", text);
    }
}

#[test]
fn version_text_round_trip() {
    for text in [
        "0", "1.2.3", "8.23", "1.0.0-alpha", "1.0.0-alpha.1", "1.0.0-0.3.7", "1.0.0-x.7.z.92",
        "1.0.0-x-y-z.--", "1.0.0+20130313144700", "1.0.0-beta+exp.sha.5114f85",
        "1.0.0+21AF26D3----117B344092BD", "18446744073709551615.0",
    ] {
        let v = ver(text);
        assert_eq!(v.to_string(), text);
        assert_eq!(parse_version(&v.to_string()), Ok(v));
    }
    let built = Version::new(
        vec![3, 0, 10],
        vec![VersionIdentifier::Numeric(0), VersionIdentifier::AlphaNumeric("x9".to_string())],
        vec![VersionIdentifier::Numeric(12)],
    );
    assert_eq!(built.to_string(), "3.0.10-0.x9+12");
    assert_eq!(parse_version(&built.to_string()), Ok(built));
    assert_eq!(VersionIdentifier::Numeric(120).to_string(), "120");
    assert_eq!(VersionIdentifier::AlphaNumeric("rc-1".to_string()).to_string(), "rc-1");
}

#[test]
fn version_precedence() {
    // each version takes precedence over all that stand before it
    let rising = [
        "0.9", "1.0.0-1", "1.0.0-2", "1.0.0-10", "1.0.0-alpha", "1.0.0-alpha.1",
        "1.0.0-alpha.beta", "1.0.0-beta", "1.0.0-beta.2", "1.0.0-beta.11", "1.0.0-rc.1", "1.0.0",
        "1.0.0.0", "1.0.1", "1.2", "1.10", "2", "2.0", "10",
    ];
    for i in 0..rising.len() {
        for j in 0..rising.len() {
            let want = if i < j {
                Order::Less
            } else if i == j {
                Order::Equal
            } else {
                Order::Greater
            };
            assert_eq!(ver(rising[i]).compare(&ver(rising[j])), want, "{} {}", rising[i], rising[j]);
        }
    }
}

#[test]
fn build_metadata_plays_no_part_in_precedence() {
    assert_eq!(ver("1.0.0+a").compare(&ver("1.0.0+b")), Order::Equal);
    assert_eq!(ver("1.0.0+a").compare(&ver("1.0.0")), Order::Equal);
    assert!(ver("1.0.0+a").same_release(&ver("1.0.0+zzz")));
    assert!(!ver("1.0.0-a").same_release(&ver("1.0.0")));
    assert_ne!(ver("1.0.0+a"), ver("1.0.0+b"));
    assert_eq!(VersionIdentifier::Numeric(3).compare(&VersionIdentifier::AlphaNumeric("1".to_string())), Order::Less);
}

#[test]
fn constraint_parsing() {
    assert_eq!(range("1.2.3"), VersionConstraint::Exact(ver("1.2.3")));
    assert_eq!(range("^8.23"), VersionConstraint::Caret(ver("8.23")));
    assert_eq!(range("~5.6.0"), VersionConstraint::Tilde(ver("5.6.0")));
    assert_eq!(range(">= 8.23 < 9"), VersionConstraint::Range(Some(ver("8.23")), Some(ver("9"))));
    assert_eq!(range(">= 8.23"), VersionConstraint::Range(Some(ver("8.23")), None));
    assert_eq!(range("< 9"), VersionConstraint::Range(None, Some(ver("9"))));
    assert_eq!(range("*"), VersionConstraint::Any);
    for text in [
        "", "^", "~", "^^1", ">=", ">= ", ">=1", "<9", "< ", ">= 1 <", ">= 1 < ", ">= 1  < 2",
        ">= 1 <2", ">= 1 < 2 ", ">= 1 > 2", "**", "* ", "1.x", "= 1",
    ] {
        assert_eq!(parse_constraint(text), Err(ParseError::InvalidConstraint), "{:?}", text);
    }
}

#[test]
fn constraint_text() {
    for text in ["1.2.3", "^8.23", "~5.6.0-rc.1", ">= 8.23 < 9", ">= 8.23", "< 9", "*"] {
        assert_eq!(range(text).to_string(), text);
        assert_eq!(parse_constraint(&range(text).to_string()), Ok(range(text)));
    }
    assert_eq!(VersionConstraint::Range(None, None).to_string(), "*");
}

fn fits(v: &str, c: &str) -> bool {
    let a = range(c).satisfied_by(&ver(v));
    assert_eq!(a, satisfies_constraint(&ver(v), &range(c)));
    a
}

#[test]
fn satisfaction() {
    assert!(fits("1.2.3", "1.2.3"));
    assert!(fits("1.2.3+b", "1.2.3"));
    assert!(!fits("1.2.4", "1.2.3"));
    assert!(!fits("1.2.3-a", "1.2.3"));

    assert!(fits("1.2.3", "^1.2.3"));
    assert!(fits("1.9.0", "^1.2.3"));
    assert!(fits("1.2.3.1", "^1.2.3"));
    assert!(!fits("1.2.2", "^1.2.3"));
    assert!(!fits("1.2.3-rc", "^1.2.3"));
    assert!(!fits("2.0.0", "^1.2.3"));
    assert!(!fits("2", "^1.2.3"));
    assert!(!fits("2.0.0-rc", "^1.2.3"));
    assert!(!fits("2-rc", "^1.2.3"));
    assert!(fits("0.2.9", "^0.2.3"));
    assert!(!fits("0.3.0", "^0.2.3"));
    assert!(fits("0.0.3", "^0.0.3"));
    assert!(!fits("0.0.4", "^0.0.3"));
    assert!(fits("0.0.0", "^0.0.0"));
    assert!(!fits("0.0.1", "^0.0.0"));
    assert!(fits("8.23", "^8.23"));
    assert!(fits("8.100.1", "^8.23"));
    assert!(!fits("9.0", "^8.23"));
    assert!(fits("18446744073709551615.5", "^18446744073709551615.1"));

    assert!(fits("5.6.0", "~5.6.0"));
    assert!(fits("5.6.9", "~5.6.0"));
    assert!(!fits("5.7.0", "~5.6.0"));
    assert!(!fits("5.5.9", "~5.6.0"));
    assert!(fits("1.9", "~1"));
    assert!(!fits("2", "~1"));
    assert!(fits("1.2.7", "~1.2"));
    assert!(!fits("1.3", "~1.2"));

    assert!(fits("8.23", ">= 8.23 < 9"));
    assert!(fits("8.99.99", ">= 8.23 < 9"));
    assert!(!fits("9", ">= 8.23 < 9"));
    assert!(fits("9-rc", ">= 8.23 < 9"));
    assert!(!fits("8.22", ">= 8.23 < 9"));
    assert!(fits("100", ">= 8.23"));
    assert!(!fits("1", ">= 8.23"));
    assert!(fits("0.0.1", "< 9"));
    assert!(!fits("9.0", "< 9"));
    assert!(fits("0", "*"));
    assert!(VersionConstraint::Range(None, None).satisfied_by(&ver("3")));
    assert!(!VersionConstraint::Caret(Version::new(vec![], vec![], vec![])).satisfied_by(&ver("3")));
    assert!(!VersionConstraint::Tilde(Version::new(vec![], vec![], vec![])).satisfied_by(&ver("3")));
}

#[test]
fn matching_versions_keep_their_order() {
    let releases: Vec<Version> =
        ["2.1.0", "2.0.1", "2.0.0", "1.1.0", "1.0.1", "1.0.0"].iter().map(|s| ver(s)).collect();
    assert_eq!(
        all_versions_matching(&range("^1.0.0"), &releases),
        vec![ver("1.1.0"), ver("1.0.1"), ver("1.0.0")]
    );
    assert_eq!(all_versions_matching(&range("^2.0.1"), &releases), vec![ver("2.1.0"), ver("2.0.1")]);
    assert_eq!(all_versions_matching(&range("^3"), &releases), Vec::<Version>::new());
    assert_eq!(all_versions_matching(&range("*"), &releases), releases);
    assert_eq!(all_versions_matching(&range("*"), &Vec::new()), Vec::<Version>::new());
}
