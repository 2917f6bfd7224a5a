use pm_lib::package::{validate_package_name, validate_package_namespace};
use pm_lib::{AuthError, AuthSource, Order, PackageName};

#[test]
fn package_name_from_str() {
    assert_eq!(
        PackageName::from_str("a/B"),
        Some(PackageName {
            namespace: Some("a".to_string()),
            name: "B".to_string(),
        })
    );

    assert_eq!(
        PackageName::from_str("B"),
        Some(PackageName {
            namespace: None,
            name: "B".to_string(),
        })
    );

    assert_eq!(PackageName::from_str("A/B"), None);
    assert_eq!(PackageName::from_str("a/:-)"), None);
}

#[test]
fn package_name_edges() {
    assert_eq!(PackageName::from_str(""), None);
    assert_eq!(PackageName::from_str("/"), None);
    assert_eq!(PackageName::from_str("a/"), None);
    assert_eq!(PackageName::from_str("/b"), None);
    assert_eq!(PackageName::from_str("a/b/c"), None);
    assert_eq!(PackageName::from_str("-a/b"), None);
    assert_eq!(PackageName::from_str("a/-b"), None);
    assert_eq!(PackageName::from_str("a-/b-"), PackageName::from_str("a-/b-"));
    assert!(PackageName::from_str("a_0-/B_1-").is_some());
    assert_eq!(PackageName::from_str("caf\u{e9}/x"), None);
    let long = "x".repeat(128);
    assert!(PackageName::from_str(&long).is_some());
    assert!(PackageName::from_str(&format!("{}/{}", long, long)).is_some());
    assert_eq!(PackageName::from_str(&format!("{}x", long)), None);
    assert_eq!(PackageName::from_str(&format!("{}x/a", long)), None);
}

#[test]
fn name_validation() {
    assert!(validate_package_name("Left_pad-2"));
    assert!(!validate_package_name(""));
    assert!(!validate_package_name("-x"));
    assert!(!validate_package_name("a b"));
    assert!(validate_package_namespace("left_pad-2"));
    assert!(!validate_package_namespace("Left"));
    assert!(!validate_package_namespace(""));
    assert!(!validate_package_namespace("-x"));
    assert!(validate_package_namespace(&"a".repeat(128)));
    assert!(!validate_package_namespace(&"a".repeat(129)));
}

#[test]
fn package_name_text_round_trip() {
    for text in ["a/B", "B", "left-pad/right_pad"] {
        assert_eq!(PackageName::from_str(text).unwrap().to_string(), text);
    }
}

#[test]
fn package_name_order() {
    let a = PackageName::from_str("a/x").unwrap();
    let b = PackageName::from_str("a/y").unwrap();
    let c = PackageName::from_str("b/a").unwrap();
    let bare = PackageName::from_str("z").unwrap();
    assert_eq!(a.compare(&b), Order::Less);
    assert_eq!(b.compare(&a), Order::Greater);
    assert_eq!(a.compare(&a), Order::Equal);
    assert_eq!(b.compare(&c), Order::Less);
    assert_eq!(bare.compare(&a), Order::Less);
    assert_eq!(a.compare(&bare), Order::Greater);
    assert!(a.same(&a.clone()));
    assert!(!a.same(&b));
    // the order is the one that the comparison operators use
    assert_eq!(a < b, a.compare(&b) == Order::Less);
    assert_eq!(bare < a, bare.compare(&a) == Order::Less);
    let p = PackageName::from_str("a-b/x").unwrap();
    assert_eq!(a < p, a.compare(&p) == Order::Less);
}

#[test]
fn auth_source_names() {
    assert_eq!(AuthSource::from_str("test"), Ok(AuthSource::Test));
    assert_eq!(AuthSource::from_str("github"), Ok(AuthSource::Github));
    assert_eq!(AuthSource::from_str("gitlab"), Ok(AuthSource::Gitlab));
    assert_eq!(
        AuthSource::from_str("Github"),
        Err(AuthError::NoSuchAuthSource("Github".to_string()))
    );
    assert_eq!(AuthSource::from_str(""), Err(AuthError::NoSuchAuthSource("".to_string())));
    for s in [AuthSource::Test, AuthSource::Github, AuthSource::Gitlab] {
        assert_eq!(AuthSource::from_str(&s.to_string()), Ok(s));
    }
    assert_eq!(AuthSource::Gitlab.to_string(), "gitlab");
}
