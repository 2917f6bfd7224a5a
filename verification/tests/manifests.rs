use pm_lib::manifest::{
    check_manifest, denormalise_dep, denormalise_deps, normalise_dep, normalise_deps,
};
use pm_lib::{
    denormalise_manifest, normalise_manifest, parse_constraint, validate_manifest, DependencySet,
    Error, Manifest, PackageName, VersionConstraint,
};

fn pkg(s: &str) -> PackageName {
    PackageName::from_str(s).unwrap()
}

fn range(s: &str) -> VersionConstraint {
    parse_constraint(s).unwrap()
}

fn deps(list: &[(&str, &str)]) -> DependencySet {
    let mut out = DependencySet::new();
    for (name, constraint) in list {
        out.insert(pkg(name), range(constraint));
    }
    out
}

fn manifest(name: &str, license: Option<&str>, dependencies: DependencySet) -> Manifest {
    Manifest {
        name: pkg(name),
        description: "A generalised sinister spatiomorphism.".to_string(),
        author: "IEEE Text Alignment Working Group".to_string(),
        license: license.map(|l| l.to_string()),
        license_file: None,
        homepage: None,
        bugs: None,
        repository: None,
        keywords: vec!["left".to_string()],
        files: vec![],
        private: false,
        dev_dependencies: DependencySet::new(),
        dependencies,
    }
}

#[test]
fn dependency_set_is_a_map_ordered_by_name() {
    let mut d = DependencySet::new();
    assert!(d.is_empty());
    d.insert(pkg("b/x"), range("^1"));
    d.insert(pkg("a/y"), range("^2"));
    d.insert(pkg("x"), range("^3"));
    d.insert(pkg("b/x"), range("^4"));
    assert_eq!(d.len(), 3);
    assert_eq!(d.entry(0), (&pkg("x"), &range("^3")));
    assert_eq!(d.entry(1), (&pkg("a/y"), &range("^2")));
    assert_eq!(d.entry(2), (&pkg("b/x"), &range("^4")));
    assert_eq!(d.get(&pkg("b/x")), Some(&range("^4")));
    assert_eq!(d.get(&pkg("b/y")), None);
    let names: Vec<String> = d.dependencies().iter().map(|e| e.name.to_string()).collect();
    assert_eq!(names, vec!["x", "a/y", "b/x"]);
    assert_eq!(DependencySet::default(), DependencySet::new());
}

#[test]
fn normalising_one_name() {
    let path = "javascript".to_string();
    assert_eq!(normalise_dep(&path, &pkg("right-pad")), pkg("javascript/right-pad"));
    assert_eq!(normalise_dep(&path, &pkg("rust/right-pad")), pkg("rust/right-pad"));
    assert_eq!(denormalise_dep(&path, &pkg("javascript/right-pad")), pkg("right-pad"));
    assert_eq!(denormalise_dep(&path, &pkg("rust/right-pad")), pkg("rust/right-pad"));
    assert_eq!(denormalise_dep(&path, &pkg("right-pad")), pkg("right-pad"));
}

#[test]
fn normalising_dependencies() {
    let path = "javascript".to_string();
    let d = deps(&[("right-pad", "^8.23"), ("rust/up", "~1.0"), ("javascript/down", "*")]);
    assert_eq!(
        normalise_deps(&path, &d),
        deps(&[("javascript/right-pad", "^8.23"), ("rust/up", "~1.0"), ("javascript/down", "*")])
    );
    assert_eq!(
        denormalise_deps(&path, &d),
        deps(&[("right-pad", "^8.23"), ("rust/up", "~1.0"), ("down", "*")])
    );
    // two entries that come under one name: the later stays
    let clash = deps(&[("pad", "^1"), ("javascript/pad", "^2")]);
    assert_eq!(normalise_deps(&path, &clash), deps(&[("javascript/pad", "^2")]));
    assert_eq!(denormalise_deps(&path, &clash), deps(&[("pad", "^2")]));
    assert_eq!(normalise_deps(&path, &DependencySet::new()), DependencySet::new());
}

#[test]
fn normalise_fills_in_the_namespace() {
    let m = manifest("javascript/left-pad", None, deps(&[("right-pad", "^8.23")]));
    let mut want = m.clone();
    want.dependencies = deps(&[("javascript/right-pad", "^8.23")]);
    assert_eq!(normalise_manifest(&m), Ok(want.clone()));
    assert_eq!(denormalise_manifest(&want), Ok(m.clone()));
    assert_eq!(normalise_manifest(&want), Ok(want));
}

#[test]
fn denormalise_keeps_foreign_namespaces() {
    let mut m = manifest(
        "javascript/left-pad",
        Some("MIT"),
        deps(&[("javascript/right-pad", ">= 8.23 < 9"), ("rust/pad", "1.0.0")]),
    );
    m.dev_dependencies = deps(&[("javascript/webpack", "^7.0.5")]);
    let out = denormalise_manifest(&m).unwrap();
    assert_eq!(out.dependencies, deps(&[("right-pad", ">= 8.23 < 9"), ("rust/pad", "1.0.0")]));
    assert_eq!(out.dev_dependencies, deps(&[("webpack", "^7.0.5")]));
    assert_eq!(out.name, m.name);
    assert_eq!(out.license, m.license);
    assert_eq!(out.keywords, m.keywords);
}

#[test]
fn manifest_name_needs_a_namespace() {
    let m = manifest("left-pad", None, DependencySet::new());
    let want = Err(Error::Custom("Package name must contain a namespace!".to_string()));
    assert_eq!(validate_manifest(&m), want);
    assert_eq!(normalise_manifest(&m).map(|_| ()), want);
    assert_eq!(denormalise_manifest(&m).map(|_| ()), want);
    assert_eq!(
        validate_manifest(&m).unwrap_err().to_string(),
        "Package name must contain a namespace!"
    );
}

#[test]
fn manifest_license_is_checked() {
    assert_eq!(validate_manifest(&manifest("a/b", Some("MIT"), DependencySet::new())), Ok(()));
    assert_eq!(validate_manifest(&manifest("a/b", Some("GPL-3.0+"), DependencySet::new())), Ok(()));
    assert_eq!(
        validate_manifest(&manifest("a/b", Some("MIT OR Apache-2.0"), DependencySet::new())),
        Ok(())
    );
    assert_eq!(validate_manifest(&manifest("a/b", None, DependencySet::new())), Ok(()));
    let bad = manifest("a/b", Some("LOLPL"), DependencySet::new());
    assert_eq!(
        validate_manifest(&bad),
        Err(Error::Custom("unknown license or other term: LOLPL".to_string()))
    );
    assert!(normalise_manifest(&bad).is_err());
    assert!(denormalise_manifest(&bad).is_err());
    assert_eq!(
        validate_manifest(&manifest("a/b", Some("AND MIT"), DependencySet::new())),
        Err(Error::Custom("invalid license expression: AND".to_string()))
    );
    // the namespace is looked at first
    assert_eq!(
        validate_manifest(&manifest("b", Some("LOLPL"), DependencySet::new())),
        Err(Error::Custom("Package name must contain a namespace!".to_string()))
    );
}

#[test]
fn check_manifest_uses_the_verdict_it_is_given() {
    let with = manifest("a/b", Some("MIT"), DependencySet::new());
    let without = manifest("a/b", None, DependencySet::new());
    assert_eq!(check_manifest(&with, None), Ok(()));
    assert_eq!(
        check_manifest(&with, Some("no".to_string())),
        Err(Error::Custom("no".to_string()))
    );
    assert_eq!(check_manifest(&without, Some("no".to_string())), Ok(()));
    assert_eq!(
        check_manifest(&manifest("b", None, DependencySet::new()), None),
        Err(Error::Custom("Package name must contain a namespace!".to_string()))
    );
}
