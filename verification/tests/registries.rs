use pm_lib::{
    parse_constraint, parse_version, DependencySet, Package, PackageName, Registry, Release,
    Version,
};

fn pkg(s: &str) -> PackageName {
    PackageName::from_str(s).unwrap()
}

fn ver(s: &str) -> Version {
    parse_version(s).unwrap()
}

fn release(description: &str) -> Release {
    let mut r = Release::new(DependencySet::new());
    r.description = description.to_string();
    r
}

fn texts(versions: Vec<Version>) -> Vec<String> {
    versions.iter().map(|v| v.to_string()).collect()
}

#[test]
fn package_lists_its_releases_best_first() {
    let mut p = Package::new();
    assert_eq!(p.len(), 0);
    for v in ["1.0.0", "2.0.0-rc.1", "0.9", "2.0.0", "1.5.0"] {
        p.insert(ver(v), release(v));
    }
    assert_eq!(texts(p.versions()), vec!["2.0.0", "2.0.0-rc.1", "1.5.0", "1.0.0", "0.9"]);
    assert_eq!(p.release(&ver("1.5.0")).unwrap().description, "1.5.0");
    assert_eq!(p.release(&ver("1.5.0+linux")).unwrap().description, "1.5.0");
    assert!(p.release(&ver("1.5.1")).is_none());
    assert!(p.owners.is_empty());
}

#[test]
fn package_insert_replaces_the_same_release() {
    let mut p = Package::new();
    p.insert(ver("1.0.0"), release("first"));
    p.insert(ver("1.0.0+again"), release("second"));
    assert_eq!(p.len(), 1);
    assert_eq!(texts(p.versions()), vec!["1.0.0+again"]);
    assert_eq!(p.release(&ver("1.0.0")).unwrap().description, "second");
}

#[test]
fn registry_add_release_makes_the_package() {
    let mut reg = Registry::new();
    assert_eq!(reg.len(), 0);
    assert!(reg.package(&pkg("a/b")).is_none());
    reg.add_release(pkg("a/b"), ver("1.0.0"), release("one"));
    reg.add_release(pkg("a/a"), ver("3.0.0"), release("three"));
    reg.add_release(pkg("a/b"), ver("2.0.0"), release("two"));
    assert_eq!(reg.len(), 2);
    assert_eq!(texts(reg.package(&pkg("a/b")).unwrap().versions()), vec!["2.0.0", "1.0.0"]);
    assert_eq!(texts(reg.package(&pkg("a/a")).unwrap().versions()), vec!["3.0.0"]);
    assert!(reg.package(&pkg("a/c")).is_none());
}

#[test]
fn registry_insert_replaces_the_package() {
    let mut reg = Registry::new();
    reg.add_release(pkg("a/b"), ver("1.0.0"), release("one"));
    let mut other = Package::new();
    other.owners.push("someone".to_string());
    other.insert(ver("9.0.0"), release("nine"));
    reg.insert(pkg("a/b"), other.clone());
    assert_eq!(reg.len(), 1);
    assert_eq!(reg.package(&pkg("a/b")), Some(&other));
    // a release added to a package keeps its owners
    reg.add_release(pkg("a/b"), ver("9.1.0"), release("more"));
    assert_eq!(reg.package(&pkg("a/b")).unwrap().owners, vec!["someone".to_string()]);
    assert_eq!(texts(reg.package(&pkg("a/b")).unwrap().versions()), vec!["9.1.0", "9.0.0"]);
}

#[test]
fn release_keeps_its_dependencies() {
    let mut deps = DependencySet::new();
    deps.insert(pkg("a/x"), parse_constraint("^1.0").unwrap());
    let r = Release::new(deps.clone());
    assert_eq!(r.dependencies, deps);
    assert_eq!(r.clone(), r);
    assert_eq!(r.keywords, Vec::<String>::new());
    assert_eq!(r.repository.url, "");
}
