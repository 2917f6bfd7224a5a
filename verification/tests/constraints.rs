use pm_lib::solver::{
    Constraint, ConstraintSet, Failure, JustifiedVersion, PartialSolution, Path,
};
use pm_lib::{parse_version, PackageName, Version};

fn pkg(s: &str) -> PackageName {
    PackageName::from_str(s).unwrap()
}

fn ver(s: &str) -> Version {
    parse_version(s).unwrap()
}

fn via(name: &str, version: &str) -> Path {
    Path { steps: vec![(pkg(name), ver(version))] }
}

fn versions(c: &Constraint) -> Vec<String> {
    (0..c.len()).map(|i| c.candidate(i).0.to_string()).collect()
}

fn constraint(list: &[&str], path: &Path) -> Constraint {
    let mut c = Constraint::new();
    for v in list {
        c = c.insert(ver(v), path.clone());
    }
    c
}

#[test]
fn constraint_keeps_candidates_best_first() {
    let c = constraint(&["1.0.0", "2.0.0", "1.5.0", "1.0.0-rc", "2.0.0"], &Path::new());
    assert_eq!(versions(&c), vec!["2.0.0", "1.5.0", "1.0.0", "1.0.0-rc"]);
    assert_eq!(c.len(), 4);
    assert!(!c.is_empty());
    assert!(Constraint::new().is_empty());
    assert!(c.contains(&ver("1.5.0")));
    assert!(c.contains(&ver("1.5.0+build")));
    assert!(!c.contains(&ver("1.5.1")));
    assert_eq!(c.get(&ver("1.5.0")), Some(&Path::new()));
    assert_eq!(c.get(&ver("3")), None);
}

#[test]
fn constraint_insert_replaces_the_same_release() {
    let a = via("n/a", "1.0.0");
    let c = constraint(&["1.0.0", "2.0.0"], &Path::new()).insert(ver("1.0.0+x"), a.clone());
    assert_eq!(versions(&c), vec!["2.0.0", "1.0.0+x"]);
    assert_eq!(c.get(&ver("1.0.0")), Some(&a));
    assert_eq!(c.get(&ver("2.0.0")), Some(&Path::new()));
}

#[test]
fn constraint_remove() {
    let c = constraint(&["1.0.0", "2.0.0", "3.0.0"], &Path::new());
    assert_eq!(versions(&c.remove(&ver("2.0.0"))), vec!["3.0.0", "1.0.0"]);
    assert_eq!(c.remove(&ver("9.0.0")), c);
    let one = constraint(&["1.0.0"], &Path::new());
    assert!(one.remove(&ver("1.0.0")).is_empty());
    assert_eq!(one.remove(&ver("1.0.0")), Constraint::new());
}

#[test]
fn constraint_merge_is_the_intersection_with_the_paths_of_the_receiver() {
    let pa = via("n/a", "1.0.0");
    let pb = via("n/b", "1.0.0");
    let a = constraint(&["1.0.0", "1.1.0", "2.0.0"], &pa);
    let b = constraint(&["1.1.0", "2.0.0", "3.0.0"], &pb);
    assert_eq!(a.merge(&b), constraint(&["1.1.0", "2.0.0"], &pa));
    assert_eq!(b.merge(&a), constraint(&["1.1.0", "2.0.0"], &pb));
    assert_eq!(versions(&a.merge(&b)), versions(&b.merge(&a)));
    assert!(a.merge(&constraint(&["9.0.0"], &pb)).is_empty());
    assert!(a.merge(&Constraint::new()).is_empty());
    assert!(Constraint::new().merge(&a).is_empty());
}

#[test]
fn constraint_merge_laws_on_examples() {
    let pa = via("n/a", "1.0.0");
    let pb = via("n/b", "1.0.0");
    let pc = via("n/c", "1.0.0");
    let a = constraint(&["1.0.0", "1.1.0", "2.0.0", "2.1.0"], &pa);
    let b = constraint(&["1.1.0", "2.0.0", "2.1.0", "3.0.0"], &pb);
    let c = constraint(&["0.1.0", "2.0.0", "2.1.0"], &pc);
    assert_eq!(a.merge(&a), a);
    assert_eq!(a.merge(&b).merge(&c), a.merge(&b.merge(&c)));
    assert_eq!(a.merge(&b).merge(&c), constraint(&["2.0.0", "2.1.0"], &pa));
}

#[test]
fn constraint_set_is_ordered_by_name() {
    let c = constraint(&["1.0.0"], &Path::new());
    let s = ConstraintSet::new()
        .insert(pkg("n/m"), c.clone())
        .insert(pkg("n/z"), c.clone())
        .insert(pkg("a/z"), c.clone())
        .insert(pkg("n/a"), c.clone());
    assert_eq!(s.len(), 4);
    let (rest, (name, constraint)) = s.pop().unwrap();
    assert_eq!(name, pkg("a/z"));
    assert_eq!(constraint, c);
    assert_eq!(rest.len(), 3);
    let (rest, (name, _)) = rest.pop().unwrap();
    assert_eq!(name, pkg("n/a"));
    let (rest, (name, _)) = rest.pop().unwrap();
    assert_eq!(name, pkg("n/m"));
    let (rest, (name, _)) = rest.pop().unwrap();
    assert_eq!(name, pkg("n/z"));
    assert!(rest.is_empty());
    assert_eq!(rest.pop(), None);
    assert_eq!(ConstraintSet::new().pop(), None);
}

#[test]
fn constraint_set_insert_replaces() {
    let one = constraint(&["1.0.0"], &Path::new());
    let two = constraint(&["2.0.0"], &Path::new());
    let s = ConstraintSet::new().insert(pkg("n/a"), one.clone()).insert(pkg("n/a"), two.clone());
    assert_eq!(s.len(), 1);
    assert_eq!(s.get(&pkg("n/a")), Some(&two));
    assert_eq!(s.get(&pkg("n/b")), None);
}

#[test]
fn constraint_set_remove_one_version() {
    let c = constraint(&["1.0.0", "2.0.0"], &Path::new());
    let s = ConstraintSet::new().insert(pkg("n/a"), c.clone());
    let less = s.remove(&pkg("n/a"), &ver("2.0.0")).unwrap();
    assert_eq!(less.get(&pkg("n/a")), Some(&constraint(&["1.0.0"], &Path::new())));
    assert_eq!(s.remove(&pkg("n/a"), &ver("9.0.0")), Ok(s.clone()));
    assert_eq!(s.remove(&pkg("n/x"), &ver("1.0.0")), Ok(s.clone()));
    assert_eq!(
        less.remove(&pkg("n/a"), &ver("1.0.0")),
        Err(Failure::conflict(pkg("n/a"), constraint(&["1.0.0"], &Path::new()), Constraint::new()))
    );
}

#[test]
fn constraint_set_merge_follows_the_three_rules() {
    let pa = via("n/p", "1.0.0");
    let pb = via("n/q", "1.0.0");
    let receiver = ConstraintSet::new().insert(pkg("n/a"), constraint(&["1.0.0", "1.1.0"], &pa));
    let other = ConstraintSet::new()
        .insert(pkg("n/a"), constraint(&["1.1.0", "2.0.0"], &pb))
        .insert(pkg("n/b"), constraint(&["3.0.0"], &pb))
        .insert(pkg("n/c"), constraint(&["4.0.0", "5.0.0"], &pb));
    let chosen = PartialSolution::new()
        .insert(pkg("n/c"), JustifiedVersion { version: ver("5.0.0"), path: Path::new() });
    let merged = receiver.merge(&other, &chosen).unwrap();
    assert_eq!(merged.len(), 2);
    assert_eq!(merged.get(&pkg("n/a")), Some(&constraint(&["1.1.0"], &pa)));
    assert_eq!(merged.get(&pkg("n/b")), Some(&constraint(&["3.0.0"], &pb)));
    assert_eq!(merged.get(&pkg("n/c")), None);
    assert_eq!(receiver.merge(&ConstraintSet::new(), &chosen), Ok(receiver.clone()));
    assert_eq!(ConstraintSet::new().merge(&receiver, &PartialSolution::new()), Ok(receiver.clone()));
}

#[test]
fn constraint_set_merge_conflicts() {
    let pa = via("n/p", "1.0.0");
    let pb = via("n/q", "1.0.0");
    let receiver = ConstraintSet::new().insert(pkg("n/a"), constraint(&["1.0.0"], &pa));
    let other = ConstraintSet::new().insert(pkg("n/a"), constraint(&["2.0.0"], &pb));
    assert_eq!(
        receiver.merge(&other, &PartialSolution::new()),
        Err(Failure::conflict(
            pkg("n/a"),
            constraint(&["1.0.0"], &pa),
            constraint(&["2.0.0"], &pb)
        ))
    );
    let chosen = PartialSolution::new()
        .insert(pkg("n/a"), JustifiedVersion { version: ver("3.0.0"), path: pa.clone() });
    assert_eq!(
        receiver.merge(&other, &chosen),
        Err(Failure::conflict(
            pkg("n/a"),
            constraint(&["3.0.0"], &pa),
            constraint(&["2.0.0"], &pb)
        ))
    );
    assert_eq!(
        receiver.merge_one(&pkg("n/a"), &constraint(&["2.0.0"], &pb), &PartialSolution::new()),
        receiver.merge(&other, &PartialSolution::new())
    );
}

#[test]
fn merged_sets_hold_no_empty_constraint() {
    let pa = via("n/p", "1.0.0");
    let a = ConstraintSet::new()
        .insert(pkg("n/a"), constraint(&["1.0.0", "2.0.0"], &pa))
        .insert(pkg("n/b"), constraint(&["1.0.0"], &pa));
    let b = ConstraintSet::new()
        .insert(pkg("n/a"), constraint(&["2.0.0", "3.0.0"], &pa))
        .insert(pkg("n/c"), constraint(&["1.0.0"], &pa));
    let mut s = a.merge(&b, &PartialSolution::new()).unwrap();
    s = s.remove(&pkg("n/b"), &ver("7.0.0")).unwrap();
    while let Some((rest, (_, c))) = s.pop() {
        assert!(!c.is_empty());
        s = rest;
    }
}
