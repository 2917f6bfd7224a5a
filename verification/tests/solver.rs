use pm_lib::solver::{
    search, solve, Constraint, ConstraintSet, Failure, JustifiedVersion, PartialSolution, Path,
    RegistryAdapter, Solution,
};
use pm_lib::{
    parse_constraint, parse_version, DependencySet, PackageName, Registry, Release, Version,
    VersionConstraint,
};

fn pkg(s: &str) -> PackageName {
    PackageName::from_str(s).unwrap()
}

fn ver(s: &str) -> Version {
    parse_version(s).unwrap()
}

fn range(s: &str) -> VersionConstraint {
    parse_constraint(s).unwrap()
}

fn deps(list: &[(&str, &str)]) -> DependencySet {
    let mut out = DependencySet::new();
    for (name, constraint) in list {
        out.insert(pkg(&format!("leftpad/{}", name)), range(constraint));
    }
    out
}

fn publish(reg: &mut Registry, name: &str, version: &str, list: &[(&str, &str)]) {
    reg.add_release(pkg(&format!("leftpad/{}", name)), ver(version), Release::new(deps(list)));
}

fn solution(list: &[(&str, &str)]) -> Solution {
    let mut out = Solution::new();
    for (name, version) in list {
        out.insert(pkg(&format!("leftpad/{}", name)), ver(version));
    }
    out
}

fn via(name: &str, version: &str) -> Path {
    Path { steps: vec![(pkg(name), ver(version))] }
}

fn sample_registry() -> Registry {
    let mut reg = Registry::new();
    publish(&mut reg, "left_pad", "1.0.0", &[("right_pad", "^1.0.0")]);
    publish(&mut reg, "left_pad", "2.0.0", &[("right_pad", "^2.0.0")]);
    publish(&mut reg, "lol_pad", "1.0.0", &[("right_pad", "^2.0.0")]);
    publish(&mut reg, "right_pad", "1.0.0", &[("up_pad", "^1.0.0")]);
    publish(&mut reg, "right_pad", "1.0.1", &[("up_pad", "^1.0.0")]);
    publish(&mut reg, "right_pad", "2.0.0", &[("up_pad", "^2.0.0")]);
    publish(
        &mut reg,
        "right_pad",
        "2.0.1",
        &[("up_pad", "^2.0.0"), ("coleft_copad", "^2.0.0")],
    );
    publish(&mut reg, "up_pad", "1.0.0", &[]);
    publish(&mut reg, "up_pad", "2.0.0", &[]);
    publish(&mut reg, "up_pad", "2.1.0", &[("coleft_copad", "^1.0.0")]);
    publish(&mut reg, "coleft_copad", "1.0.0", &[]);
    publish(&mut reg, "coleft_copad", "1.0.1", &[]);
    publish(&mut reg, "coleft_copad", "1.1.0", &[]);
    publish(&mut reg, "coleft_copad", "2.0.0", &[]);
    publish(&mut reg, "down_pad", "1.0.0", &[]);
    publish(&mut reg, "down_pad", "1.2.0", &[]);
    reg
}

#[test]
fn find_best_solution_set() {
    let problem = deps(&[("down_pad", "^1.0.0"), ("left_pad", "^2.0.0")]);

    assert_eq!(
        solve(&sample_registry(), &problem),
        Ok(solution(&[
            ("left_pad", "2.0.0"),
            ("down_pad", "1.2.0"),
            ("right_pad", "2.0.1"),
            ("up_pad", "2.0.0"),
            ("coleft_copad", "2.0.0"),
        ]))
    );
}

#[test]
fn conflicting_subdependencies() {
    // left_pad and lol_pad have conflicting constraints for right_pad,
    // thus no solution is possible.
    let problem = deps(&[("left_pad", "^1.0.0"), ("lol_pad", "^1.0.0")]);

    assert_eq!(
        solve(&sample_registry(), &problem),
        Err(Failure::conflict(
            pkg("leftpad/right_pad"),
            Constraint::new()
                .insert(ver("1.0.0"), via("leftpad/left_pad", "1.0.0"))
                .insert(ver("1.0.1"), via("leftpad/left_pad", "1.0.0")),
            Constraint::new()
                .insert(ver("2.0.0"), via("leftpad/lol_pad", "1.0.0"))
                .insert(ver("2.0.1"), via("leftpad/lol_pad", "1.0.0")),
        ))
    );
}

#[test]
fn no_release_satisfies_the_root() {
    let problem = deps(&[("left_pad", "^3.0.0")]);
    assert_eq!(
        solve(&sample_registry(), &problem),
        Err(Failure::unavailable_dependencies(
            pkg("leftpad/left_pad"),
            range("^3.0.0"),
            Path::new()
        ))
    );
}

#[test]
fn unknown_package_in_the_root() {
    let problem = deps(&[("nonexistent", "^1.0.0")]);
    assert_eq!(
        solve(&sample_registry(), &problem),
        Err(Failure::package_missing(pkg("leftpad/nonexistent"), Path::new()))
    );
}

#[test]
fn best_first_takes_the_highest_that_fits() {
    let problem = deps(&[("right_pad", "^2.0.1")]);
    assert_eq!(
        solve(&sample_registry(), &problem),
        Ok(solution(&[("right_pad", "2.0.1"), ("up_pad", "2.0.0"), ("coleft_copad", "2.0.0")]))
    );
}

#[test]
fn independent_packages_do_not_interact() {
    let problem = deps(&[("up_pad", "^1.0.0"), ("coleft_copad", "^2.0.0")]);
    assert_eq!(
        solve(&sample_registry(), &problem),
        Ok(solution(&[("up_pad", "1.0.0"), ("coleft_copad", "2.0.0")]))
    );
}

#[test]
fn empty_root_gives_the_empty_solution() {
    let found = solve(&sample_registry(), &DependencySet::new()).unwrap();
    assert_eq!(found, Solution::new());
    assert_eq!(found.len(), 0);
}

#[test]
fn single_release_registry_resolves() {
    let mut reg = Registry::new();
    publish(&mut reg, "only", "0.1.0", &[]);
    let found = solve(&reg, &deps(&[("only", "*")])).unwrap();
    assert_eq!(found, solution(&[("only", "0.1.0")]));
    assert_eq!(found.get(&pkg("leftpad/only")), Some(&ver("0.1.0")));
    assert_eq!(found.get(&pkg("leftpad/other")), None);
    assert_eq!(found.len(), 1);
}

#[test]
fn solving_twice_gives_the_same() {
    let reg = sample_registry();
    let good = deps(&[("down_pad", "^1.0.0"), ("left_pad", "^2.0.0")]);
    let bad = deps(&[("left_pad", "^1.0.0"), ("lol_pad", "^1.0.0")]);
    assert_eq!(solve(&reg, &good), solve(&sample_registry(), &good));
    assert_eq!(solve(&reg, &bad), solve(&sample_registry(), &bad));
}

#[test]
fn solution_meets_every_requirement() {
    let reg = sample_registry();
    let root = deps(&[("down_pad", "^1.0.0"), ("left_pad", "^2.0.0")]);
    let found = solve(&reg, &root).unwrap();
    for name in ["left_pad", "down_pad", "right_pad", "up_pad", "coleft_copad"] {
        let name = pkg(&format!("leftpad/{}", name));
        let version = found.get(&name).unwrap();
        let release = reg.package(&name).unwrap().release(version).unwrap();
        for d in release.dependencies.dependencies() {
            let chosen = found.get(&d.name).unwrap();
            assert!(d.version_constraint.satisfied_by(chosen));
        }
    }
    for d in root.dependencies() {
        assert!(d.version_constraint.satisfied_by(found.get(&d.name).unwrap()));
    }
}

#[test]
fn backtracks_to_an_older_candidate() {
    // the best a needs b 2, which the root excludes; the older a fits
    let mut reg = Registry::new();
    publish(&mut reg, "a", "2.0.0", &[("b", "^2.0.0")]);
    publish(&mut reg, "a", "1.0.0", &[("b", "^1.0.0")]);
    publish(&mut reg, "b", "1.0.0", &[]);
    publish(&mut reg, "b", "2.0.0", &[]);
    let root = deps(&[("a", "*"), ("b", "^1.0.0")]);
    assert_eq!(solve(&reg, &root), Ok(solution(&[("a", "1.0.0"), ("b", "1.0.0")])));
}

#[test]
fn cheap_search_tries_the_best_candidate_only() {
    let mut reg = Registry::new();
    publish(&mut reg, "a", "2.0.0", &[("b", "^2.0.0")]);
    publish(&mut reg, "a", "1.0.0", &[("b", "^1.0.0")]);
    publish(&mut reg, "b", "1.0.0", &[]);
    publish(&mut reg, "b", "2.0.0", &[]);
    let root = deps(&[("a", "*"), ("b", "^1.0.0")]);
    let ra = RegistryAdapter::new(&reg);
    let stack = ra.constraint_set_from(&root).unwrap();
    let cheap = search(&ra, &stack, true, &PartialSolution::new());
    assert_eq!(
        cheap,
        Err(Failure::conflict(
            pkg("leftpad/b"),
            Constraint::new().insert(ver("1.0.0"), Path::new()),
            Constraint::new().insert(ver("2.0.0"), via("leftpad/a", "2.0.0")),
        ))
    );
    let full = search(&ra, &stack, false, &PartialSolution::new()).unwrap();
    assert_eq!(full.get(&pkg("leftpad/a")).unwrap().version, ver("1.0.0"));
    assert_eq!(full.get(&pkg("leftpad/a")).unwrap().path, Path::new());
    assert_eq!(Solution::from(full), solution(&[("a", "1.0.0"), ("b", "1.0.0")]));
}

#[test]
fn first_failure_is_the_one_reported() {
    // both candidates of a fail; the failure of the best one is returned
    let mut reg = Registry::new();
    publish(&mut reg, "a", "2.0.0", &[("missing", "*")]);
    publish(&mut reg, "a", "1.0.0", &[("b", "^9.0.0")]);
    publish(&mut reg, "b", "1.0.0", &[]);
    let root = deps(&[("a", "*")]);
    assert_eq!(
        solve(&reg, &root),
        Err(Failure::package_missing(pkg("leftpad/missing"), via("leftpad/a", "2.0.0")))
    );
}

#[test]
fn mutual_requirements_resolve() {
    let mut reg = Registry::new();
    publish(&mut reg, "a", "1.0.0", &[("b", "^1.0.0")]);
    publish(&mut reg, "b", "1.0.0", &[("a", "^1.0.0")]);
    assert_eq!(
        solve(&reg, &deps(&[("a", "^1.0.0")])),
        Ok(solution(&[("a", "1.0.0"), ("b", "1.0.0")]))
    );
}

#[test]
fn adapter_gives_candidates_best_first() {
    let reg = sample_registry();
    let ra = RegistryAdapter::new(&reg);
    let set = ra.constraint_set_from(&deps(&[("coleft_copad", "^1.0.0")])).unwrap();
    assert_eq!(set.len(), 1);
    let c = set.get(&pkg("leftpad/coleft_copad")).unwrap();
    assert_eq!(c.len(), 3);
    assert_eq!(c.candidate(0), (&ver("1.1.0"), &Path::new()));
    assert_eq!(c.candidate(1), (&ver("1.0.1"), &Path::new()));
    assert_eq!(c.candidate(2), (&ver("1.0.0"), &Path::new()));
}

#[test]
fn adapter_extends_the_path() {
    let reg = sample_registry();
    let ra = RegistryAdapter::new(&reg);
    let set = ra
        .constraint_set_for(pkg("leftpad/right_pad"), ver("2.0.1"), via("leftpad/left_pad", "2.0.0"))
        .unwrap();
    let path = Path {
        steps: vec![
            (pkg("leftpad/left_pad"), ver("2.0.0")),
            (pkg("leftpad/right_pad"), ver("2.0.1")),
        ],
    };
    assert_eq!(set.len(), 2);
    assert_eq!(
        set.get(&pkg("leftpad/coleft_copad")),
        Some(&Constraint::new().insert(ver("2.0.0"), path.clone()))
    );
    assert_eq!(
        set.get(&pkg("leftpad/up_pad")),
        Some(&Constraint::new().insert(ver("2.0.0"), path.clone()).insert(ver("2.1.0"), path))
    );
}

#[test]
fn adapter_failures_carry_the_path() {
    let reg = sample_registry();
    let ra = RegistryAdapter::new(&reg);
    assert_eq!(
        ra.constraint_set_for(pkg("leftpad/nope"), ver("1.0.0"), Path::new()),
        Err(Failure::package_missing(pkg("leftpad/nope"), Path::new()))
    );
    assert_eq!(
        ra.constraint_set_for(pkg("leftpad/up_pad"), ver("9.0.0"), Path::new()),
        Err(Failure::unavailable_dependencies(
            pkg("leftpad/up_pad"),
            VersionConstraint::Exact(ver("9.0.0")),
            Path::new()
        ))
    );
    let mut reg = Registry::new();
    publish(&mut reg, "a", "1.0.0", &[("b", "^2.0.0")]);
    publish(&mut reg, "b", "1.0.0", &[]);
    let ra = RegistryAdapter::new(&reg);
    assert_eq!(
        ra.constraint_set_for(pkg("leftpad/a"), ver("1.0.0"), Path::new()),
        Err(Failure::unavailable_dependencies(
            pkg("leftpad/b"),
            range("^2.0.0"),
            via("leftpad/a", "1.0.0")
        ))
    );
}

#[test]
fn cycle_on_the_path_is_a_failure() {
    let mut reg = Registry::new();
    publish(&mut reg, "a", "1.0.0", &[]);
    let ra = RegistryAdapter::new(&reg);
    let stack = ConstraintSet::new().insert(
        pkg("leftpad/a"),
        Constraint::new().insert(ver("1.0.0"), via("leftpad/a", "1.0.0")),
    );
    let path = Path {
        steps: vec![(pkg("leftpad/a"), ver("1.0.0")), (pkg("leftpad/a"), ver("1.0.0"))],
    };
    assert_eq!(
        search(&ra, &stack, false, &PartialSolution::new()),
        Err(Failure::graph_cycle(path))
    );
}

#[test]
fn partial_solution_keeps_the_first_choice() {
    let empty = PartialSolution::new();
    let first = JustifiedVersion { version: ver("1.0.0"), path: Path::new() };
    let again = JustifiedVersion { version: ver("1.0.0"), path: via("leftpad/x", "1.0.0") };
    let other = JustifiedVersion { version: ver("2.0.0"), path: Path::new() };
    let one = empty.insert(pkg("leftpad/a"), first.clone());
    assert_eq!(empty.get(&pkg("leftpad/a")), None);
    assert_eq!(one.get(&pkg("leftpad/a")), Some(&first));
    let same = one.try_insert(pkg("leftpad/a"), again).unwrap();
    assert_eq!(same, one);
    assert_eq!(one.try_insert(pkg("leftpad/a"), other), None);
    assert_eq!(
        Solution::from(one.insert(pkg("leftpad/b"), first.clone())),
        solution(&[("a", "1.0.0"), ("b", "1.0.0")])
    );
}

#[test]
fn path_rendering() {
    assert_eq!(Path::new().to_string(), "root");
    let path = Path::new().push(pkg("leftpad/a"), ver("1.0.0")).push(pkg("leftpad/b"), ver("2.1.0-rc.1"));
    assert_eq!(path.to_string(), "root \u{2192} leftpad/a@1.0.0 \u{2192} leftpad/b@2.1.0-rc.1");
    assert_eq!(path.len(), 2);
    assert!(path.visits(&pkg("leftpad/b")));
    assert!(!path.visits(&pkg("leftpad/c")));
}

#[test]
fn candidates_are_justified_by_their_paths() {
    let reg = sample_registry();
    let ra = RegistryAdapter::new(&reg);
    let root = deps(&[("left_pad", "^2.0.0")]);
    let stack = ra.constraint_set_from(&root).unwrap();
    let (tail, (name, c)) = stack.pop().unwrap();
    let (version, path) = c.candidate(0);
    assert_eq!(path, &Path::new());
    assert!(root.get(&name).unwrap().satisfied_by(version));
    let chosen = PartialSolution::new()
        .insert(name.clone(), JustifiedVersion { version: version.clone(), path: path.clone() });
    let from_release = ra.constraint_set_for(name.clone(), version.clone(), path.clone()).unwrap();
    let mut set = tail.merge(&from_release, &chosen).unwrap();
    let mut seen = 0;
    while let Some((rest, (package, candidates))) = set.pop() {
        for i in 0..candidates.len() {
            let (v, path) = candidates.candidate(i);
            let (asker, asked_at) = path.steps.last().unwrap();
            assert_eq!(chosen.get(asker).unwrap().version, *asked_at);
            let release = reg.package(asker).unwrap().release(asked_at).unwrap();
            assert!(release.dependencies.get(&package).unwrap().satisfied_by(v));
            assert!(reg.package(&package).unwrap().release(v).is_some());
            seen += 1;
        }
        set = rest;
    }
    assert_eq!(seen, 2);
}
