use benchmark_from_crates::checker::{
    check, classify, is_cyclic_dependency, passes, CheckEvent, CheckState, Classification,
    ReferenceOutcome, SolverOutcome,
};
use benchmark_from_crates::index_data::{DependencyKind, RawDependency, RawVersion, Version};
use benchmark_from_crates::minimizer::{minimize, place_of, without};
use benchmark_from_crates::read_index::{read_test_file, QueryKind, Snapshot};

fn s(t: &str) -> String {
    t.to_string()
}

fn version(name: &str, vers: &str, deps: &[(&str, &str)]) -> Version {
    let deps = deps
        .iter()
        .map(|(n, r)| RawDependency {
            name: s(n),
            package_name: s(n),
            req: s(r),
            features: vec![],
            default_features: true,
            kind: DependencyKind::Normal,
            optional: false,
        })
        .collect();
    let raw = RawVersion { name: s(name), vers: s(vers), deps, features: vec![], links: None, yanked: false };
    Version::try_from(&raw).unwrap()
}

/// Picks for each dependency of the root the last version that satisfies it.
fn pick_latest(snap: &Snapshot, name: &str, vers: &str) -> Option<Vec<(String, String)>> {
    let root = snap.get(name, vers)?;
    let mut picked = vec![(root.name.clone(), root.vers.clone())];
    for dep in &root.deps {
        let found = snap.query(&dep.package_name, &dep.req, QueryKind::Exact);
        let last = found.last()?;
        picked.push((last.name.clone(), last.vers.clone()));
    }
    Some(picked)
}

fn solver(snap: &Snapshot, name: &str, vers: &str) -> SolverOutcome {
    match pick_latest(snap, name, vers) {
        Some(_) => SolverOutcome::Solved { consistent: true },
        None => SolverOutcome::NoSolution,
    }
}

fn reference(snap: &Snapshot, name: &str, vers: &str) -> ReferenceOutcome {
    match pick_latest(snap, name, vers) {
        Some(_) => ReferenceOutcome::Solved,
        None => ReferenceOutcome::Failed { cyclic: false },
    }
}

#[test]
fn latest_satisfying_version_is_agreed_on() {
    let snap = read_test_file(vec![
        version("root", "1.0.0", &[("leaf", "^1.0")]),
        version("leaf", "1.0.0", &[]),
        version("leaf", "1.1.0", &[]),
    ]);
    assert_eq!(
        pick_latest(&snap, "root", "1.0.0"),
        Some(vec![(s("root"), s("1.0.0")), (s("leaf"), s("1.1.0"))])
    );
    let verdict = check(
        || solver(&snap, "root", "1.0.0"),
        snap.contains("root", "1.0.0"),
        || reference(&snap, "root", "1.0.0"),
    );
    assert_eq!(verdict, Classification::Agree);
}

#[test]
fn missing_version_is_no_solution_for_both() {
    let snap = read_test_file(vec![
        version("root", "1.0.0", &[("leaf", "^2.0")]),
        version("leaf", "1.0.0", &[]),
    ]);
    assert_eq!(solver(&snap, "root", "1.0.0"), SolverOutcome::NoSolution);
    assert_eq!(reference(&snap, "root", "1.0.0"), ReferenceOutcome::Failed { cyclic: false });
    let verdict = check(
        || solver(&snap, "root", "1.0.0"),
        true,
        || reference(&snap, "root", "1.0.0"),
    );
    assert_eq!(verdict, Classification::Agree);
}

#[test]
fn verdict_on_every_pair_of_outcomes() {
    let good = SolverOutcome::Solved { consistent: true };
    let bad = SolverOutcome::Solved { consistent: false };
    let none = SolverOutcome::NoSolution;
    let broken = SolverOutcome::InternalError;
    let solved = Some(ReferenceOutcome::Solved);
    let failed = Some(ReferenceOutcome::Failed { cyclic: false });
    let cyclic = Some(ReferenceOutcome::Failed { cyclic: true });
    assert_eq!(classify(good, solved), Classification::Agree);
    assert_eq!(classify(good, failed), Classification::Disagree);
    assert_eq!(classify(good, cyclic), Classification::Skipped);
    assert_eq!(classify(good, None), Classification::Skipped);
    assert_eq!(classify(none, solved), Classification::Disagree);
    assert_eq!(classify(none, failed), Classification::Agree);
    assert_eq!(classify(none, cyclic), Classification::Skipped);
    assert_eq!(classify(none, None), Classification::Skipped);
    for b in [solved, failed, cyclic, None] {
        assert_eq!(classify(bad, b), Classification::Disagree);
        assert_eq!(classify(broken, b), Classification::Disagree);
    }
    assert!(passes(Classification::Agree));
    assert!(passes(Classification::Skipped));
    assert!(!passes(Classification::Disagree));
}

#[test]
fn reference_is_run_only_where_wanted() {
    let ran = std::cell::Cell::new(0u32);
    let run = || {
        ran.set(ran.get() + 1);
        ReferenceOutcome::Solved
    };
    assert_eq!(check(|| SolverOutcome::NoSolution, false, &run), Classification::Skipped);
    assert_eq!(check(|| SolverOutcome::InternalError, true, &run), Classification::Disagree);
    assert_eq!(check(|| SolverOutcome::Solved { consistent: false }, true, &run), Classification::Disagree);
    assert_eq!(ran.get(), 0);
    assert_eq!(check(|| SolverOutcome::NoSolution, true, &run), Classification::Disagree);
    assert_eq!(ran.get(), 1);
}

#[test]
fn states_follow_the_events() {
    let a = SolverOutcome::NoSolution;
    let b = ReferenceOutcome::Failed { cyclic: true };
    let idle = CheckState::Idle;
    assert_eq!(idle.next(CheckEvent::Close), CheckState::Idle);
    assert_eq!(idle.next(CheckEvent::EngineB { b }), CheckState::Idle);
    let ran_a = idle.next(CheckEvent::EngineA { a });
    assert_eq!(ran_a, CheckState::RanEngineA { a });
    assert!(ran_a.wants_engine_b(true));
    assert!(!ran_a.wants_engine_b(false));
    assert!(!idle.wants_engine_b(true));
    assert_eq!(ran_a.next(CheckEvent::Close), CheckState::Classified { verdict: Classification::Skipped });
    let ran_b = ran_a.next(CheckEvent::EngineB { b });
    assert_eq!(ran_b, CheckState::RanEngineB { a, b });
    let done = ran_b.next(CheckEvent::Close);
    assert_eq!(done, CheckState::Classified { verdict: Classification::Skipped });
    assert_eq!(done.next(CheckEvent::EngineA { a }), done);
}

#[test]
fn cyclic_complaint_is_told_by_its_start() {
    assert!(is_cyclic_dependency("cyclic package dependency: package `a v1.0.0` depends on itself"));
    assert!(is_cyclic_dependency("cyclic package dependency"));
    assert!(!is_cyclic_dependency("a cyclic package dependency"));
    assert!(!is_cyclic_dependency("cyclic package"));
    assert!(!is_cyclic_dependency(""));
}

#[test]
fn place_goes_round_the_end() {
    assert_eq!(place_of(0, 0, 1), 0);
    assert_eq!(place_of(2, 0, 5), 2);
    assert_eq!(place_of(2, 2, 5), 4);
    assert_eq!(place_of(2, 3, 5), 0);
    assert_eq!(place_of(4, 4, 5), 3);
    assert_eq!(place_of(usize::MAX - 1, usize::MAX - 1, usize::MAX), usize::MAX - 2);
}

#[test]
fn without_leaves_one_record_out() {
    let data = vec![version("a", "1.0.0", &[]), version("b", "1.0.0", &[]), version("c", "1.0.0", &[])];
    assert_eq!(without(&data, 0), vec![data[1].clone(), data[2].clone()]);
    assert_eq!(without(&data, 1), vec![data[0].clone(), data[2].clone()]);
    assert_eq!(without(&data, 2), vec![data[0].clone(), data[1].clone()]);
}

#[test]
fn unrelated_package_is_removed() {
    let root = version("root", "1.0.0", &[("leaf", "^1.0")]);
    let leaf = version("leaf", "1.0.0", &[]);
    let other = version("other", "9.9.9", &[]);
    let fails = |data: &Vec<Version>| {
        let snap = read_test_file(data.clone());
        snap.contains("root", "1.0.0") && snap.contains("leaf", "1.0.0")
    };
    for data in [
        vec![root.clone(), leaf.clone(), other.clone()],
        vec![other.clone(), root.clone(), leaf.clone()],
        vec![root.clone(), other.clone(), leaf.clone()],
    ] {
        assert!(fails(&data));
        let small = minimize(data.clone(), &fails);
        assert_eq!(small, vec![root.clone(), leaf.clone()]);
        assert!(fails(&small));
        assert!(small.len() <= data.len());
    }
}

#[test]
fn minimum_has_no_record_to_spare() {
    let data: Vec<Version> =
        (0..8).map(|i| version(&format!("pkg{i}"), "1.0.0", &[])).collect();
    let fails = |d: &Vec<Version>| {
        d.iter().any(|v| v.name == "pkg2") && d.iter().any(|v| v.name == "pkg5")
    };
    let small = minimize(data.clone(), &fails);
    assert_eq!(small, vec![data[2].clone(), data[5].clone()]);
    for i in 0..small.len() {
        assert!(!fails(&without(&small, i)));
    }
}

#[test]
fn nothing_is_removed_where_nothing_can_go() {
    let data = vec![version("a", "1.0.0", &[]), version("b", "1.0.0", &[])];
    assert_eq!(minimize(data.clone(), |_: &Vec<Version>| false), data);
    assert_eq!(minimize(vec![], |_: &Vec<Version>| true), Vec::<Version>::new());
    assert_eq!(minimize(data, |_: &Vec<Version>| true), Vec::<Version>::new());
}

#[test]
fn scan_restarts_where_the_last_record_went() {
    let data: Vec<Version> =
        (0..4).map(|i| version(&format!("pkg{i}"), "1.0.0", &[])).collect();
    let asked = std::cell::RefCell::new(Vec::<Vec<String>>::new());
    let fails = |d: &Vec<Version>| {
        asked.borrow_mut().push(d.iter().map(|v| v.name.clone()).collect());
        d.iter().any(|v| v.name == "pkg0") && d.len() >= 2
    };
    let small = minimize(data, &fails);
    assert_eq!(small.len(), 2);
    let asked = asked.into_inner();
    assert_eq!(asked[0], vec![s("pkg1"), s("pkg2"), s("pkg3")]);
    assert_eq!(asked[1], vec![s("pkg0"), s("pkg2"), s("pkg3")]);
    assert_eq!(asked[2], vec![s("pkg0"), s("pkg3")]);
}
