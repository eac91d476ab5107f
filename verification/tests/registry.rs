use benchmark_from_crates::defaults::is_default;
use benchmark_from_crates::index_data::{
    canonical_dependencies, canonical_features, canonical_texts, copy_dependencies, copy_features,
    copy_texts, copy_versions, Dependency, DependencyKind, ParseError, RawDependency, RawVersion,
    Version,
};
use benchmark_from_crates::read_index::{
    admitted_versions, read_filtered, read_index, read_test_file, refusals, Filters, QueryKind,
    Snapshot,
};
use benchmark_from_crates::text::{text_contains, text_eq, text_le, text_starts_with};

fn s(t: &str) -> String {
    t.to_string()
}

fn raw_dep(name: &str, req: &str) -> RawDependency {
    RawDependency {
        name: s(name),
        package_name: s(name),
        req: s(req),
        features: vec![],
        default_features: true,
        kind: DependencyKind::Normal,
        optional: false,
    }
}

fn raw_version(name: &str, vers: &str, deps: Vec<RawDependency>) -> RawVersion {
    RawVersion { name: s(name), vers: s(vers), deps, features: vec![], links: None, yanked: false }
}

fn version(name: &str, vers: &str, deps: Vec<RawDependency>) -> Version {
    Version::try_from(&raw_version(name, vers, deps)).unwrap()
}

fn no_filters() -> Filters {
    Filters { excluded_name_part: None, skip_yanked: false }
}

fn numbers(found: &Vec<Version>) -> Vec<String> {
    found.iter().map(|v| v.vers.clone()).collect()
}

#[test]
fn text_order_is_that_of_std() {
    let words = ["", "a", "ab", "abc", "b", "ba", "é", "z", "Z", "serde", "serde_json", "日本"];
    for a in words {
        for b in words {
            assert_eq!(text_le(a, b), a <= b, "{a:?} <= {b:?}");
            assert_eq!(text_eq(a, b), a == b);
            assert_eq!(text_starts_with(a, b), a.starts_with(b));
            assert_eq!(text_contains(a, b), a.contains(b));
        }
    }
}

#[test]
fn is_default_tells_default_values() {
    assert!(is_default(&false));
    assert!(!is_default(&true));
    assert!(is_default(&0u64));
    assert!(!is_default(&7u64));
    assert!(is_default(&DependencyKind::Normal));
    assert!(!is_default(&DependencyKind::Dev));
    assert!(is_default(&None::<u8>));
}

#[test]
fn features_are_sorted_and_deduplicated() {
    let got = canonical_texts(&vec![s("std"), s("alloc"), s("derive"), s("alloc"), s("std")]);
    assert_eq!(got, vec![s("alloc"), s("derive"), s("std")]);
    assert_eq!(canonical_texts(&vec![]), Vec::<String>::new());
}

#[test]
fn dependency_is_made_canonical() {
    let mut raw = raw_dep("serde_crate", "1.0");
    raw.package_name = s("serde");
    raw.features = vec![s("rc"), s("derive"), s("rc")];
    raw.kind = DependencyKind::Build;
    raw.optional = true;
    raw.default_features = false;
    let dep = Dependency::try_from(&raw).unwrap();
    assert_eq!(dep.name, "serde_crate");
    assert_eq!(dep.package_name, "serde");
    assert_eq!(dep.req, "^1.0");
    assert_eq!(dep.features, vec![s("derive"), s("rc")]);
    assert_eq!(dep.kind, DependencyKind::Build);
    assert!(dep.optional);
    assert!(!dep.default_features);
    assert_eq!(dep.copy(), dep);
}

#[test]
fn requirement_is_rendered_by_semver() {
    assert_eq!(Dependency::try_from(&raw_dep("a", "*")).unwrap().req, "*");
    assert_eq!(Dependency::try_from(&raw_dep("a", " >=1.2,  <2")).unwrap().req, ">=1.2, <2");
    assert_eq!(Dependency::try_from(&raw_dep("a", "=1.2.3")).unwrap().req, "=1.2.3");
}

#[test]
fn invalid_requirement_is_refused() {
    assert_eq!(Dependency::try_from(&raw_dep("a", "@1.0.0")), Err(ParseError::InvalidRequirement));
    assert_eq!(Dependency::try_from(&raw_dep("a", ">=1.0 <2.0")), Err(ParseError::InvalidRequirement));
    let raw = raw_version("root", "1.0.0", vec![raw_dep("ok", "1"), raw_dep("bad", ">a.b")]);
    assert_eq!(Version::try_from(&raw), Err(ParseError::InvalidRequirement));
}

#[test]
fn invalid_version_is_refused() {
    assert_eq!(Version::try_from(&raw_version("a", "1.0", vec![])), Err(ParseError::InvalidVersion));
    assert_eq!(Version::try_from(&raw_version("a", "1.0.01", vec![])), Err(ParseError::InvalidVersion));
    assert_eq!(Version::try_from(&raw_version("a", "", vec![])), Err(ParseError::InvalidVersion));
}

#[test]
fn requirement_error_comes_before_version_error() {
    let raw = raw_version("a", "not a version", vec![raw_dep("bad", "@")]);
    assert_eq!(Version::try_from(&raw), Err(ParseError::InvalidRequirement));
}

#[test]
fn dependencies_are_sorted_by_package_and_stay_in_order_within_one() {
    let mut first = raw_dep("zeta", "1");
    first.package_name = s("core");
    let mut second = raw_dep("alpha", "2");
    second.package_name = s("core");
    let raw = raw_version("root", "1.0.0", vec![raw_dep("tokio", "1"), first, raw_dep("anyhow", "1"), second]);
    let v = Version::try_from(&raw).unwrap();
    let order: Vec<(String, String)> =
        v.deps.iter().map(|d| (d.package_name.clone(), d.name.clone())).collect();
    assert_eq!(
        order,
        vec![
            (s("anyhow"), s("anyhow")),
            (s("core"), s("zeta")),
            (s("core"), s("alpha")),
            (s("tokio"), s("tokio")),
        ]
    );
}

#[test]
fn feature_table_is_sorted_and_a_later_entry_replaces() {
    let mut raw = raw_version("root", "1.2.3-beta.1+build", vec![]);
    raw.features = vec![
        (s("std"), vec![s("b"), s("a")]),
        (s("default"), vec![s("std")]),
        (s("std"), vec![s("alloc"), s("alloc")]),
    ];
    raw.links = Some(s("z"));
    raw.yanked = true;
    let v = Version::try_from(&raw).unwrap();
    assert_eq!(v.vers, "1.2.3-beta.1+build");
    assert_eq!(v.features, vec![(s("default"), vec![s("std")]), (s("std"), vec![s("alloc")])]);
    assert_eq!(v.links, Some(s("z")));
    assert!(v.yanked);
    assert_eq!(v.copy(), v);
}

#[test]
fn later_record_of_a_key_replaces_the_earlier() {
    let a = version("leaf", "1.0.0", vec![]);
    let b = version("leaf", "1.0.0", vec![raw_dep("x", "1")]);
    let c = version("leaf", "1.1.0", vec![]);
    let snap = read_test_file(vec![a, c.clone(), b.clone()]);
    assert_eq!(snap.len(), 2);
    assert_eq!(snap.get("leaf", "1.0.0"), Some(b));
    assert_eq!(snap.get("leaf", "1.1.0"), Some(c));
    assert_eq!(snap.get("leaf", "2.0.0"), None);
    assert!(snap.contains("leaf", "1.1.0"));
    assert!(!snap.contains("root", "1.1.0"));
    assert_eq!(Snapshot::new().len(), 0);
}

#[test]
fn snapshot_does_not_depend_on_the_order_of_the_records() {
    let records = vec![
        raw_version("root", "1.0.0", vec![raw_dep("leaf", "^1.0")]),
        raw_version("leaf", "1.0.0", vec![]),
        raw_version("leaf", "1.1.0", vec![]),
    ];
    let mut turned = records.clone();
    turned.reverse();
    let one = read_filtered(&records, &no_filters());
    let two = read_filtered(&turned, &no_filters());
    assert_eq!(one.len(), 3);
    assert_eq!(two.len(), 3);
    for v in one.to_records() {
        assert_eq!(two.get(&v.name, &v.vers), Some(v));
    }
}

#[test]
fn filters_keep_records_out() {
    let mut yanked = raw_version("leaf", "0.9.0", vec![]);
    yanked.yanked = true;
    let records = vec![
        raw_version("solana-sdk", "1.0.0", vec![]),
        raw_version("leaf", "1.0.0", vec![]),
        yanked,
        raw_version("broken", "1.0", vec![]),
        raw_version("unparsable", "1.0.0", vec![raw_dep("x", "@1")]),
    ];
    let all = read_filtered(&records, &no_filters());
    assert_eq!(all.len(), 3);
    assert!(all.contains("solana-sdk", "1.0.0"));
    assert!(all.contains("leaf", "0.9.0"));
    assert!(!all.contains("broken", "1.0"));
    let filters = Filters { excluded_name_part: Some(s("solana")), skip_yanked: true };
    let some = read_filtered(&records, &filters);
    assert_eq!(some.len(), 1);
    assert!(some.contains("leaf", "1.0.0"));
    let listed = admitted_versions(&records, &filters);
    assert_eq!(listed.len(), 1);
    assert_eq!(listed[0].name, "leaf");
    assert_eq!(listed[0].vers, "1.0.0");
}

#[test]
fn predicates_decide_what_enters() {
    let mut yanked = raw_version("leaf", "0.9.0", vec![]);
    yanked.yanked = true;
    let records = vec![
        raw_version("solana-sdk", "1.0.0", vec![]),
        raw_version("leaf", "1.0.0", vec![raw_dep("x", "1")]),
        yanked,
        raw_version("broken", "1.0", vec![]),
        raw_version("leaf", "1.0.0", vec![]),
    ];
    let everything = read_index(&records, |_: &str| true, |_: &Version| true);
    assert_eq!(everything.len(), 3);
    assert_eq!(everything.get("leaf", "1.0.0").unwrap().deps.len(), 0);
    let some = read_index(&records, |name: &str| !name.contains("solana"), |v: &Version| !v.yanked);
    assert_eq!(some.len(), 1);
    assert!(some.contains("leaf", "1.0.0"));
    let asked = std::cell::RefCell::new(Vec::<String>::new());
    let none = read_index(
        &records,
        |name: &str| name != "leaf",
        |v: &Version| {
            asked.borrow_mut().push(v.name.clone());
            false
        },
    );
    assert_eq!(none.len(), 0);
    assert_eq!(asked.into_inner(), vec![s("solana-sdk")]);
}

#[test]
fn exact_query_keeps_the_versions_that_satisfy() {
    let snap = read_test_file(vec![
        version("root", "1.0.0", vec![raw_dep("leaf", "^1.0")]),
        version("leaf", "1.0.0", vec![]),
        version("leaf", "1.1.0", vec![]),
        version("leaf", "2.0.0", vec![]),
        version("leaf", "2.1.0-alpha", vec![]),
    ]);
    assert_eq!(numbers(&snap.query("leaf", "^1.0", QueryKind::Exact)), vec![s("1.0.0"), s("1.1.0")]);
    assert_eq!(numbers(&snap.query("leaf", "=2.0.0", QueryKind::Exact)), vec![s("2.0.0")]);
    assert_eq!(numbers(&snap.query("leaf", "*", QueryKind::Exact)), vec![s("1.0.0"), s("1.1.0"), s("2.0.0")]);
    assert_eq!(numbers(&snap.query("leaf", "^3", QueryKind::Exact)), Vec::<String>::new());
    assert_eq!(numbers(&snap.query("nothing", "*", QueryKind::Exact)), Vec::<String>::new());
}

#[test]
fn other_queries_give_every_version_of_the_package() {
    let snap = read_test_file(vec![
        version("leaf", "1.0.0", vec![]),
        version("other", "9.9.9", vec![]),
        version("leaf", "2.0.0", vec![]),
    ]);
    let all = vec![s("1.0.0"), s("2.0.0")];
    assert_eq!(numbers(&snap.query("leaf", "^1.0", QueryKind::Alternatives)), all);
    assert_eq!(numbers(&snap.query("leaf", "^1.0", QueryKind::Normalized)), all);
}

#[test]
fn roots_are_every_pair_or_those_of_the_named_packages() {
    let snap = read_test_file(vec![
        version("root", "1.0.0", vec![]),
        version("leaf", "1.0.0", vec![]),
        version("leaf", "1.1.0", vec![]),
    ]);
    assert_eq!(
        snap.roots(None),
        vec![(s("root"), s("1.0.0")), (s("leaf"), s("1.0.0")), (s("leaf"), s("1.1.0"))]
    );
    assert_eq!(snap.roots(Some("ea")), vec![(s("leaf"), s("1.0.0")), (s("leaf"), s("1.1.0"))]);
    assert_eq!(snap.roots(Some("zzz")), Vec::<(String, String)>::new());
}

#[test]
fn refusals_name_the_malformed_records() {
    let records = vec![
        raw_version("fine", "1.0.0", vec![raw_dep("x", "1")]),
        raw_version("broken", "1.0", vec![]),
        raw_version("unparsable", "1.0.0", vec![raw_dep("x", "@1")]),
        raw_version("both", "", vec![raw_dep("x", "")]),
    ];
    assert_eq!(
        refusals(&records),
        vec![
            None,
            Some(ParseError::InvalidVersion),
            Some(ParseError::InvalidRequirement),
            Some(ParseError::InvalidRequirement),
        ]
    );
    assert_eq!(refusals(&vec![]), vec![]);
}

fn raw_of(v: &Version) -> RawVersion {
    RawVersion {
        name: v.name.clone(),
        vers: v.vers.clone(),
        deps: v
            .deps
            .iter()
            .map(|d| RawDependency {
                name: d.name.clone(),
                package_name: d.package_name.clone(),
                req: d.req.clone(),
                features: d.features.clone(),
                default_features: d.default_features,
                kind: d.kind,
                optional: d.optional,
            })
            .collect(),
        features: v.features.clone(),
        links: v.links.clone(),
        yanked: v.yanked,
    }
}

#[test]
fn canonical_form_is_stable() {
    let mut with_features = raw_dep("serde", ">=1.0.100, <2");
    with_features.features = vec![s("rc"), s("derive"), s("alloc")];
    let mut raw = raw_version(
        "root",
        "2.0.0-rc.1",
        vec![raw_dep("zzz", "~1.2"), with_features, raw_dep("abc", "*"), raw_dep("serde", "1")],
    );
    raw.features = vec![(s("std"), vec![s("serde/std"), s("alloc")]), (s("alloc"), vec![])];
    raw.links = Some(s("git2"));
    let once = Version::try_from(&raw).unwrap();
    let twice = Version::try_from(&raw_of(&once)).unwrap();
    assert_eq!(once, twice);
    let thrice = Version::try_from(&raw_of(&twice)).unwrap();
    assert_eq!(twice, thrice);
}

#[test]
fn parts_of_the_canonical_form() {
    let deps = canonical_dependencies(&vec![raw_dep("b", "1"), raw_dep("a", "2")]).unwrap();
    let names: Vec<&str> = deps.iter().map(|d| d.name.as_str()).collect();
    assert_eq!(names, vec!["a", "b"]);
    assert_eq!(deps[0].req, "^2");
    assert_eq!(canonical_dependencies(&vec![raw_dep("b", "1"), raw_dep("a", "?")]), None);
    assert_eq!(canonical_dependencies(&vec![]), Some(vec![]));
    let table = canonical_features(&vec![
        (s("b"), vec![s("y"), s("x"), s("y")]),
        (s("a"), vec![]),
        (s("b"), vec![s("z")]),
        (s("c"), vec![s("b"), s("a")]),
    ]);
    assert_eq!(
        table,
        vec![(s("a"), vec![]), (s("b"), vec![s("z")]), (s("c"), vec![s("a"), s("b")])]
    );
}

#[test]
fn copies_are_equal() {
    let texts = vec![s("b"), s("a"), s("b")];
    assert_eq!(copy_texts(&texts), texts);
    let v = version("root", "1.0.0", vec![raw_dep("leaf", "^1.0"), raw_dep("a", "1")]);
    assert_eq!(copy_dependencies(&v.deps), v.deps);
    let table = vec![(s("x"), vec![s("y")]), (s("z"), vec![])];
    assert_eq!(copy_features(&table), table);
    let all = vec![v.clone(), version("leaf", "1.0.0", vec![])];
    assert_eq!(copy_versions(&all), all);
}

#[test]
fn snapshot_grows_by_one_version_at_a_time() {
    let a = version("leaf", "1.0.0", vec![]);
    let b = version("leaf", "1.0.0", vec![raw_dep("x", "1")]);
    let snap = Snapshot::new().with(a.clone());
    assert_eq!(snap.to_records(), vec![a.clone()]);
    let snap = snap.with(version("root", "1.0.0", vec![])).with(b.clone());
    assert_eq!(snap.len(), 2);
    assert_eq!(snap.to_records()[0], b);
    assert_eq!(snap.get("leaf", "1.0.0"), Some(b));
}
