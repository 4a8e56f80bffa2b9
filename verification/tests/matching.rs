use cargo_lock_align::candidate::{judge, Finding, Report, Verdict};
use cargo_lock_align::package::{
    display_package_version, find_old_package, has_package_with_matching_source,
    package_source_matches, NewPackage, OldPackage, PackageKey, ResolvedPackageKey,
};
use cargo_lock_align::tables::{Distances, KeySet, PackageMap};
use cargo_lock_align::version::Version;

const REGISTRY: &str = "registry+https://github.com/rust-lang/crates.io-index";
const GIT: &str = "git+ssh://code.byted.org/lark/molten-ffi.git?branch=v/0.14.x";

fn version(value: &str) -> Version {
    Version::parse(value).unwrap()
}

fn key(name: &str, source: Option<&str>) -> PackageKey {
    PackageKey { name: name.to_string(), source: source.map(str::to_string) }
}

fn locked(name: &str, value: &str, source: Option<&str>, precise: Option<&str>) -> OldPackage {
    OldPackage {
        key: key(name, source),
        version: version(value),
        precise: precise.map(str::to_string),
    }
}

fn resolved(name: &str, value: &str, source: Option<&str>, precise: Option<&str>) -> NewPackage {
    NewPackage {
        id: format!("{}@{}", name, value),
        name: name.to_string(),
        version: version(value),
        source: source.map(str::to_string),
        precise: precise.map(str::to_string),
    }
}

fn resolved_key(name: &str, value: &str, source: Option<&str>) -> ResolvedPackageKey {
    ResolvedPackageKey { package: key(name, source), version: version(value) }
}

#[test]
fn sources_and_names_must_agree() {
    assert!(package_source_matches(&key("a", Some(GIT)), &key("a", Some(GIT))));
    assert!(package_source_matches(&key("a", None), &key("a", None)));
    assert!(!package_source_matches(&key("a", Some(GIT)), &key("b", Some(GIT))));
    assert!(!package_source_matches(&key("a", Some(REGISTRY)), &key("a", Some(GIT))));
    assert!(!package_source_matches(&key("a", Some(REGISTRY)), &key("a", None)));
    assert!(!package_source_matches(&key("a", None), &key("b", Some(REGISTRY))));
}

#[test]
fn of_equal_versions_the_last_entry_is_taken() {
    let packages = [
        locked("a", "1.0.1", Some(REGISTRY), Some("first")),
        locked("a", "1.0.1", None, Some("last")),
        locked("a", "1.0.0", Some(REGISTRY), Some("lower")),
    ];
    let found =
        find_old_package(&packages, &key("a", Some(REGISTRY)), &version("1.2.0")).unwrap();
    assert_eq!(found.precise.as_deref(), Some("last"));
}

#[test]
fn release_is_taken_before_pre_release() {
    let packages = [
        locked("a", "1.0.1", Some(REGISTRY), None),
        locked("a", "1.0.1-rc.1", Some(REGISTRY), None),
    ];
    let found =
        find_old_package(&packages, &key("a", Some(REGISTRY)), &version("1.2.0")).unwrap();
    assert_eq!(found.version, version("1.0.1"));
}

#[test]
fn nothing_is_found_off_the_compatibility_line() {
    let packages = [locked("a", "0.4.30", Some(REGISTRY), None)];
    assert!(find_old_package(&packages, &key("a", Some(REGISTRY)), &version("1.0.0")).is_none());
    assert!(find_old_package(&packages, &key("a", Some(GIT)), &version("0.4.31")).is_none());
    assert!(find_old_package(&[], &key("a", None), &version("1.0.0")).is_none());
}

#[test]
fn matching_source_is_found_at_any_version() {
    let packages = [locked("a", "0.4.30", Some(REGISTRY), None)];
    assert!(has_package_with_matching_source(&packages, &key("a", Some(REGISTRY))));
    assert!(!has_package_with_matching_source(&packages, &key("a", Some(GIT))));
    assert!(!has_package_with_matching_source(&packages, &key("b", Some(REGISTRY))));
}

#[test]
fn version_is_shown_with_short_revision() {
    assert_eq!(display_package_version(&version("0.14.2"), None), "0.14.2");
    assert_eq!(
        display_package_version(&version("0.14.2"), Some("090efe06aabbccdd")),
        "0.14.2#090efe06",
    );
}

#[test]
fn local_package_is_not_aligned() {
    let verdict = judge(
        &resolved("a", "1.0.0", None, None),
        &KeySet::new(),
        &KeySet::new(),
        &[],
        &[locked("a", "1.0.1", None, None)],
    );
    assert!(matches!(verdict, Verdict::Local));
}

#[test]
fn earlier_findings_stand() {
    let package = resolved("a", "1.0.0", Some(REGISTRY), None);
    let old = [locked("a", "1.0.1", Some(REGISTRY), None)];
    let mut found = KeySet::new();
    assert!(found.insert(resolved_key("a", "1.0.0", Some(REGISTRY))));

    assert!(matches!(
        judge(&package, &found, &KeySet::new(), &[], &old),
        Verdict::AlreadyAligned
    ));
    assert!(matches!(
        judge(&package, &KeySet::new(), &found, &[], &old),
        Verdict::AlreadySkipped
    ));
    assert!(matches!(
        judge(&package, &KeySet::new(), &KeySet::new(), &[], &old),
        Verdict::Differs(_)
    ));
}

#[test]
fn package_as_locked_is_aligned() {
    let verdict = judge(
        &resolved("tokio", "1.46.0", Some(REGISTRY), None),
        &KeySet::new(),
        &KeySet::new(),
        &[],
        &[locked("tokio", "1.46.0", Some(REGISTRY), None)],
    );
    match verdict {
        Verdict::Matched(report) => {
            assert_eq!(report.finding, Finding::Aligned);
            assert_eq!(report.line(), "  OK   tokio                          1.46.0");
        }
        _ => panic!("not aligned"),
    }
}

#[test]
fn missing_package_is_passed_over() {
    let verdict = judge(
        &resolved("some-crate", "1.2.3", Some(REGISTRY), None),
        &KeySet::new(),
        &KeySet::new(),
        &[],
        &[locked("other", "1.2.3", Some(REGISTRY), None)],
    );
    match verdict {
        Verdict::Unmatched(report) => {
            assert_eq!(report.finding, Finding::NotFound);
            assert_eq!(
                report.line(),
                "  SKIP some-crate                     new=1.2.3 (not found in old lock)",
            );
        }
        _ => panic!("not passed over"),
    }
}

#[test]
fn package_without_compatible_version_is_passed_over() {
    let verdict = judge(
        &resolved("some-crate", "1.2.3", Some(REGISTRY), None),
        &KeySet::new(),
        &KeySet::new(),
        &[],
        &[locked("some-crate", "2.0.0", Some(REGISTRY), None)],
    );
    match verdict {
        Verdict::Unmatched(report) => {
            assert_eq!(report.finding, Finding::NoCompatibleVersion);
            assert_eq!(
                report.line(),
                "  SKIP some-crate                     new=1.2.3 (no compatible version in old lock)",
            );
        }
        _ => panic!("not passed over"),
    }
}

#[test]
fn long_names_are_shown_whole() {
    let report = Report {
        finding: Finding::Aligned,
        name: "a-name-that-is-longer-than-thirty".to_string(),
        shown: "1.0.0".to_string(),
    };
    assert_eq!(report.line(), "  OK   a-name-that-is-longer-than-thirty 1.0.0");
}

#[test]
fn shown_revision_comes_from_the_current_lock_file() {
    let package = resolved("molten-ffi", "0.14.2", Some(GIT), Some("87226568aaaa"));
    let old = [locked("molten-ffi", "0.14.2", Some(GIT), Some("090efe06bbbb"))];

    match judge(&package, &KeySet::new(), &KeySet::new(), &[], &old) {
        Verdict::Differs(candidate) => {
            assert_eq!(candidate.current_display(), "0.14.2#87226568");
            assert_eq!(candidate.target_display(), "0.14.2#090efe06");
            assert_eq!(candidate.target_precise, "090efe06bbbb");
        }
        _ => panic!("not to be updated"),
    }

    let current = [locked("molten-ffi", "0.14.2", Some(GIT), Some("11112222cccc"))];
    match judge(&package, &KeySet::new(), &KeySet::new(), &current, &old) {
        Verdict::Differs(candidate) => assert_eq!(candidate.current_display(), "0.14.2#11112222"),
        _ => panic!("not to be updated"),
    }
}

#[test]
fn revision_in_the_graph_decides_on_alignment() {
    let package = resolved("molten-ffi", "0.14.2", Some(GIT), Some("090efe06"));
    let old = [locked("molten-ffi", "0.14.2", Some(GIT), Some("090efe06"))];
    let current = [locked("molten-ffi", "0.14.2", Some(GIT), Some("11112222"))];

    match judge(&package, &KeySet::new(), &KeySet::new(), &current, &old) {
        Verdict::Matched(report) => assert_eq!(report.shown, "0.14.2#11112222"),
        _ => panic!("not aligned"),
    }
}

#[test]
fn target_without_revision_is_the_old_version() {
    let package = resolved("backtrace", "0.3.76", Some(REGISTRY), None);
    let old = [locked("backtrace", "0.3.73", None, None)];

    match judge(&package, &KeySet::new(), &KeySet::new(), &[], &old) {
        Verdict::Differs(candidate) => {
            assert_eq!(candidate.target_precise, "0.3.73");
            assert_eq!(candidate.package_id, "backtrace@0.3.76");
            assert_eq!(candidate.resolved_key.package.name, "backtrace");
        }
        _ => panic!("not to be updated"),
    }
}

#[test]
fn sets_hold_a_package_once() {
    let mut set = KeySet::new();
    assert_eq!(set.len(), 0);
    assert!(set.insert(resolved_key("a", "1.0.0", None)));
    assert!(!set.insert(resolved_key("a", "1.0.0", None)));
    assert!(set.insert(resolved_key("a", "1.0.1", None)));
    assert!(set.insert(resolved_key("a", "1.0.0", Some(GIT))));
    assert_eq!(set.len(), 3);
    assert!(set.contains(&resolved_key("a", "1.0.1", None)));
    assert!(!set.contains(&resolved_key("b", "1.0.1", None)));
}

#[test]
fn distances_keep_the_later_one() {
    let mut distances = Distances::new();
    assert_eq!(distances.get(&"a".to_string()), None);
    distances.insert("a".to_string(), 3);
    distances.insert("b".to_string(), 4);
    distances.insert("a".to_string(), 1);
    assert_eq!(distances.get(&"a".to_string()), Some(1));
    assert_eq!(distances.get(&"b".to_string()), Some(4));
    assert_eq!(distances.get(&"c".to_string()), None);
}

#[test]
fn tables_keep_the_later_package_of_a_name() {
    let mut map = PackageMap::new();
    let mut first = resolved("a", "1.0.0", None, None);
    first.id = "x".to_string();
    let mut second = resolved("b", "1.0.0", None, None);
    second.id = "x".to_string();
    map.insert(first);
    map.insert(second);
    assert_eq!(map.len(), 1);
    assert_eq!(map.get(&"x".to_string()).unwrap().name, "b");
    assert!(map.get(&"y".to_string()).is_none());
}
