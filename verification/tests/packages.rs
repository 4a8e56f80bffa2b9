use cargo_lock_align::package::{
    find_old_package, package_source_matches, package_spec_for_current_version, OldPackage,
    PackageKey,
};
use cargo_lock_align::source::{normalize_source_for_key, source_precise};
use cargo_lock_align::version::{same_semver_compatibility_line, Version};

fn version(value: &str) -> Version {
    Version::parse(value).unwrap()
}

fn package(name: &str, number: &str) -> OldPackage {
    OldPackage {
        key: PackageKey {
            name: name.to_string(),
            source: Some("registry+https://github.com/rust-lang/crates.io-index".to_string()),
        },
        version: version(number),
        precise: None,
    }
}

#[test]
fn finds_old_package_on_same_compatible_line() {
    let packages = vec![
        package("proc-macro2", "0.4.30"),
        package("proc-macro2", "1.0.95"),
        package("proc-macro2", "1.0.40"),
    ];
    let key = PackageKey {
        name: "proc-macro2".to_string(),
        source: Some("registry+https://github.com/rust-lang/crates.io-index".to_string()),
    };

    let old = find_old_package(&packages, &key, &version("1.0.107")).unwrap();

    assert_eq!(old.version, version("1.0.95"));
}

#[test]
fn rejects_incompatible_zero_major_versions() {
    assert!(!same_semver_compatibility_line(&version("0.4.30"), &version("0.5.0")));
    assert!(same_semver_compatibility_line(&version("0.4.30"), &version("0.4.31")));
}

#[test]
fn package_spec_uses_current_version() {
    let key = PackageKey {
        name: "extend".to_string(),
        source: Some("registry+https://github.com/rust-lang/crates.io-index".to_string()),
    };

    assert_eq!(package_spec_for_current_version(&key, &version("1.2.0")), "extend@1.2.0");
}

#[test]
fn normalizes_git_source_for_matching_but_keeps_precise_rev() {
    let old = "git+ssh://code.byted.org/lark/molten-ffi.git?branch=v/0.14.x#090efe06";
    let new = "git+ssh://code.byted.org/lark/molten-ffi.git?branch=v%2F0.14.x#87226568";

    assert_eq!(normalize_source_for_key(old), normalize_source_for_key(new));
    assert_eq!(source_precise(old).as_deref(), Some("090efe06"));
}

#[test]
fn matches_source_less_old_package_to_registry_package() {
    let old = PackageKey { name: "backtrace".to_string(), source: None };
    let new = PackageKey {
        name: "backtrace".to_string(),
        source: Some("registry+https://github.com/rust-lang/crates.io-index".to_string()),
    };

    assert!(package_source_matches(&old, &new));
}

#[test]
fn does_not_match_source_less_old_package_to_git_package() {
    let old = PackageKey { name: "molten-ffi".to_string(), source: None };
    let new = PackageKey {
        name: "molten-ffi".to_string(),
        source: Some(
            "git+ssh://code.byted.org/lark/molten-ffi.git?branch=v/0.14.x".to_string(),
        ),
    };

    assert!(!package_source_matches(&old, &new));
}
