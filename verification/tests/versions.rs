use cargo_lock_align::version::{same_semver_compatibility_line, Rank, Version};

fn version(value: &str) -> Version {
    Version::parse(value).unwrap()
}

#[test]
fn version_is_written_as_it_was_read() {
    for text in [
        "0.0.0",
        "1.2.3",
        "18446744073709551615.0.10",
        "1.0.0-alpha.1",
        "1.0.0+build.007",
        "0.9.1-rc.2+20240101",
    ] {
        assert_eq!(version(text).to_text(), text);
    }
}

#[test]
fn texts_that_are_no_version_are_rejected() {
    for text in [
        "",
        "1",
        "1.2",
        "1.2.3.4",
        "01.2.3",
        "1.2.x",
        " 1.2.3",
        "1.2.3-",
        "1.2.3+",
        "1.2.3-a..b",
        "1.2.3-01",
        "18446744073709551616.0.0",
    ] {
        assert!(Version::parse(text).is_err(), "{}", text);
    }
}

#[test]
fn rejected_version_names_what_is_wrong() {
    let error = Version::parse("1.q.r").unwrap_err();
    assert_eq!(
        format!("{}", error),
        "unexpected character 'q' while parsing minor version number",
    );
}

#[test]
fn numbers_rank_before_identifiers() {
    assert_eq!(version("1.0.40").rank(&version("1.0.95")), Rank::Lower);
    assert_eq!(version("1.10.0").rank(&version("1.9.9")), Rank::Higher);
    assert_eq!(version("2.0.0-alpha").rank(&version("1.9.9")), Rank::Higher);
    assert_eq!(version("1.2.3").rank(&version("1.2.3")), Rank::Same);
}

#[test]
fn pre_release_ranks_below_release() {
    assert_eq!(version("1.0.0").rank(&version("1.0.0-rc.1")), Rank::Higher);
    assert_eq!(version("1.0.0-alpha.2").rank(&version("1.0.0-alpha.10")), Rank::Lower);
    assert_eq!(version("1.0.0-alpha").rank(&version("1.0.0-1")), Rank::Higher);
}

#[test]
fn build_identifiers_tell_versions_apart() {
    assert_eq!(version("1.0.0+1").rank(&version("1.0.0+2")), Rank::Lower);
    assert_ne!(version("1.0.0+1"), version("1.0.0+2"));
    assert_eq!(version("1.0.0+1"), version("1.0.0+1").clone());
}

#[test]
fn compatibility_line_of_released_versions_is_the_major_number() {
    assert!(same_semver_compatibility_line(&version("1.0.95"), &version("1.9.107")));
    assert!(!same_semver_compatibility_line(&version("0.4.30"), &version("1.0.107")));
    assert!(!same_semver_compatibility_line(&version("2.0.0"), &version("1.0.0")));
}

#[test]
fn compatibility_line_of_zero_zero_versions_is_the_patch_number() {
    assert!(same_semver_compatibility_line(&version("0.0.3"), &version("0.0.3")));
    assert!(!same_semver_compatibility_line(&version("0.0.3"), &version("0.0.4")));
    assert!(!same_semver_compatibility_line(&version("0.1.4"), &version("0.0.4")));
}

#[test]
fn compatibility_lines_are_classes() {
    let versions = [
        version("0.0.1"),
        version("0.0.2"),
        version("0.1.0"),
        version("0.1.9"),
        version("0.2.0"),
        version("1.0.0"),
        version("1.5.2-beta"),
        version("2.0.0"),
    ];
    for a in &versions {
        assert!(same_semver_compatibility_line(a, a));
        for b in &versions {
            let ab = same_semver_compatibility_line(a, b);
            assert_eq!(ab, same_semver_compatibility_line(b, a));
            for c in &versions {
                if ab && same_semver_compatibility_line(b, c) {
                    assert!(same_semver_compatibility_line(a, c));
                }
            }
        }
    }
}
