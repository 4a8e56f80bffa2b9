use cargo_lock_align::lockfile::{load_old_lock, LockError};
use cargo_lock_align::version::Version;

fn version(value: &str) -> Version {
    Version::parse(value).unwrap()
}

fn fault(text: &str) -> LockError {
    load_old_lock(text).unwrap_err()
}

#[test]
fn lock_file_is_read_entry_by_entry() {
    let packages = load_old_lock(
        r#"
version = 3

[[package]]
name = "tokio"
version = "1.46.0"
source = "registry+https://github.com/rust-lang/crates.io-index"
checksum = "abc"
dependencies = ["bytes"]

[[package]]
name = "molten-ffi"
version = "0.14.2"
source = "git+ssh://code.byted.org/lark/molten-ffi.git?branch=v%2F0.14.x#090efe06"

[[package]]
name = "backtrace"
version = "0.3.73"
"#,
    )
    .unwrap();

    assert_eq!(packages.len(), 3);
    assert_eq!(packages[0].key.name, "tokio");
    assert_eq!(packages[0].version, version("1.46.0"));
    assert_eq!(
        packages[0].key.source.as_deref(),
        Some("registry+https://github.com/rust-lang/crates.io-index"),
    );
    assert_eq!(packages[0].precise, None);
    assert_eq!(packages[1].key.name, "molten-ffi");
    assert_eq!(
        packages[1].key.source.as_deref(),
        Some("git+ssh://code.byted.org/lark/molten-ffi.git?branch=v/0.14.x"),
    );
    assert_eq!(packages[1].precise.as_deref(), Some("090efe06"));
    assert_eq!(packages[2].key.source, None);
    assert_eq!(packages[2].precise, None);
}

#[test]
fn empty_package_list_is_read() {
    assert_eq!(load_old_lock("package = []").unwrap().len(), 0);
}

#[test]
fn source_that_is_no_text_counts_as_none() {
    let packages =
        load_old_lock("[[package]]\nname = \"a\"\nversion = \"1.0.0\"\nsource = 3\n").unwrap();
    assert_eq!(packages[0].key.source, None);
}

#[test]
fn text_that_is_no_document_is_rejected() {
    let error = fault("[[package");
    assert!(matches!(error, LockError::Syntax(_)));
    assert_eq!(error.message("old/Cargo.lock"), "failed to parse old/Cargo.lock");
}

#[test]
fn document_without_package_list_is_rejected() {
    for text in ["", "version = 3", "package = \"tokio\"", "[package]\nname = \"a\""] {
        let error = fault(text);
        assert!(matches!(error, LockError::NoPackageEntries));
        assert_eq!(
            error.message("Cargo.lock"),
            "old Cargo.lock has no [[package]] entries",
        );
    }
}

#[test]
fn item_that_is_no_table_is_rejected() {
    let error = fault("package = [1]");
    assert!(matches!(error, LockError::InvalidEntry));
    assert_eq!(error.message("Cargo.lock"), "invalid [[package]] entry");
}

#[test]
fn package_without_name_is_rejected() {
    for text in ["[[package]]\nversion = \"1.0.0\"\n", "[[package]]\nname = 1\n"] {
        let error = fault(text);
        assert!(matches!(error, LockError::NameMissing));
        assert_eq!(error.message("Cargo.lock"), "package.name missing");
    }
}

#[test]
fn package_without_version_is_rejected() {
    let error = fault("[[package]]\nname = \"a\"\n");
    assert!(matches!(error, LockError::VersionMissing));
    assert_eq!(error.message("Cargo.lock"), "package.version missing");
}

#[test]
fn package_with_broken_version_is_rejected() {
    let error = fault("[[package]]\nname = \"a\"\nversion = \"1.0\"\n");
    assert_eq!(error.message("Cargo.lock"), "invalid version 1.0");
    match error {
        LockError::InvalidVersion(text, cause) => {
            assert_eq!(text, "1.0");
            assert_eq!(
                format!("{}", cause),
                "unexpected end of input while parsing minor version number",
            );
        }
        _ => panic!("another error"),
    }
}

#[test]
fn first_faulty_entry_is_reported() {
    let error = fault(
        "[[package]]\nname = \"a\"\nversion = \"1.0.0\"\n\
         [[package]]\nname = \"b\"\n\
         [[package]]\nversion = \"1.0.0\"\n",
    );
    assert!(matches!(error, LockError::VersionMissing));
}
