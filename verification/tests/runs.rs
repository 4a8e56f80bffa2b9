use cargo_lock_align::align::{
    cargo_update_precise, resolve_graph, AlignError, Pass, Session, Step, MAX_PASSES,
};
use cargo_lock_align::graph::{
    Args, DependencyKind, Metadata, MetadataPackage, Node, NodeDep, Resolve,
};
use cargo_lock_align::lockfile::load_old_lock;
use cargo_lock_align::package::PackageKey;
use cargo_lock_align::version::Version;

const REGISTRY: &str = "registry+https://github.com/rust-lang/crates.io-index";
const GIT: &str = "git+ssh://code.byted.org/lark/molten-ffi.git?branch=v%2F0.14.x#87226568aa";

fn args(dry_run: bool) -> Args {
    Args {
        dry_run,
        no_default_features: false,
        all_features: false,
        features: vec![],
        max_depth: None,
        no_dev: false,
        no_build: false,
    }
}

fn package(name: &str, version: &str, source: &str) -> MetadataPackage {
    MetadataPackage {
        id: name.to_string(),
        name: name.to_string(),
        version: Version::parse(version).unwrap(),
        source: Some(source.to_string()),
    }
}

/// A project whose root depends on all of these packages.
fn project(packages: Vec<MetadataPackage>) -> Metadata {
    let deps = packages
        .iter()
        .map(|package| NodeDep {
            pkg: package.id.clone(),
            dep_kinds: vec![DependencyKind::Normal],
        })
        .collect();
    Metadata {
        packages,
        workspace_members: vec!["app".to_string()],
        resolve: Some(Resolve {
            nodes: vec![Node { id: "app".to_string(), deps }],
            root: Some("app".to_string()),
        }),
    }
}

fn pass(session: &mut Session, metadata: &Metadata, old_lock: &str, args: &Args) -> Pass {
    let old = load_old_lock(old_lock).unwrap();
    let resolve = resolve_graph(metadata).unwrap();
    session.run_pass(metadata, resolve, &[], &old, args)
}

const OLD_LOCK: &str = r#"
[[package]]
name = "proc-macro2"
version = "0.4.30"
source = "registry+https://github.com/rust-lang/crates.io-index"

[[package]]
name = "proc-macro2"
version = "1.0.95"
source = "registry+https://github.com/rust-lang/crates.io-index"

[[package]]
name = "molten-ffi"
version = "0.14.2"
source = "git+ssh://code.byted.org/lark/molten-ffi.git?branch=v/0.14.x#090efe06bb"

[[package]]
name = "prost"
version = "0.11.2"
"#;

#[test]
fn pass_pins_the_first_package_of_the_plan() {
    let metadata = project(vec![
        package("prost", "0.11.9", REGISTRY),
        package("proc-macro2", "1.0.107", REGISTRY),
        package("molten-ffi", "0.14.2", GIT),
    ]);
    let mut session = Session::new();
    let found = pass(&mut session, &metadata, OLD_LOCK, &args(false));

    assert_eq!(
        found.plan,
        vec![
            "molten-ffi 0.14.2#87226568 -> 0.14.2#090efe06",
            "proc-macro2 1.0.107 -> 1.0.95",
            "prost 0.11.9 -> 0.11.2",
        ],
    );
    assert!(found.reports.is_empty());
    match found.step {
        Step::Pin(command, change) => {
            assert_eq!(change, "molten-ffi 0.14.2#87226568 -> 0.14.2#090efe06");
            assert_eq!(command.arguments_before_path(), vec!["update", "--manifest-path"]);
            assert_eq!(
                command.arguments_after_path(),
                vec!["-p", "molten-ffi@0.14.2", "--precise", "090efe06bb"],
            );
            assert_eq!(
                command.launch_message(),
                "failed to execute cargo update for molten-ffi",
            );
        }
        _ => panic!("nothing pinned"),
    }
}

#[test]
fn dry_run_shows_the_plan_and_pins_nothing() {
    let metadata = project(vec![package("proc-macro2", "1.0.107", REGISTRY)]);
    let mut session = Session::new();
    let found = pass(&mut session, &metadata, OLD_LOCK, &args(true));
    assert_eq!(found.plan, vec!["proc-macro2 1.0.107 -> 1.0.95"]);
    assert!(matches!(found.step, Step::Preview));
}

#[test]
fn run_ends_when_nothing_is_left() {
    for dry_run in [false, true] {
        let metadata = project(vec![
            package("proc-macro2", "1.0.95", REGISTRY),
            package("unheard-of", "1.0.0", REGISTRY),
        ]);
        let mut session = Session::new();
        let found = pass(&mut session, &metadata, OLD_LOCK, &args(dry_run));
        assert!(matches!(found.step, Step::Finished));
        assert!(found.plan.is_empty());
        assert_eq!(session.aligned.len(), 1);
        assert_eq!(session.skipped.len(), 1);

        let again = pass(&mut session, &metadata, OLD_LOCK, &args(dry_run));
        assert!(matches!(again.step, Step::Finished));
        assert!(again.reports.is_empty());
    }
}

#[test]
fn run_goes_on_after_each_update() {
    let mut session = Session::new();
    let before = project(vec![package("proc-macro2", "1.0.107", REGISTRY)]);
    let command = match pass(&mut session, &before, OLD_LOCK, &args(false)).step {
        Step::Pin(command, _) => command,
        _ => panic!("nothing pinned"),
    };
    assert!(session.updated(&command, true).is_ok());
    assert_eq!(session.pass, 1);

    let after = project(vec![package("proc-macro2", "1.0.95", REGISTRY)]);
    let found = pass(&mut session, &after, OLD_LOCK, &args(false));
    assert!(matches!(found.step, Step::Finished));
    assert_eq!(found.reports[0].line(), "  OK   proc-macro2                    1.0.95");
}

#[test]
fn refused_update_ends_the_run() {
    let key = PackageKey { name: "extend".to_string(), source: None };
    let command = cargo_update_precise(
        &key,
        &Version::parse("1.2.0").unwrap(),
        &"1.1.0".to_string(),
    );
    let mut session = Session::new();
    let error = session.updated(&command, false).unwrap_err();
    assert!(matches!(error, AlignError::UpdateFailed { .. }));
    assert_eq!(error.message(), "cargo update failed for extend -> 1.1.0");
    assert_eq!(session.pass, 0);
}

#[test]
fn too_many_updates_end_the_run() {
    let key = PackageKey { name: "extend".to_string(), source: None };
    let command = cargo_update_precise(
        &key,
        &Version::parse("1.2.0").unwrap(),
        &"1.1.0".to_string(),
    );
    let mut session = Session::new();
    for _ in 0..MAX_PASSES {
        assert!(session.updated(&command, true).is_ok());
    }
    assert_eq!(session.pass, 500);
    let error = session.updated(&command, true).unwrap_err();
    assert!(matches!(error, AlignError::TooManyPasses));
    assert_eq!(error.message(), "Dependency alignment exceeded 500 update passes");
}

#[test]
fn project_without_graph_is_refused() {
    let mut metadata = project(vec![]);
    metadata.resolve = None;
    let error = resolve_graph(&metadata).unwrap_err();
    assert!(matches!(error, AlignError::NoResolveGraph));
    assert_eq!(
        error.message(),
        "cargo metadata did not return a dependency resolve graph",
    );
}
