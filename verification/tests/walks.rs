use cargo_lock_align::collect::{collect_candidates, Collected};
use cargo_lock_align::graph::{
    cargo_metadata, enqueue_dependencies, should_process_dep, workspace_roots, Args,
    DependencyKind, FeatureChoice, Metadata, MetadataPackage, Node, NodeDep, Resolve,
};
use cargo_lock_align::order::order_candidates;
use cargo_lock_align::package::{OldPackage, PackageKey};
use cargo_lock_align::tables::{build_new_package_map, KeySet};
use cargo_lock_align::version::Version;

const REGISTRY: &str = "registry+https://github.com/rust-lang/crates.io-index";

fn args() -> Args {
    Args {
        dry_run: false,
        no_default_features: false,
        all_features: false,
        features: vec![],
        max_depth: None,
        no_dev: false,
        no_build: false,
    }
}

fn package(name: &str, version: &str) -> MetadataPackage {
    MetadataPackage {
        id: name.to_string(),
        name: name.to_string(),
        version: Version::parse(version).unwrap(),
        source: Some(REGISTRY.to_string()),
    }
}

fn local(name: &str) -> MetadataPackage {
    MetadataPackage {
        id: name.to_string(),
        name: name.to_string(),
        version: Version::parse("0.1.0").unwrap(),
        source: None,
    }
}

fn edge(pkg: &str, kinds: &[DependencyKind]) -> NodeDep {
    NodeDep { pkg: pkg.to_string(), dep_kinds: kinds.to_vec() }
}

fn node(id: &str, deps: &[&str]) -> Node {
    Node {
        id: id.to_string(),
        deps: deps.iter().map(|dep| edge(dep, &[DependencyKind::Normal])).collect(),
    }
}

fn project(packages: Vec<MetadataPackage>, nodes: Vec<Node>) -> Metadata {
    Metadata {
        packages,
        workspace_members: vec!["app".to_string()],
        resolve: Some(Resolve { nodes, root: Some("app".to_string()) }),
    }
}

fn locked(name: &str, version: &str) -> OldPackage {
    OldPackage {
        key: PackageKey { name: name.to_string(), source: Some(REGISTRY.to_string()) },
        version: Version::parse(version).unwrap(),
        precise: None,
    }
}

fn walk(
    metadata: &Metadata,
    old: &[OldPackage],
    aligned: &mut KeySet,
    skipped: &mut KeySet,
    args: &Args,
) -> Collected {
    let resolve = metadata.resolve.as_ref().unwrap();
    let map = build_new_package_map(metadata);
    collect_candidates(metadata, resolve, &map, &[], old, aligned, skipped, args)
}

fn updates(metadata: &Metadata, old: &[OldPackage], args: &Args) -> Vec<String> {
    let found = walk(metadata, old, &mut KeySet::new(), &mut KeySet::new(), args);
    (0..found.candidates.len())
        .map(|i| found.candidates.get(i).resolved_key.package.name.clone())
        .collect()
}

fn ordered(metadata: &Metadata, old: &[OldPackage], args: &Args) -> Vec<String> {
    let found = walk(metadata, old, &mut KeySet::new(), &mut KeySet::new(), args);
    order_candidates(&found.candidates, metadata.resolve.as_ref().unwrap(), args)
        .iter()
        .map(|candidate| candidate.package_id.clone())
        .collect()
}

#[test]
fn walk_finds_what_differs_and_reports_the_rest() {
    let metadata = project(
        vec![
            local("app"),
            package("tokio", "1.46.0"),
            package("bytes", "1.9.0"),
            package("odd", "2.0.0"),
            package("new", "1.0.0"),
        ],
        vec![node("app", &["tokio", "odd", "new"]), node("tokio", &["bytes"])],
    );
    let old = [locked("tokio", "1.46.0"), locked("bytes", "1.8.0"), locked("odd", "1.0.0")];
    let mut aligned = KeySet::new();
    let mut skipped = KeySet::new();
    let found = walk(&metadata, &old, &mut aligned, &mut skipped, &args());

    let lines: Vec<String> = found.reports.iter().map(|report| report.line()).collect();
    assert_eq!(
        lines,
        vec![
            "  SKIP new                            new=1.0.0 (not found in old lock)",
            "  SKIP odd                            new=2.0.0 (no compatible version in old lock)",
            "  OK   tokio                          1.46.0",
        ],
    );
    assert_eq!(found.candidates.len(), 1);
    assert!(!found.candidates.is_empty());
    assert_eq!(found.candidates.get(0).current_display(), "1.9.0");
    assert_eq!(found.candidates.get(0).target_display(), "1.8.0");
    assert_eq!(aligned.len(), 1);
    assert_eq!(skipped.len(), 2);
}

#[test]
fn second_walk_finds_the_same_and_reports_nothing() {
    let metadata = project(
        vec![
            local("app"),
            package("a", "1.0.0"),
            package("b", "1.0.0"),
            package("c", "1.0.0"),
            package("d", "1.0.5"),
        ],
        vec![node("app", &["a", "b", "c"]), node("a", &["d"])],
    );
    let old = [locked("a", "1.0.0"), locked("b", "2.0.0"), locked("d", "1.0.2")];
    let mut aligned = KeySet::new();
    let mut skipped = KeySet::new();
    let first = walk(&metadata, &old, &mut aligned, &mut skipped, &args());
    assert_eq!(first.reports.len(), 3);
    assert_eq!((aligned.len(), skipped.len()), (1, 2));

    let second = walk(&metadata, &old, &mut aligned, &mut skipped, &args());
    assert_eq!(second.reports.len(), 0);
    assert_eq!((aligned.len(), skipped.len()), (1, 2));
    assert_eq!(second.candidates.len(), 1);
    assert_eq!(second.candidates.get(0).package_id, first.candidates.get(0).package_id);
}

#[test]
fn dependencies_of_what_is_passed_over_are_not_visited() {
    let metadata = project(
        vec![local("app"), package("gone", "1.0.0"), package("below", "1.0.5")],
        vec![node("app", &["gone"]), node("gone", &["below"])],
    );
    assert!(updates(&metadata, &[locked("below", "1.0.1")], &args()).is_empty());
    assert_eq!(
        updates(&metadata, &[locked("gone", "1.0.0"), locked("below", "1.0.1")], &args()),
        vec!["below"],
    );
}

#[test]
fn local_packages_are_passed_through() {
    let metadata = project(
        vec![local("app"), local("helper"), package("below", "1.0.5")],
        vec![node("app", &["helper"]), node("helper", &["below"])],
    );
    assert_eq!(updates(&metadata, &[locked("below", "1.0.1")], &args()), vec!["below"]);
}

#[test]
fn depth_counts_from_the_direct_dependencies() {
    let metadata = project(
        vec![
            local("app"),
            package("one", "1.0.5"),
            package("two", "1.0.5"),
            package("three", "1.0.5"),
        ],
        vec![node("app", &["one"]), node("one", &["two"]), node("two", &["three"])],
    );
    let old = [locked("one", "1.0.1"), locked("two", "1.0.1"), locked("three", "1.0.1")];
    let at = |depth: usize| updates(&metadata, &old, &Args { max_depth: Some(depth), ..args() });
    assert!(at(0).is_empty());
    assert_eq!(at(1), vec!["one"]);
    assert_eq!(at(2), vec!["one", "two"]);
    assert_eq!(at(3), vec!["one", "two", "three"]);
    assert_eq!(updates(&metadata, &old, &args()), vec!["one", "two", "three"]);
}

#[test]
fn shortest_way_decides_on_the_depth() {
    let old = [locked("a", "1.0.1"), locked("b", "1.0.1")];
    let shallow = Args { max_depth: Some(1), ..args() };
    let packages = || vec![local("app"), package("a", "1.0.5"), package("b", "1.0.5")];
    let metadata = project(packages(), vec![node("app", &["b", "a"]), node("a", &["b"])]);
    assert_eq!(updates(&metadata, &old, &shallow), vec!["a", "b"]);
    let reversed = project(packages(), vec![node("app", &["a", "b"]), node("a", &["b"])]);
    assert_eq!(updates(&reversed, &old, &shallow), vec!["b", "a"]);
}

#[test]
fn direct_dependency_of_a_direct_dependency_is_aligned() {
    let metadata = project(
        vec![local("app"), package("a", "1.1.0"), package("b", "1.1.0")],
        vec![node("app", &["a", "b"]), node("b", &["a"])],
    );
    let old = [locked("a", "1.0.0"), locked("b", "1.0.0")];
    let shallow = Args { max_depth: Some(1), ..args() };
    let found = walk(&metadata, &old, &mut KeySet::new(), &mut KeySet::new(), &shallow);
    let mut targets: Vec<(String, String)> = (0..found.candidates.len())
        .map(|i| found.candidates.get(i))
        .map(|c| (c.package_id.clone(), c.target_precise.clone()))
        .collect();
    targets.sort();
    assert_eq!(
        targets,
        vec![
            ("a".to_string(), "1.0.0".to_string()),
            ("b".to_string(), "1.0.0".to_string()),
        ],
    );
}

#[test]
fn shorter_way_brings_dependencies_within_the_depth() {
    let metadata = project(
        vec![
            local("app"),
            package("long", "1.0.5"),
            package("met", "1.0.1"),
            package("below", "1.0.5"),
        ],
        vec![
            node("app", &["met", "long"]),
            node("long", &["met"]),
            node("met", &["below"]),
        ],
    );
    let old = [locked("long", "1.0.1"), locked("met", "1.0.1"), locked("below", "1.0.1")];
    let two = Args { max_depth: Some(2), ..args() };
    let mut aligned = KeySet::new();
    let found = walk(&metadata, &old, &mut aligned, &mut KeySet::new(), &two);
    let names: Vec<String> =
        (0..found.candidates.len()).map(|i| found.candidates.get(i).package_id.clone()).collect();
    assert_eq!(names, vec!["long", "below"]);
    assert_eq!(found.reports.len(), 1);
    assert_eq!(found.reports[0].name, "met");
    assert_eq!(aligned.len(), 1);

    let one = Args { max_depth: Some(1), ..args() };
    assert_eq!(updates(&metadata, &old, &one), vec!["long"]);
}

#[test]
fn shorter_way_does_not_lead_through_what_is_passed_over() {
    let metadata = project(
        vec![
            local("app"),
            package("long", "1.0.5"),
            package("gone", "1.0.1"),
            package("below", "1.0.5"),
        ],
        vec![
            node("app", &["gone", "long"]),
            node("long", &["gone"]),
            node("gone", &["below"]),
        ],
    );
    let old = [locked("long", "1.0.1"), locked("below", "1.0.1")];
    let two = Args { max_depth: Some(2), ..args() };
    assert_eq!(updates(&metadata, &old, &two), vec!["long"]);
}

#[test]
fn current_lock_file_only_tells_which_revision_is_shown() {
    let mut git = package("molten-ffi", "0.14.2");
    git.source = Some("git+ssh://host/molten-ffi.git#87226568".to_string());
    let metadata = project(
        vec![local("app"), git, package("a", "1.0.5")],
        vec![node("app", &["molten-ffi", "a"])],
    );
    let entry = |precise: &str| OldPackage {
        key: PackageKey {
            name: "molten-ffi".to_string(),
            source: Some("git+ssh://host/molten-ffi.git".to_string()),
        },
        version: Version::parse("0.14.2").unwrap(),
        precise: Some(precise.to_string()),
    };
    let old = [locked("a", "1.0.5"), entry("090efe06")];
    let map = build_new_package_map(&metadata);
    let resolve = metadata.resolve.as_ref().unwrap();
    let with = |current: &[OldPackage]| {
        let (mut aligned, mut skipped) = (KeySet::new(), KeySet::new());
        let found = collect_candidates(
            &metadata, resolve, &map, current, &old, &mut aligned, &mut skipped, &args(),
        );
        assert_eq!((aligned.len(), skipped.len()), (1, 0));
        assert_eq!(found.candidates.len(), 1);
        let candidate = found.candidates.get(0);
        assert_eq!(candidate.target_precise, "090efe06");
        candidate.current_display()
    };
    assert_eq!(with(&[]), "0.14.2#87226568");
    assert_eq!(with(&[entry("11112222")]), "0.14.2#11112222");
}

#[test]
fn development_and_build_dependencies_can_be_left_out() {
    let metadata = project(
        vec![
            local("app"),
            package("dev", "1.0.5"),
            package("build", "1.0.5"),
            package("both", "1.0.5"),
        ],
        vec![Node {
            id: "app".to_string(),
            deps: vec![
                edge("dev", &[DependencyKind::Development]),
                edge("build", &[DependencyKind::Build]),
                edge("both", &[DependencyKind::Development, DependencyKind::Normal]),
            ],
        }],
    );
    let old = [locked("dev", "1.0.1"), locked("build", "1.0.1"), locked("both", "1.0.1")];
    assert_eq!(updates(&metadata, &old, &args()), vec!["both", "build", "dev"]);
    let no_dev = Args { no_dev: true, ..args() };
    assert_eq!(updates(&metadata, &old, &no_dev), vec!["both", "build"]);
    let no_build = Args { no_build: true, ..args() };
    assert_eq!(updates(&metadata, &old, &no_build), vec!["both", "dev"]);
}

#[test]
fn dependency_kinds_that_are_followed() {
    let neither = Args { no_dev: true, no_build: true, ..args() };
    assert!(should_process_dep(&[], &neither));
    assert!(should_process_dep(&[DependencyKind::Normal], &neither));
    assert!(should_process_dep(&[DependencyKind::Unknown], &neither));
    assert!(!should_process_dep(&[DependencyKind::Development], &neither));
    assert!(!should_process_dep(&[DependencyKind::Build], &neither));
    assert!(should_process_dep(&[DependencyKind::Development], &args()));
    assert!(should_process_dep(&[DependencyKind::Build], &args()));
}

#[test]
fn circles_come_to_an_end() {
    let metadata = project(
        vec![local("app"), package("a", "1.0.5"), package("b", "1.0.5")],
        vec![node("app", &["a"]), node("a", &["b"]), node("b", &["a", "b"])],
    );
    let old = [locked("a", "1.0.1"), locked("b", "1.0.1")];
    assert_eq!(updates(&metadata, &old, &args()), vec!["a", "b"]);
    assert_eq!(ordered(&metadata, &old, &args()), vec!["a", "b"]);
}

#[test]
fn packages_outside_the_table_are_left_alone() {
    let metadata = project(
        vec![local("app"), package("a", "1.0.5")],
        vec![node("app", &["ghost", "a"]), node("ghost", &["a"])],
    );
    assert_eq!(updates(&metadata, &[locked("a", "1.0.1")], &args()), vec!["a"]);
}

#[test]
fn two_lines_of_one_package_are_aligned_apart() {
    let mut newer = package("rand", "0.9.4");
    newer.id = "rand-new".to_string();
    let mut older = package("rand", "0.8.9");
    older.id = "rand-old".to_string();
    let metadata = project(
        vec![local("app"), newer, older],
        vec![node("app", &["rand-new", "rand-old"])],
    );
    let old = [locked("rand", "0.8.5"), locked("rand", "0.9.1")];
    let found = walk(&metadata, &old, &mut KeySet::new(), &mut KeySet::new(), &args());
    let targets: Vec<String> =
        (0..2).map(|i| found.candidates.get(i).target_precise.clone()).collect();
    assert_eq!(targets, vec!["0.8.5", "0.9.1"]);
}

#[test]
fn root_stands_for_the_project() {
    let mut metadata = project(vec![], vec![]);
    metadata.workspace_members = vec!["x".to_string(), "y".to_string()];
    assert_eq!(workspace_roots(&metadata), vec!["app"]);
    metadata.resolve.as_mut().unwrap().root = None;
    assert_eq!(workspace_roots(&metadata), vec!["x", "y"]);
    metadata.resolve = None;
    assert_eq!(workspace_roots(&metadata), vec!["x", "y"]);
}

#[test]
fn members_of_a_virtual_workspace_are_all_roots() {
    let mut metadata = project(
        vec![local("x"), local("y"), package("a", "1.0.5"), package("b", "1.0.5")],
        vec![node("x", &["a"]), node("y", &["b"])],
    );
    metadata.workspace_members = vec!["x".to_string(), "y".to_string()];
    metadata.resolve.as_mut().unwrap().root = None;
    let old = [locked("a", "1.0.1"), locked("b", "1.0.1")];
    assert_eq!(updates(&metadata, &old, &args()), vec!["b", "a"]);
}

#[test]
fn dependencies_are_queued_one_step_deeper() {
    let metadata = project(vec![], vec![node("a", &["b", "c"]), node("a", &["d"])]);
    let resolve = metadata.resolve.as_ref().unwrap();
    let mut queue = vec![("z".to_string(), 0usize)];
    enqueue_dependencies(resolve, &"a".to_string(), &mut queue, 4, &args());
    enqueue_dependencies(resolve, &"nowhere".to_string(), &mut queue, 4, &args());
    assert_eq!(
        queue,
        vec![("z".to_string(), 0), ("b".to_string(), 5), ("c".to_string(), 5)],
    );
}

#[test]
fn features_are_handed_to_cargo_in_order() {
    assert!(cargo_metadata(&args()).is_empty());
    let all = Args {
        no_default_features: true,
        all_features: true,
        features: vec!["foo".to_string(), "bar".to_string()],
        ..args()
    };
    let choices = cargo_metadata(&all);
    assert_eq!(choices.len(), 3);
    assert!(matches!(choices[0], FeatureChoice::NoDefaultFeatures));
    assert!(matches!(choices[1], FeatureChoice::AllFeatures));
    match &choices[2] {
        FeatureChoice::SomeFeatures(features) => assert_eq!(features, &vec!["foo", "bar"]),
        _ => panic!("no features"),
    }
}

#[test]
fn table_holds_comparable_sources() {
    let mut git = package("molten-ffi", "0.14.2");
    git.source = Some("git+ssh://host/molten-ffi.git?branch=v%2F0.14.x#87226568".to_string());
    let metadata = project(vec![git], vec![]);
    let map = build_new_package_map(&metadata);
    let found = map.get(&"molten-ffi".to_string()).unwrap();
    assert_eq!(
        found.source.as_deref(),
        Some("git+ssh://host/molten-ffi.git?branch=v/0.14.x"),
    );
    assert_eq!(found.precise.as_deref(), Some("87226568"));
}

#[test]
fn parents_are_updated_first() {
    let metadata = project(
        vec![
            local("app"),
            package("tokio", "1.53.1"),
            package("tokio-util", "0.7.19"),
            package("futures", "0.3.34"),
        ],
        vec![
            node("app", &["tokio", "tokio-util", "futures"]),
            node("tokio-util", &["tokio"]),
            node("futures", &["tokio-util"]),
        ],
    );
    let old =
        [locked("tokio", "1.46.0"), locked("tokio-util", "0.7.13"), locked("futures", "0.3.31")];
    assert_eq!(ordered(&metadata, &old, &args()), vec!["futures", "tokio-util", "tokio"]);
}

#[test]
fn names_decide_among_what_is_ready() {
    let metadata = project(
        vec![
            local("app"),
            package("d", "1.0.5"),
            package("c", "1.0.5"),
            package("b", "1.0.5"),
            package("a", "1.0.5"),
        ],
        vec![node("app", &["d", "c", "b", "a"]), node("c", &["a"])],
    );
    let old =
        [locked("a", "1.0.1"), locked("b", "1.0.1"), locked("c", "1.0.1"), locked("d", "1.0.1")];
    assert_eq!(ordered(&metadata, &old, &args()), vec!["b", "c", "a", "d"]);
}

#[test]
fn order_looks_at_updates_only() {
    let metadata = project(
        vec![
            local("app"),
            package("z", "1.0.5"),
            package("between", "1.0.0"),
            package("a", "1.0.5"),
        ],
        vec![node("app", &["z"]), node("z", &["between"]), node("between", &["a"])],
    );
    let old = [locked("z", "1.0.1"), locked("between", "1.0.0"), locked("a", "1.0.1")];
    assert_eq!(ordered(&metadata, &old, &args()), vec!["a", "z"]);
}

#[test]
fn order_follows_the_same_edges_as_the_walk() {
    let metadata = project(
        vec![local("app"), package("a", "1.0.5"), package("z", "1.0.5")],
        vec![
            node("app", &["a", "z"]),
            Node {
                id: "z".to_string(),
                deps: vec![edge("a", &[DependencyKind::Build])],
            },
        ],
    );
    let old = [locked("a", "1.0.1"), locked("z", "1.0.1")];
    assert_eq!(ordered(&metadata, &old, &args()), vec!["z", "a"]);
    let no_build = Args { no_build: true, ..args() };
    assert_eq!(ordered(&metadata, &old, &no_build), vec!["a", "z"]);
}

#[test]
fn circles_and_what_waits_for_them_come_last_by_name() {
    let metadata = project(
        vec![
            local("app"),
            package("y", "1.0.5"),
            package("x", "1.0.5"),
            package("below", "1.0.5"),
            package("z", "1.0.5"),
        ],
        vec![
            node("app", &["y", "z"]),
            node("y", &["x"]),
            node("x", &["y", "below"]),
        ],
    );
    let old = [
        locked("y", "1.0.1"),
        locked("x", "1.0.1"),
        locked("below", "1.0.1"),
        locked("z", "1.0.1"),
    ];
    assert_eq!(ordered(&metadata, &old, &args()), vec!["z", "below", "x", "y"]);
}

#[test]
fn package_listed_twice_comes_behind_the_one_that_lists_it() {
    let metadata = project(
        vec![
            local("app"),
            package("a", "1.0.5"),
            package("b", "1.0.5"),
            package("c", "1.0.5"),
        ],
        vec![node("app", &["a", "c"]), node("a", &["b", "b"])],
    );
    let old = [locked("a", "1.0.1"), locked("b", "1.0.1"), locked("c", "1.0.1")];
    assert_eq!(ordered(&metadata, &old, &args()), vec!["a", "b", "c"]);
}

#[test]
fn package_listed_twice_comes_before_what_it_depends_on() {
    let metadata = project(
        vec![
            local("app"),
            package("a", "1.0.5"),
            package("b", "1.0.5"),
            package("z", "1.0.5"),
        ],
        vec![node("app", &["a"]), node("a", &["z", "z"]), node("z", &["b"])],
    );
    let old = [locked("a", "1.0.1"), locked("b", "1.0.1"), locked("z", "1.0.1")];
    assert_eq!(ordered(&metadata, &old, &args()), vec!["a", "z", "b"]);
}
