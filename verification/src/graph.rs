//! The dependency graph of the project that is to be aligned.

use vstd::prelude::*;

use crate::text::opt_view;
use crate::version::{Version, VersionView};

verus! {

/// The options of a run.
#[derive(Debug)]
pub struct Args {
    /// Only show what would be changed.
    pub dry_run: bool,
    /// Resolve without the default features.
    pub no_default_features: bool,
    /// Resolve with all features.
    pub all_features: bool,
    /// The features to resolve with.
    pub features: Vec<String>,
    /// How many steps away from the workspace packages are still aligned: one for the direct
    /// dependencies only, two for theirs as well, and so on.
    pub max_depth: Option<usize>,
    /// Do not follow dependencies that are for development only.
    pub no_dev: bool,
    /// Do not follow dependencies that are for build scripts only.
    pub no_build: bool,
}

/// What a dependency is needed for.
#[derive(Debug, Clone, Copy, PartialEq, Eq, Structural)]
pub enum DependencyKind {
    Normal,
    Development,
    Build,
    Unknown,
}

/// An edge of the dependency graph.
#[derive(Debug)]
pub struct NodeDep {
    pub pkg: String,
    pub dep_kinds: Vec<DependencyKind>,
}

#[verifier::ext_equal]
pub struct NodeDepView {
    pub pkg: Seq<char>,
    pub dep_kinds: Seq<DependencyKind>,
}

impl View for NodeDep {
    type V = NodeDepView;

    open spec fn view(&self) -> NodeDepView {
        NodeDepView { pkg: self.pkg@, dep_kinds: self.dep_kinds@ }
    }
}

/// A node of the dependency graph: a package and what it depends on.
#[derive(Debug)]
pub struct Node {
    pub id: String,
    pub deps: Vec<NodeDep>,
}

#[verifier::ext_equal]
pub struct NodeView {
    pub id: Seq<char>,
    pub deps: Seq<NodeDepView>,
}

impl View for Node {
    type V = NodeView;

    open spec fn view(&self) -> NodeView {
        NodeView { id: self.id@, deps: self.deps@.map_values(|d: NodeDep| d@) }
    }
}

/// The resolved dependency graph, with its root where the project has a single one.
#[derive(Debug)]
pub struct Resolve {
    pub nodes: Vec<Node>,
    pub root: Option<String>,
}

#[verifier::ext_equal]
pub struct ResolveView {
    pub nodes: Seq<NodeView>,
    pub root: Option<Seq<char>>,
}

impl View for Resolve {
    type V = ResolveView;

    open spec fn view(&self) -> ResolveView {
        ResolveView { nodes: self.nodes@.map_values(|n: Node| n@), root: opt_view(self.root) }
    }
}

/// A package as Cargo describes it.
#[derive(Debug)]
pub struct MetadataPackage {
    pub id: String,
    pub name: String,
    pub version: Version,
    pub source: Option<String>,
}

#[verifier::ext_equal]
pub struct MetadataPackageView {
    pub id: Seq<char>,
    pub name: Seq<char>,
    pub version: VersionView,
    pub source: Option<Seq<char>>,
}

impl View for MetadataPackage {
    type V = MetadataPackageView;

    open spec fn view(&self) -> MetadataPackageView {
        MetadataPackageView {
            id: self.id@,
            name: self.name@,
            version: self.version@,
            source: opt_view(self.source),
        }
    }
}

/// What Cargo says of a project.
#[derive(Debug)]
pub struct Metadata {
    pub packages: Vec<MetadataPackage>,
    pub workspace_members: Vec<String>,
    pub resolve: Option<Resolve>,
}

#[verifier::ext_equal]
pub struct MetadataView {
    pub packages: Seq<MetadataPackageView>,
    pub workspace_members: Seq<Seq<char>>,
    pub resolve: Option<ResolveView>,
}

impl View for Metadata {
    type V = MetadataView;

    open spec fn view(&self) -> MetadataView {
        MetadataView {
            packages: self.packages@.map_values(|p: MetadataPackage| p@),
            workspace_members: texts(self.workspace_members@),
            resolve: match self.resolve {
                Some(resolve) => Some(resolve@),
                None => None,
            },
        }
    }
}

/// The contents of a list of strings.
pub open spec fn texts(strings: Seq<String>) -> Seq<Seq<char>> {
    strings.map_values(|s: String| s@)
}

/// A copy of a list of strings.
fn clone_strings(strings: &Vec<String>) -> (r: Vec<String>)
    ensures
        texts(r@) == texts(strings@),
{
    let mut copies: Vec<String> = Vec::new();
    let mut i: usize = 0;
    while i < strings.len()
        invariant
            i <= strings@.len(),
            texts(copies@) == texts(strings@).take(i as int),
        decreases strings@.len() - i,
    {
        let ghost before = texts(copies@);
        copies.push(strings[i].clone());
        assert(texts(copies@) == before.push(texts(strings@)[i as int]));
        i = i + 1;
    }
    copies
}

/// A set of features that Cargo is asked to resolve with.
#[derive(Debug)]
pub enum FeatureChoice {
    NoDefaultFeatures,
    AllFeatures,
    SomeFeatures(Vec<String>),
}

pub enum FeatureChoiceView {
    NoDefaultFeatures,
    AllFeatures,
    SomeFeatures(Seq<Seq<char>>),
}

impl View for FeatureChoice {
    type V = FeatureChoiceView;

    open spec fn view(&self) -> FeatureChoiceView {
        match self {
            FeatureChoice::NoDefaultFeatures => FeatureChoiceView::NoDefaultFeatures,
            FeatureChoice::AllFeatures => FeatureChoiceView::AllFeatures,
            FeatureChoice::SomeFeatures(features) => FeatureChoiceView::SomeFeatures(
                texts(features@),
            ),
        }
    }
}

/// The feature choices that the options ask for, in the order in which Cargo is given them.
pub open spec fn feature_choices(args: Args) -> Seq<FeatureChoiceView> {
    let without_default = if args.no_default_features {
        seq![FeatureChoiceView::NoDefaultFeatures]
    } else {
        seq![]
    };
    let all = if args.all_features {
        seq![FeatureChoiceView::AllFeatures]
    } else {
        seq![]
    };
    let some = if args.features@.len() > 0 {
        seq![FeatureChoiceView::SomeFeatures(texts(args.features@))]
    } else {
        seq![]
    };
    without_default + all + some
}

/// The feature choices with which Cargo is asked for the metadata of the project.
pub fn cargo_metadata(args: &Args) -> (r: Vec<FeatureChoice>)
    ensures
        r@.map_values(|c: FeatureChoice| c@) == feature_choices(*args),
{
    let mut choices: Vec<FeatureChoice> = Vec::new();
    if args.no_default_features {
        choices.push(FeatureChoice::NoDefaultFeatures);
    }
    if args.all_features {
        choices.push(FeatureChoice::AllFeatures);
    }
    if args.features.len() > 0 {
        let features = clone_strings(&args.features);
        choices.push(FeatureChoice::SomeFeatures(features));
    }
    choices
}

/// The packages from which the dependencies are followed: the root where there is one, else all
/// members of the workspace.
pub open spec fn roots(metadata: MetadataView) -> Seq<Seq<char>> {
    match metadata.resolve {
        Some(resolve) => match resolve.root {
            Some(root) => seq![root],
            None => metadata.workspace_members,
        },
        None => metadata.workspace_members,
    }
}

/// The packages from which the dependencies are followed.
pub fn workspace_roots(metadata: &Metadata) -> (r: Vec<String>)
    ensures
        texts(r@) == roots(metadata@),
{
    if let Some(resolve) = &metadata.resolve {
        if let Some(root) = &resolve.root {
            let mut only: Vec<String> = Vec::new();
            only.push(root.clone());
            return only;
        }
    }
    clone_strings(&metadata.workspace_members)
}

/// A dependency of this kind is followed.
pub open spec fn kind_followed(kind: DependencyKind, no_dev: bool, no_build: bool) -> bool {
    match kind {
        DependencyKind::Normal => true,
        DependencyKind::Development => !no_dev,
        DependencyKind::Build => !no_build,
        DependencyKind::Unknown => true,
    }
}

/// A dependency is followed when it is for something that is followed, or when nothing is said
/// of what it is for.
pub open spec fn followed(kinds: Seq<DependencyKind>, no_dev: bool, no_build: bool) -> bool {
    kinds.len() == 0 || exists|i: int|
        0 <= i < kinds.len() && kind_followed(#[trigger] kinds[i], no_dev, no_build)
}

/// Whether a dependency is followed.
pub fn should_process_dep(kinds: &[DependencyKind], args: &Args) -> (r: bool)
    ensures
        r == followed(kinds@, args.no_dev, args.no_build),
{
    if kinds.len() == 0 {
        return true;
    }
    let mut i: usize = 0;
    while i < kinds.len()
        invariant
            i <= kinds@.len(),
            forall|j: int|
                0 <= j < i ==> !kind_followed(#[trigger] kinds@[j], args.no_dev, args.no_build),
        decreases kinds@.len() - i,
    {
        let keep = match kinds[i] {
            DependencyKind::Normal => true,
            DependencyKind::Development => !args.no_dev,
            DependencyKind::Build => !args.no_build,
            DependencyKind::Unknown => true,
        };
        if keep {
            assert(kind_followed(kinds@[i as int], args.no_dev, args.no_build));
            return true;
        }
        i = i + 1;
    }
    false
}

/// The edges of the first node with this name; none where there is no such node.
pub open spec fn edges(nodes: Seq<NodeView>, id: Seq<char>) -> Seq<NodeDepView>
    decreases nodes.len(),
{
    if nodes.len() == 0 {
        Seq::empty()
    } else if nodes[0].id == id {
        nodes[0].deps
    } else {
        edges(nodes.skip(1), id)
    }
}

/// The packages that a package depends on by edges that are followed, in the order of the edges.
pub open spec fn children(
    resolve: ResolveView,
    id: Seq<char>,
    no_dev: bool,
    no_build: bool,
) -> Seq<Seq<char>> {
    edges(resolve.nodes, id).filter_map(follow(no_dev, no_build))
}

/// Picks the package at the end of an edge that is followed.
pub open spec fn follow(no_dev: bool, no_build: bool) -> spec_fn(NodeDepView) -> Option<Seq<char>> {
    |dep: NodeDepView|
        if followed(dep.dep_kinds, no_dev, no_build) {
            Some(dep.pkg)
        } else {
            None
        }
}

/// The packages that a package depends on by edges that are followed.
pub fn followed_children(resolve: &Resolve, package_id: &String, args: &Args) -> (r: Vec<String>)
    ensures
        texts(r@) == children(resolve@, package_id@, args.no_dev, args.no_build),
{
    let mut found: Vec<String> = Vec::new();
    let ghost pick = follow(args.no_dev, args.no_build);
    let ghost all = resolve@.nodes;
    let mut n: usize = 0;
    assert(all.skip(0) == all);
    while n < resolve.nodes.len()
        invariant
            n <= resolve.nodes@.len(),
            all == resolve@.nodes,
            found@.len() == 0,
            edges(all, package_id@) == edges(all.skip(n as int), package_id@),
            pick == follow(args.no_dev, args.no_build),
        decreases resolve.nodes@.len() - n,
    {
        let node = &resolve.nodes[n];
        assert(all.skip(n as int)[0] == node@);
        assert(all.skip(n as int).skip(1) == all.skip(n + 1));
        if node.id == *package_id {
            let ghost deps = node@.deps;
            let mut d: usize = 0;
            assert(deps.take(0) == Seq::<NodeDepView>::empty());
            reveal(Seq::filter_map);
            while d < node.deps.len()
                invariant
                    d <= node.deps@.len(),
                    deps == node@.deps,
                    texts(found@) == deps.take(d as int).filter_map(pick),
                    pick == follow(args.no_dev, args.no_build),
                decreases node.deps@.len() - d,
            {
                let dep = &node.deps[d];
                proof {
                    assert(deps[d as int] == dep@);
                    deps.lemma_filter_map_take_succ(pick, d as int);
                }
                if should_process_dep(dep.dep_kinds.as_slice(), args) {
                    let ghost before = texts(found@);
                    found.push(dep.pkg.clone());
                    assert(texts(found@) == before + seq![dep@.pkg]);
                } else {
                    assert(texts(found@) == texts(found@) + Seq::<Seq<char>>::empty());
                }
                d = d + 1;
            }
            assert(deps.take(deps.len() as int) == deps);
            return found;
        }
        n = n + 1;
    }
    assert(all.skip(n as int).len() == 0);
    reveal(Seq::filter_map);
    assert(texts(found@) == Seq::<Seq<char>>::empty());
    found
}

/// The names and depths of a list of packages that are still to be visited.
pub open spec fn queue_view(queue: Seq<(String, usize)>) -> Seq<(Seq<char>, nat)> {
    queue.map_values(|entry: (String, usize)| (entry.0@, entry.1 as nat))
}

/// These packages, all at one depth.
pub open spec fn at_depth(ids: Seq<Seq<char>>, depth: nat) -> Seq<(Seq<char>, nat)> {
    ids.map_values(|id: Seq<char>| (id, depth))
}

/// Appends to the queue what a package depends on, one step deeper than the package.
pub fn enqueue_dependencies(
    resolve: &Resolve,
    package_id: &String,
    queue: &mut Vec<(String, usize)>,
    parent_depth: usize,
    args: &Args,
)
    requires
        parent_depth < usize::MAX || children(
            resolve@,
            package_id@,
            args.no_dev,
            args.no_build,
        ).len() == 0,
    ensures
        queue_view(final(queue)@) == queue_view(old(queue)@) + at_depth(
            children(resolve@, package_id@, args.no_dev, args.no_build),
            (parent_depth + 1) as nat,
        ),
{
    let found = followed_children(resolve, package_id, args);
    if found.len() > 0 {
        push_all(queue, &found, parent_depth + 1);
    } else {
        assert(queue_view(queue@) == queue_view(queue@) + at_depth(
            texts(found@),
            (parent_depth + 1) as nat,
        ));
    }
}

/// Appends packages to the queue, all at one depth.
pub fn push_all(queue: &mut Vec<(String, usize)>, ids: &Vec<String>, depth: usize)
    ensures
        queue_view(final(queue)@) == queue_view(old(queue)@) + at_depth(
            texts(ids@),
            depth as nat,
        ),
{
    let ghost start = queue_view(queue@);
    let ghost all = texts(ids@);
    let mut i: usize = 0;
    while i < ids.len()
        invariant
            i <= ids@.len(),
            all == texts(ids@),
            queue_view(queue@) == start + at_depth(all.take(i as int), depth as nat),
        decreases ids@.len() - i,
    {
        let ghost before = queue_view(queue@);
        queue.push((ids[i].clone(), depth));
        assert(queue_view(queue@) == before.push((all[i as int], depth as nat)));
        assert(at_depth(all.take(i + 1), depth as nat) == at_depth(
            all.take(i as int),
            depth as nat,
        ).push((all[i as int], depth as nat)));
        i = i + 1;
    }
    assert(all.take(all.len() as int) == all);
}

/// A dependency is followed when one of the things it is for is followed, at whatever place in the
/// list: a normal or an unknown kind always is, development and build each unless it is switched
/// off. One of which nothing is said is followed.
pub proof fn law_followed_kinds(kinds: Seq<DependencyKind>, no_dev: bool, no_build: bool)
    ensures
        kinds.len() == 0 ==> followed(kinds, no_dev, no_build),
        kinds.contains(DependencyKind::Normal) ==> followed(kinds, no_dev, no_build),
        kinds.contains(DependencyKind::Unknown) ==> followed(kinds, no_dev, no_build),
        kinds.contains(DependencyKind::Development) && !no_dev ==> followed(
            kinds,
            no_dev,
            no_build,
        ),
        kinds.contains(DependencyKind::Build) && !no_build ==> followed(kinds, no_dev, no_build),
        followed(kinds, no_dev, no_build) ==> kinds.len() == 0 || kinds.contains(
            DependencyKind::Normal,
        ) || kinds.contains(DependencyKind::Unknown) || (kinds.contains(DependencyKind::Development)
            && !no_dev) || (kinds.contains(DependencyKind::Build) && !no_build),
{
    assert forall|kind: DependencyKind|
        kinds.contains(kind) && #[trigger] kind_followed(kind, no_dev, no_build) implies followed(
        kinds,
        no_dev,
        no_build,
    ) by {
        let i = kinds.index_of(kind);
        assert(kind_followed(kinds[i], no_dev, no_build));
    }
    assert(kind_followed(DependencyKind::Normal, no_dev, no_build));
    assert(kind_followed(DependencyKind::Unknown, no_dev, no_build));
    assert(kind_followed(DependencyKind::Development, no_dev, no_build) == !no_dev);
    assert(kind_followed(DependencyKind::Build, no_dev, no_build) == !no_build);
    if followed(kinds, no_dev, no_build) && kinds.len() > 0 {
        let i = choose|i: int|
            0 <= i < kinds.len() && kind_followed(#[trigger] kinds[i], no_dev, no_build);
        assert(kinds.contains(kinds[i]));
    }
}

/// Neither the order in which the kinds of a dependency are listed, nor how often each is, decides
/// on whether it is followed.
pub proof fn law_order_of_kinds_does_not_count(
    kinds: Seq<DependencyKind>,
    other: Seq<DependencyKind>,
    no_dev: bool,
    no_build: bool,
)
    requires
        kinds.to_set() == other.to_set(),
    ensures
        followed(kinds, no_dev, no_build) == followed(other, no_dev, no_build),
        followed(kinds.reverse(), no_dev, no_build) == followed(kinds, no_dev, no_build),
{
    lemma_followed_by_contents(kinds, other, no_dev, no_build);
    let turned = kinds.reverse();
    assert(turned.to_set() =~= kinds.to_set()) by {
        assert forall|kind: DependencyKind| turned.contains(kind) == kinds.contains(kind) by {
            if turned.contains(kind) {
                let i = turned.index_of(kind);
                assert(kinds[kinds.len() - 1 - i] == kind);
            }
            if kinds.contains(kind) {
                let i = kinds.index_of(kind);
                assert(turned[kinds.len() - 1 - i] == kind);
            }
        }
    }
    lemma_followed_by_contents(turned, kinds, no_dev, no_build);
}

proof fn lemma_followed_by_contents(
    kinds: Seq<DependencyKind>,
    other: Seq<DependencyKind>,
    no_dev: bool,
    no_build: bool,
)
    requires
        kinds.to_set() == other.to_set(),
    ensures
        followed(kinds, no_dev, no_build) == followed(other, no_dev, no_build),
{
    law_followed_kinds(kinds, no_dev, no_build);
    law_followed_kinds(other, no_dev, no_build);
    assert forall|kind: DependencyKind| kinds.contains(kind) == other.contains(kind) by {
        if kinds.contains(kind) {
            assert(kinds.to_set().contains(kind));
            assert(other.to_set().contains(kind));
        }
        if other.contains(kind) {
            assert(other.to_set().contains(kind));
            assert(kinds.to_set().contains(kind));
        }
    }
    if kinds.len() > 0 {
        assert(other.contains(kinds[0]));
    }
    if other.len() > 0 {
        assert(kinds.contains(other[0]));
    }
}

/// Each feature option acts on its own, and none is handed to Cargo twice: leaving out the default
/// features and taking all of them where that is asked for, and the listed features, all of them
/// and in their order, where there are any.
pub proof fn law_feature_options_act_on_their_own(args: Args)
    ensures
        feature_choices(args).contains(FeatureChoiceView::NoDefaultFeatures)
            <==> args.no_default_features,
        feature_choices(args).contains(FeatureChoiceView::AllFeatures) <==> args.all_features,
        forall|features: Seq<Seq<char>>| #[trigger]
            feature_choices(args).contains(FeatureChoiceView::SomeFeatures(features))
                <==> args.features@.len() > 0 && features == texts(args.features@),
        feature_choices(args).no_duplicates(),
{
    let choices = feature_choices(args);
    let a: int = if args.no_default_features { 1 } else { 0 };
    let b: int = if args.all_features { 1 } else { 0 };
    if args.no_default_features {
        assert(choices[0] == FeatureChoiceView::NoDefaultFeatures);
    }
    if args.all_features {
        assert(choices[a] == FeatureChoiceView::AllFeatures);
    }
    if args.features@.len() > 0 {
        assert(choices[a + b] == FeatureChoiceView::SomeFeatures(texts(args.features@)));
    }
}

/// The contents of a list of strings are those of its strings, in their order.
pub proof fn law_texts(strings: Seq<String>)
    ensures
        texts(strings).len() == strings.len(),
        forall|i: int| 0 <= i < strings.len() ==> #[trigger] texts(strings)[i] == strings[i]@,
{
}

/// Dependencies are followed from the root alone where the graph has one, and else from every
/// member of the workspace.
pub proof fn law_roots_of_a_project(metadata: MetadataView)
    ensures
        metadata.resolve is Some && metadata.resolve->0.root is Some ==> roots(metadata).len() == 1
            && roots(metadata)[0] == metadata.resolve->0.root->0,
        metadata.resolve is None || metadata.resolve->0.root is None ==> roots(metadata)
            == metadata.workspace_members,
{
}

/// The edges of a package are those of the first node with its name, whatever nodes there are
/// besides.
pub proof fn law_edges_of_a_package(nodes: Seq<NodeView>, id: Seq<char>, n: int)
    requires
        0 <= n <= nodes.len(),
        forall|m: int| 0 <= m < n ==> (#[trigger] nodes[m]).id != id,
        n < nodes.len() ==> nodes[n].id == id,
    ensures
        n < nodes.len() ==> edges(nodes, id) == nodes[n].deps,
        n == nodes.len() ==> edges(nodes, id).len() == 0,
    decreases nodes.len(),
{
    if n > 0 {
        assert(nodes[0].id != id);
        let rest = nodes.skip(1);
        assert forall|m: int| 0 <= m < n - 1 implies (#[trigger] rest[m]).id != id by {
            assert(rest[m] == nodes[m + 1]);
        }
        law_edges_of_a_package(rest, id, n - 1);
    }
}

/// A package depends on another by an edge that is followed exactly when it has such an edge.
pub proof fn law_children_are_the_ends_of_edges(
    resolve: ResolveView,
    id: Seq<char>,
    no_dev: bool,
    no_build: bool,
    child: Seq<char>,
)
    ensures
        children(resolve, id, no_dev, no_build).contains(child) <==> exists|d: int|
            {
                &&& 0 <= d < edges(resolve.nodes, id).len()
                &&& (#[trigger] edges(resolve.nodes, id)[d]).pkg == child
                &&& followed(edges(resolve.nodes, id)[d].dep_kinds, no_dev, no_build)
            },
{
    lemma_followed_ends(edges(resolve.nodes, id), no_dev, no_build, child);
}

proof fn lemma_followed_ends(
    deps: Seq<NodeDepView>,
    no_dev: bool,
    no_build: bool,
    child: Seq<char>,
)
    ensures
        deps.filter_map(follow(no_dev, no_build)).contains(child) <==> exists|d: int|
            {
                &&& 0 <= d < deps.len()
                &&& (#[trigger] deps[d]).pkg == child
                &&& followed(deps[d].dep_kinds, no_dev, no_build)
            },
    decreases deps.len(),
{
    reveal(Seq::filter_map);
    let pick = follow(no_dev, no_build);
    let found = deps.filter_map(pick);
    if deps.len() > 0 {
        let front = deps.drop_last();
        let last = deps.last();
        lemma_followed_ends(front, no_dev, no_build, child);
        let before = front.filter_map(pick);
        assert(deps == front.push(last));
        if followed(last.dep_kinds, no_dev, no_build) {
            assert(found == before.push(last.pkg));
        } else {
            assert(found == before);
        }
        if found.contains(child) {
            let i = found.index_of(child);
            if i < before.len() {
                assert(before[i] == child);
                let d = choose|d: int|
                    {
                        &&& 0 <= d < front.len()
                        &&& (#[trigger] front[d]).pkg == child
                        &&& followed(front[d].dep_kinds, no_dev, no_build)
                    };
                assert(deps[d] == front[d]);
            } else {
                assert(deps[deps.len() - 1].pkg == child);
            }
        }
        if exists|d: int|
            {
                &&& 0 <= d < deps.len()
                &&& (#[trigger] deps[d]).pkg == child
                &&& followed(deps[d].dep_kinds, no_dev, no_build)
            } {
            let d = choose|d: int|
                {
                    &&& 0 <= d < deps.len()
                    &&& (#[trigger] deps[d]).pkg == child
                    &&& followed(deps[d].dep_kinds, no_dev, no_build)
                };
            if d < front.len() {
                assert(front[d] == deps[d]);
                let i = before.index_of(child);
                assert(found[i] == child);
            } else {
                assert(found[before.len() as int] == child);
            }
        }
    }
}

/// Where all edges are followed they are followed in their order, each once.
pub proof fn law_edges_followed_in_order(deps: Seq<NodeDepView>, no_dev: bool, no_build: bool)
    requires
        forall|d: int|
            0 <= d < deps.len() ==> followed((#[trigger] deps[d]).dep_kinds, no_dev, no_build),
    ensures
        deps.filter_map(follow(no_dev, no_build)) == deps.map_values(|dep: NodeDepView| dep.pkg),
    decreases deps.len(),
{
    reveal(Seq::filter_map);
    if deps.len() > 0 {
        let front = deps.drop_last();
        assert forall|d: int| 0 <= d < front.len() implies followed(
            (#[trigger] front[d]).dep_kinds,
            no_dev,
            no_build,
        ) by {
            assert(front[d] == deps[d]);
        }
        law_edges_followed_in_order(front, no_dev, no_build);
        assert(followed(deps[deps.len() - 1].dep_kinds, no_dev, no_build));
    }
    assert(deps.filter_map(follow(no_dev, no_build)) =~= deps.map_values(
        |dep: NodeDepView| dep.pkg,
    ));
}

/// What is said of a project is said of all that Cargo describes: every package, every member,
/// every node and every edge, in their order.
pub proof fn law_project_views(
    metadata: Metadata,
    package: MetadataPackage,
    resolve: Resolve,
    node: Node,
    dep: NodeDep,
)
    ensures
        metadata@.packages.len() == metadata.packages@.len(),
        forall|i: int|
            0 <= i < metadata.packages@.len() ==> #[trigger] metadata@.packages[i]
                == metadata.packages@[i]@,
        metadata@.workspace_members.len() == metadata.workspace_members@.len(),
        forall|i: int|
            0 <= i < metadata.workspace_members@.len() ==> #[trigger] metadata@.workspace_members[i]
                == metadata.workspace_members@[i]@,
        metadata@.resolve is Some <==> metadata.resolve is Some,
        metadata.resolve matches Some(graph) ==> metadata@.resolve == Some(graph@),
        package@.id == package.id@ && package@.name == package.name@ && package@.version
            == package.version@ && package@.source == opt_view(package.source),
        resolve@.nodes.len() == resolve.nodes@.len(),
        forall|i: int|
            0 <= i < resolve.nodes@.len() ==> #[trigger] resolve@.nodes[i] == resolve.nodes@[i]@,
        resolve@.root == opt_view(resolve.root),
        node@.id == node.id@,
        node@.deps.len() == node.deps@.len(),
        forall|i: int| 0 <= i < node.deps@.len() ==> #[trigger] node@.deps[i] == node.deps@[i]@,
        dep@.pkg == dep.pkg@ && dep@.dep_kinds == dep.dep_kinds@,
{
}

/// The queue of a walk holds the packages with their depths, in their order; all packages that are
/// queued together are at one depth.
pub proof fn law_queue_views(queue: Seq<(String, usize)>, ids: Seq<Seq<char>>, depth: nat)
    ensures
        queue_view(queue).len() == queue.len(),
        forall|i: int|
            0 <= i < queue.len() ==> #[trigger] queue_view(queue)[i] == (
                queue[i].0@,
                queue[i].1 as nat,
            ),
        at_depth(ids, depth).len() == ids.len(),
        forall|i: int| 0 <= i < ids.len() ==> #[trigger] at_depth(ids, depth)[i] == (ids[i], depth),
{
}

} // verus!
