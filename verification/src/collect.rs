//! The walk over the dependency graph that finds out which packages are to be updated.

use vstd::prelude::*;

use crate::candidate::{
    judge, resolved_key_of, verdict, Candidate, CandidateView, Report, ReportView, Verdict,
    VerdictView,
};
use crate::graph::{
    at_depth, children, enqueue_dependencies, followed_children, push_all, queue_view, roots,
    texts, workspace_roots, Args, Metadata, Resolve, ResolveView,
};
use crate::package::{old_views, NewPackageView, OldPackage, OldPackageView, ResolvedKeyView};
use crate::tables::{keyed_by_id, Distances, KeySet, PackageMap};

verus! {

/// What a walk reads: the dependency graph, the packages in it, the two lock files and the
/// options.
pub struct WorldView {
    pub resolve: ResolveView,
    pub packages: Map<Seq<char>, NewPackageView>,
    pub new_lock: Seq<OldPackageView>,
    pub old_lock: Seq<OldPackageView>,
    pub max_depth: Option<nat>,
    pub no_dev: bool,
    pub no_build: bool,
}

impl WorldView {
    /// The packages that a package depends on by edges that are followed.
    pub open spec fn children(self, id: Seq<char>) -> Seq<Seq<char>> {
        children(self.resolve, id, self.no_dev, self.no_build)
    }

    /// A package this many steps beyond a direct dependency is deeper than packages are aligned.
    pub open spec fn too_deep(self, distance: nat) -> bool {
        self.max_depth is Some && distance + 1 > self.max_depth->0
    }
}

/// The state of a walk.
#[verifier::ext_equal]
pub struct WalkView {
    /// The packages still to be visited, each with its distance from a direct dependency. The
    /// last one comes next.
    pub queue: Seq<(Seq<char>, nat)>,
    pub seen: Set<ResolvedKeyView>,
    /// The packages whose dependencies are visited, each with the shortest distance at which it
    /// was met.
    pub reached: Map<Seq<char>, nat>,
    pub aligned: Set<ResolvedKeyView>,
    pub skipped: Set<ResolvedKeyView>,
    pub candidates: Seq<CandidateView>,
    pub reports: Seq<ReportView>,
}

impl WalkView {
    /// The walk when what a package depends on is to be visited, one step further away.
    pub open spec fn follow(self, id: Seq<char>, next: Seq<Seq<char>>, distance: nat) -> WalkView {
        WalkView {
            queue: self.queue + at_depth(next, distance + 1),
            reached: self.reached.insert(id, distance),
            ..self
        }
    }
}

/// The direct dependencies of these packages.
pub open spec fn direct_dependencies(world: WorldView, ids: Seq<Seq<char>>) -> Seq<Seq<char>>
    decreases ids.len(),
{
    if ids.len() == 0 {
        Seq::empty()
    } else {
        direct_dependencies(world, ids.drop_last()) + world.children(ids.last())
    }
}

/// The walk before its first step: the direct dependencies of the roots are to be visited.
pub open spec fn first_walk(
    world: WorldView,
    root_ids: Seq<Seq<char>>,
    aligned: Set<ResolvedKeyView>,
    skipped: Set<ResolvedKeyView>,
) -> WalkView {
    WalkView {
        queue: at_depth(direct_dependencies(world, root_ids), 0),
        seen: Set::empty(),
        reached: Map::empty(),
        aligned,
        skipped,
        candidates: Seq::empty(),
        reports: Seq::empty(),
    }
}

/// A package is met again on a shorter way, which may bring more of what it depends on within the
/// depth to which packages are aligned. Without a limit to the depth the way makes no difference.
pub open spec fn nearer(world: WorldView, walk: WalkView, id: Seq<char>, distance: nat) -> bool {
    world.max_depth is Some && walk.reached.contains_key(id) && distance < walk.reached[id]
}

/// One step of a walk: the last package of the queue is taken off it. A package that is not in
/// the table, or is too deep, is left alone. The first time that a package is met at its version
/// it counts as seen, and a decision is made on it. What it depends on is to be visited too,
/// except where there was nothing to align it with. It is visited again, without another
/// decision, where the package is met again on a shorter way.
pub open spec fn visit(world: WorldView, walk: WalkView) -> WalkView {
    let (id, distance) = walk.queue.last();
    let rest = WalkView { queue: walk.queue.drop_last(), ..walk };
    if !world.packages.contains_key(id) || world.too_deep(distance) {
        rest
    } else {
        let package = world.packages[id];
        let key = package.resolved_key();
        let next = world.children(id);
        if walk.seen.contains(key) {
            if nearer(world, walk, id, distance) {
                rest.follow(id, next, distance)
            } else {
                rest
            }
        } else {
            let marked = WalkView { seen: walk.seen.insert(key), ..rest };
            match verdict(package, walk.aligned, walk.skipped, world.new_lock, world.old_lock) {
                VerdictView::Local => marked.follow(id, next, distance),
                VerdictView::AlreadyAligned => marked.follow(id, next, distance),
                VerdictView::AlreadySkipped => marked,
                VerdictView::Unmatched(report) => WalkView {
                    skipped: walk.skipped.insert(key),
                    reports: walk.reports.push(report),
                    ..marked
                },
                VerdictView::Matched(report) => WalkView {
                    aligned: walk.aligned.insert(key),
                    reports: walk.reports.push(report),
                    ..marked
                }.follow(id, next, distance),
                VerdictView::Differs(candidate) => WalkView {
                    candidates: walk.candidates.push(candidate),
                    ..marked
                }.follow(id, next, distance),
            }
        }
    }
}

/// The names of the packages that were not seen yet at their versions.
pub open spec fn unseen(
    packages: Map<Seq<char>, NewPackageView>,
    seen: Set<ResolvedKeyView>,
) -> Set<Seq<char>> {
    packages.dom().filter(|id: Seq<char>| !seen.contains(packages[id].resolved_key()))
}

/// The sum of all distances.
pub open spec fn total(distances: Map<Seq<char>, nat>) -> nat
    decreases distances.dom().len(),
    when distances.dom().finite()
{
    if distances.dom().len() == 0 {
        0
    } else {
        let id = distances.dom().choose();
        distances[id] + total(distances.remove(id))
    }
}

proof fn lemma_total_splits(distances: Map<Seq<char>, nat>, id: Seq<char>)
    requires
        distances.dom().finite(),
        distances.contains_key(id),
    ensures
        total(distances) == distances[id] + total(distances.remove(id)),
    decreases distances.dom().len(),
{
    let first = distances.dom().choose();
    assert(distances.dom().contains(first));
    if first != id {
        lemma_total_splits(distances.remove(first), id);
        lemma_total_splits(distances.remove(id), first);
        assert(distances.remove(first).remove(id) == distances.remove(id).remove(first));
    }
}

/// A shorter distance makes the sum smaller.
proof fn lemma_total_shrinks(distances: Map<Seq<char>, nat>, id: Seq<char>, distance: nat)
    requires
        distances.dom().finite(),
        distances.contains_key(id),
        distance < distances[id],
    ensures
        total(distances.insert(id, distance)) < total(distances),
{
    let after = distances.insert(id, distance);
    lemma_total_splits(distances, id);
    assert(after.dom() =~= distances.dom());
    lemma_total_splits(after, id);
    assert(after.remove(id) == distances.remove(id));
}

/// A step takes a package off the queue, or makes a distance shorter, or makes one more package
/// seen.
pub proof fn lemma_visit_progress(world: WorldView, walk: WalkView)
    requires
        world.packages.dom().finite(),
        walk.reached.dom().finite(),
        walk.queue.len() > 0,
    ensures
        ({
            let after = visit(world, walk);
            let left = unseen(world.packages, walk.seen);
            let left_after = unseen(world.packages, after.seen);
            &&& after.reached.dom().finite()
            &&& left.finite()
            &&& left_after.finite()
            &&& left_after.len() <= left.len()
            &&& after.seen == walk.seen && after.reached == walk.reached ==> after.queue.len()
                < walk.queue.len()
            &&& after.seen == walk.seen && after.reached != walk.reached ==> total(after.reached)
                < total(walk.reached)
            &&& after.seen != walk.seen ==> left_after.len() < left.len()
        }),
{
    let after = visit(world, walk);
    let left = unseen(world.packages, walk.seen);
    let left_after = unseen(world.packages, after.seen);
    let (id, distance) = walk.queue.last();
    assert(left.subset_of(world.packages.dom()));
    vstd::set_lib::lemma_len_subset(left, world.packages.dom());
    assert(left_after.subset_of(left));
    vstd::set_lib::lemma_len_subset(left_after, left);
    if after.seen != walk.seen {
        let key = world.packages[id].resolved_key();
        assert(after.seen == walk.seen.insert(key));
        assert(left.contains(id));
        assert(!left_after.contains(id));
        assert(left_after.subset_of(left.remove(id)));
        vstd::set_lib::lemma_len_subset(left_after, left.remove(id));
    } else if world.packages.contains_key(id) && !world.too_deep(distance) {
        let key = world.packages[id].resolved_key();
        assert(walk.seen.contains(key)) by {
            if !walk.seen.contains(key) {
                assert(after.seen.contains(key));
            }
        }
        if nearer(world, walk, id, distance) {
            lemma_total_shrinks(walk.reached, id, distance);
        }
    }
}

/// The walk when nothing is left to be visited.
pub open spec fn finished(world: WorldView, walk: WalkView) -> WalkView
    decreases
            unseen(world.packages, walk.seen).len(),
            total(walk.reached),
            walk.queue.len(),
    when world.packages.dom().finite() && walk.reached.dom().finite()
    via finished_decreases
{
    if walk.queue.len() == 0 {
        walk
    } else {
        finished(world, visit(world, walk))
    }
}

#[via_fn]
proof fn finished_decreases(world: WorldView, walk: WalkView) {
    if walk.queue.len() > 0 {
        lemma_visit_progress(world, walk);
    }
}

/// No two updates are for one package of the graph, nor for one package at one version.
pub open spec fn distinct(candidates: Seq<CandidateView>) -> bool {
    forall|i: int, j: int|
        #![trigger candidates[i], candidates[j]]
        0 <= i < j < candidates.len() ==> candidates[i].resolved_key != candidates[j].resolved_key
            && candidates[i].package_id != candidates[j].package_id
}

pub open spec fn candidate_views(items: Seq<Candidate>) -> Seq<CandidateView> {
    items.map_values(|c: Candidate| c@)
}

pub open spec fn report_views(items: Seq<Report>) -> Seq<ReportView> {
    items.map_values(|r: Report| r@)
}

/// The updates that a walk found, each for a package of its own.
#[derive(Debug)]
pub struct Candidates {
    items: Vec<Candidate>,
}

impl View for Candidates {
    type V = Seq<CandidateView>;

    closed spec fn view(&self) -> Seq<CandidateView> {
        candidate_views(self.items@)
    }
}

impl Candidates {
    #[verifier::type_invariant]
    spec fn well_formed(self) -> bool {
        distinct(candidate_views(self.items@))
    }

    /// No updates.
    pub fn new() -> (r: Candidates)
        ensures
            r@ == Seq::<CandidateView>::empty(),
    {
        let items: Vec<Candidate> = Vec::new();
        assert(candidate_views(items@) == Seq::<CandidateView>::empty());
        Candidates { items }
    }

    /// How many updates there are.
    pub fn len(&self) -> (r: usize)
        ensures
            r == self@.len(),
            distinct(self@),
    {
        proof {
            use_type_invariant(self);
        }
        self.items.len()
    }

    /// Whether there are no updates.
    pub fn is_empty(&self) -> (r: bool)
        ensures
            r == (self@.len() == 0),
    {
        self.items.len() == 0
    }

    /// The update at a place.
    pub fn get(&self, index: usize) -> (r: &Candidate)
        requires
            index < self@.len(),
        ensures
            r@ == self@[index as int],
    {
        &self.items[index]
    }

    /// Adds an update for a package that has none.
    fn push(&mut self, candidate: Candidate)
        requires
            distinct(old(self)@.push(candidate@)),
        ensures
            final(self)@ == old(self)@.push(candidate@),
    {
        let mut items: Vec<Candidate> = Vec::new();
        assert(distinct(candidate_views(items@)));
        std::mem::swap(&mut items, &mut self.items);
        let ghost before = candidate_views(items@);
        let ghost added = candidate@;
        items.push(candidate);
        assert(candidate_views(items@) == before.push(added));
        self.items = items;
    }
}

/// What a walk found.
#[derive(Debug)]
pub struct Collected {
    pub candidates: Candidates,
    pub reports: Vec<Report>,
}

/// What a walk with these inputs reads.
pub open spec fn world_of(
    resolve: ResolveView,
    packages: Map<Seq<char>, NewPackageView>,
    new_lock: Seq<OldPackageView>,
    old_lock: Seq<OldPackageView>,
    args: Args,
) -> WorldView {
    WorldView {
        resolve,
        packages,
        new_lock,
        old_lock,
        max_depth: match args.max_depth {
            Some(depth) => Some(depth as nat),
            None => None,
        },
        no_dev: args.no_dev,
        no_build: args.no_build,
    }
}

/// Every update is for a package of the table, at the version it has there, that was seen.
spec fn candidates_seen(world: WorldView, walk: WalkView) -> bool {
    forall|i: int|
        0 <= i < walk.candidates.len() ==> {
            let c = #[trigger] walk.candidates[i];
            &&& walk.seen.contains(c.resolved_key)
            &&& world.packages.contains_key(c.package_id)
            &&& world.packages[c.package_id].resolved_key() == c.resolved_key
        }
}

/// No package of the queue is further away than packages were seen, and those whose dependencies
/// are visited are nearer. No more packages were seen than there are.
spec fn depths_bounded(world: WorldView, walk: WalkView) -> bool {
    &&& walk.seen.finite()
    &&& walk.seen.len() + unseen(world.packages, walk.seen).len() <= world.packages.dom().len()
    &&& forall|i: int| 0 <= i < walk.queue.len() ==> (#[trigger] walk.queue[i]).1 <= walk.seen.len()
    &&& walk.reached.dom().finite()
    &&& forall|id: Seq<char>| #[trigger]
        walk.reached.contains_key(id) ==> walk.reached[id] < walk.seen.len()
}

proof fn lemma_depths_bounded(world: WorldView, walk: WalkView)
    requires
        keyed_by_id(world.packages),
        depths_bounded(world, walk),
        walk.queue.len() > 0,
    ensures
        depths_bounded(world, visit(world, walk)),
{
    lemma_visit_progress(world, walk);
    let after = visit(world, walk);
    assert forall|i: int| 0 <= i < after.queue.len() implies (#[trigger] after.queue[i]).1
        <= after.seen.len() by {
        if i < walk.queue.len() - 1 {
            assert(after.queue[i] == walk.queue[i]);
        }
        assert(walk.queue[walk.queue.len() - 1].1 <= walk.seen.len());
    }
}

/// Walks over the dependency graph from the roots, and finds the packages that are to be updated.
/// Packages that are found aligned, or without anything to be aligned with, are added to the two
/// sets, which carry over from pass to pass.
pub fn collect_candidates(
    metadata: &Metadata,
    resolve: &Resolve,
    package_map: &PackageMap,
    new_lock_packages: &[OldPackage],
    old_packages: &[OldPackage],
    aligned: &mut KeySet,
    skipped: &mut KeySet,
    args: &Args,
) -> (r: Collected)
    ensures
        ({
            let world = world_of(
                resolve@,
                package_map@,
                old_views(new_lock_packages@),
                old_views(old_packages@),
                *args,
            );
            let walk = finished(
                world,
                first_walk(world, roots(metadata@), old(aligned)@, old(skipped)@),
            );
            &&& r.candidates@ == walk.candidates
            &&& report_views(r.reports@) == walk.reports
            &&& final(aligned)@ == walk.aligned
            &&& final(skipped)@ == walk.skipped
        }),
        keyed_by_id(package_map@),
{
    let ghost world = world_of(
        resolve@,
        package_map@,
        old_views(new_lock_packages@),
        old_views(old_packages@),
        *args,
    );
    let root_list = workspace_roots(metadata);
    let ghost root_ids = roots(metadata@);
    let ghost start = first_walk(world, root_ids, aligned@, skipped@);
    let package_count = package_map.len();
    let mut queue: Vec<(String, usize)> = Vec::new();
    let mut i: usize = 0;
    assert(direct_dependencies(world, root_ids.take(0)) == Seq::<Seq<char>>::empty());
    assert(queue_view(queue@) == at_depth(direct_dependencies(world, root_ids.take(0)), 0));
    while i < root_list.len()
        invariant
            i <= root_list@.len(),
            root_ids == texts(root_list@),
            world == world_of(
                resolve@,
                package_map@,
                old_views(new_lock_packages@),
                old_views(old_packages@),
                *args,
            ),
            queue_view(queue@) == at_depth(
                direct_dependencies(world, root_ids.take(i as int)),
                0,
            ),
        decreases root_list@.len() - i,
    {
        let found = followed_children(resolve, &root_list[i], args);
        let ghost before = direct_dependencies(world, root_ids.take(i as int));
        push_all(&mut queue, &found, 0);
        proof {
            assert(root_ids.take(i + 1).drop_last() == root_ids.take(i as int));
            assert(root_ids.take(i + 1).last() == root_list@[i as int]@);
            let more = world.children(root_list@[i as int]@);
            assert(at_depth(before + more, 0) == at_depth(before, 0) + at_depth(more, 0));
        }
        i = i + 1;
    }
    assert(root_ids.take(root_ids.len() as int) == root_ids);
    let mut seen = KeySet::new();
    let mut reached = Distances::new();
    let mut candidates = Candidates::new();
    let mut reports: Vec<Report> = Vec::new();
    let ghost mut walk = start;
    proof {
        assert(report_views(reports@) == Seq::<ReportView>::empty());
        assert(unseen(world.packages, walk.seen) == world.packages.dom());
    }
    while queue.len() > 0
        invariant
            world == world_of(
                resolve@,
                package_map@,
                old_views(new_lock_packages@),
                old_views(old_packages@),
                *args,
            ),
            walk == (WalkView {
                queue: queue_view(queue@),
                seen: seen@,
                reached: reached@,
                aligned: aligned@,
                skipped: skipped@,
                candidates: candidates@,
                reports: report_views(reports@),
            }),
            finished(world, walk) == finished(world, start),
            keyed_by_id(world.packages),
            package_count == world.packages.dom().len(),
            candidates_seen(world, walk),
            distinct(candidates@),
            depths_bounded(world, walk),
        decreases
                unseen(world.packages, walk.seen).len(),
                total(walk.reached),
                walk.queue.len(),
    {
        let ghost before = walk;
        let ghost queue_before = queue@;
        proof {
            lemma_visit_progress(world, before);
            lemma_depths_bounded(world, before);
            walk = visit(world, before);
        }
        let (package_id, distance) = queue.pop().unwrap();
        assert(before.queue.last() == (package_id@, distance as nat));
        assert(queue_view(queue@) == before.queue.drop_last());
        assert(before.queue[before.queue.len() - 1].1 <= before.seen.len());
        let package = match package_map.get(&package_id) {
            Some(package) => package,
            None => {
                continue ;
            },
        };
        if let Some(max_depth) = args.max_depth {
            if distance >= max_depth {
                continue ;
            }
        }
        let resolved_key = resolved_key_of(package);
        if !seen.insert(resolved_key.clone()) {
            assert(seen@ =~= before.seen);
            if args.max_depth.is_some() {
                if let Some(known) = reached.get(&package_id) {
                    if distance < known {
                        enqueue_dependencies(resolve, &package_id, &mut queue, distance, args);
                        reached.insert(package_id, distance);
                    }
                }
            }
            continue ;
        }
        match judge(package, aligned, skipped, new_lock_packages, old_packages) {
            Verdict::Local => {
                enqueue_dependencies(resolve, &package_id, &mut queue, distance, args);
                reached.insert(package_id, distance);
            },
            Verdict::AlreadyAligned => {
                enqueue_dependencies(resolve, &package_id, &mut queue, distance, args);
                reached.insert(package_id, distance);
            },
            Verdict::AlreadySkipped => {},
            Verdict::Unmatched(report) => {
                reports.push(report);
                assert(report_views(reports@) == before.reports.push(report@));
                skipped.insert(resolved_key);
            },
            Verdict::Matched(report) => {
                reports.push(report);
                assert(report_views(reports@) == before.reports.push(report@));
                aligned.insert(resolved_key);
                enqueue_dependencies(resolve, &package_id, &mut queue, distance, args);
                reached.insert(package_id, distance);
            },
            Verdict::Differs(candidate) => {
                candidates.push(candidate);
                enqueue_dependencies(resolve, &package_id, &mut queue, distance, args);
                reached.insert(package_id, distance);
            },
        }
    }
    Collected { candidates, reports }
}

/// The limit to the depth counts from the direct dependencies: with a limit of one only those are
/// not too deep, with two what is one step beyond them, and so on. Without a limit nothing is.
pub proof fn law_depth_limit(world: WorldView, distance: nat)
    ensures
        world.max_depth is None ==> !world.too_deep(distance),
        world.max_depth matches Some(depth) ==> (world.too_deep(distance) <==> distance >= depth),
{
}

/// The options reach the walk as they are, and so do the graph and the two lock files.
pub proof fn law_walk_reads_the_options(
    resolve: ResolveView,
    packages: Map<Seq<char>, NewPackageView>,
    new_lock: Seq<OldPackageView>,
    old_lock: Seq<OldPackageView>,
    args: Args,
    id: Seq<char>,
)
    ensures
        ({
            let world = world_of(resolve, packages, new_lock, old_lock, args);
            &&& world.resolve == resolve
            &&& world.packages == packages
            &&& world.new_lock == new_lock
            &&& world.old_lock == old_lock
            &&& args.max_depth is None <==> world.max_depth is None
            &&& args.max_depth matches Some(depth) ==> world.max_depth == Some(depth as nat)
            &&& world.children(id) == children(resolve, id, args.no_dev, args.no_build)
        }),
{
}

/// The direct dependencies of packages are what some of them depend on.
pub proof fn law_direct_dependencies(world: WorldView, ids: Seq<Seq<char>>, id: Seq<char>)
    ensures
        direct_dependencies(world, ids).contains(id) <==> exists|i: int|
            0 <= i < ids.len() && #[trigger] world.children(ids[i]).contains(id),
    decreases ids.len(),
{
    if ids.len() > 0 {
        let front = ids.drop_last();
        law_direct_dependencies(world, front, id);
        let before = direct_dependencies(world, front);
        let more = world.children(ids.last());
        let all = direct_dependencies(world, ids);
        assert(all == before + more);
        if all.contains(id) {
            let k = all.index_of(id);
            if k < before.len() {
                assert(before[k] == id);
                let i = choose|i: int|
                    0 <= i < front.len() && #[trigger] world.children(front[i]).contains(id);
                assert(world.children(ids[i]).contains(id));
            } else {
                assert(more[k - before.len()] == id);
                assert(world.children(ids[ids.len() - 1]).contains(id));
            }
        }
        if exists|i: int| 0 <= i < ids.len() && #[trigger] world.children(ids[i]).contains(id) {
            let i = choose|i: int|
                0 <= i < ids.len() && #[trigger] world.children(ids[i]).contains(id);
            if i < front.len() {
                assert(world.children(front[i]).contains(id));
                let k = before.index_of(id);
                assert(all[k] == id);
            } else {
                let k = more.index_of(id);
                assert(all[before.len() + k] == id);
            }
        }
    }
}

/// What is said of the updates and the reports of a walk is said of each of them, in their order.
pub proof fn law_collected_views(candidates: Seq<Candidate>, reports: Seq<Report>)
    ensures
        candidate_views(candidates).len() == candidates.len(),
        forall|i: int|
            0 <= i < candidates.len() ==> #[trigger] candidate_views(candidates)[i]
                == candidates[i]@,
        report_views(reports).len() == reports.len(),
        forall|i: int| 0 <= i < reports.len() ==> #[trigger] report_views(reports)[i] == reports[i]@,
{
}

/// No two updates are for one package of the graph, nor for one version of a package.
pub proof fn law_distinct_updates(candidates: Seq<CandidateView>, i: int, j: int)
    requires
        distinct(candidates),
        0 <= i < candidates.len(),
        0 <= j < candidates.len(),
        candidates[i].package_id == candidates[j].package_id || candidates[i].resolved_key
            == candidates[j].resolved_key,
    ensures
        i == j,
{
}

/// A walk goes depth first, from the end of the queue: all that comes of its last packages is
/// visited, and reported, before those that stand in front of them.
pub proof fn law_walk_is_depth_first(
    world: WorldView,
    walk: WalkView,
    front: Seq<(Seq<char>, nat)>,
)
    requires
        world.packages.dom().finite(),
        walk.reached.dom().finite(),
    ensures
        ({
            let below = finished(world, walk);
            finished(world, WalkView { queue: front + walk.queue, ..walk }) == finished(
                world,
                WalkView { queue: front, ..below },
            )
        }),
    decreases
            unseen(world.packages, walk.seen).len(),
            total(walk.reached),
            walk.queue.len(),
{
    let whole = WalkView { queue: front + walk.queue, ..walk };
    if walk.queue.len() == 0 {
        assert(front + walk.queue == front);
        assert(whole == (WalkView { queue: front, ..walk }));
    } else {
        lemma_visit_progress(world, walk);
        let after = visit(world, walk);
        law_walk_is_depth_first(world, after, front);
        assert(whole.queue.last() == walk.queue.last());
        assert(whole.queue.drop_last() == front + walk.queue.drop_last());
        assert(visit(world, whole) == (WalkView { queue: front + after.queue, ..after }));
    }
}

} // verus!
