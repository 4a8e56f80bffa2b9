//! What holds of every walk over a dependency graph.

use vstd::prelude::*;

use crate::align::{
    change_text, next_step, pass_walk, pass_world, update_command, SessionView, StepView,
};
use crate::candidate::{
    as_locked, current_precise, stands_for, update_of, verdict, CandidateView, Finding, ReportView,
};
use crate::collect::{
    direct_dependencies, distinct, finished, first_walk, law_depth_limit, law_direct_dependencies,
    lemma_visit_progress, total, unseen, visit, WalkView, WorldView,
};
use crate::graph::{
    at_depth, edges, followed, law_children_are_the_ends_of_edges, law_edges_of_a_package, roots,
    Args, MetadataPackageView, MetadataView, ResolveView,
};
use crate::order::in_update_order;
use crate::package::{
    best_match, displayed, eligible, law_best_match_is_eligible, matching_source_exists,
    none_eligible, NewPackageView, OldPackageView, PackageKeyView, ResolvedKeyView,
};
use crate::source::normalized;
use crate::tables::{keyed_by_id, law_table_holds_the_packages, packages_by_id};
use crate::version::{same_line, version_text};

verus! {

/// A package can be reached from the roots by this many steps beyond a direct dependency, each
/// along an edge that is followed and by way of packages of the table.
pub open spec fn reachable_at(
    world: WorldView,
    root_ids: Seq<Seq<char>>,
    id: Seq<char>,
    distance: nat,
) -> bool
    decreases distance,
{
    if distance == 0 {
        direct_dependencies(world, root_ids).contains(id)
    } else {
        exists|parent: Seq<char>|
            {
                &&& #[trigger] world.packages.contains_key(parent)
                &&& reachable_at(world, root_ids, parent, (distance - 1) as nat)
                &&& world.children(parent).contains(id)
            }
    }
}

/// An update is right: it is for a package of the table that has a source, and it is the update to
/// the entry of the old lock file that the package is to be aligned with, which differs from it.
pub open spec fn right_update(world: WorldView, c: CandidateView) -> bool {
    &&& world.packages.contains_key(c.package_id)
    &&& world.packages[c.package_id].source is Some
    &&& match best_match(
        world.old_lock,
        world.packages[c.package_id].key(),
        world.packages[c.package_id].version,
    ) {
        Some(old_package) => !as_locked(world.packages[c.package_id], old_package) && c
            == update_of(
            world.packages[c.package_id],
            old_package,
            current_precise(world.new_lock, world.packages[c.package_id]),
        ),
        None => false,
    }
}

/// A package of the table is at this version, comes from a source, and is as the old lock file
/// has it.
pub open spec fn rightly_aligned(world: WorldView, key: ResolvedKeyView) -> bool {
    exists|id: Seq<char>|
        {
            &&& #[trigger] world.packages.contains_key(id)
            &&& world.packages[id].resolved_key() == key
            &&& world.packages[id].source is Some
            &&& match best_match(world.old_lock, key.package, key.version) {
                Some(old_package) => as_locked(world.packages[id], old_package),
                None => false,
            }
        }
}

/// A package of the table is at this version, comes from a source, and the old lock file has no
/// entry for it on its compatibility line.
pub open spec fn rightly_skipped(world: WorldView, key: ResolvedKeyView) -> bool {
    exists|id: Seq<char>|
        {
            &&& #[trigger] world.packages.contains_key(id)
            &&& world.packages[id].resolved_key() == key
            &&& world.packages[id].source is Some
            &&& none_eligible(world.old_lock, key.package, key.version)
        }
}

/// A report is right: it shows a package of the table that comes from a source, with the version
/// and the revision it has, and what it says of the old lock file is so.
pub open spec fn right_report(world: WorldView, report: ReportView) -> bool {
    exists|id: Seq<char>| #[trigger]
        world.packages.contains_key(id) && reports_on(world, world.packages[id], report)
}

/// A report shows this package, and is right.
pub open spec fn reports_on(
    world: WorldView,
    package: NewPackageView,
    report: ReportView,
) -> bool {
    &&& package.source is Some
    &&& report.name == package.name
    &&& report.shown == displayed(package.version, current_precise(world.new_lock, package))
    &&& match report.finding {
        Finding::Aligned => match best_match(world.old_lock, package.key(), package.version) {
            Some(old_package) => as_locked(package, old_package),
            None => false,
        },
        Finding::NoCompatibleVersion => matching_source_exists(world.old_lock, package.key())
            && none_eligible(world.old_lock, package.key(), package.version),
        Finding::NotFound => !matching_source_exists(world.old_lock, package.key()),
    }
}

/// A walk reports on a package at this version that it is aligned, or that it is passed over.
pub open spec fn reported(
    world: WorldView,
    walk: WalkView,
    key: ResolvedKeyView,
    as_aligned: bool,
) -> bool {
    exists|i: int, id: Seq<char>|
        {
            &&& 0 <= i < walk.reports.len()
            &&& world.packages.contains_key(id)
            &&& world.packages[id].resolved_key() == key
            &&& #[trigger] reports_on(world, world.packages[id], walk.reports[i])
            &&& walk.reports[i].finding == Finding::Aligned <==> as_aligned
        }
}

/// There is an update for a package at this version.
pub open spec fn to_be_updated(walk: WalkView, key: ResolvedKeyView) -> bool {
    exists|i: int| 0 <= i < walk.candidates.len() && (#[trigger] walk.candidates[i]).resolved_key == key
}

/// A decision was made on a package: it is local, aligned, passed over, or to be updated.
pub open spec fn decided(walk: WalkView, package: NewPackageView) -> bool {
    ||| package.source is None
    ||| walk.aligned.contains(package.resolved_key())
    ||| walk.skipped.contains(package.resolved_key())
    ||| to_be_updated(walk, package.resolved_key())
}

/// A package is still to be visited, no further away than this.
pub open spec fn queued_within(walk: WalkView, id: Seq<char>, distance: nat) -> bool {
    exists|i: int|
        0 <= i < walk.queue.len() && (#[trigger] walk.queue[i]).0 == id && walk.queue[i].1
            <= distance
}

/// A package is taken care of at this distance: it is not in the table, or too deep, or still to
/// be visited no further away, or it was seen at its version and, where what it depends on is
/// visited, was met no further away. Without a limit to the depth the distance does not count.
pub open spec fn handled(
    world: WorldView,
    walk: WalkView,
    id: Seq<char>,
    distance: nat,
) -> bool {
    ||| !world.packages.contains_key(id)
    ||| world.too_deep(distance)
    ||| queued_within(walk, id, distance)
    ||| walk.seen.contains(world.packages[id].resolved_key()) && (walk.reached.contains_key(id)
        && world.max_depth is Some ==> walk.reached[id] <= distance)
}

/// A package whose dependencies are visited was met at a distance that is not too deep, and all
/// that it depends on is taken care of one step further away.
pub open spec fn followed_up(
    world: WorldView,
    root_ids: Seq<Seq<char>>,
    walk: WalkView,
    id: Seq<char>,
) -> bool {
    &&& world.packages.contains_key(id)
    &&& walk.seen.contains(world.packages[id].resolved_key())
    &&& reachable_at(world, root_ids, id, walk.reached[id])
    &&& !world.too_deep(walk.reached[id])
    &&& forall|child: Seq<char>| #[trigger]
        world.children(id).contains(child) ==> handled(
            world,
            walk,
            child,
            walk.reached[id] + 1,
        )
}

/// A package comes from a source and is passed over: it was not found aligned, and nothing stands
/// for it.
pub open spec fn passed_over(walk: WalkView, package: NewPackageView) -> bool {
    &&& package.source is Some
    &&& !walk.aligned.contains(package.resolved_key())
    &&& walk.skipped.contains(package.resolved_key())
}

/// A package is met by way of the roots, or of a package whose dependencies are visited.
pub open spec fn led_to(
    world: WorldView,
    root_ids: Seq<Seq<char>>,
    walk: WalkView,
    id: Seq<char>,
) -> bool {
    direct_dependencies(world, root_ids).contains(id) || exists|parent: Seq<char>|
        walk.reached.contains_key(parent) && #[trigger] world.children(parent).contains(id)
}

/// Some package at this version was led to.
pub open spec fn version_led_to(
    world: WorldView,
    root_ids: Seq<Seq<char>>,
    walk: WalkView,
    key: ResolvedKeyView,
) -> bool {
    exists|id: Seq<char>|
        {
            &&& world.packages.contains_key(id)
            &&& world.packages[id].resolved_key() == key
            &&& #[trigger] led_to(world, root_ids, walk, id)
        }
}

/// What every state of a walk keeps of the ways that it takes: none leads through a package that
/// is passed over.
pub open spec fn ways_kept(world: WorldView, root_ids: Seq<Seq<char>>, walk: WalkView) -> bool {
    &&& forall|i: int|
        0 <= i < walk.queue.len() ==> led_to(world, root_ids, walk, (#[trigger] walk.queue[i]).0)
    &&& forall|key: ResolvedKeyView| #[trigger]
        walk.seen.contains(key) ==> version_led_to(world, root_ids, walk, key)
    &&& forall|id: Seq<char>| #[trigger]
        walk.reached.contains_key(id) ==> world.packages.contains_key(id) && walk.seen.contains(
            world.packages[id].resolved_key(),
        ) && !passed_over(walk, world.packages[id])
}

proof fn lemma_led_to_kept(
    world: WorldView,
    root_ids: Seq<Seq<char>>,
    walk: WalkView,
    id: Seq<char>,
)
    requires
        walk.queue.len() > 0,
        led_to(world, root_ids, walk, id),
    ensures
        led_to(world, root_ids, visit(world, walk), id),
{
    let after = visit(world, walk);
    if !direct_dependencies(world, root_ids).contains(id) {
        let parent = choose|parent: Seq<char>|
            walk.reached.contains_key(parent) && #[trigger] world.children(parent).contains(id);
        assert(after.reached.contains_key(parent));
        assert(world.children(parent).contains(id));
    }
}

proof fn lemma_visit_keeps_ways(world: WorldView, root_ids: Seq<Seq<char>>, walk: WalkView)
    requires
        walk.queue.len() > 0,
        ways_kept(world, root_ids, walk),
    ensures
        ways_kept(world, root_ids, visit(world, walk)),
{
    let after = visit(world, walk);
    let (id, distance) = walk.queue.last();
    let front = walk.queue.drop_last();
    assert(walk.queue[walk.queue.len() - 1] == walk.queue.last());
    lemma_led_to_kept(world, root_ids, walk, id);
    assert forall|i: int| 0 <= i < after.queue.len() implies led_to(
        world,
        root_ids,
        after,
        (#[trigger] after.queue[i]).0,
    ) by {
        if i < front.len() {
            assert(after.queue[i] == walk.queue[i]);
            lemma_led_to_kept(world, root_ids, walk, walk.queue[i].0);
        } else {
            let next = world.children(id);
            assert(after.queue == front + at_depth(next, distance + 1));
            assert(after.queue[i].0 == next[i - front.len()]);
            assert(after.reached.contains_key(id));
            assert(world.children(id).contains(after.queue[i].0));
        }
    }
    assert forall|key: ResolvedKeyView| #[trigger]
        after.seen.contains(key) implies version_led_to(world, root_ids, after, key) by {
        if walk.seen.contains(key) {
            let x = choose|x: Seq<char>|
                {
                    &&& world.packages.contains_key(x)
                    &&& world.packages[x].resolved_key() == key
                    &&& #[trigger] led_to(world, root_ids, walk, x)
                };
            lemma_led_to_kept(world, root_ids, walk, x);
        } else {
            assert(world.packages[id].resolved_key() == key);
            assert(led_to(world, root_ids, after, id));
        }
    }
    assert forall|x: Seq<char>| #[trigger] after.reached.contains_key(x) implies
        world.packages.contains_key(x) && after.seen.contains(world.packages[x].resolved_key())
        && !passed_over(after, world.packages[x]) by {
        if walk.reached.contains_key(x) {
            assert(walk.seen.contains(world.packages[x].resolved_key()));
        } else {
            assert(x == id);
        }
    }
}

proof fn lemma_finished_keeps_ways(world: WorldView, root_ids: Seq<Seq<char>>, walk: WalkView)
    requires
        world.packages.dom().finite(),
        walk.reached.dom().finite(),
        ways_kept(world, root_ids, walk),
    ensures
        ways_kept(world, root_ids, finished(world, walk)),
    decreases
            unseen(world.packages, walk.seen).len(),
            total(walk.reached),
            walk.queue.len(),
{
    if walk.queue.len() > 0 {
        lemma_visit_progress(world, walk);
        lemma_visit_keeps_ways(world, root_ids, walk);
        lemma_finished_keeps_ways(world, root_ids, visit(world, walk));
    }
}

/// A walk does not look below what is passed over: whatever version it sees is that of a direct
/// dependency of the roots, or of something that a package depends on which it saw, and which is
/// local, aligned or to be updated.
pub proof fn law_nothing_below_what_is_passed_over(
    world: WorldView,
    root_ids: Seq<Seq<char>>,
    aligned: Set<ResolvedKeyView>,
    skipped: Set<ResolvedKeyView>,
    key: ResolvedKeyView,
)
    requires
        keyed_by_id(world.packages),
        finished(world, first_walk(world, root_ids, aligned, skipped)).seen.contains(key),
    ensures
        ({
            let walk = finished(world, first_walk(world, root_ids, aligned, skipped));
            exists|id: Seq<char>|
                {
                    &&& #[trigger] world.packages.contains_key(id)
                    &&& world.packages[id].resolved_key() == key
                    &&& direct_dependencies(world, root_ids).contains(id) || exists|
                        parent: Seq<char>,
                    |
                        {
                            &&& #[trigger] world.children(parent).contains(id)
                            &&& world.packages.contains_key(parent)
                            &&& walk.seen.contains(world.packages[parent].resolved_key())
                            &&& {
                                ||| world.packages[parent].source is None
                                ||| walk.aligned.contains(world.packages[parent].resolved_key())
                                ||| !walk.skipped.contains(world.packages[parent].resolved_key())
                            }
                        }
                }
        }),
{
    let start = first_walk(world, root_ids, aligned, skipped);
    let walk = finished(world, start);
    let direct = direct_dependencies(world, root_ids);
    assert forall|i: int| 0 <= i < start.queue.len() implies led_to(
        world,
        root_ids,
        start,
        (#[trigger] start.queue[i]).0,
    ) by {
        assert(direct.contains(direct[i]));
    }
    lemma_finished_keeps_ways(world, root_ids, start);
    let id = choose|id: Seq<char>|
        {
            &&& world.packages.contains_key(id)
            &&& world.packages[id].resolved_key() == key
            &&& #[trigger] led_to(world, root_ids, walk, id)
        };
    assert(world.packages.contains_key(id));
    if !direct.contains(id) {
        let parent = choose|parent: Seq<char>|
            walk.reached.contains_key(parent) && #[trigger] world.children(parent).contains(id);
        assert(walk.reached.contains_key(parent));
        assert(world.children(parent).contains(id));
    }
}

/// A package was visited at a distance that is not too deep: a decision was made on it, and unless
/// it is passed over what it depends on is visited.
pub open spec fn settled(
    world: WorldView,
    root_ids: Seq<Seq<char>>,
    walk: WalkView,
    id: Seq<char>,
    distance: nat,
) -> bool {
    &&& world.packages.contains_key(id)
    &&& reachable_at(world, root_ids, id, distance)
    &&& !world.too_deep(distance)
    &&& decided(walk, world.packages[id])
    &&& walk.skipped.contains(world.packages[id].resolved_key()) || walk.reached.contains_key(id)
}

/// Some package at this version was visited.
pub open spec fn visited(
    world: WorldView,
    root_ids: Seq<Seq<char>>,
    walk: WalkView,
    key: ResolvedKeyView,
) -> bool {
    exists|id: Seq<char>, distance: nat|
        #[trigger] settled(world, root_ids, walk, id, distance)
            && world.packages[id].resolved_key() == key
}

/// What every state of a walk keeps.
pub open spec fn walk_invariant(
    world: WorldView,
    root_ids: Seq<Seq<char>>,
    aligned: Set<ResolvedKeyView>,
    skipped: Set<ResolvedKeyView>,
    walk: WalkView,
) -> bool {
    &&& aligned.subset_of(walk.aligned)
    &&& skipped.subset_of(walk.skipped)
    &&& forall|key: ResolvedKeyView| #[trigger]
        walk.aligned.contains(key) && !aligned.contains(key) ==> walk.seen.contains(key)
            && rightly_aligned(world, key) && reported(world, walk, key, true)
    &&& forall|key: ResolvedKeyView| #[trigger]
        walk.skipped.contains(key) && !skipped.contains(key) ==> walk.seen.contains(key)
            && rightly_skipped(world, key) && reported(world, walk, key, false)
    &&& forall|key: ResolvedKeyView|
        walk.aligned.contains(key) && #[trigger] walk.skipped.contains(key) ==> aligned.contains(
            key,
        ) && skipped.contains(key)
    &&& forall|i: int|
        0 <= i < walk.candidates.len() ==> {
            let c = #[trigger] walk.candidates[i];
            &&& right_update(world, c)
            &&& walk.seen.contains(c.resolved_key)
            &&& !walk.aligned.contains(c.resolved_key)
            &&& !walk.skipped.contains(c.resolved_key)
            &&& exists|distance: nat| #[trigger]
                reachable_at(world, root_ids, c.package_id, distance) && !world.too_deep(distance)
        }
    &&& distinct(walk.candidates)
    &&& forall|i: int|
        0 <= i < walk.reports.len() ==> right_report(world, #[trigger] walk.reports[i])
    &&& forall|i: int|
        0 <= i < walk.queue.len() ==> reachable_at(
            world,
            root_ids,
            (#[trigger] walk.queue[i]).0,
            walk.queue[i].1,
        )
    &&& forall|key: ResolvedKeyView| #[trigger]
        walk.seen.contains(key) ==> visited(world, root_ids, walk, key)
    &&& walk.reached.dom().finite()
    &&& forall|id: Seq<char>| #[trigger]
        walk.reached.contains_key(id) ==> followed_up(world, root_ids, walk, id)
    &&& forall|id: Seq<char>| #[trigger]
        direct_dependencies(world, root_ids).contains(id) ==> handled(world, walk, id, 0)
}

proof fn lemma_first_walk(
    world: WorldView,
    root_ids: Seq<Seq<char>>,
    aligned: Set<ResolvedKeyView>,
    skipped: Set<ResolvedKeyView>,
)
    ensures
        walk_invariant(
            world,
            root_ids,
            aligned,
            skipped,
            first_walk(world, root_ids, aligned, skipped),
        ),
{
    let walk = first_walk(world, root_ids, aligned, skipped);
    let direct = direct_dependencies(world, root_ids);
    assert forall|i: int| 0 <= i < walk.queue.len() implies reachable_at(
        world,
        root_ids,
        (#[trigger] walk.queue[i]).0,
        walk.queue[i].1,
    ) by {
        assert(direct.contains(direct[i]));
    }
    assert forall|id: Seq<char>| #[trigger] direct.contains(id) implies handled(
        world,
        walk,
        id,
        0,
    ) by {
        let i = direct.index_of(id);
        assert(walk.queue[i].0 == id);
    }
}

/// What was taken care of before a step still is after it.
proof fn lemma_handled_kept(world: WorldView, walk: WalkView, id: Seq<char>, distance: nat)
    requires
        walk.queue.len() > 0,
        handled(world, walk, id, distance),
        walk.reached.contains_key(id) ==> walk.seen.contains(world.packages[id].resolved_key()),
    ensures
        handled(world, visit(world, walk), id, distance),
{
    let after = visit(world, walk);
    if queued_within(walk, id, distance) {
        let i = choose|i: int|
            0 <= i < walk.queue.len() && (#[trigger] walk.queue[i]).0 == id && walk.queue[i].1
                <= distance;
        if i < walk.queue.len() - 1 {
            assert(after.queue[i] == walk.queue[i]);
        }
    }
}

proof fn lemma_decided_kept(world: WorldView, walk: WalkView, package: NewPackageView)
    requires
        walk.queue.len() > 0,
        decided(walk, package),
    ensures
        decided(visit(world, walk), package),
{
    let after = visit(world, walk);
    if to_be_updated(walk, package.resolved_key()) {
        let i = choose|i: int|
            0 <= i < walk.candidates.len() && (#[trigger] walk.candidates[i]).resolved_key
                == package.resolved_key();
        assert(after.candidates[i] == walk.candidates[i]);
    }
}

proof fn lemma_reported_kept(
    world: WorldView,
    walk: WalkView,
    key: ResolvedKeyView,
    as_aligned: bool,
)
    requires
        walk.queue.len() > 0,
        reported(world, walk, key, as_aligned),
    ensures
        reported(world, visit(world, walk), key, as_aligned),
{
    let after = visit(world, walk);
    let (i, id) = choose|i: int, id: Seq<char>|
        {
            &&& 0 <= i < walk.reports.len()
            &&& world.packages.contains_key(id)
            &&& world.packages[id].resolved_key() == key
            &&& #[trigger] reports_on(world, world.packages[id], walk.reports[i])
            &&& walk.reports[i].finding == Finding::Aligned <==> as_aligned
        };
    assert(after.reports[i] == walk.reports[i]);
    assert(reports_on(world, world.packages[id], after.reports[i]));
}

proof fn lemma_settled_kept(
    world: WorldView,
    root_ids: Seq<Seq<char>>,
    walk: WalkView,
    id: Seq<char>,
    distance: nat,
)
    requires
        walk.queue.len() > 0,
        settled(world, root_ids, walk, id, distance),
    ensures
        settled(world, root_ids, visit(world, walk), id, distance),
{
    lemma_decided_kept(world, walk, world.packages[id]);
}

/// The visit of a package that was not seen yet settles it.
proof fn lemma_visit_settles(world: WorldView, root_ids: Seq<Seq<char>>, walk: WalkView)
    requires
        walk.queue.len() > 0,
        world.packages.contains_key(walk.queue.last().0),
        !world.too_deep(walk.queue.last().1),
        !walk.seen.contains(world.packages[walk.queue.last().0].resolved_key()),
        reachable_at(world, root_ids, walk.queue.last().0, walk.queue.last().1),
    ensures
        settled(world, root_ids, visit(world, walk), walk.queue.last().0, walk.queue.last().1),
{
    let (id, distance) = walk.queue.last();
    let after = visit(world, walk);
    let package = world.packages[id];
    let decision = verdict(package, walk.aligned, walk.skipped, world.new_lock, world.old_lock);
    if decision is Differs {
        assert(after.candidates[walk.candidates.len() as int].resolved_key
            == package.resolved_key());
    }
}

/// A step keeps that all that a package depends on is taken care of.
proof fn lemma_visit_follows_up(
    world: WorldView,
    root_ids: Seq<Seq<char>>,
    walk: WalkView,
    x: Seq<char>,
)
    requires
        walk.queue.len() > 0,
        reachable_at(world, root_ids, walk.queue.last().0, walk.queue.last().1),
        forall|id: Seq<char>| #[trigger]
            walk.reached.contains_key(id) ==> followed_up(world, root_ids, walk, id),
        visit(world, walk).reached.contains_key(x),
    ensures
        followed_up(world, root_ids, visit(world, walk), x),
{
    let after = visit(world, walk);
    let (id, distance) = walk.queue.last();
    let front = walk.queue.drop_last();
    let next = world.children(x);
    let moved = x == id && after.reached == walk.reached.insert(id, distance) && after.queue
        == front + at_depth(next, distance + 1);
    assert forall|child: Seq<char>| #[trigger] next.contains(child) implies handled(
        world,
        after,
        child,
        after.reached[x] + 1,
    ) by {
        if moved {
            let i = next.index_of(child);
            assert(after.queue[front.len() + i] == (child, distance + 1));
        } else {
            assert(walk.reached.contains_key(x));
            assert(followed_up(world, root_ids, walk, x));
            assert(after.reached[x] == walk.reached[x]);
            assert(walk.reached.contains_key(child) ==> followed_up(world, root_ids, walk, child));
            lemma_handled_kept(world, walk, child, walk.reached[x] + 1);
        }
    }
    if !moved {
        assert(walk.reached.contains_key(x));
        assert(followed_up(world, root_ids, walk, x));
    }
}

proof fn lemma_visit_keeps_invariant(
    world: WorldView,
    root_ids: Seq<Seq<char>>,
    aligned: Set<ResolvedKeyView>,
    skipped: Set<ResolvedKeyView>,
    walk: WalkView,
)
    requires
        keyed_by_id(world.packages),
        walk.queue.len() > 0,
        walk_invariant(world, root_ids, aligned, skipped, walk),
    ensures
        walk_invariant(world, root_ids, aligned, skipped, visit(world, walk)),
{
    let after = visit(world, walk);
    let (id, distance) = walk.queue.last();
    let package = world.packages[id];
    let key = package.resolved_key();
    assert(walk.queue[walk.queue.len() - 1] == walk.queue.last());
    assert(reachable_at(world, root_ids, id, distance));
    let fresh = world.packages.contains_key(id) && !world.too_deep(distance)
        && !walk.seen.contains(key);
    law_best_match_is_eligible(world.old_lock, package.key(), package.version);
    if fresh {
        lemma_visit_settles(world, root_ids, walk);
    }
    assert forall|i: int| 0 <= i < after.reports.len() implies right_report(
        world,
        #[trigger] after.reports[i],
    ) by {
        if i < walk.reports.len() {
            assert(after.reports[i] == walk.reports[i]);
        } else {
            assert(fresh);
            assert(reports_on(world, package, after.reports[i]));
        }
    }
    assert forall|k: ResolvedKeyView| #[trigger] after.seen.contains(k) implies visited(
        world,
        root_ids,
        after,
        k,
    ) by {
        if walk.seen.contains(k) {
            let (i, d) = choose|i: Seq<char>, d: nat|
                #[trigger] settled(world, root_ids, walk, i, d) && world.packages[i].resolved_key()
                    == k;
            lemma_settled_kept(world, root_ids, walk, i, d);
        } else {
            assert(settled(world, root_ids, after, id, distance));
        }
    }
    assert forall|i: Seq<char>| #[trigger] after.reached.contains_key(i) implies followed_up(
        world,
        root_ids,
        after,
        i,
    ) by {
        lemma_visit_follows_up(world, root_ids, walk, i);
    }
    assert forall|i: Seq<char>| #[trigger]
        direct_dependencies(world, root_ids).contains(i) implies handled(world, after, i, 0) by {
        assert(walk.reached.contains_key(i) ==> followed_up(world, root_ids, walk, i));
        lemma_handled_kept(world, walk, i, 0);
    }
    assert forall|i: int| 0 <= i < after.queue.len() implies reachable_at(
        world,
        root_ids,
        (#[trigger] after.queue[i]).0,
        after.queue[i].1,
    ) by {
        if i < walk.queue.len() - 1 {
            assert(after.queue[i] == walk.queue[i]);
        } else {
            let next = world.children(id);
            let front = walk.queue.drop_last();
            assert(after.queue == front + at_depth(next, distance + 1));
            let child = next[i - front.len()];
            assert(after.queue[i] == (child, distance + 1));
            assert(next.contains(child));
            assert(reachable_at(world, root_ids, child, distance + 1));
        }
    }
    assert forall|i: int| 0 <= i < after.candidates.len() implies {
        let c = #[trigger] after.candidates[i];
        &&& right_update(world, c)
        &&& after.seen.contains(c.resolved_key)
        &&& !after.aligned.contains(c.resolved_key)
        &&& !after.skipped.contains(c.resolved_key)
        &&& exists|d: nat| #[trigger]
            reachable_at(world, root_ids, c.package_id, d) && !world.too_deep(d)
    } by {
        if i < walk.candidates.len() {
            assert(after.candidates[i] == walk.candidates[i]);
        } else {
            assert(fresh);
            assert(reachable_at(world, root_ids, after.candidates[i].package_id, distance));
        }
    }
    assert forall|i: int, j: int|
        #![trigger after.candidates[i], after.candidates[j]]
        0 <= i < j < after.candidates.len() implies after.candidates[i].resolved_key
        != after.candidates[j].resolved_key && after.candidates[i].package_id
        != after.candidates[j].package_id by {
        assert(after.candidates[i] == walk.candidates[i]);
        if j < walk.candidates.len() {
            assert(after.candidates[j] == walk.candidates[j]);
        } else {
            assert(fresh);
            assert(walk.seen.contains(walk.candidates[i].resolved_key));
        }
    }
    assert forall|k: ResolvedKeyView| #[trigger]
        after.aligned.contains(k) && !aligned.contains(k) implies after.seen.contains(k)
        && rightly_aligned(world, k) && reported(world, after, k, true) by {
        if !walk.aligned.contains(k) {
            assert(k == key);
            assert(world.packages.contains_key(id));
            assert(reports_on(world, world.packages[id], after.reports[walk.reports.len() as int]));
        } else {
            lemma_reported_kept(world, walk, k, true);
        }
    }
    assert forall|k: ResolvedKeyView| #[trigger]
        after.skipped.contains(k) && !skipped.contains(k) implies after.seen.contains(k)
        && rightly_skipped(world, k) && reported(world, after, k, false) by {
        if !walk.skipped.contains(k) {
            assert(k == key);
            assert(world.packages.contains_key(id));
            assert(reports_on(world, world.packages[id], after.reports[walk.reports.len() as int]));
        } else {
            lemma_reported_kept(world, walk, k, false);
        }
    }
}

proof fn lemma_finished_keeps_invariant(
    world: WorldView,
    root_ids: Seq<Seq<char>>,
    aligned: Set<ResolvedKeyView>,
    skipped: Set<ResolvedKeyView>,
    walk: WalkView,
)
    requires
        keyed_by_id(world.packages),
        walk_invariant(world, root_ids, aligned, skipped, walk),
    ensures
        walk_invariant(world, root_ids, aligned, skipped, finished(world, walk)),
        finished(world, walk).queue.len() == 0,
    decreases
            unseen(world.packages, walk.seen).len(),
            total(walk.reached),
            walk.queue.len(),
{
    if walk.queue.len() > 0 {
        lemma_visit_keeps_invariant(world, root_ids, aligned, skipped, walk);
        lemma_visit_progress(world, walk);
        lemma_finished_keeps_invariant(world, root_ids, aligned, skipped, visit(world, walk));
    }
}

/// Every update that a walk finds is right: it takes a package of the table that has a source to
/// the entry of the old lock file that it is to be aligned with. No two are for one package, and
/// none is for a package that is aligned or passed over.
pub proof fn law_updates_are_right(
    world: WorldView,
    root_ids: Seq<Seq<char>>,
    aligned: Set<ResolvedKeyView>,
    skipped: Set<ResolvedKeyView>,
)
    requires
        keyed_by_id(world.packages),
    ensures
        ({
            let walk = finished(world, first_walk(world, root_ids, aligned, skipped));
            &&& distinct(walk.candidates)
            &&& forall|i: int|
                0 <= i < walk.candidates.len() ==> {
                    let c = #[trigger] walk.candidates[i];
                    &&& right_update(world, c)
                    &&& !walk.aligned.contains(c.resolved_key)
                    &&& !walk.skipped.contains(c.resolved_key)
                }
        }),
{
    let start = first_walk(world, root_ids, aligned, skipped);
    lemma_first_walk(world, root_ids, aligned, skipped);
    lemma_finished_keeps_invariant(world, root_ids, aligned, skipped, start);
}

/// An update moves this package from what it is to an entry of the old lock file that stands for
/// it, and that differs from it in its version or its revision.
pub open spec fn moves_to_an_entry(
    world: WorldView,
    package: NewPackageView,
    c: CandidateView,
) -> bool {
    &&& c.package_id == package.id
    &&& c.resolved_key.package.name == package.name
    &&& c.resolved_key.package.source == package.source
    &&& c.resolved_key.version == package.version
    &&& c.new_version == package.version
    &&& c.old_version != package.version || c.old_precise != package.precise
    &&& exists|j: int|
        {
            &&& 0 <= j < world.old_lock.len()
            &&& stands_for(#[trigger] world.old_lock[j], package)
            &&& world.old_lock[j].version == c.old_version
            &&& world.old_lock[j].precise == c.old_precise
        }
}

/// No update leaves the compatibility line of the version that the package has, and every update
/// is to an entry of the old lock file that stands for the package: to its revision, or to its
/// version where it has no revision.
pub proof fn law_updates_stay_compatible(
    world: WorldView,
    root_ids: Seq<Seq<char>>,
    aligned: Set<ResolvedKeyView>,
    skipped: Set<ResolvedKeyView>,
)
    requires
        keyed_by_id(world.packages),
    ensures
        ({
            let walk = finished(world, first_walk(world, root_ids, aligned, skipped));
            forall|i: int|
                0 <= i < walk.candidates.len() ==> {
                    let c = #[trigger] walk.candidates[i];
                    &&& world.packages.contains_key(c.package_id)
                    &&& moves_to_an_entry(world, world.packages[c.package_id], c)
                    &&& same_line(c.old_version, c.new_version)
                    &&& c.new_version == c.resolved_key.version
                    &&& exists|j: int|
                        0 <= j < world.old_lock.len() && {
                            let old_package = #[trigger] world.old_lock[j];
                            &&& eligible(old_package, c.resolved_key.package, c.new_version)
                            &&& old_package.version == c.old_version
                            &&& old_package.precise == c.old_precise
                        }
                    &&& c.target_precise == match c.old_precise {
                        Some(precise) => precise,
                        None => version_text(c.old_version),
                    }
                }
        }),
{
    let walk = finished(world, first_walk(world, root_ids, aligned, skipped));
    law_updates_are_right(world, root_ids, aligned, skipped);
    assert forall|i: int| 0 <= i < walk.candidates.len() implies {
        let c = #[trigger] walk.candidates[i];
        &&& world.packages.contains_key(c.package_id)
        &&& moves_to_an_entry(world, world.packages[c.package_id], c)
        &&& same_line(c.old_version, c.new_version)
        &&& c.new_version == c.resolved_key.version
        &&& exists|j: int|
            0 <= j < world.old_lock.len() && {
                let old_package = #[trigger] world.old_lock[j];
                &&& eligible(old_package, c.resolved_key.package, c.new_version)
                &&& old_package.version == c.old_version
                &&& old_package.precise == c.old_precise
            }
        &&& c.target_precise == match c.old_precise {
            Some(precise) => precise,
            None => version_text(c.old_version),
        }
    } by {
        let c = walk.candidates[i];
        assert(right_update(world, c));
        let package = world.packages[c.package_id];
        law_best_match_is_eligible(world.old_lock, package.key(), package.version);
        let old_package = best_match(world.old_lock, package.key(), package.version)->0;
        let j = world.old_lock.index_of(old_package);
        assert(world.old_lock[j] == old_package);
        assert(stands_for(world.old_lock[j], package));
    }
}

/// A walk takes nothing out of the sets that carry over from pass to pass. What it adds to the
/// aligned packages is as the old lock file has it, and what it adds to the packages that are
/// passed over has nothing to be aligned with. Nothing new gets into both sets.
pub proof fn law_sets_grow_rightly(
    world: WorldView,
    root_ids: Seq<Seq<char>>,
    aligned: Set<ResolvedKeyView>,
    skipped: Set<ResolvedKeyView>,
)
    requires
        keyed_by_id(world.packages),
    ensures
        ({
            let walk = finished(world, first_walk(world, root_ids, aligned, skipped));
            &&& aligned.subset_of(walk.aligned)
            &&& skipped.subset_of(walk.skipped)
            &&& forall|key: ResolvedKeyView| #[trigger]
                walk.aligned.contains(key) && !aligned.contains(key) ==> rightly_aligned(world, key)
            &&& forall|key: ResolvedKeyView| #[trigger]
                walk.skipped.contains(key) && !skipped.contains(key) ==> rightly_skipped(world, key)
            &&& forall|key: ResolvedKeyView|
                walk.aligned.contains(key) && #[trigger] walk.skipped.contains(key)
                    ==> aligned.contains(key) && skipped.contains(key)
        }),
{
    let start = first_walk(world, root_ids, aligned, skipped);
    lemma_first_walk(world, root_ids, aligned, skipped);
    lemma_finished_keeps_invariant(world, root_ids, aligned, skipped, start);
}

/// What a walk says of the packages that it does not update is so: one that is shown as aligned
/// is as the old lock file has it; for one that is passed over the file has entries, but none on
/// its compatibility line, or no entry at all.
pub proof fn law_reports_are_right(
    world: WorldView,
    root_ids: Seq<Seq<char>>,
    aligned: Set<ResolvedKeyView>,
    skipped: Set<ResolvedKeyView>,
)
    requires
        keyed_by_id(world.packages),
    ensures
        ({
            let walk = finished(world, first_walk(world, root_ids, aligned, skipped));
            forall|i: int|
                0 <= i < walk.reports.len() ==> right_report(world, #[trigger] walk.reports[i])
        }),
{
    let start = first_walk(world, root_ids, aligned, skipped);
    lemma_first_walk(world, root_ids, aligned, skipped);
    lemma_finished_keeps_invariant(world, root_ids, aligned, skipped, start);
}

/// A package of the table is at this version, and can be reached within the depth to which packages
/// are aligned.
pub open spec fn within_depth(
    world: WorldView,
    root_ids: Seq<Seq<char>>,
    key: ResolvedKeyView,
) -> bool {
    exists|id: Seq<char>, distance: nat|
        {
            &&& #[trigger] reachable_at(world, root_ids, id, distance)
            &&& !world.too_deep(distance)
            &&& world.packages.contains_key(id)
            &&& world.packages[id].resolved_key() == key
        }
}

/// Whatever a walk decides on can be reached within the depth to which packages are aligned: the
/// package of every update, and every version that it finds aligned or passes over. With a limit
/// of one all of these are direct dependencies, and with a limit of zero there are none.
pub proof fn law_decisions_within_depth(
    world: WorldView,
    root_ids: Seq<Seq<char>>,
    aligned: Set<ResolvedKeyView>,
    skipped: Set<ResolvedKeyView>,
)
    requires
        keyed_by_id(world.packages),
    ensures
        ({
            let walk = finished(world, first_walk(world, root_ids, aligned, skipped));
            &&& forall|i: int|
                0 <= i < walk.candidates.len() ==> exists|distance: nat| #[trigger]
                    reachable_at(
                        world,
                        root_ids,
                        (#[trigger] walk.candidates[i]).package_id,
                        distance,
                    ) && !world.too_deep(distance)
            &&& forall|key: ResolvedKeyView| #[trigger]
                walk.aligned.contains(key) && !aligned.contains(key) ==> within_depth(
                    world,
                    root_ids,
                    key,
                )
            &&& forall|key: ResolvedKeyView| #[trigger]
                walk.skipped.contains(key) && !skipped.contains(key) ==> within_depth(
                    world,
                    root_ids,
                    key,
                )
            &&& world.max_depth == Some(0nat) ==> walk.candidates.len() == 0 && walk.aligned
                == aligned && walk.skipped == skipped
        }),
{
    let start = first_walk(world, root_ids, aligned, skipped);
    let walk = finished(world, start);
    lemma_first_walk(world, root_ids, aligned, skipped);
    lemma_finished_keeps_invariant(world, root_ids, aligned, skipped, start);
    assert forall|key: ResolvedKeyView| #[trigger] walk.seen.contains(key) implies within_depth(
        world,
        root_ids,
        key,
    ) by {
        let (id, distance) = choose|id: Seq<char>, distance: nat|
            #[trigger] settled(world, root_ids, walk, id, distance)
                && world.packages[id].resolved_key() == key;
        assert(reachable_at(world, root_ids, id, distance));
    }
    if world.max_depth == Some(0nat) {
        if walk.candidates.len() > 0 {
            let c = walk.candidates[0];
            assert(walk.seen.contains(c.resolved_key));
        }
        assert(walk.aligned =~= aligned);
        assert(walk.skipped =~= skipped);
    }
}

/// A walk misses nothing that it comes across. Unless the limit to the depth is zero every direct
/// dependency of the roots that is in the table is seen. For every version that is seen there is a
/// package that was visited at a distance that is not too deep: a decision was made on it, and
/// unless it is passed over everything it depends on that is in the table and not too deep is seen.
pub proof fn law_nothing_overlooked(
    world: WorldView,
    root_ids: Seq<Seq<char>>,
    aligned: Set<ResolvedKeyView>,
    skipped: Set<ResolvedKeyView>,
)
    requires
        keyed_by_id(world.packages),
    ensures
        ({
            let walk = finished(world, first_walk(world, root_ids, aligned, skipped));
            &&& forall|id: Seq<char>| #[trigger]
                direct_dependencies(world, root_ids).contains(id) && world.packages.contains_key(id)
                    && !world.too_deep(0) ==> walk.seen.contains(world.packages[id].resolved_key())
            &&& forall|key: ResolvedKeyView| #[trigger]
                walk.seen.contains(key) ==> exists|id: Seq<char>, distance: nat|
                    {
                        &&& #[trigger] reachable_at(world, root_ids, id, distance)
                        &&& !world.too_deep(distance)
                        &&& world.packages.contains_key(id)
                        &&& world.packages[id].resolved_key() == key
                        &&& decided(walk, world.packages[id])
                        &&& walk.skipped.contains(key) || forall|child: Seq<char>| #[trigger]
                            world.children(id).contains(child) && world.packages.contains_key(child)
                                && !world.too_deep(distance + 1) ==> walk.seen.contains(
                                world.packages[child].resolved_key(),
                            )
                    }
        }),
{
    let start = first_walk(world, root_ids, aligned, skipped);
    let walk = finished(world, start);
    lemma_first_walk(world, root_ids, aligned, skipped);
    lemma_finished_keeps_invariant(world, root_ids, aligned, skipped, start);
    assert forall|id: Seq<char>| #[trigger]
        direct_dependencies(world, root_ids).contains(id) && world.packages.contains_key(id)
            && !world.too_deep(0) implies walk.seen.contains(world.packages[id].resolved_key()) by {
        assert(handled(world, walk, id, 0));
    }
    assert forall|key: ResolvedKeyView| #[trigger] walk.seen.contains(key) implies exists|
        id: Seq<char>,
        distance: nat,
    |
        {
            &&& #[trigger] reachable_at(world, root_ids, id, distance)
            &&& !world.too_deep(distance)
            &&& world.packages.contains_key(id)
            &&& world.packages[id].resolved_key() == key
            &&& decided(walk, world.packages[id])
            &&& walk.skipped.contains(key) || forall|child: Seq<char>| #[trigger]
                world.children(id).contains(child) && world.packages.contains_key(child)
                    && !world.too_deep(distance + 1) ==> walk.seen.contains(
                    world.packages[child].resolved_key(),
                )
        } by {
        let (id, met) = choose|id: Seq<char>, distance: nat|
            #[trigger] settled(world, root_ids, walk, id, distance)
                && world.packages[id].resolved_key() == key;
        let distance = if walk.reached.contains_key(id) {
            walk.reached[id]
        } else {
            met
        };
        if walk.reached.contains_key(id) {
            assert(followed_up(world, root_ids, walk, id));
            assert forall|child: Seq<char>| #[trigger]
                world.children(id).contains(child) && world.packages.contains_key(child)
                    && !world.too_deep(distance + 1) implies walk.seen.contains(
                world.packages[child].resolved_key(),
            ) by {
                assert(handled(world, walk, child, distance + 1));
            }
        }
        assert(reachable_at(world, root_ids, id, distance));
    }
}

/// A package can be reached from the roots by this many steps beyond a direct dependency by way of
/// packages that are not passed over.
pub open spec fn open_at(
    world: WorldView,
    root_ids: Seq<Seq<char>>,
    passed_over: Set<ResolvedKeyView>,
    id: Seq<char>,
    distance: nat,
) -> bool
    decreases distance,
{
    if distance == 0 {
        direct_dependencies(world, root_ids).contains(id)
    } else {
        exists|parent: Seq<char>|
            {
                &&& #[trigger] world.packages.contains_key(parent)
                &&& !passed_over.contains(world.packages[parent].resolved_key())
                &&& open_at(world, root_ids, passed_over, parent, (distance - 1) as nat)
                &&& world.children(parent).contains(id)
            }
    }
}

/// Where no two packages share their name, source and version, a decision is made on every package
/// of the table that can be reached from the roots, within the depth to which packages are
/// aligned, by way of packages that are not passed over. Any way that short will do, whatever
/// longer ones there are.
pub proof fn law_all_reachable_decided(
    world: WorldView,
    root_ids: Seq<Seq<char>>,
    aligned: Set<ResolvedKeyView>,
    skipped: Set<ResolvedKeyView>,
    id: Seq<char>,
    distance: nat,
)
    requires
        keyed_by_id(world.packages),
        !world.too_deep(distance),
        forall|a: Seq<char>, b: Seq<char>| #[trigger]
            world.packages.contains_key(a) && #[trigger] world.packages.contains_key(b)
                && world.packages[a].resolved_key() == world.packages[b].resolved_key() ==> a == b,
        world.packages.contains_key(id),
        open_at(
            world,
            root_ids,
            finished(world, first_walk(world, root_ids, aligned, skipped)).skipped,
            id,
            distance,
        ),
    ensures
        ({
            let walk = finished(world, first_walk(world, root_ids, aligned, skipped));
            &&& walk.seen.contains(world.packages[id].resolved_key())
            &&& decided(walk, world.packages[id])
        }),
{
    let start = first_walk(world, root_ids, aligned, skipped);
    lemma_first_walk(world, root_ids, aligned, skipped);
    lemma_finished_keeps_invariant(world, root_ids, aligned, skipped, start);
    lemma_open_is_settled(
        world,
        root_ids,
        aligned,
        skipped,
        finished(world, start),
        id,
        distance,
    );
}

proof fn lemma_open_is_settled(
    world: WorldView,
    root_ids: Seq<Seq<char>>,
    aligned: Set<ResolvedKeyView>,
    skipped: Set<ResolvedKeyView>,
    walk: WalkView,
    id: Seq<char>,
    distance: nat,
)
    requires
        walk_invariant(world, root_ids, aligned, skipped, walk),
        walk.queue.len() == 0,
        !world.too_deep(distance),
        forall|a: Seq<char>, b: Seq<char>| #[trigger]
            world.packages.contains_key(a) && #[trigger] world.packages.contains_key(b)
                && world.packages[a].resolved_key() == world.packages[b].resolved_key() ==> a == b,
        world.packages.contains_key(id),
        open_at(world, root_ids, walk.skipped, id, distance),
    ensures
        walk.seen.contains(world.packages[id].resolved_key()),
        decided(walk, world.packages[id]),
        walk.skipped.contains(world.packages[id].resolved_key()) || (walk.reached.contains_key(id)
            && (world.max_depth is Some ==> walk.reached[id] <= distance)),
    decreases distance,
{
    if distance == 0 {
        assert(handled(world, walk, id, 0));
    } else {
        let parent = choose|parent: Seq<char>|
            {
                &&& #[trigger] world.packages.contains_key(parent)
                &&& !walk.skipped.contains(world.packages[parent].resolved_key())
                &&& open_at(world, root_ids, walk.skipped, parent, (distance - 1) as nat)
                &&& world.children(parent).contains(id)
            };
        lemma_open_is_settled(
            world,
            root_ids,
            aligned,
            skipped,
            walk,
            parent,
            (distance - 1) as nat,
        );
        assert(followed_up(world, root_ids, walk, parent));
        assert(handled(world, walk, id, walk.reached[parent] + 1));
    }
    let key = world.packages[id].resolved_key();
    assert(walk.seen.contains(key));
    let (other, met) = choose|other: Seq<char>, met: nat|
        #[trigger] settled(world, root_ids, walk, other, met)
            && world.packages[other].resolved_key() == key;
    assert(settled(world, root_ids, walk, other, met));
    assert(other == id);
}

/// Where a walk finds nothing to update, every version that it saw is that of a local package, or
/// is aligned, or is passed over.
pub proof fn law_nothing_left_means_aligned(
    world: WorldView,
    root_ids: Seq<Seq<char>>,
    aligned: Set<ResolvedKeyView>,
    skipped: Set<ResolvedKeyView>,
    key: ResolvedKeyView,
)
    requires
        keyed_by_id(world.packages),
        finished(world, first_walk(world, root_ids, aligned, skipped)).candidates.len() == 0,
        finished(world, first_walk(world, root_ids, aligned, skipped)).seen.contains(key),
    ensures
        ({
            let walk = finished(world, first_walk(world, root_ids, aligned, skipped));
            key.package.source is None || walk.aligned.contains(key) || walk.skipped.contains(key)
        }),
{
    law_nothing_overlooked(world, root_ids, aligned, skipped);
}

/// Two walks agree in all but the revisions that packages have now: those are all that the updates
/// differ in, and the versions shown with them all that the reports differ in.
pub open spec fn agree_but_for_revisions(walk: WalkView, other: WalkView) -> bool {
    &&& other.queue == walk.queue
    &&& other.seen == walk.seen
    &&& other.reached == walk.reached
    &&& other.aligned == walk.aligned
    &&& other.skipped == walk.skipped
    &&& other.candidates.len() == walk.candidates.len()
    &&& forall|i: int|
        #![trigger walk.candidates[i]]
        #![trigger other.candidates[i]]
        0 <= i < walk.candidates.len() ==> other.candidates[i] == (CandidateView {
            new_precise: other.candidates[i].new_precise,
            ..walk.candidates[i]
        })
    &&& other.reports.len() == walk.reports.len()
    &&& forall|i: int|
        #![trigger walk.reports[i]]
        #![trigger other.reports[i]]
        0 <= i < walk.reports.len() ==> other.reports[i] == (ReportView {
            shown: other.reports[i].shown,
            ..walk.reports[i]
        })
}

proof fn lemma_step_agrees(world: WorldView, other: WorldView, walk: WalkView, twin: WalkView)
    requires
        other == (WorldView { new_lock: other.new_lock, ..world }),
        agree_but_for_revisions(walk, twin),
        walk.queue.len() > 0,
    ensures
        agree_but_for_revisions(visit(world, walk), visit(other, twin)),
{
    let after = visit(world, walk);
    let twin_after = visit(other, twin);
    let id = walk.queue.last().0;
    assert(other.children(id) == world.children(id));
    assert forall|i: int|
        #![trigger after.candidates[i]]
        #![trigger twin_after.candidates[i]]
        0 <= i < after.candidates.len() implies twin_after.candidates[i] == (CandidateView {
        new_precise: twin_after.candidates[i].new_precise,
        ..after.candidates[i]
    }) by {
        if i < walk.candidates.len() {
            assert(after.candidates[i] == walk.candidates[i]);
            assert(twin_after.candidates[i] == twin.candidates[i]);
        }
    }
    assert forall|i: int|
        #![trigger after.reports[i]]
        #![trigger twin_after.reports[i]]
        0 <= i < after.reports.len() implies twin_after.reports[i] == (ReportView {
        shown: twin_after.reports[i].shown,
        ..after.reports[i]
    }) by {
        if i < walk.reports.len() {
            assert(after.reports[i] == walk.reports[i]);
            assert(twin_after.reports[i] == twin.reports[i]);
        }
    }
}

proof fn lemma_walks_agree(world: WorldView, other: WorldView, walk: WalkView, twin: WalkView)
    requires
        world.packages.dom().finite(),
        walk.reached.dom().finite(),
        other == (WorldView { new_lock: other.new_lock, ..world }),
        agree_but_for_revisions(walk, twin),
    ensures
        agree_but_for_revisions(finished(world, walk), finished(other, twin)),
    decreases
            unseen(world.packages, walk.seen).len(),
            total(walk.reached),
            walk.queue.len(),
{
    if walk.queue.len() > 0 {
        lemma_visit_progress(world, walk);
        lemma_step_agrees(world, other, walk, twin);
        lemma_walks_agree(world, other, visit(world, walk), visit(other, twin));
    }
}

/// The lock file that the project has now only tells which revisions are shown: with another one
/// a walk visits and finds the same, and decides the same on every package.
pub proof fn law_current_lock_only_shows_revisions(
    world: WorldView,
    other: WorldView,
    root_ids: Seq<Seq<char>>,
    aligned: Set<ResolvedKeyView>,
    skipped: Set<ResolvedKeyView>,
)
    requires
        keyed_by_id(world.packages),
        other == (WorldView { new_lock: other.new_lock, ..world }),
    ensures
        agree_but_for_revisions(
            finished(world, first_walk(world, root_ids, aligned, skipped)),
            finished(other, first_walk(other, root_ids, aligned, skipped)),
        ),
{
    lemma_same_direct(world, other, root_ids);
    lemma_walks_agree(
        world,
        other,
        first_walk(world, root_ids, aligned, skipped),
        first_walk(other, root_ids, aligned, skipped),
    );
}

proof fn lemma_same_direct(world: WorldView, other: WorldView, root_ids: Seq<Seq<char>>)
    requires
        other == (WorldView { new_lock: other.new_lock, ..world }),
    ensures
        direct_dependencies(other, root_ids) == direct_dependencies(world, root_ids),
    decreases root_ids.len(),
{
    if root_ids.len() > 0 {
        lemma_same_direct(world, other, root_ids.drop_last());
        assert(other.children(root_ids.last()) == world.children(root_ids.last()));
    }
}

/// A walk only adds to what it found.
proof fn lemma_finished_grows(world: WorldView, walk: WalkView)
    requires
        world.packages.dom().finite(),
        walk.reached.dom().finite(),
    ensures
        ({
            let end = finished(world, walk);
            &&& walk.aligned.subset_of(end.aligned)
            &&& walk.skipped.subset_of(end.skipped)
            &&& walk.candidates.len() <= end.candidates.len()
            &&& forall|i: int|
                0 <= i < walk.candidates.len() ==> walk.candidates[i] == #[trigger] end.candidates[i]
        }),
    decreases
            unseen(world.packages, walk.seen).len(),
            total(walk.reached),
            walk.queue.len(),
{
    if walk.queue.len() > 0 {
        lemma_visit_progress(world, walk);
        lemma_finished_grows(world, visit(world, walk));
        let end = finished(world, walk);
        let after = visit(world, walk);
        assert forall|i: int| 0 <= i < walk.candidates.len() implies walk.candidates[i]
            == #[trigger] end.candidates[i] by {
            assert(after.candidates[i] == end.candidates[i]);
        }
    }
}

/// The state of a walk as it is when the walk is made again with the sets at its end.
pub open spec fn again(walk: WalkView, end: WalkView) -> WalkView {
    WalkView { aligned: end.aligned, skipped: end.skipped, reports: Seq::empty(), ..walk }
}

proof fn lemma_step_again(
    world: WorldView,
    root_ids: Seq<Seq<char>>,
    aligned: Set<ResolvedKeyView>,
    skipped: Set<ResolvedKeyView>,
    walk: WalkView,
)
    requires
        keyed_by_id(world.packages),
        walk.queue.len() > 0,
        walk_invariant(world, root_ids, aligned, skipped, walk),
    ensures
        ({
            let end = finished(world, walk);
            visit(world, again(walk, end)) == again(visit(world, walk), end)
        }),
{
    let end = finished(world, walk);
    let after = visit(world, walk);
    let (id, distance) = walk.queue.last();
    lemma_finished_keeps_invariant(world, root_ids, aligned, skipped, walk);
    lemma_finished_grows(world, walk);
    lemma_finished_grows(world, after);
    assert(end == finished(world, after));
    if world.packages.contains_key(id) {
        let package = world.packages[id];
        let key = package.resolved_key();
        if !walk.seen.contains(key) && !world.too_deep(distance) {
            let decision = verdict(
                package,
                walk.aligned,
                walk.skipped,
                world.new_lock,
                world.old_lock,
            );
            if decision is Differs {
                let i = walk.candidates.len() as int;
                assert(after.candidates[i] == end.candidates[i]);
                assert(end.candidates[i].resolved_key == key);
                assert(!end.aligned.contains(key) && !end.skipped.contains(key));
            } else if decision is AlreadySkipped || decision is Unmatched {
                assert(after.skipped.contains(key));
                assert(end.skipped.contains(key));
                assert(!end.aligned.contains(key));
            } else if decision is Matched {
                assert(after.aligned.contains(key));
            }
        }
    }
    assert(visit(world, again(walk, end)) =~= again(after, end));
}

proof fn lemma_walk_again(
    world: WorldView,
    root_ids: Seq<Seq<char>>,
    aligned: Set<ResolvedKeyView>,
    skipped: Set<ResolvedKeyView>,
    walk: WalkView,
)
    requires
        keyed_by_id(world.packages),
        walk_invariant(world, root_ids, aligned, skipped, walk),
    ensures
        ({
            let end = finished(world, walk);
            finished(world, again(walk, end)) == again(end, end)
        }),
    decreases
            unseen(world.packages, walk.seen).len(),
            total(walk.reached),
            walk.queue.len(),
{
    if walk.queue.len() > 0 {
        lemma_visit_progress(world, walk);
        lemma_visit_keeps_invariant(world, root_ids, aligned, skipped, walk);
        lemma_step_again(world, root_ids, aligned, skipped, walk);
        lemma_walk_again(world, root_ids, aligned, skipped, visit(world, walk));
    }
}

/// A walk that is made again, over the same project and with the sets that the first one left,
/// finds the same updates, reports nothing, and leaves the sets as they are.
pub proof fn law_second_walk_finds_the_same(
    world: WorldView,
    root_ids: Seq<Seq<char>>,
    aligned: Set<ResolvedKeyView>,
    skipped: Set<ResolvedKeyView>,
)
    requires
        keyed_by_id(world.packages),
    ensures
        ({
            let first = finished(world, first_walk(world, root_ids, aligned, skipped));
            let second = finished(
                world,
                first_walk(world, root_ids, first.aligned, first.skipped),
            );
            &&& second.candidates == first.candidates
            &&& second.aligned == first.aligned
            &&& second.skipped == first.skipped
            &&& second.reports.len() == 0
        }),
{
    let start = first_walk(world, root_ids, aligned, skipped);
    let first = finished(world, start);
    lemma_first_walk(world, root_ids, aligned, skipped);
    lemma_walk_again(world, root_ids, aligned, skipped, start);
    assert(again(start, first) == first_walk(world, root_ids, first.aligned, first.skipped));
}

/// The table of a project's packages has every package under its own name.
pub proof fn law_project_table_is_keyed(packages: Seq<MetadataPackageView>)
    ensures
        keyed_by_id(packages_by_id(packages)),
    decreases packages.len(),
{
    if packages.len() > 0 {
        law_project_table_is_keyed(packages.drop_last());
    }
}

/// A pass has nothing to do exactly when its walk found no updates. The update that it asks Cargo
/// for is one of those that the walk found: it moves a package of the project, from the version
/// that the package has, to an entry of the old lock file on the same compatibility line.
pub proof fn law_pinned_update_is_right(
    metadata: MetadataView,
    resolve: ResolveView,
    new_lock: Seq<OldPackageView>,
    old_lock: Seq<OldPackageView>,
    args: Args,
    session: SessionView,
    ordered: Seq<CandidateView>,
)
    requires
        in_update_order(
            pass_walk(metadata, resolve, new_lock, old_lock, args, session).candidates,
            resolve,
            args,
            ordered,
        ),
    ensures
        ({
            let world = pass_world(metadata, resolve, new_lock, old_lock, args);
            let walk = pass_walk(metadata, resolve, new_lock, old_lock, args, session);
            &&& next_step(ordered, args.dry_run) is Finished <==> walk.candidates.len() == 0
            &&& next_step(ordered, args.dry_run) matches StepView::Pin(command, change) ==> {
                let c = ordered[0];
                &&& walk.candidates.contains(c)
                &&& right_update(world, c)
                &&& same_line(c.old_version, c.new_version)
                &&& command == update_command(
                    c.resolved_key.package,
                    c.resolved_key.version,
                    c.target_precise,
                )
                &&& command.package_spec == c.resolved_key.package.name + seq!['@'] + version_text(
                    c.new_version,
                )
                &&& command.precise == match c.old_precise {
                    Some(precise) => precise,
                    None => version_text(c.old_version),
                }
                &&& change == change_text(c)
            }
        }),
{
    let world = pass_world(metadata, resolve, new_lock, old_lock, args);
    let walk = pass_walk(metadata, resolve, new_lock, old_lock, args, session);
    law_project_table_is_keyed(metadata.packages);
    law_updates_are_right(world, roots(metadata), session.aligned, session.skipped);
    law_updates_stay_compatible(world, roots(metadata), session.aligned, session.skipped);
    if ordered.len() > 0 {
        assert(walk.candidates.contains(ordered[0]));
        let i = walk.candidates.index_of(ordered[0]);
        assert(walk.candidates[i] == ordered[0]);
    }
}

/// Whatever a walk finds aligned or passes over it reports, with the name, the version and the
/// revision of the package, and with the reason.
pub proof fn law_everything_found_is_reported(
    world: WorldView,
    root_ids: Seq<Seq<char>>,
    aligned: Set<ResolvedKeyView>,
    skipped: Set<ResolvedKeyView>,
)
    requires
        keyed_by_id(world.packages),
    ensures
        ({
            let walk = finished(world, first_walk(world, root_ids, aligned, skipped));
            &&& forall|key: ResolvedKeyView| #[trigger]
                walk.aligned.contains(key) && !aligned.contains(key) ==> reported(
                    world,
                    walk,
                    key,
                    true,
                )
            &&& forall|key: ResolvedKeyView| #[trigger]
                walk.skipped.contains(key) && !skipped.contains(key) ==> reported(
                    world,
                    walk,
                    key,
                    false,
                )
        }),
{
    let start = first_walk(world, root_ids, aligned, skipped);
    lemma_first_walk(world, root_ids, aligned, skipped);
    lemma_finished_keeps_invariant(world, root_ids, aligned, skipped, start);
}

proof fn lemma_reports_counted(world: WorldView, walk: WalkView)
    requires
        world.packages.dom().finite(),
        walk.reached.dom().finite(),
        walk.aligned.finite(),
        walk.skipped.finite(),
    ensures
        ({
            let end = finished(world, walk);
            &&& end.aligned.finite()
            &&& end.skipped.finite()
            &&& end.reports.len() - walk.reports.len() == (end.aligned.len() - walk.aligned.len())
                + (end.skipped.len() - walk.skipped.len())
        }),
    decreases
            unseen(world.packages, walk.seen).len(),
            total(walk.reached),
            walk.queue.len(),
{
    if walk.queue.len() > 0 {
        lemma_visit_progress(world, walk);
        lemma_reports_counted(world, visit(world, walk));
    }
}

/// Nothing is reported twice: there are as many reports as versions that were newly found aligned
/// or passed over.
pub proof fn law_nothing_is_reported_twice(
    world: WorldView,
    root_ids: Seq<Seq<char>>,
    aligned: Set<ResolvedKeyView>,
    skipped: Set<ResolvedKeyView>,
)
    requires
        keyed_by_id(world.packages),
        aligned.finite(),
        skipped.finite(),
    ensures
        ({
            let walk = finished(world, first_walk(world, root_ids, aligned, skipped));
            walk.reports.len() == (walk.aligned.len() - aligned.len()) + (walk.skipped.len()
                - skipped.len())
        }),
{
    lemma_reports_counted(world, first_walk(world, root_ids, aligned, skipped));
}

/// A pass goes on from what earlier ones found: it forgets nothing of it, and updates no version
/// that was found aligned or passed over. It goes by the options of the run and by the table of
/// the project's packages.
pub proof fn law_pass_goes_on_from_the_session(
    metadata: MetadataView,
    resolve: ResolveView,
    new_lock: Seq<OldPackageView>,
    old_lock: Seq<OldPackageView>,
    args: Args,
    session: SessionView,
)
    ensures
        ({
            let world = pass_world(metadata, resolve, new_lock, old_lock, args);
            let walk = pass_walk(metadata, resolve, new_lock, old_lock, args, session);
            &&& world.resolve == resolve
            &&& world.packages == packages_by_id(metadata.packages)
            &&& world.new_lock == new_lock
            &&& world.old_lock == old_lock
            &&& world.no_dev == args.no_dev
            &&& world.no_build == args.no_build
            &&& args.max_depth is None <==> world.max_depth is None
            &&& args.max_depth matches Some(depth) ==> world.max_depth == Some(depth as nat)
            &&& walk.queue.len() == 0
            &&& session.aligned.subset_of(walk.aligned)
            &&& session.skipped.subset_of(walk.skipped)
            &&& forall|i: int|
                0 <= i < walk.candidates.len() ==> {
                    let key = (#[trigger] walk.candidates[i]).resolved_key;
                    &&& !session.aligned.contains(key)
                    &&& !session.skipped.contains(key)
                }
        }),
{
    let world = pass_world(metadata, resolve, new_lock, old_lock, args);
    let start = first_walk(world, roots(metadata), session.aligned, session.skipped);
    law_project_table_is_keyed(metadata.packages);
    lemma_first_walk(world, roots(metadata), session.aligned, session.skipped);
    lemma_finished_keeps_invariant(
        world,
        roots(metadata),
        session.aligned,
        session.skipped,
        start,
    );
}

/// A pass decides on every direct dependency of the project: unless the limit to the depth is zero,
/// a package with a source that a root depends on by an edge that is followed ends up aligned,
/// passed over, or among the updates.
pub proof fn law_pass_decides_on_direct_dependencies(
    metadata: MetadataView,
    resolve: ResolveView,
    new_lock: Seq<OldPackageView>,
    old_lock: Seq<OldPackageView>,
    args: Args,
    session: SessionView,
    root: int,
    n: int,
    d: int,
    p: int,
)
    requires
        args.max_depth != Some(0usize),
        0 <= root < roots(metadata).len(),
        0 <= n < resolve.nodes.len(),
        resolve.nodes[n].id == roots(metadata)[root],
        forall|m: int| 0 <= m < n ==> (#[trigger] resolve.nodes[m]).id != roots(metadata)[root],
        0 <= d < resolve.nodes[n].deps.len(),
        followed(resolve.nodes[n].deps[d].dep_kinds, args.no_dev, args.no_build),
        0 <= p < metadata.packages.len(),
        metadata.packages[p].id == resolve.nodes[n].deps[d].pkg,
        forall|q: int|
            p < q < metadata.packages.len() ==> (#[trigger] metadata.packages[q]).id
                != metadata.packages[p].id,
        metadata.packages[p].source is Some,
    ensures
        ({
            let walk = pass_walk(metadata, resolve, new_lock, old_lock, args, session);
            let package = metadata.packages[p];
            let key = ResolvedKeyView {
                package: PackageKeyView {
                    name: package.name,
                    source: Some(normalized(package.source->0)),
                },
                version: package.version,
            };
            ||| walk.aligned.contains(key)
            ||| walk.skipped.contains(key)
            ||| exists|i: int|
                0 <= i < walk.candidates.len() && (#[trigger] walk.candidates[i]).resolved_key
                    == key
        }),
{
    let world = pass_world(metadata, resolve, new_lock, old_lock, args);
    let walk = pass_walk(metadata, resolve, new_lock, old_lock, args, session);
    let ids = roots(metadata);
    let id = metadata.packages[p].id;
    law_project_table_is_keyed(metadata.packages);
    law_table_holds_the_packages(metadata.packages, p);
    law_edges_of_a_package(resolve.nodes, ids[root], n);
    assert(edges(resolve.nodes, ids[root])[d].pkg == id);
    law_children_are_the_ends_of_edges(resolve, ids[root], args.no_dev, args.no_build, id);
    assert(world.children(ids[root]).contains(id));
    law_direct_dependencies(world, ids, id);
    law_depth_limit(world, 0);
    law_nothing_overlooked(world, ids, session.aligned, session.skipped);
    let key = world.packages[id].resolved_key();
    assert(direct_dependencies(world, ids).contains(id));
    assert(walk.seen.contains(key));
    let (other, distance) = choose|other: Seq<char>, distance: nat|
        {
            &&& #[trigger] reachable_at(world, ids, other, distance)
            &&& world.packages.contains_key(other)
            &&& world.packages[other].resolved_key() == key
            &&& decided(walk, world.packages[other])
        };
    assert(decided(walk, world.packages[other]));
}

} // verus!
