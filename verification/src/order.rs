//! The order in which packages are updated: parents before what they depend on.

use vstd::prelude::*;

use crate::candidate::{Candidate, CandidateView};
use crate::collect::{distinct, Candidates};
use crate::graph::{children, followed_children, texts, Args, Resolve, ResolveView};
use crate::text::{
    comes_before, lemma_text_asymmetric, lemma_text_total, lemma_text_transitive, text_before,
};

verus! {

/// The part of the dependency graph among the packages that are to be updated.
pub struct UpdateGraph {
    pub resolve: ResolveView,
    pub no_dev: bool,
    pub no_build: bool,
    pub ids: Set<Seq<char>>,
}

impl UpdateGraph {
    /// The packages that a package depends on by edges that are followed.
    pub open spec fn children(self, id: Seq<char>) -> Seq<Seq<char>> {
        children(self.resolve, id, self.no_dev, self.no_build)
    }

    /// `parent` and `child` are both to be updated, and `parent` depends on `child`.
    pub open spec fn depends(self, parent: Seq<char>, child: Seq<char>) -> bool {
        self.ids.contains(parent) && self.ids.contains(child) && self.children(parent).contains(
            child,
        )
    }

    /// A package is ready once every package that depends on it has its place.
    pub open spec fn ready(self, placed: Seq<Seq<char>>, id: Seq<char>) -> bool {
        &&& self.ids.contains(id)
        &&& !placed.contains(id)
        &&& forall|parent: Seq<char>| #[trigger]
            self.depends(parent, id) ==> placed.contains(parent)
    }

    /// A package is still without a place.
    pub open spec fn waiting(self, placed: Seq<Seq<char>>, id: Seq<char>) -> bool {
        self.ids.contains(id) && !placed.contains(id)
    }

    /// Nothing hinders these packages from getting their turn: with each of them the packages that
    /// depend on it are among them and have a smaller `rank`.
    pub open spec fn unhindered(
        self,
        free: Set<Seq<char>>,
        rank: spec_fn(Seq<char>) -> nat,
    ) -> bool {
        forall|parent: Seq<char>, child: Seq<char>| #[trigger]
            self.depends(parent, child) && free.contains(child) ==> free.contains(parent) && rank(
                parent,
            ) < rank(child)
    }

    /// Of the packages that are ready `id` has the first name.
    pub open spec fn first_ready(self, placed: Seq<Seq<char>>, id: Seq<char>) -> bool {
        &&& self.ready(placed, id)
        &&& forall|other: Seq<char>| #[trigger]
            self.ready(placed, other) && other != id ==> text_before(id, other)
    }

    /// The first `k` packages each were, in turn, the one with the first name of those that were
    /// ready; then none was ready any more, and the rest follows by name.
    pub open spec fn ordered_to(self, order: Seq<Seq<char>>, k: int) -> bool {
        &&& 0 <= k <= order.len()
        &&& forall|i: int| 0 <= i < k ==> self.first_ready(order.take(i), #[trigger] order[i])
        &&& forall|id: Seq<char>| !#[trigger] self.ready(order.take(k), id)
        &&& forall|i: int, j: int|
            #![trigger order[i], order[j]]
            k <= i < j < order.len() ==> text_before(order[i], order[j])
    }

    /// The order of the updates: every package once, parents first as far as they can be.
    pub open spec fn is_update_order(self, order: Seq<Seq<char>>) -> bool {
        &&& order.no_duplicates()
        &&& order.to_set() == self.ids
        &&& exists|k: int| self.ordered_to(order, k)
    }
}

/// The names of the packages that are to be updated.
pub open spec fn candidate_ids(candidates: Seq<CandidateView>) -> Seq<Seq<char>> {
    candidates.map_values(|c: CandidateView| c.package_id)
}

/// The dependency graph among these updates.
pub open spec fn update_graph(
    candidates: Seq<CandidateView>,
    resolve: ResolveView,
    args: Args,
) -> UpdateGraph {
    UpdateGraph {
        resolve,
        no_dev: args.no_dev,
        no_build: args.no_build,
        ids: candidate_ids(candidates).to_set(),
    }
}

/// `ordered` holds the updates, each once, in the order in which they are made.
pub open spec fn in_update_order(
    candidates: Seq<CandidateView>,
    resolve: ResolveView,
    args: Args,
    ordered: Seq<CandidateView>,
) -> bool {
    &&& ordered.len() == candidates.len()
    &&& forall|i: int| 0 <= i < ordered.len() ==> candidates.contains(#[trigger] ordered[i])
    &&& update_graph(candidates, resolve, args).is_update_order(candidate_ids(ordered))
}

/// The updates in the order in which they are made.
pub open spec fn ordered_views(ordered: Seq<&Candidate>) -> Seq<CandidateView> {
    ordered.map_values(|c: &Candidate| c@)
}

/// The order of the updates is determined by the graph: no other order meets its description,
/// in whatever order the updates were found.
pub proof fn law_update_order_unique(
    graph: UpdateGraph,
    order: Seq<Seq<char>>,
    other: Seq<Seq<char>>,
)
    requires
        graph.is_update_order(order),
        graph.is_update_order(other),
    ensures
        order == other,
{
    let k = choose|k: int| graph.ordered_to(order, k);
    let m = choose|m: int| graph.ordered_to(other, m);
    order.unique_seq_to_set();
    other.unique_seq_to_set();
    assert(order.len() == other.len());
    if k <= m {
        lemma_same_start(graph, order, k, other, m, k);
        lemma_same_turn(graph, order, k, other, m);
    } else {
        lemma_same_start(graph, other, m, order, k, m);
        lemma_same_turn(graph, other, m, order, k);
    }
    lemma_same_rest(graph, order, other, k, k);
    assert(order == other);
}

proof fn lemma_same_start(
    graph: UpdateGraph,
    order: Seq<Seq<char>>,
    k: int,
    other: Seq<Seq<char>>,
    m: int,
    n: int,
)
    requires
        graph.ordered_to(order, k),
        graph.ordered_to(other, m),
        order.len() == other.len(),
        0 <= n <= k,
        n <= m,
    ensures
        order.take(n) == other.take(n),
    decreases n,
{
    if n > 0 {
        lemma_same_start(graph, order, k, other, m, n - 1);
        let a = order[n - 1];
        let b = other[n - 1];
        assert(graph.first_ready(order.take(n - 1), a));
        assert(graph.first_ready(other.take(n - 1), b));
        if a != b {
            assert(graph.ready(order.take(n - 1), b));
            assert(graph.ready(other.take(n - 1), a));
            lemma_text_asymmetric(a, b);
        }
        assert(order.take(n) == order.take(n - 1).push(a));
        assert(other.take(n) == other.take(n - 1).push(b));
    }
}

proof fn lemma_same_turn(
    graph: UpdateGraph,
    order: Seq<Seq<char>>,
    k: int,
    other: Seq<Seq<char>>,
    m: int,
)
    requires
        graph.ordered_to(order, k),
        graph.ordered_to(other, m),
        k <= m,
        order.take(k) == other.take(k),
    ensures
        k == m,
{
    if k < m {
        assert(graph.first_ready(other.take(k), other[k]));
        assert(!graph.ready(order.take(k), other[k]));
    }
}

proof fn lemma_same_rest(
    graph: UpdateGraph,
    order: Seq<Seq<char>>,
    other: Seq<Seq<char>>,
    k: int,
    n: int,
)
    requires
        graph.ordered_to(order, k),
        graph.ordered_to(other, k),
        order.no_duplicates(),
        other.no_duplicates(),
        order.to_set() == other.to_set(),
        order.len() == other.len(),
        k <= n <= order.len(),
        order.take(n) == other.take(n),
    ensures
        order == other,
    decreases order.len() - n,
{
    if n == order.len() {
        assert(order.take(n) == order);
        assert(other.take(n) == other);
    } else {
        let a = order[n];
        let b = other[n];
        if a != b {
            assert(order.to_set().contains(a));
            assert(other.to_set().contains(b));
            assert(other.contains(a));
            assert(order.contains(b));
            let i = choose|i: int| 0 <= i < other.len() && other[i] == a;
            let j = choose|j: int| 0 <= j < order.len() && order[j] == b;
            if i < n {
                assert(order.take(n)[i] == other.take(n)[i]);
            }
            if j < n {
                assert(order.take(n)[j] == other.take(n)[j]);
            }
            assert(text_before(other[n], other[i]));
            assert(text_before(order[n], order[j]));
            lemma_text_asymmetric(a, b);
        }
        assert(order.take(n + 1) == order.take(n).push(a));
        assert(other.take(n + 1) == other.take(n).push(b));
        lemma_same_rest(graph, order, other, k, n + 1);
    }
}

/// The updates and the graph determine the order of the updates, in whatever order they were
/// found.
pub proof fn law_updates_ordered_one_way(
    candidates: Seq<CandidateView>,
    other_candidates: Seq<CandidateView>,
    resolve: ResolveView,
    args: Args,
    ordered: Seq<CandidateView>,
    other: Seq<CandidateView>,
)
    requires
        distinct(candidates),
        candidates.to_set() == other_candidates.to_set(),
        in_update_order(candidates, resolve, args, ordered),
        in_update_order(other_candidates, resolve, args, other),
    ensures
        ordered == other,
{
    assert(candidate_ids(candidates).to_set() =~= candidate_ids(other_candidates).to_set()) by {
        lemma_ids_follow(candidates, other_candidates);
        lemma_ids_follow(other_candidates, candidates);
    }
    let graph = update_graph(candidates, resolve, args);
    assert(graph == update_graph(other_candidates, resolve, args));
    law_update_order_unique(graph, candidate_ids(ordered), candidate_ids(other));
    assert(candidate_ids(ordered).len() == candidate_ids(other).len());
    assert forall|i: int| 0 <= i < ordered.len() implies ordered[i] == other[i] by {
        assert(candidate_ids(ordered)[i] == candidate_ids(other)[i]);
        assert(candidates.contains(ordered[i]));
        assert(other_candidates.to_set().contains(other[i]));
        assert(candidates.contains(other[i]));
        let a = candidates.index_of(ordered[i]);
        let b = candidates.index_of(other[i]);
        assert(candidates[a].package_id == candidates[b].package_id);
    }
    assert(ordered == other);
}

proof fn lemma_ids_follow(candidates: Seq<CandidateView>, other: Seq<CandidateView>)
    requires
        candidates.to_set() == other.to_set(),
    ensures
        forall|id: Seq<char>|
            candidate_ids(candidates).contains(id) ==> #[trigger] candidate_ids(other).contains(id),
{
    assert forall|id: Seq<char>|
        candidate_ids(candidates).contains(id) implies #[trigger] candidate_ids(other).contains(
        id,
    ) by {
        let i = candidate_ids(candidates).index_of(id);
        assert(candidates.to_set().contains(candidates[i]));
        assert(other.contains(candidates[i]));
        let j = other.index_of(candidates[i]);
        assert(candidate_ids(other)[j] == id);
    }
}

/// Every package comes before the packages it depends on, unless it waits for a circle. `free` is
/// any set of updates that holds with a package all packages that depend on it, where `rank` grows
/// along the dependencies: the whole of the updates where their dependencies form no circle.
pub proof fn law_parents_first(
    graph: UpdateGraph,
    order: Seq<Seq<char>>,
    free: Set<Seq<char>>,
    rank: spec_fn(Seq<char>) -> nat,
)
    requires
        graph.is_update_order(order),
        forall|parent: Seq<char>, child: Seq<char>|
            graph.ids.contains(parent) && graph.ids.contains(child) && free.contains(child)
                && #[trigger] children(
                graph.resolve,
                parent,
                graph.no_dev,
                graph.no_build,
            ).contains(child) ==> free.contains(parent) && rank(parent) < rank(child),
    ensures
        forall|i: int, j: int|
            0 <= i < order.len() && 0 <= j < order.len() && free.contains(order[i])
                && #[trigger] children(
                graph.resolve,
                order[i],
                graph.no_dev,
                graph.no_build,
            ).contains(order[j]) ==> i < j,
{
    assert(graph.unhindered(free, rank)) by {
        assert forall|parent: Seq<char>, child: Seq<char>| #[trigger]
            graph.depends(parent, child) && free.contains(child) implies free.contains(parent)
            && rank(parent) < rank(child) by {
            assert(children(
                graph.resolve,
                parent,
                graph.no_dev,
                graph.no_build,
            ).contains(child));
        }
    }
    let k = choose|k: int| graph.ordered_to(order, k);
    let placed = order.take(k);
    assert forall|i: int, j: int|
        0 <= i < order.len() && 0 <= j < order.len() && free.contains(order[i])
            && #[trigger] children(
            graph.resolve,
            order[i],
            graph.no_dev,
            graph.no_build,
        ).contains(order[j]) implies i < j by {
        assert(order.to_set().contains(order[i]));
        assert(order.to_set().contains(order[j]));
        assert(graph.depends(order[i], order[j]));
        if i >= k {
            assert(!placed.contains(order[i])) by {
                if placed.contains(order[i]) {
                    let c = placed.index_of(order[i]);
                    assert(order[c] == order[i]);
                }
            }
            lemma_some_ready(graph, placed, free, rank, order[i]);
        }
        if j < k {
            assert(graph.first_ready(order.take(j), order[j]));
            let c = order.take(j).index_of(order[i]);
            assert(order[c] == order[i]);
        }
    }
}

/// Names decide where the dependencies leave a choice: once every package that depends on it has
/// its place, an update is made after no others but those with earlier names.
pub proof fn law_names_decide_among_the_rest(
    graph: UpdateGraph,
    order: Seq<Seq<char>>,
    i: int,
    j: int,
)
    requires
        graph.is_update_order(order),
        0 <= i < j < order.len(),
        forall|parent: Seq<char>|
            graph.ids.contains(parent) && #[trigger] children(
                graph.resolve,
                parent,
                graph.no_dev,
                graph.no_build,
            ).contains(order[j]) ==> order.take(i).contains(parent),
    ensures
        text_before(order[i], order[j]),
{
    let k = choose|k: int| graph.ordered_to(order, k);
    if i < k {
        assert(graph.first_ready(order.take(i), order[i]));
        assert(graph.ready(order.take(i), order[j])) by {
            assert(order.to_set().contains(order[j]));
            if order.take(i).contains(order[j]) {
                let c = order.take(i).index_of(order[j]);
                assert(order[c] == order[j]);
            }
            assert forall|parent: Seq<char>| #[trigger]
                graph.depends(parent, order[j]) implies order.take(i).contains(parent) by {
                assert(children(
                    graph.resolve,
                    parent,
                    graph.no_dev,
                    graph.no_build,
                ).contains(order[j]));
            }
        }
    }
}

/// Updates that wait for a circle are made last, by name. `stuck` holds with an update some other
/// one that it waits for; the rest wait for nothing in it, and their dependencies form no circle.
pub proof fn law_circles_come_last_by_name(
    graph: UpdateGraph,
    order: Seq<Seq<char>>,
    stuck: Set<Seq<char>>,
    rank: spec_fn(Seq<char>) -> nat,
)
    requires
        graph.is_update_order(order),
        forall|id: Seq<char>| #[trigger]
            stuck.contains(id) ==> exists|parent: Seq<char>|
                stuck.contains(parent) && graph.ids.contains(parent) && #[trigger] children(
                    graph.resolve,
                    parent,
                    graph.no_dev,
                    graph.no_build,
                ).contains(id),
        forall|parent: Seq<char>, child: Seq<char>|
            graph.ids.contains(parent) && graph.ids.contains(child) && !stuck.contains(child)
                && #[trigger] children(
                graph.resolve,
                parent,
                graph.no_dev,
                graph.no_build,
            ).contains(child) ==> !stuck.contains(parent) && rank(parent) < rank(child),
    ensures
        forall|i: int, j: int|
            #![trigger order[i], order[j]]
            0 <= i < j < order.len() && stuck.contains(order[i]) ==> stuck.contains(order[j])
                && text_before(order[i], order[j]),
{
    let k = choose|k: int| graph.ordered_to(order, k);
    let free = stuck.complement();
    let placed = order.take(k);
    assert(graph.unhindered(free, rank)) by {
        assert forall|parent: Seq<char>, child: Seq<char>| #[trigger]
            graph.depends(parent, child) && free.contains(child) implies free.contains(parent)
            && rank(parent) < rank(child) by {
            assert(children(
                graph.resolve,
                parent,
                graph.no_dev,
                graph.no_build,
            ).contains(child));
        }
    }
    assert forall|i: int, j: int|
        #![trigger order[i], order[j]]
        0 <= i < j < order.len() && stuck.contains(order[i]) implies stuck.contains(order[j])
        && text_before(order[i], order[j]) by {
        if i < k {
            lemma_stuck_has_no_turn(graph, order, k, stuck, i);
        }
        if !stuck.contains(order[j]) {
            assert(!placed.contains(order[j])) by {
                if placed.contains(order[j]) {
                    let c = placed.index_of(order[j]);
                    assert(order[c] == order[j]);
                }
            }
            assert(order.to_set().contains(order[j]));
            lemma_some_ready(graph, placed, free, rank, order[j]);
        }
    }
}

proof fn lemma_stuck_has_no_turn(
    graph: UpdateGraph,
    order: Seq<Seq<char>>,
    k: int,
    stuck: Set<Seq<char>>,
    i: int,
)
    requires
        graph.ordered_to(order, k),
        order.to_set() == graph.ids,
        0 <= i < k,
        forall|id: Seq<char>| #[trigger]
            stuck.contains(id) ==> exists|parent: Seq<char>|
                stuck.contains(parent) && graph.ids.contains(parent) && #[trigger] children(
                    graph.resolve,
                    parent,
                    graph.no_dev,
                    graph.no_build,
                ).contains(id),
    ensures
        !stuck.contains(order[i]),
    decreases i,
{
    if stuck.contains(order[i]) {
        let parent = choose|parent: Seq<char>|
            stuck.contains(parent) && graph.ids.contains(parent) && #[trigger] children(
                graph.resolve,
                parent,
                graph.no_dev,
                graph.no_build,
            ).contains(order[i]);
        assert(order.to_set().contains(order[i]));
        assert(graph.depends(parent, order[i]));
        assert(graph.first_ready(order.take(i), order[i]));
        let c = order.take(i).index_of(parent);
        assert(order[c] == parent);
        lemma_stuck_has_no_turn(graph, order, k, stuck, c);
    }
}

/// What is said of ordered updates is said of each of them, in their order.
pub proof fn law_ordered_views(ordered: Seq<&Candidate>, candidates: Seq<CandidateView>)
    ensures
        ordered_views(ordered).len() == ordered.len(),
        forall|i: int| 0 <= i < ordered.len() ==> #[trigger] ordered_views(ordered)[i] == ordered[i]@,
        candidate_ids(candidates).len() == candidates.len(),
        forall|i: int|
            0 <= i < candidates.len() ==> #[trigger] candidate_ids(candidates)[i]
                == candidates[i].package_id,
{
}

/// Every update that was found has its place in the order, once, and nothing else has. The order
/// goes by the edges that the options leave.
pub proof fn law_every_update_ordered_once(
    candidates: Seq<CandidateView>,
    resolve: ResolveView,
    args: Args,
    ordered: Seq<CandidateView>,
)
    requires
        distinct(candidates),
        in_update_order(candidates, resolve, args, ordered),
    ensures
        forall|c: CandidateView| candidates.contains(c) <==> #[trigger] ordered.contains(c),
        ordered.no_duplicates(),
        ordered.len() == candidates.len(),
        ({
            let graph = update_graph(candidates, resolve, args);
            &&& graph.resolve == resolve
            &&& graph.no_dev == args.no_dev
            &&& graph.no_build == args.no_build
            &&& forall|id: Seq<char>|
                graph.ids.contains(id) <==> exists|i: int|
                    0 <= i < candidates.len() && (#[trigger] candidates[i]).package_id == id
            &&& graph.is_update_order(ordered.map_values(|c: CandidateView| c.package_id))
        }),
{
    let graph = update_graph(candidates, resolve, args);
    let ids = candidate_ids(candidates);
    let order = candidate_ids(ordered);
    assert(order == ordered.map_values(|c: CandidateView| c.package_id));
    assert forall|c: CandidateView| candidates.contains(c) <==> #[trigger] ordered.contains(c) by {
        if ordered.contains(c) {
            let i = ordered.index_of(c);
            assert(candidates.contains(ordered[i]));
        }
        if candidates.contains(c) {
            let a = candidates.index_of(c);
            assert(ids[a] == c.package_id);
            assert(graph.ids.contains(c.package_id));
            assert(order.to_set().contains(c.package_id));
            let i = order.index_of(c.package_id);
            assert(candidates.contains(ordered[i]));
            let b = candidates.index_of(ordered[i]);
            assert(candidates[a].package_id == candidates[b].package_id);
            assert(ordered[i] == c);
        }
    }
    assert(ordered.no_duplicates()) by {
        assert forall|i: int, j: int|
            0 <= i < ordered.len() && 0 <= j < ordered.len() && i != j implies ordered[i]
            != ordered[j] by {
            assert(order[i] != order[j]);
        }
    }
    assert forall|id: Seq<char>|
        graph.ids.contains(id) <==> exists|i: int|
            0 <= i < candidates.len() && (#[trigger] candidates[i]).package_id == id by {
        if graph.ids.contains(id) {
            let i = ids.index_of(id);
            assert(candidates[i].package_id == id);
        }
        if exists|i: int| 0 <= i < candidates.len() && (#[trigger] candidates[i]).package_id == id {
            let i = choose|i: int|
                0 <= i < candidates.len() && (#[trigger] candidates[i]).package_id == id;
            assert(ids[i] == id);
        }
    }
}

proof fn lemma_some_ready(
    graph: UpdateGraph,
    placed: Seq<Seq<char>>,
    free: Set<Seq<char>>,
    rank: spec_fn(Seq<char>) -> nat,
    id: Seq<char>,
)
    requires
        graph.waiting(placed, id),
        free.contains(id),
        graph.unhindered(free, rank),
    ensures
        exists|other: Seq<char>| #[trigger] graph.ready(placed, other),
    decreases rank(id),
{
    if !graph.ready(placed, id) {
        let parent = choose|parent: Seq<char>| #[trigger]
            graph.depends(parent, id) && !placed.contains(parent);
        assert(graph.depends(parent, id));
        lemma_some_ready(graph, placed, free, rank, parent);
    }
}

/// Whether a name occurs in a list.
fn listed(list: &Vec<String>, id: &String) -> (r: bool)
    ensures
        r == texts(list@).contains(id@),
{
    let ghost all = texts(list@);
    let mut i: usize = 0;
    while i < list.len()
        invariant
            all == texts(list@),
            i <= list@.len(),
            forall|j: int| 0 <= j < i ==> #[trigger] all[j] != id@,
        decreases list@.len() - i,
    {
        if list[i] == *id {
            assert(all[i as int] == id@);
            return true;
        }
        i = i + 1;
    }
    false
}

/// The list holds the places of the packages that depend on the update at a place.
spec fn parents_described(
    graph: UpdateGraph,
    ids: Seq<Seq<char>>,
    x: int,
    parents: Vec<usize>,
) -> bool {
    &&& forall|i: int|
        0 <= i < parents@.len() ==> (#[trigger] parents@[i]) < ids.len() && graph.depends(
            ids[parents@[i] as int],
            ids[x],
        )
    &&& forall|p: int|
        0 <= p < ids.len() && #[trigger] graph.depends(ids[p], ids[x]) ==> parents@.contains(
            p as usize,
        )
}

fn find_parents(
    candidates: &Candidates,
    child_lists: &Vec<Vec<String>>,
    x: usize,
    Ghost(graph): Ghost<UpdateGraph>,
) -> (r: Vec<usize>)
    requires
        x < candidates@.len(),
        child_lists@.len() == candidates@.len(),
        graph.ids == candidate_ids(candidates@).to_set(),
        forall|p: int|
            0 <= p < candidates@.len() ==> texts((#[trigger] child_lists@[p])@) == graph.children(
                candidates@[p].package_id,
            ),
    ensures
        parents_described(graph, candidate_ids(candidates@), x as int, r),
{
    let ghost ids = candidate_ids(candidates@);
    let child = candidates.get(x);
    let mut list: Vec<usize> = Vec::new();
    let mut p: usize = 0;
    proof {
        assert(ids.contains(ids[x as int]));
    }
    while p < child_lists.len()
        invariant
            p <= child_lists@.len(),
            x < candidates@.len(),
            child@ == candidates@[x as int],
            ids == candidate_ids(candidates@),
            graph.ids == ids.to_set(),
            child_lists@.len() == candidates@.len(),
            ids.contains(ids[x as int]),
            forall|p: int|
                0 <= p < candidates@.len() ==> texts((#[trigger] child_lists@[p])@)
                    == graph.children(candidates@[p].package_id),
            forall|i: int|
                0 <= i < list@.len() ==> (#[trigger] list@[i]) < ids.len() && graph.depends(
                    ids[list@[i] as int],
                    ids[x as int],
                ),
            forall|q: int|
                0 <= q < p && #[trigger] graph.depends(ids[q], ids[x as int])
                    ==> list@.contains(q as usize),
        decreases child_lists@.len() - p,
    {
        assert(ids.contains(ids[p as int]));
        let ghost before = list@;
        if listed(&child_lists[p], &child.package_id) {
            list.push(p);
            proof {
                assert(list@[before.len() as int] == p);
                assert forall|q: int|
                    0 <= q < p + 1 && #[trigger] graph.depends(
                        ids[q],
                        ids[x as int],
                    ) implies list@.contains(q as usize) by {
                    if q < p {
                        let c = before.index_of(q as usize);
                        assert(list@[c] == q as usize);
                    }
                }
            }
        } else {
            assert(!graph.depends(ids[p as int], ids[x as int]));
        }
        p = p + 1;
    }
    list
}

/// The names of the updates at these places.
spec fn ids_at(ids: Seq<Seq<char>>, places: Seq<usize>) -> Seq<Seq<char>> {
    places.map_values(|i: usize| ids[i as int])
}

/// The places that are taken: `flags` marks those in the list, which holds each of them once.
spec fn taken(flags: Seq<bool>, places: Seq<usize>) -> bool {
    &&& flags.len() <= usize::MAX
    &&& places.no_duplicates()
    &&& forall|i: int| 0 <= i < places.len() ==> (#[trigger] places[i]) < flags.len()
    &&& forall|x: int|
        0 <= x < flags.len() ==> (#[trigger] flags[x] <==> places.contains(x as usize))
}

/// Whether the parents of an update all have their places.
fn all_placed(parents: &Vec<usize>, placed: &Vec<bool>) -> (r: bool)
    requires
        forall|i: int| 0 <= i < parents@.len() ==> (#[trigger] parents@[i]) < placed@.len(),
    ensures
        r == forall|i: int|
            0 <= i < parents@.len() ==> placed@[(#[trigger] parents@[i]) as int],
{
    let mut i: usize = 0;
    while i < parents.len()
        invariant
            i <= parents@.len(),
            forall|j: int| 0 <= j < parents@.len() ==> (#[trigger] parents@[j]) < placed@.len(),
            forall|j: int| 0 <= j < i ==> placed@[(#[trigger] parents@[j]) as int],
        decreases parents@.len() - i,
    {
        if !placed[parents[i]] {
            assert(!placed@[parents@[i as int] as int]);
            return false;
        }
        i = i + 1;
    }
    true
}

/// The marked update with the first name.
fn first_of(candidates: &Candidates, flags: &Vec<bool>) -> (r: Option<usize>)
    requires
        flags@.len() == candidates@.len(),
        distinct(candidates@),
    ensures
        match r {
            Some(m) => m < flags@.len() && flags@[m as int] && forall|x: int|
                0 <= x < flags@.len() && #[trigger] flags@[x] && x != m ==> text_before(
                    candidates@[m as int].package_id,
                    candidates@[x].package_id,
                ),
            None => forall|x: int| 0 <= x < flags@.len() ==> !#[trigger] flags@[x],
        },
{
    let mut first: Option<usize> = None;
    let mut x: usize = 0;
    while x < flags.len()
        invariant
            x <= flags@.len(),
            flags@.len() == candidates@.len(),
            distinct(candidates@),
            match first {
                Some(m) => m < x && flags@[m as int] && forall|y: int|
                    0 <= y < x && #[trigger] flags@[y] && y != m ==> text_before(
                        candidates@[m as int].package_id,
                        candidates@[y].package_id,
                    ),
                None => forall|y: int| 0 <= y < x ==> !#[trigger] flags@[y],
            },
        decreases flags@.len() - x,
    {
        if flags[x] {
            match first {
                Some(m) => {
                    let candidate = candidates.get(x);
                    let best = candidates.get(m);
                    let ghost new_id = candidates@[x as int].package_id;
                    let ghost old_id = candidates@[m as int].package_id;
                    if comes_before(candidate.package_id.as_str(), best.package_id.as_str()) {
                        proof {
                            assert forall|y: int|
                                0 <= y < x && #[trigger] flags@[y] implies text_before(
                                new_id,
                                candidates@[y].package_id,
                            ) by {
                                if y != m {
                                    lemma_text_transitive(
                                        new_id,
                                        old_id,
                                        candidates@[y].package_id,
                                    );
                                }
                            }
                        }
                        first = Some(x);
                    } else {
                        proof {
                            lemma_text_total(old_id, new_id);
                        }
                    }
                },
                None => {
                    first = Some(x);
                },
            }
        }
        x = x + 1;
    }
    first
}

/// Whether a place is taken says whether the update there has its place in the order.
proof fn lemma_taken(ids: Seq<Seq<char>>, flags: Seq<bool>, places: Seq<usize>, x: int)
    requires
        ids.no_duplicates(),
        ids.len() == flags.len(),
        taken(flags, places),
        0 <= x < ids.len(),
    ensures
        flags[x] == ids_at(ids, places).contains(ids[x]),
{
    let order = ids_at(ids, places);
    if flags[x] {
        let c = places.index_of(x as usize);
        assert(order[c] == ids[x]);
    }
    if order.contains(ids[x]) {
        let c = order.index_of(ids[x]);
        assert(ids[places[c] as int] == ids[x]);
        assert(places[c] == x as usize);
        assert(places.contains(x as usize));
    }
}

/// The flags of the updates that are ready.
fn ready_flags(
    candidates: &Candidates,
    parents: &Vec<Vec<usize>>,
    placed: &Vec<bool>,
    Ghost(graph): Ghost<UpdateGraph>,
    Ghost(places): Ghost<Seq<usize>>,
) -> (r: Vec<bool>)
    requires
        parents@.len() == candidates@.len(),
        placed@.len() == candidates@.len(),
        candidate_ids(candidates@).no_duplicates(),
        graph.ids == candidate_ids(candidates@).to_set(),
        taken(placed@, places),
        forall|x: int|
            0 <= x < candidates@.len() ==> parents_described(
                graph,
                candidate_ids(candidates@),
                x,
                #[trigger] parents@[x],
            ),
    ensures
        r@.len() == candidates@.len(),
        forall|x: int|
            0 <= x < candidates@.len() ==> #[trigger] r@[x] == graph.ready(
                ids_at(candidate_ids(candidates@), places),
                candidate_ids(candidates@)[x],
            ),
{
    let ghost ids = candidate_ids(candidates@);
    let ghost order = ids_at(ids, places);
    let mut flags: Vec<bool> = Vec::new();
    let mut x: usize = 0;
    while x < placed.len()
        invariant
            x <= placed@.len(),
            ids == candidate_ids(candidates@),
            order == ids_at(ids, places),
            parents@.len() == candidates@.len(),
            placed@.len() == candidates@.len(),
            ids.no_duplicates(),
            graph.ids == ids.to_set(),
            taken(placed@, places),
            flags@.len() == x,
            forall|x: int|
                0 <= x < candidates@.len() ==> parents_described(
                    graph,
                    ids,
                    x,
                    #[trigger] parents@[x],
                ),
            forall|y: int| 0 <= y < x ==> #[trigger] flags@[y] == graph.ready(order, ids[y]),
        decreases placed@.len() - x,
    {
        proof {
            assert(parents_described(graph, ids, x as int, parents@[x as int]));
            lemma_taken(ids, placed@, places, x as int);
            assert(ids.contains(ids[x as int]));
        }
        let free = all_placed(&parents[x], placed);
        proof {
            let id = ids[x as int];
            let list = parents@[x as int]@;
            if free {
                assert forall|parent: Seq<char>| #[trigger]
                    graph.depends(parent, id) implies order.contains(parent) by {
                    let p = ids.index_of(parent);
                    assert(ids[p] == parent);
                    assert(graph.depends(ids[p], ids[x as int]));
                    let c = list.index_of(p as usize);
                    assert(placed@[list[c] as int]);
                    lemma_taken(ids, placed@, places, p);
                }
            } else {
                let c = choose|c: int| 0 <= c < list.len() && !placed@[#[trigger] list[c] as int];
                lemma_taken(ids, placed@, places, list[c] as int);
                assert(graph.depends(ids[list[c] as int], id));
                assert(!graph.ready(order, id));
            }
        }
        flags.push(!placed[x] && free);
        x = x + 1;
    }
    flags
}

/// Puts the update at a place at the end of the order.
fn place(placed: &mut Vec<bool>, places: &mut Vec<usize>, x: usize)
    requires
        x < old(placed)@.len(),
        !old(placed)@[x as int],
        taken(old(placed)@, old(places)@),
    ensures
        final(placed)@ == old(placed)@.update(x as int, true),
        final(places)@ == old(places)@.push(x),
        taken(final(placed)@, final(places)@),
{
    let ghost before = places@;
    placed.set(x, true);
    places.push(x);
    proof {
        assert(!before.contains(x));
        assert forall|y: int| 0 <= y < placed@.len() implies (#[trigger] placed@[y]
            <==> places@.contains(y as usize)) by {
            if before.contains(y as usize) {
                let c = before.index_of(y as usize);
                assert(places@[c] == y as usize);
            }
            if y == x {
                assert(places@[before.len() as int] == x);
            } else if places@.contains(y as usize) {
                let c = places@.index_of(y as usize);
                assert(before[c] == y as usize);
            }
        }
    }
}

/// No more places are taken than there are.
proof fn lemma_places_bounded(flags: Seq<bool>, places: Seq<usize>)
    requires
        taken(flags, places),
    ensures
        places.len() <= flags.len(),
        places.len() == flags.len() ==> forall|x: int| 0 <= x < flags.len() ==> #[trigger] flags[x],
{
    let numbers = places.map_values(|p: usize| p as int);
    assert(numbers.no_duplicates());
    numbers.unique_seq_to_set();
    vstd::seq_lib::seq_to_set_is_finite(numbers);
    let range = vstd::set_lib::set_int_range(0, flags.len() as int);
    vstd::set_lib::lemma_int_range(0, flags.len() as int);
    assert(numbers.to_set().subset_of(range)) by {
        assert forall|n: int| numbers.to_set().contains(n) implies range.contains(n) by {
            let c = numbers.index_of(n);
            assert(places[c] < flags.len());
        }
    }
    vstd::set_lib::lemma_len_subset(numbers.to_set(), range);
    if places.len() == flags.len() {
        assert forall|x: int| 0 <= x < flags.len() implies #[trigger] flags[x] by {
            if !numbers.to_set().contains(x) {
                assert(numbers.to_set().subset_of(range.remove(x)));
                vstd::set_lib::lemma_len_subset(numbers.to_set(), range.remove(x));
            }
            let c = numbers.index_of(x);
            assert(places[c] == x as usize);
            assert(places.contains(x as usize));
        }
    }
}

/// The updates in the order in which they are made: parents before what they depend on, and by
/// name where that leaves a choice. Updates that wait for each other come last, by name.
pub fn order_candidates<'a>(
    candidates: &'a Candidates,
    resolve: &Resolve,
    args: &Args,
) -> (r: Vec<&'a Candidate>)
    ensures
        in_update_order(candidates@, resolve@, *args, ordered_views(r@)),
{
    let ghost graph = update_graph(candidates@, resolve@, *args);
    let ghost ids = candidate_ids(candidates@);
    let count = candidates.len();
    assert(ids.no_duplicates()) by {
        assert forall|i: int, j: int|
            0 <= i < ids.len() && 0 <= j < ids.len() && i != j implies ids[i] != ids[j] by {
            let first = candidates@[i];
            let second = candidates@[j];
        }
    }
    let mut child_lists: Vec<Vec<String>> = Vec::new();
    let mut placed: Vec<bool> = Vec::new();
    let mut x: usize = 0;
    while x < count
        invariant
            x <= count,
            count == candidates@.len(),
            graph == update_graph(candidates@, resolve@, *args),
            child_lists@.len() == x,
            placed@.len() == x,
            forall|y: int| 0 <= y < x ==> !#[trigger] placed@[y],
            forall|y: int|
                0 <= y < x ==> texts((#[trigger] child_lists@[y])@) == graph.children(
                    candidates@[y].package_id,
                ),
        decreases count - x,
    {
        child_lists.push(followed_children(resolve, &candidates.get(x).package_id, args));
        placed.push(false);
        x = x + 1;
    }
    let mut parents: Vec<Vec<usize>> = Vec::new();
    x = 0;
    while x < count
        invariant
            x <= count,
            count == candidates@.len(),
            ids == candidate_ids(candidates@),
            graph == update_graph(candidates@, resolve@, *args),
            child_lists@.len() == count,
            parents@.len() == x,
            forall|y: int|
                0 <= y < count ==> texts((#[trigger] child_lists@[y])@) == graph.children(
                    candidates@[y].package_id,
                ),
            forall|y: int|
                0 <= y < x ==> parents_described(graph, ids, y, #[trigger] parents@[y]),
        decreases count - x,
    {
        let found = find_parents(candidates, &child_lists, x, Ghost(graph));
        parents.push(found);
        x = x + 1;
    }
    let mut places: Vec<usize> = Vec::new();
    let mut more = true;
    while more
        invariant
            count == candidates@.len(),
            distinct(candidates@),
            ids == candidate_ids(candidates@),
            ids.no_duplicates(),
            graph == update_graph(candidates@, resolve@, *args),
            parents@.len() == count,
            placed@.len() == count,
            forall|y: int|
                0 <= y < count ==> parents_described(graph, ids, y, #[trigger] parents@[y]),
            taken(placed@, places@),
            forall|i: int|
                0 <= i < places@.len() ==> graph.first_ready(
                    ids_at(ids, places@).take(i),
                    #[trigger] ids_at(ids, places@)[i],
                ),
            !more ==> forall|id: Seq<char>| !#[trigger] graph.ready(ids_at(ids, places@), id),
        decreases count - places@.len(), (if more { 1int } else { 0int }),
    {
        let ghost order = ids_at(ids, places@);
        let flags = ready_flags(candidates, &parents, &placed, Ghost(graph), Ghost(places@));
        match first_of(candidates, &flags) {
            Some(m) => {
                proof {
                    assert(graph.ready(order, ids[m as int]));
                    lemma_taken(ids, placed@, places@, m as int);
                    assert(graph.first_ready(order, ids[m as int])) by {
                        assert forall|other: Seq<char>| #[trigger]
                            graph.ready(order, other) && other != ids[m as int] implies text_before(
                            ids[m as int],
                            other,
                        ) by {
                            let y = ids.index_of(other);
                            assert(ids[y] == other);
                            assert(flags@[y]);
                        }
                    }
                }
                place(&mut placed, &mut places, m);
                proof {
                    let after = ids_at(ids, places@);
                    assert(after == order.push(ids[m as int]));
                    assert forall|i: int| 0 <= i < places@.len() implies graph.first_ready(
                        after.take(i),
                        #[trigger] after[i],
                    ) by {
                        if i < order.len() {
                            assert(after.take(i) == order.take(i));
                            assert(after[i] == order[i]);
                        } else {
                            assert(after.take(i) == order);
                        }
                    }
                    lemma_places_bounded(placed@, places@);
                }
            },
            None => {
                proof {
                    assert forall|id: Seq<char>| !#[trigger] graph.ready(order, id) by {
                        if graph.ready(order, id) {
                            let y = ids.index_of(id);
                            assert(ids[y] == id);
                            assert(flags@[y]);
                        }
                    }
                }
                more = false;
            },
        }
    }
    let ghost turned = places@.len() as int;
    let ghost by_turn = ids_at(ids, places@);
    more = true;
    while more
        invariant
            count == candidates@.len(),
            distinct(candidates@),
            ids == candidate_ids(candidates@),
            ids.no_duplicates(),
            placed@.len() == count,
            taken(placed@, places@),
            0 <= turned <= places@.len(),
            ids_at(ids, places@).take(turned) == by_turn,
            forall|i: int, j: int|
                #![trigger ids_at(ids, places@)[i], ids_at(ids, places@)[j]]
                turned <= i < j < places@.len() ==> text_before(
                    ids_at(ids, places@)[i],
                    ids_at(ids, places@)[j],
                ),
            forall|i: int, y: int|
                #![trigger ids_at(ids, places@)[i], placed@[y]]
                turned <= i < places@.len() && 0 <= y < count && !placed@[y] ==> text_before(
                    ids_at(ids, places@)[i],
                    ids[y],
                ),
            !more ==> forall|y: int| 0 <= y < count ==> #[trigger] placed@[y],
        decreases count - places@.len(), (if more { 1int } else { 0int }),
    {
        let ghost order = ids_at(ids, places@);
        let flags = waiting_flags(&placed);
        match first_of(candidates, &flags) {
            Some(m) => {
                let ghost placed_before = placed@;
                place(&mut placed, &mut places, m);
                proof {
                    let after = ids_at(ids, places@);
                    assert(after == order.push(ids[m as int]));
                    assert(after.take(turned) == order.take(turned));
                    lemma_places_bounded(placed@, places@);
                    assert forall|i: int, y: int|
                        #![trigger after[i], placed@[y]]
                        turned <= i < places@.len() && 0 <= y < count
                            && !placed@[y] implies text_before(after[i], ids[y]) by {
                        assert(!placed_before[y]);
                        assert(flags@[y]);
                        if i < order.len() {
                            assert(after[i] == order[i]);
                        }
                    }
                    assert forall|i: int, j: int|
                        #![trigger after[i], after[j]]
                        turned <= i < j < places@.len() implies text_before(after[i], after[j]) by {
                        assert(after[i] == order[i]);
                        if j < order.len() {
                            assert(after[j] == order[j]);
                        } else {
                            assert(!placed_before[m as int]);
                        }
                    }
                }
            },
            None => {
                assert forall|y: int| 0 <= y < count implies #[trigger] placed@[y] by {
                    assert(!flags@[y]);
                }
                more = false;
            },
        }
    }
    let mut ordered: Vec<&'a Candidate> = Vec::new();
    x = 0;
    while x < places.len()
        invariant
            x <= places@.len(),
            count == candidates@.len(),
            placed@.len() == count,
            taken(placed@, places@),
            ordered@.len() == x,
            forall|i: int| 0 <= i < x ==> (#[trigger] ordered@[i])@ == candidates@[places@[i] as int],
        decreases places@.len() - x,
    {
        ordered.push(candidates.get(places[x]));
        x = x + 1;
    }
    proof {
        let order = ids_at(ids, places@);
        let shown = ordered_views(ordered@);
        assert(candidate_ids(shown) == order);
        assert forall|i: int| 0 <= i < shown.len() implies candidates@.contains(
            #[trigger] shown[i],
        ) by {
            assert(shown[i] == candidates@[places@[i] as int]);
        }
        assert(order.no_duplicates()) by {
            assert forall|i: int, j: int|
                0 <= i < order.len() && 0 <= j < order.len() && i != j implies order[i]
                != order[j] by {
                assert(places@[i] != places@[j]);
            }
        }
        assert(order.to_set() =~= graph.ids) by {
            assert forall|id: Seq<char>| order.contains(id) == ids.contains(id) by {
                if order.contains(id) {
                    let c = order.index_of(id);
                    assert(ids[places@[c] as int] == id);
                }
                if ids.contains(id) {
                    let y = ids.index_of(id);
                    assert(placed@[y]);
                    lemma_taken(ids, placed@, places@, y);
                }
            }
        }
        assert(graph.ordered_to(order, turned)) by {
            assert forall|i: int| 0 <= i < turned implies graph.first_ready(
                order.take(i),
                #[trigger] order[i],
            ) by {
                assert(order.take(i) == by_turn.take(i));
                assert(order[i] == by_turn[i]);
            }
        }
        order.unique_seq_to_set();
        ids.unique_seq_to_set();
    }
    ordered
}

/// The flags of the updates without a place.
fn waiting_flags(placed: &Vec<bool>) -> (r: Vec<bool>)
    ensures
        r@.len() == placed@.len(),
        forall|x: int| 0 <= x < placed@.len() ==> #[trigger] r@[x] == !placed@[x],
{
    let mut flags: Vec<bool> = Vec::new();
    let mut x: usize = 0;
    while x < placed.len()
        invariant
            x <= placed@.len(),
            flags@.len() == x,
            forall|y: int| 0 <= y < x ==> #[trigger] flags@[y] == !placed@[y],
        decreases placed@.len() - x,
    {
        flags.push(!placed[x]);
        x = x + 1;
    }
    flags
}

} // verus!
