//! Search: within one layer, and from the entry point down.

use vstd::prelude::*;
use super::{
    all_reach, candidates_reach, distinct_ids, edges_layered, HnswIndex, SearchResult,
};
use crate::distance::{is_kernel, kernel_value};
use crate::error::{dimension_mismatch, VectorDbError};
use crate::node::{insert_by_rank, nearest_first, HnswNode, SearchCandidate};
use crate::ordering::{closer, is_closer};
use crate::types::{copy_metadata, metadata_view, DistanceMetric, VectorId};

verus! {

broadcast use vstd::std_specs::hash::group_hash_axioms;

/// No candidate is farther than `distance`.
pub open spec fn beaten(candidates: Seq<SearchCandidate>, distance: u32) -> bool {
    forall|k: int| 0 <= k < candidates.len() ==> !closer(distance, (#[trigger] candidates[k]).distance)
}

/// The node `id`, at `distance` from the query, is among the candidates,
/// or `wanted` candidates are held and none of them is farther.
pub open spec fn held_or_beaten(
    candidates: Seq<SearchCandidate>,
    id: VectorId,
    distance: u32,
    wanted: int,
) -> bool {
    (exists|k: int| 0 <= k < candidates.len() && (#[trigger] candidates[k]).id == id) || (
    candidates.len() == wanted && beaten(candidates, distance))
}

/// The node `id`, at `distance` from the query, is among the answers, or
/// `limit` answers are given and none of them is farther.
pub open spec fn answered_or_beaten(
    found: Seq<SearchResult>,
    id: VectorId,
    distance: u32,
    limit: int,
) -> bool {
    (exists|i: int| 0 <= i < found.len() && (#[trigger] found[i]).id == id) || (found.len()
        == limit && forall|i: int|
        0 <= i < found.len() ==> !closer(distance, (#[trigger] found[i]).distance))
}

/// `path` leads from an entry point along edges of the layer, over live
/// nodes only.
pub open spec fn is_path(
    graph: Map<VectorId, HnswNode>,
    entries: Seq<VectorId>,
    layer: int,
    path: Seq<VectorId>,
) -> bool {
    &&& path.len() > 0
    &&& entries.contains(path[0])
    &&& forall|i: int| 0 <= i < path.len() ==> graph.contains_key(#[trigger] path[i])
    &&& forall|i: int|
        0 <= i < path.len() - 1 ==> graph[#[trigger] path[i]].neighbors(layer).contains(path[i + 1])
}

/// The node `id` is reached from a live entry point along edges of the
/// layer.
#[verifier::opaque]
pub open spec fn reached(
    graph: Map<VectorId, HnswNode>,
    entries: Seq<VectorId>,
    layer: int,
    id: VectorId,
) -> bool {
    exists|path: Seq<VectorId>| #[trigger] is_path(graph, entries, layer, path) && path.last() == id
}

/// A live entry point is reached.
pub proof fn lemma_reached_entry(
    graph: Map<VectorId, HnswNode>,
    entries: Seq<VectorId>,
    layer: int,
    e: int,
)
    requires
        0 <= e < entries.len(),
        graph.contains_key(entries[e]),
    ensures
        reached(graph, entries, layer, entries[e]),
{
    reveal(reached);
    let path = seq![entries[e]];
    assert(path[0] == entries[e]);
    assert(is_path(graph, entries, layer, path));
    assert(path.last() == entries[e]);
}

/// A live neighbour, at the layer, of a node that is reached is reached.
pub proof fn lemma_reached_step(
    graph: Map<VectorId, HnswNode>,
    entries: Seq<VectorId>,
    layer: int,
    from: VectorId,
    to: VectorId,
)
    requires
        reached(graph, entries, layer, from),
        graph.contains_key(to),
        graph[from].neighbors(layer).contains(to),
    ensures
        reached(graph, entries, layer, to),
{
    reveal(reached);
    let path = choose|path: Seq<VectorId>| #[trigger]
        is_path(graph, entries, layer, path) && path.last() == from;
    let longer = path.push(to);
    assert forall|i: int| 0 <= i < longer.len() implies graph.contains_key(#[trigger] longer[i]) by {
        if i < path.len() {
            assert(longer[i] == path[i]);
        }
    }
    assert forall|i: int| 0 <= i < longer.len() - 1 implies graph[#[trigger] longer[i]].neighbors(
        layer,
    ).contains(longer[i + 1]) by {
        assert(longer[i] == path[i]);
        if i < path.len() - 1 {
            assert(longer[i + 1] == path[i + 1]);
        }
    }
    assert(longer[0] == path[0]);
    assert(is_path(graph, entries, layer, longer));
    assert(longer.last() == to);
}

/// Every node of the list is reached.
pub open spec fn all_reached(
    graph: Map<VectorId, HnswNode>,
    entries: Seq<VectorId>,
    layer: int,
    list: Seq<SearchCandidate>,
) -> bool {
    forall|j: int| 0 <= j < list.len() ==> reached(graph, entries, layer, (#[trigger] list[j]).id)
}

proof fn lemma_reached_inserted(
    graph: Map<VectorId, HnswNode>,
    entries: Seq<VectorId>,
    layer: int,
    list: Seq<SearchCandidate>,
    at: int,
    item: SearchCandidate,
)
    requires
        all_reached(graph, entries, layer, list),
        reached(graph, entries, layer, item.id),
        0 <= at <= list.len(),
    ensures
        all_reached(graph, entries, layer, list.insert(at, item)),
{
    let after = list.insert(at, item);
    assert forall|j: int| 0 <= j < after.len() implies reached(
        graph,
        entries,
        layer,
        (#[trigger] after[j]).id,
    ) by {
        if j < at {
            assert(after[j] == list[j]);
        } else if j > at {
            assert(after[j] == list[j - 1]);
        }
    }
}

/// Whether the node waits in the work list.
pub open spec fn in_work(work: Seq<SearchCandidate>, id: VectorId) -> bool {
    exists|j: int| 0 <= j < work.len() && (#[trigger] work[j]).id == id
}

proof fn lemma_sorted_dropped(full: Seq<SearchCandidate>)
    requires
        nearest_first(full),
        full.len() > 0,
    ensures
        nearest_first(full.drop_last()),
{
    let rest = full.drop_last();
    assert forall|i: int, j: int| 0 <= i < j < rest.len() implies !closer(
        rest[j].distance,
        rest[i].distance,
    ) by {
        assert(rest[i] == full[i]);
        assert(rest[j] == full[j]);
    }
}

/// Number of `false` entries.
spec fn count_unvisited(visited: Seq<bool>) -> nat
    decreases visited.len(),
{
    if visited.len() == 0 {
        0
    } else {
        count_unvisited(visited.drop_last()) + if visited.last() {
            0nat
        } else {
            1nat
        }
    }
}

proof fn lemma_visit_decreases(visited: Seq<bool>, i: int)
    requires
        0 <= i < visited.len(),
        !visited[i],
    ensures
        count_unvisited(visited.update(i, true)) + 1 == count_unvisited(visited),
    decreases visited.len(),
{
    let after = visited.update(i, true);
    if i == visited.len() - 1 {
        assert(after.drop_last() =~= visited.drop_last());
    } else {
        lemma_visit_decreases(visited.drop_last(), i);
        assert(after.drop_last() =~= visited.drop_last().update(i, true));
    }
}

proof fn lemma_reach_added(
    graph: Map<VectorId, HnswNode>,
    before: Seq<SearchCandidate>,
    pos: int,
    item: SearchCandidate,
    layer: int,
)
    requires
        candidates_reach(graph, before, layer),
        0 <= pos <= before.len(),
        graph[item.id].connections@.len() > layer,
    ensures
        candidates_reach(graph, before.insert(pos, item), layer),
{
    let after = before.insert(pos, item);
    assert forall|k: int| 0 <= k < after.len() implies graph[(#[trigger] after[k]).id].connections@.len()
        > layer by {
        if k < pos {
            assert(after[k] == before[k]);
        } else if k > pos {
            assert(after[k] == before[k - 1]);
        }
    }
}

proof fn lemma_reach_dropped(
    graph: Map<VectorId, HnswNode>,
    full: Seq<SearchCandidate>,
    layer: int,
)
    requires
        candidates_reach(graph, full, layer),
        full.len() > 0,
    ensures
        candidates_reach(graph, full.drop_last(), layer),
{
    let rest = full.drop_last();
    assert forall|k: int| 0 <= k < rest.len() implies graph[(#[trigger] rest[k]).id].connections@.len()
        > layer by {
        assert(rest[k] == full[k]);
    }
}

impl HnswIndex {
    /// What a search of one layer returns: at most `num_closest` distinct
    /// live nodes, each with its distance to the query, nearest first, and
    /// each reached from a live entry point along edges of the layer.
    /// Every live entry point is among them, unless `num_closest` nodes are
    /// returned and none of them is farther from the query; and so is every
    /// live neighbour, at the layer, of every node returned: no step along
    /// an edge from an answer leads to a node that should be among the
    /// answers and is not. So with `num_closest > 0` and a live entry point
    /// there is an answer, and the first is no farther than any entry
    /// point. Without a live entry point nothing is returned. Where every
    /// edge at a layer leads to a node that has the layer and the entry
    /// points have `layer`, so do the answers.
    pub open spec fn scanned<D: Fn(&Vec<u32>, &Vec<u32>, DistanceMetric) -> u32>(
        &self,
        query: Seq<u32>,
        entry_points: Seq<VectorId>,
        num_closest: int,
        layer: int,
        result: Seq<SearchCandidate>,
        dist: &D,
    ) -> bool {
        &&& result.len() <= num_closest
        &&& nearest_first(result)
        &&& distinct_ids(result)
        &&& forall|k: int|
            0 <= k < result.len() ==> self.graph().contains_key(#[trigger] result[k].id)
                && result[k].distance == kernel_value(
                dist,
                query,
                self.graph()[result[k].id].vector@,
                self.spec_metric(),
            )
        &&& forall|k: int|
            0 <= k < result.len() ==> reached(
                self.graph(),
                entry_points,
                layer,
                (#[trigger] result[k]).id,
            )
        &&& (forall|e: int|
            0 <= e < entry_points.len() ==> !self.graph().contains_key(entry_points[e]))
            ==> result.len() == 0
        &&& edges_layered(self.graph()) && all_reach(self.graph(), entry_points, layer)
            ==> candidates_reach(self.graph(), result, layer)
        &&& forall|e: int|
            0 <= e < entry_points.len() && self.graph().contains_key(
                #[trigger] entry_points[e],
            ) ==> held_or_beaten(
                result,
                entry_points[e],
                kernel_value(
                    dist,
                    query,
                    self.graph()[entry_points[e]].vector@,
                    self.spec_metric(),
                ),
                num_closest,
            )
        &&& forall|k: int, j: int|
            0 <= k < result.len() && 0 <= j < self.graph()[result[k].id].neighbors(layer).len()
                && self.graph().contains_key(
                #[trigger] self.graph()[result[k].id].neighbors(layer)[j],
            ) ==> held_or_beaten(
                result,
                self.graph()[result[k].id].neighbors(layer)[j],
                kernel_value(
                    dist,
                    query,
                    self.graph()[self.graph()[result[k].id].neighbors(layer)[j]].vector@,
                    self.spec_metric(),
                ),
                num_closest,
            )
        &&& (exists|e: int|
            0 <= e < entry_points.len() && self.graph().contains_key(entry_points[e]))
            && num_closest > 0 ==> result.len() > 0
        &&& forall|e: int|
            0 <= e < entry_points.len() && self.graph().contains_key(
                #[trigger] entry_points[e],
            ) && num_closest > 0 ==> !closer(
                kernel_value(
                    dist,
                    query,
                    self.graph()[entry_points[e]].vector@,
                    self.spec_metric(),
                ),
                result[0].distance,
            )
    }

    /// Where fewer than `num_closest` nodes come back, the nodes at the
    /// `upto`-th step of a path from an entry point are among them.
    proof fn lemma_path_is_held<D: Fn(&Vec<u32>, &Vec<u32>, DistanceMetric) -> u32>(
        &self,
        query: Seq<u32>,
        entry_points: Seq<VectorId>,
        num_closest: int,
        layer: int,
        result: Seq<SearchCandidate>,
        dist: &D,
        path: Seq<VectorId>,
        upto: int,
    )
        requires
            self.scanned(query, entry_points, num_closest, layer, result, dist),
            result.len() < num_closest,
            is_path(self.graph(), entry_points, layer, path),
            0 <= upto < path.len(),
        ensures
            exists|k: int| 0 <= k < result.len() && (#[trigger] result[k]).id == path[upto],
        decreases upto,
    {
        if upto == 0 {
            let e = choose|e: int| 0 <= e < entry_points.len() && entry_points[e] == path[0];
            assert(self.graph().contains_key(path[0]));
            assert(held_or_beaten(
                result,
                entry_points[e],
                kernel_value(dist, query, self.graph()[entry_points[e]].vector@, self.spec_metric()),
                num_closest,
            ));
        } else {
            self.lemma_path_is_held(
                query,
                entry_points,
                num_closest,
                layer,
                result,
                dist,
                path,
                upto - 1,
            );
            let k = choose|k: int| 0 <= k < result.len() && (#[trigger] result[k]).id == path[upto - 1];
            let list = self.graph()[path[upto - 1]].neighbors(layer);
            assert(list.contains(path[upto]));
            let j = choose|j: int| 0 <= j < list.len() && list[j] == path[upto];
            assert(self.graph().contains_key(path[upto]));
            assert(self.graph()[result[k].id].neighbors(layer)[j] == path[upto]);
            assert(held_or_beaten(
                result,
                self.graph()[result[k].id].neighbors(layer)[j],
                kernel_value(
                    dist,
                    query,
                    self.graph()[self.graph()[result[k].id].neighbors(layer)[j]].vector@,
                    self.spec_metric(),
                ),
                num_closest,
            ));
        }
    }

    /// A search that comes back with fewer than `num_closest` nodes has
    /// left out none that is reached from a live entry point: what can be
    /// reached is returned whole.
    pub proof fn lemma_small_reach_is_returned_whole<
        D: Fn(&Vec<u32>, &Vec<u32>, DistanceMetric) -> u32,
    >(
        &self,
        query: Seq<u32>,
        entry_points: Seq<VectorId>,
        num_closest: int,
        layer: int,
        result: Seq<SearchCandidate>,
        dist: &D,
        id: VectorId,
    )
        requires
            self.scanned(query, entry_points, num_closest, layer, result, dist),
            result.len() < num_closest,
            reached(self.graph(), entry_points, layer, id),
        ensures
            exists|k: int| 0 <= k < result.len() && (#[trigger] result[k]).id == id,
    {
        reveal(reached);
        let path = choose|path: Seq<VectorId>| #[trigger]
            is_path(self.graph(), entry_points, layer, path) && path.last() == id;
        self.lemma_path_is_held(
            query,
            entry_points,
            num_closest,
            layer,
            result,
            dist,
            path,
            path.len() - 1,
        );
    }

    /// A reachable set that fits is returned whole: where no more than
    /// `num_closest` nodes are reached from the live entry points, every
    /// one of them comes back.
    pub proof fn lemma_reachable_set_is_returned_whole<
        D: Fn(&Vec<u32>, &Vec<u32>, DistanceMetric) -> u32,
    >(
        &self,
        query: Seq<u32>,
        entry_points: Seq<VectorId>,
        num_closest: int,
        layer: int,
        result: Seq<SearchCandidate>,
        dist: &D,
        reachable: Set<VectorId>,
        id: VectorId,
    )
        requires
            self.scanned(query, entry_points, num_closest, layer, result, dist),
            forall|x: VectorId|
                reachable.contains(x) <==> #[trigger] reached(
                    self.graph(),
                    entry_points,
                    layer,
                    x,
                ),
            reachable.finite(),
            reachable.len() <= num_closest,
            reachable.contains(id),
        ensures
            exists|k: int| 0 <= k < result.len() && (#[trigger] result[k]).id == id,
    {
        if result.len() < num_closest {
            self.lemma_small_reach_is_returned_whole(
                query,
                entry_points,
                num_closest,
                layer,
                result,
                dist,
                id,
            );
        } else {
            let ids = Seq::new(result.len(), |k: int| result[k].id);
            assert(ids.no_duplicates());
            ids.unique_seq_to_set();
            let held = ids.to_set();
            assert(held.subset_of(reachable)) by {
                assert forall|x: VectorId| held.contains(x) implies reachable.contains(x) by {
                    let k = choose|k: int| 0 <= k < ids.len() && ids[k] == x;
                    assert(result[k].id == x);
                }
            }
            vstd::set_lib::lemma_len_subset(held, reachable);
            vstd::set_lib::lemma_subset_equality(held, reachable);
            assert(held.contains(id));
            let k = choose|k: int| 0 <= k < ids.len() && ids[k] == id;
            assert(result[k].id == id);
        }
    }

    /// Best-first search within one layer.
    ///
    /// Starting from the live nodes among `entry_points`, follows the
    /// layer's edges towards `query`. Of the nodes met it holds the
    /// `num_closest` nearest; a node is expanded if it is not farther than
    /// the farthest held, or fewer than `num_closest` are held. Returns the
    /// nodes held, nearest first: distinct live nodes, each with its
    /// distance to the query, at least one if an entry point is live and
    /// `num_closest > 0`, the first of them no farther than any entry point.
    pub fn search_layer<D: Fn(&Vec<u32>, &Vec<u32>, DistanceMetric) -> u32>(
        &self,
        query: &Vec<u32>,
        entry_points: &Vec<VectorId>,
        num_closest: usize,
        layer: usize,
        dist: &D,
    ) -> (result: Vec<SearchCandidate>)
        requires
            self.wf(),
            is_kernel(dist),
            query@.len() == self.spec_dimension(),
        ensures
            self.scanned(query@, entry_points@, num_closest as int, layer as int, result@, dist),
    {
        proof {
            self.lemma_wf_uniform(Set::empty());
        }
        self.scan_layer(query, entry_points, num_closest, layer, dist)
    }

    /// The search of `search_layer`, on an index that may be in the middle
    /// of an insert.
    pub(super) fn scan_layer<D: Fn(&Vec<u32>, &Vec<u32>, DistanceMetric) -> u32>(
        &self,
        query: &Vec<u32>,
        entry_points: &Vec<VectorId>,
        num_closest: usize,
        layer: usize,
        dist: &D,
    ) -> (result: Vec<SearchCandidate>)
        requires
            self.consistent(),
            self.uniform(),
            is_kernel(dist),
            query@.len() == self.spec_dimension(),
        ensures
            self.scanned(query@, entry_points@, num_closest as int, layer as int, result@, dist),
    {
        let mut visited: Vec<bool> = Vec::new();
        let mut n: usize = 0;
        while n < self.nodes.len()
            invariant
                n <= self.nodes@.len(),
                visited@.len() == n,
                forall|k: int| 0 <= k < n ==> !visited@[k],
            decreases self.nodes@.len() - n,
        {
            visited.push(false);
            n += 1;
        }
        let mut candidates: Vec<SearchCandidate> = Vec::new();
        let mut work: Vec<SearchCandidate> = Vec::new();
        let ghost mut expanded: Seq<bool> = Seq::new(self.nodes@.len(), |s: int| false);
        let ghost deep = edges_layered(self.graph()) && all_reach(
            self.graph(),
            entry_points@,
            layer as int,
        );

        let mut e: usize = 0;
        while e < entry_points.len()
            invariant
                self.consistent(),
                self.uniform(),
                is_kernel(dist),
                query@.len() == self.spec_dimension(),
                e <= entry_points@.len(),
                visited@.len() == self.nodes@.len(),
                self.candidates_ok(candidates@, visited@, query@, dist),
                self.visited_reached(visited@, entry_points@, layer as int),
                work@.len() == candidates@.len(),
                nearest_first(work@),
                self.seeds_held(candidates@, visited@),
                self.work_ok(work@, query@, dist),
                all_reached(self.graph(), entry_points@, layer as int, work@),
                expanded.len() == self.nodes@.len(),
                forall|s: int| 0 <= s < expanded.len() ==> !expanded[s],
                self.pending(candidates@, work@, expanded, None),
                deep == (edges_layered(self.graph()) && all_reach(
                    self.graph(),
                    entry_points@,
                    layer as int,
                )),
                deep ==> candidates_reach(self.graph(), candidates@, layer as int),
                forall|k: int|
                    0 <= k < e && self.slots@.contains_key(#[trigger] entry_points@[k])
                        ==> visited@[self.slots@[entry_points@[k]] as int],
                (forall|k: int| 0 <= k < e ==> !self.slots@.contains_key(entry_points@[k]))
                    ==> candidates@.len() == 0,
            decreases entry_points@.len() - e,
        {
            let entry_id = entry_points[e];
            match self.slot_of(entry_id) {
                Some(slot) => {
                    if !visited[slot] {
                        let d = dist(query, &self.nodes[slot].vector, self.distance_metric);
                        let item = SearchCandidate { id: entry_id, distance: d };
                        let ghost before = candidates@;
                        let ghost seen = visited@;
                        let ghost queued = work@;
                        let pos = insert_by_rank(&mut candidates, item);
                        let at = insert_by_rank(&mut work, item);
                        visited[slot] = true;
                        proof {
                            assert(self.graph().contains_key(entry_id));
                            lemma_reached_entry(
                                self.graph(),
                                entry_points@,
                                layer as int,
                                e as int,
                            );
                            assert(self.nodes@[slot as int].id == entry_id);
                            lemma_reached_inserted(
                                self.graph(),
                                entry_points@,
                                layer as int,
                                queued,
                                at as int,
                                item,
                            );
                            self.lemma_candidate_added(
                                before,
                                pos as int,
                                item,
                                seen,
                                slot as int,
                                query@,
                                dist,
                            );
                            self.lemma_seed_held(before, pos as int, item, seen, slot as int);
                            self.lemma_work_added(queued, at as int, item, query@, dist);
                            self.lemma_pending_added(
                                before,
                                pos as int,
                                item,
                                queued,
                                at as int,
                                expanded,
                                None,
                            );
                            if deep {
                                lemma_reach_added(
                                    self.graph(),
                                    before,
                                    pos as int,
                                    item,
                                    layer as int,
                                );
                            }
                        }
                    }
                },
                None => {},
            }
            e += 1;
        }

        let ghost seeds = visited@;
        let ghost seeded = candidates@.len() > 0;
        let ghost wanted = num_closest as int;
        proof {
            assert forall|s: int|
                0 <= s < visited@.len() && #[trigger] visited@[s] implies self.seed_kept(
                candidates@,
                s,
                query@,
                dist,
                wanted,
            ) by {
                assert(self.seed_held(candidates@, s));
            }
        }
        while work.len() > 0
            invariant
                self.consistent(),
                self.uniform(),
                is_kernel(dist),
                query@.len() == self.spec_dimension(),
                visited@.len() == self.nodes@.len(),
                seeds.len() == self.nodes@.len(),
                expanded.len() == self.nodes@.len(),
                forall|s: int| 0 <= s < seeds.len() && seeds[s] ==> visited@[s],
                self.candidates_ok(candidates@, visited@, query@, dist),
                self.visited_reached(visited@, entry_points@, layer as int),
                self.work_ok(work@, query@, dist),
                all_reached(self.graph(), entry_points@, layer as int, work@),
                nearest_first(work@),
                nearest_first(candidates@),
                wanted == num_closest,
                self.seeds_kept(candidates@, visited@, query@, dist, wanted),
                self.expanded_ok(expanded, visited@, layer as int),
                self.pending(candidates@, work@, expanded, None),
                deep ==> edges_layered(self.graph()),
                deep ==> candidates_reach(self.graph(), candidates@, layer as int),
                !seeded ==> candidates@.len() == 0 && work@.len() == 0,
            ensures
                self.pending(candidates@, Seq::empty(), expanded, None),
            decreases work@.len() + count_unvisited(visited@),
        {
            let ghost queued = work@;
            let current = work.remove(0);
            proof {
                assert(queued[0] == current);
                assert(reached(self.graph(), entry_points@, layer as int, current.id));
                assert forall|j: int| 0 <= j < work@.len() implies reached(
                    self.graph(),
                    entry_points@,
                    layer as int,
                    (#[trigger] work@[j]).id,
                ) by {
                    assert(work@[j] == queued[j + 1]);
                }
                self.lemma_work_rest(queued, query@, dist);
            }
            let held = candidates.len();
            if held > 0 && held >= num_closest && is_closer(
                candidates[held - 1].distance,
                current.distance,
            ) {
                proof {
                    self.lemma_stop(candidates@, visited@, queued, expanded, query@, dist);
                }
                break;
            }
            let slot = match self.slot_of(current.id) {
                Some(slot) => slot,
                None => {
                    proof {
                        self.lemma_pending_rest(candidates@, visited@, queued, expanded, query@, dist);
                    }
                    continue;
                },
            };
            proof {
                self.lemma_pending_popped(candidates@, queued, expanded);
            }
            let neighbors = self.nodes[slot].get_connections(layer);
            let ghost budget = work@.len() + count_unvisited(visited@);
            let mut j: usize = 0;
            while j < neighbors.len()
                invariant
                    self.consistent(),
                    self.uniform(),
                    is_kernel(dist),
                    query@.len() == self.spec_dimension(),
                    visited@.len() == self.nodes@.len(),
                    seeds.len() == self.nodes@.len(),
                    expanded.len() == self.nodes@.len(),
                    forall|s: int| 0 <= s < seeds.len() && seeds[s] ==> visited@[s],
                    self.candidates_ok(candidates@, visited@, query@, dist),
                    self.visited_reached(visited@, entry_points@, layer as int),
                self.visited_reached(visited@, entry_points@, layer as int),
                    self.work_ok(work@, query@, dist),
                    all_reached(self.graph(), entry_points@, layer as int, work@),
                all_reached(self.graph(), entry_points@, layer as int, work@),
                    nearest_first(work@),
                    nearest_first(candidates@),
                    wanted == num_closest,
                    self.seeds_kept(candidates@, visited@, query@, dist, wanted),
                    self.expanded_ok(expanded, visited@, layer as int),
                    self.pending(candidates@, work@, expanded, Some(current.id)),
                    deep ==> edges_layered(self.graph()),
                    deep ==> candidates_reach(self.graph(), candidates@, layer as int),
                    neighbors@ == self.nodes@[slot as int].neighbors(layer as int),
                    slot < self.nodes@.len(),
                    self.nodes@[slot as int].id == current.id,
                    reached(self.graph(), entry_points@, layer as int, current.id),
                    seeded,
                    j <= neighbors@.len(),
                    forall|k: int|
                        0 <= k < j && self.slots@.contains_key(#[trigger] neighbors@[k])
                            ==> visited@[self.slots@[neighbors@[k]] as int],
                    work@.len() + count_unvisited(visited@) <= budget,
                decreases neighbors@.len() - j,
            {
                let neighbor_id = neighbors[j];
                j += 1;
                let neighbor_slot = match self.slot_of(neighbor_id) {
                    Some(neighbor_slot) => neighbor_slot,
                    None => { continue; },
                };
                if visited[neighbor_slot] {
                    continue;
                }
                let ghost seen = visited@;
                visited[neighbor_slot] = true;
                proof {
                    lemma_visit_decreases(seen, neighbor_slot as int);
                    self.lemma_candidates_survive_visit(
                        candidates@,
                        seen,
                        neighbor_slot as int,
                        query@,
                        dist,
                    );
                    self.lemma_expanded_visit(expanded, seen, neighbor_slot as int, layer as int);
                    assert(visited@ =~= seen.update(neighbor_slot as int, true));
                    assert(self.graph().contains_key(current.id));
                    assert(self.graph()[current.id] == self.nodes@[slot as int]);
                    assert(neighbors@[j - 1] == neighbor_id);
                    assert(self.graph().contains_key(neighbor_id));
                    assert(self.nodes@[neighbor_slot as int].id == neighbor_id);
                    lemma_reached_step(
                        self.graph(),
                        entry_points@,
                        layer as int,
                        current.id,
                        neighbor_id,
                    );
                }
                let d = dist(query, &self.nodes[neighbor_slot].vector, self.distance_metric);
                let held = candidates.len();
                let should_add = held < num_closest || (held > 0 && is_closer(
                    d,
                    candidates[held - 1].distance,
                ));
                if should_add {
                    let item = SearchCandidate { id: neighbor_id, distance: d };
                    let ghost before = candidates@;
                    let ghost waiting = work@;
                    let pos = insert_by_rank(&mut candidates, item);
                    let at = insert_by_rank(&mut work, item);
                    proof {
                        self.lemma_candidate_added(
                            before,
                            pos as int,
                            item,
                            seen,
                            neighbor_slot as int,
                            query@,
                            dist,
                        );
                        if deep {
                            let owner = self.nodes@[slot as int];
                            assert(self.graph().contains_key(owner.id));
                            assert(self.graph()[owner.id] == owner);
                            assert(owner.connections@[layer as int]@[j - 1] == neighbor_id);
                            assert(self.graph().contains_key(neighbor_id));
                            lemma_reach_added(self.graph(), before, pos as int, item, layer as int);
                        }
                        self.lemma_kept_added(before, pos as int, item, seen, query@, dist, wanted);
                        self.lemma_kept_visit(
                            candidates@,
                            seen,
                            neighbor_slot as int,
                            pos as int,
                            query@,
                            dist,
                            wanted,
                        );
                        self.lemma_work_added(waiting, at as int, item, query@, dist);
                        lemma_reached_inserted(
                            self.graph(),
                            entry_points@,
                            layer as int,
                            waiting,
                            at as int,
                            item,
                        );
                        self.lemma_pending_added(
                            before,
                            pos as int,
                            item,
                            waiting,
                            at as int,
                            expanded,
                            Some(current.id),
                        );
                    }
                    if candidates.len() > num_closest {
                        let ghost full = candidates@;
                        candidates.pop();
                        proof {
                            self.lemma_worst_dropped(full, visited@, query@, dist);
                            self.lemma_kept_dropped(full, visited@, visited@, query@, dist, wanted);
                            self.lemma_pending_dropped(full, work@, expanded, Some(current.id));
                            lemma_sorted_dropped(full);
                            if deep {
                                lemma_reach_dropped(self.graph(), full, layer as int);
                            }
                        }
                    }
                } else {
                    proof {
                        self.lemma_kept_rejected(
                            candidates@,
                            seen,
                            neighbor_slot as int,
                            d,
                            query@,
                            dist,
                            wanted,
                        );
                    }
                }
            }
            proof {
                let done = expanded.update(slot as int, true);
                self.lemma_expanded_node(expanded, visited@, slot as int, layer as int);
                self.lemma_pending_done(candidates@, work@, expanded, slot as int);
                expanded = done;
            }
        }

        while candidates.len() > num_closest
            invariant
                self.consistent(),
                seeds.len() == self.nodes@.len(),
                visited@.len() == self.nodes@.len(),
                expanded.len() == self.nodes@.len(),
                forall|s: int| 0 <= s < seeds.len() && seeds[s] ==> visited@[s],
                self.candidates_ok(candidates@, visited@, query@, dist),
                self.visited_reached(visited@, entry_points@, layer as int),
                nearest_first(candidates@),
                wanted == num_closest,
                self.seeds_kept(candidates@, visited@, query@, dist, wanted),
                self.expanded_ok(expanded, visited@, layer as int),
                self.pending(candidates@, Seq::empty(), expanded, None),
                deep ==> edges_layered(self.graph()),
                deep ==> candidates_reach(self.graph(), candidates@, layer as int),
                !seeded ==> candidates@.len() == 0,
            decreases candidates@.len(),
        {
            let ghost full = candidates@;
            candidates.pop();
            proof {
                self.lemma_worst_dropped(full, visited@, query@, dist);
                self.lemma_kept_dropped(full, visited@, visited@, query@, dist, wanted);
                self.lemma_pending_dropped(full, Seq::empty(), expanded, None);
                lemma_sorted_dropped(full);
                if deep {
                    lemma_reach_dropped(self.graph(), full, layer as int);
                }
            }
        }
        proof {
            assert forall|k: int, j: int|
                0 <= k < candidates@.len() && 0 <= j < self.graph()[candidates@[k].id].neighbors(
                    layer as int,
                ).len() && self.graph().contains_key(
                    #[trigger] self.graph()[candidates@[k].id].neighbors(layer as int)[j],
                ) implies held_or_beaten(
                candidates@,
                self.graph()[candidates@[k].id].neighbors(layer as int)[j],
                kernel_value(
                    dist,
                    query@,
                    self.graph()[self.graph()[candidates@[k].id].neighbors(layer as int)[j]].vector@,
                    self.spec_metric(),
                ),
                num_closest as int,
            ) by {
                let c = candidates@[k];
                let s = self.slots@[c.id] as int;
                let n = self.graph()[c.id].neighbors(layer as int)[j];
                assert(!in_work(Seq::<SearchCandidate>::empty(), c.id));
                assert(expanded[s]);
                assert(self.nodes@[s].neighbors(layer as int)[j] == n);
                let t = self.slots@[n] as int;
                assert(visited@[t]);
                assert(self.seed_kept(candidates@, t, query@, dist, wanted));
            }
        }
        proof {
            assert forall|k: int| 0 <= k < candidates@.len() implies reached(
                self.graph(),
                entry_points@,
                layer as int,
                (#[trigger] candidates@[k]).id,
            ) by {
                let s = self.slots@[candidates@[k].id] as int;
                assert(visited@[s]);
                assert(self.nodes@[s].id == candidates@[k].id);
            }
            assert forall|e: int|
                0 <= e < entry_points@.len() && self.graph().contains_key(
                    #[trigger] entry_points@[e],
                ) implies held_or_beaten(
                candidates@,
                entry_points@[e],
                kernel_value(
                    dist,
                    query@,
                    self.graph()[entry_points@[e]].vector@,
                    self.spec_metric(),
                ),
                num_closest as int,
            ) by {
                let s = self.slots@[entry_points@[e]] as int;
                assert(seeds[s]);
                assert(visited@[s]);
                assert(self.seed_kept(candidates@, s, query@, dist, wanted));
            }
            assert forall|e: int|
                0 <= e < entry_points@.len() && self.graph().contains_key(
                    #[trigger] entry_points@[e],
                ) && num_closest > 0 implies candidates@.len() > 0 && !closer(
                kernel_value(
                    dist,
                    query@,
                    self.graph()[entry_points@[e]].vector@,
                    self.spec_metric(),
                ),
                candidates@[0].distance,
            ) by {
                let id = entry_points@[e];
                let own = kernel_value(
                    dist,
                    query@,
                    self.graph()[id].vector@,
                    self.spec_metric(),
                );
                assert(held_or_beaten(candidates@, id, own, num_closest as int));
                if exists|k: int| 0 <= k < candidates@.len() && (#[trigger] candidates@[k]).id == id {
                    let k = choose|k: int|
                        0 <= k < candidates@.len() && (#[trigger] candidates@[k]).id == id;
                    assert(candidates@[k].distance == own);
                    if k > 0 {
                        assert(!closer(candidates@[k].distance, candidates@[0].distance));
                    }
                } else {
                    assert(beaten(candidates@, own));
                }
            }
        }
        candidates
    }

    /// Every node visited is reached from a live entry point.
    spec fn visited_reached(&self, visited: Seq<bool>, entries: Seq<VectorId>, layer: int) -> bool {
        forall|s: int|
            0 <= s < visited.len() && s < self.nodes@.len() && #[trigger] visited[s] ==> reached(
                self.graph(),
                entries,
                layer,
                self.nodes@[s].id,
            )
    }

    /// What holds of the candidates gathered so far: they are ranked, name
    /// distinct live nodes that have been visited, and carry their true
    /// distance to the query.
    spec fn candidates_ok<D: Fn(&Vec<u32>, &Vec<u32>, DistanceMetric) -> u32>(
        &self,
        candidates: Seq<SearchCandidate>,
        visited: Seq<bool>,
        query: Seq<u32>,
        dist: &D,
    ) -> bool {
        &&& nearest_first(candidates)
        &&& distinct_ids(candidates)
        &&& forall|k: int|
            0 <= k < candidates.len() ==> {
                let c = #[trigger] candidates[k];
                &&& self.slots@.contains_key(c.id)
                &&& visited[self.slots@[c.id] as int]
                &&& c.distance == kernel_value(
                    dist,
                    query,
                    self.nodes@[self.slots@[c.id] as int].vector@,
                    self.distance_metric,
                )
            }
    }

    /// Every node in the work list is live and carries its distance to the
    /// query.
    spec fn work_ok<D: Fn(&Vec<u32>, &Vec<u32>, DistanceMetric) -> u32>(
        &self,
        work: Seq<SearchCandidate>,
        query: Seq<u32>,
        dist: &D,
    ) -> bool {
        forall|k: int|
            0 <= k < work.len() ==> {
                let w = #[trigger] work[k];
                &&& self.slots@.contains_key(w.id)
                &&& w.distance == kernel_value(
                    dist,
                    query,
                    self.nodes@[self.slots@[w.id] as int].vector@,
                    self.distance_metric,
                )
            }
    }

    /// Every live neighbour, at `layer`, of every expanded node has been
    /// visited.
    spec fn expanded_ok(&self, expanded: Seq<bool>, visited: Seq<bool>, layer: int) -> bool {
        forall|s: int, k: int|
            0 <= s < expanded.len() && expanded[s] && 0 <= k < self.nodes@[s].neighbors(layer).len()
                && self.slots@.contains_key(#[trigger] self.nodes@[s].neighbors(layer)[k])
                ==> visited[self.slots@[self.nodes@[s].neighbors(layer)[k]] as int]
    }

    /// Every candidate has been expanded, or waits in the work list, or is
    /// the node that is being expanded.
    spec fn pending(
        &self,
        candidates: Seq<SearchCandidate>,
        work: Seq<SearchCandidate>,
        expanded: Seq<bool>,
        current: Option<VectorId>,
    ) -> bool {
        forall|k: int|
            0 <= k < candidates.len() ==> {
                let c = #[trigger] candidates[k];
                ||| current == Some(c.id)
                ||| in_work(work, c.id)
                ||| expanded[self.slots@[c.id] as int]
            }
    }

    proof fn lemma_work_added<D: Fn(&Vec<u32>, &Vec<u32>, DistanceMetric) -> u32>(
        &self,
        work: Seq<SearchCandidate>,
        at: int,
        item: SearchCandidate,
        query: Seq<u32>,
        dist: &D,
    )
        requires
            self.work_ok(work, query, dist),
            0 <= at <= work.len(),
            self.slots@.contains_key(item.id),
            item.distance == kernel_value(
                dist,
                query,
                self.nodes@[self.slots@[item.id] as int].vector@,
                self.distance_metric,
            ),
        ensures
            self.work_ok(work.insert(at, item), query, dist),
    {
        let after = work.insert(at, item);
        assert forall|k: int| 0 <= k < after.len() implies {
            let w = #[trigger] after[k];
            &&& self.slots@.contains_key(w.id)
            &&& w.distance == kernel_value(
                dist,
                query,
                self.nodes@[self.slots@[w.id] as int].vector@,
                self.distance_metric,
            )
        } by {
            if k < at {
                assert(after[k] == work[k]);
            } else if k > at {
                assert(after[k] == work[k - 1]);
            }
        }
    }

    proof fn lemma_work_rest<D: Fn(&Vec<u32>, &Vec<u32>, DistanceMetric) -> u32>(
        &self,
        work: Seq<SearchCandidate>,
        query: Seq<u32>,
        dist: &D,
    )
        requires
            self.work_ok(work, query, dist),
            nearest_first(work),
            work.len() > 0,
        ensures
            self.work_ok(work.remove(0), query, dist),
            nearest_first(work.remove(0)),
            self.slots@.contains_key(work[0].id),
            work[0].distance == kernel_value(
                dist,
                query,
                self.nodes@[self.slots@[work[0].id] as int].vector@,
                self.distance_metric,
            ),
    {
        let rest = work.remove(0);
        assert forall|k: int| 0 <= k < rest.len() implies {
            let w = #[trigger] rest[k];
            &&& self.slots@.contains_key(w.id)
            &&& w.distance == kernel_value(
                dist,
                query,
                self.nodes@[self.slots@[w.id] as int].vector@,
                self.distance_metric,
            )
        } by {
            assert(rest[k] == work[k + 1]);
        }
        assert forall|i: int, j: int| 0 <= i < j < rest.len() implies !closer(
            rest[j].distance,
            rest[i].distance,
        ) by {
            assert(rest[i] == work[i + 1]);
            assert(rest[j] == work[j + 1]);
        }
    }

    /// The search may stop: where the nearest node that waits is farther
    /// than the farthest candidate, no candidate waits, so all have been
    /// expanded.
    proof fn lemma_stop<D: Fn(&Vec<u32>, &Vec<u32>, DistanceMetric) -> u32>(
        &self,
        candidates: Seq<SearchCandidate>,
        visited: Seq<bool>,
        work: Seq<SearchCandidate>,
        expanded: Seq<bool>,
        query: Seq<u32>,
        dist: &D,
    )
        requires
            self.candidates_ok(candidates, visited, query, dist),
            self.work_ok(work, query, dist),
            nearest_first(work),
            nearest_first(candidates),
            self.pending(candidates, work, expanded, None),
            work.len() > 0,
            candidates.len() > 0,
            closer(candidates.last().distance, work[0].distance),
        ensures
            self.pending(candidates, work.remove(0), expanded, None),
            self.pending(candidates, Seq::empty(), expanded, None),
    {
        assert forall|k: int| 0 <= k < candidates.len() implies expanded[self.slots@[(
        #[trigger] candidates[k]).id] as int] by {
            let c = candidates[k];
            if in_work(work, c.id) {
                let j = choose|j: int| 0 <= j < work.len() && (#[trigger] work[j]).id == c.id;
                assert(work[j].distance == c.distance);
                if j > 0 {
                    assert(!closer(work[j].distance, work[0].distance));
                }
                if k < candidates.len() - 1 {
                    assert(!closer(candidates[candidates.len() - 1].distance, candidates[k].distance));
                }
            }
        }
    }

    /// A node that is not live is no candidate, so taking it from the work
    /// list leaves every candidate where it was.
    proof fn lemma_pending_rest<D: Fn(&Vec<u32>, &Vec<u32>, DistanceMetric) -> u32>(
        &self,
        candidates: Seq<SearchCandidate>,
        visited: Seq<bool>,
        work: Seq<SearchCandidate>,
        expanded: Seq<bool>,
        query: Seq<u32>,
        dist: &D,
    )
        requires
            self.candidates_ok(candidates, visited, query, dist),
            self.pending(candidates, work, expanded, None),
            work.len() > 0,
            !self.slots@.contains_key(work[0].id),
        ensures
            self.pending(candidates, work.remove(0), expanded, None),
    {
        let rest = work.remove(0);
        assert forall|k: int| 0 <= k < candidates.len() implies {
            let c = #[trigger] candidates[k];
            ||| None::<VectorId> == Some(c.id)
            ||| in_work(rest, c.id)
            ||| expanded[self.slots@[c.id] as int]
        } by {
            let c = candidates[k];
            if in_work(work, c.id) {
                let j = choose|j: int| 0 <= j < work.len() && (#[trigger] work[j]).id == c.id;
                assert(j > 0);
                assert(rest[j - 1] == work[j]);
            }
        }
    }

    /// Taking the first node from the work list to expand it.
    proof fn lemma_pending_popped(
        &self,
        candidates: Seq<SearchCandidate>,
        work: Seq<SearchCandidate>,
        expanded: Seq<bool>,
    )
        requires
            self.pending(candidates, work, expanded, None),
            work.len() > 0,
        ensures
            self.pending(candidates, work.remove(0), expanded, Some(work[0].id)),
    {
        let rest = work.remove(0);
        assert forall|k: int| 0 <= k < candidates.len() implies {
            let c = #[trigger] candidates[k];
            ||| Some(work[0].id) == Some(c.id)
            ||| in_work(rest, c.id)
            ||| expanded[self.slots@[c.id] as int]
        } by {
            let c = candidates[k];
            if in_work(work, c.id) && c.id != work[0].id {
                let j = choose|j: int| 0 <= j < work.len() && (#[trigger] work[j]).id == c.id;
                assert(rest[j - 1] == work[j]);
            }
        }
    }

    proof fn lemma_pending_added(
        &self,
        candidates: Seq<SearchCandidate>,
        pos: int,
        item: SearchCandidate,
        work: Seq<SearchCandidate>,
        at: int,
        expanded: Seq<bool>,
        current: Option<VectorId>,
    )
        requires
            self.pending(candidates, work, expanded, current),
            0 <= pos <= candidates.len(),
            0 <= at <= work.len(),
        ensures
            self.pending(candidates.insert(pos, item), work.insert(at, item), expanded, current),
    {
        let more = candidates.insert(pos, item);
        let queued = work.insert(at, item);
        assert(queued[at] == item);
        assert forall|k: int| 0 <= k < more.len() implies {
            let c = #[trigger] more[k];
            ||| current == Some(c.id)
            ||| in_work(queued, c.id)
            ||| expanded[self.slots@[c.id] as int]
        } by {
            if k != pos {
                let b = if k < pos { k } else { k - 1 };
                assert(more[k] == candidates[b]);
                let c = candidates[b];
                if in_work(work, c.id) {
                    let j = choose|j: int| 0 <= j < work.len() && (#[trigger] work[j]).id == c.id;
                    let w = if j < at { j } else { j + 1 };
                    assert(queued[w] == work[j]);
                }
            }
        }
    }

    proof fn lemma_pending_dropped(
        &self,
        full: Seq<SearchCandidate>,
        work: Seq<SearchCandidate>,
        expanded: Seq<bool>,
        current: Option<VectorId>,
    )
        requires
            self.pending(full, work, expanded, current),
            full.len() > 0,
        ensures
            self.pending(full.drop_last(), work, expanded, current),
    {
        let rest = full.drop_last();
        assert forall|k: int| 0 <= k < rest.len() implies {
            let c = #[trigger] rest[k];
            ||| current == Some(c.id)
            ||| in_work(work, c.id)
            ||| expanded[self.slots@[c.id] as int]
        } by {
            assert(rest[k] == full[k]);
        }
    }

    /// Once the node in `slot` has been expanded, no candidate waits for it.
    proof fn lemma_pending_done(
        &self,
        candidates: Seq<SearchCandidate>,
        work: Seq<SearchCandidate>,
        expanded: Seq<bool>,
        slot: int,
    )
        requires
            self.consistent(),
            0 <= slot < expanded.len(),
            expanded.len() == self.nodes@.len(),
            self.pending(candidates, work, expanded, Some(self.nodes@[slot].id)),
            forall|k: int|
                0 <= k < candidates.len() ==> self.slots@.contains_key((#[trigger] candidates[k]).id),
        ensures
            self.pending(candidates, work, expanded.update(slot, true), None),
    {
        let done = expanded.update(slot, true);
        assert forall|k: int| 0 <= k < candidates.len() implies {
            let c = #[trigger] candidates[k];
            ||| None::<VectorId> == Some(c.id)
            ||| in_work(work, c.id)
            ||| done[self.slots@[c.id] as int]
        } by {
            let c = candidates[k];
            if c.id == self.nodes@[slot].id {
                assert(self.slots@[self.nodes@[slot].id] == slot);
            }
        }
    }

    proof fn lemma_expanded_visit(&self, expanded: Seq<bool>, visited: Seq<bool>, slot: int, layer: int)
        requires
            self.consistent(),
            self.expanded_ok(expanded, visited, layer),
            visited.len() == self.nodes@.len(),
            0 <= slot < visited.len(),
        ensures
            self.expanded_ok(expanded, visited.update(slot, true), layer),
    {
        let seen = visited.update(slot, true);
        assert forall|s: int, k: int|
            0 <= s < expanded.len() && expanded[s] && 0 <= k < self.nodes@[s].neighbors(layer).len()
                && self.slots@.contains_key(
                #[trigger] self.nodes@[s].neighbors(layer)[k],
            ) implies seen[self.slots@[self.nodes@[s].neighbors(layer)[k]] as int] by {
            assert(visited[self.slots@[self.nodes@[s].neighbors(layer)[k]] as int]);
        }
    }

    proof fn lemma_expanded_node(&self, expanded: Seq<bool>, visited: Seq<bool>, slot: int, layer: int)
        requires
            self.consistent(),
            self.expanded_ok(expanded, visited, layer),
            visited.len() == self.nodes@.len(),
            0 <= slot < expanded.len(),
            forall|k: int|
                0 <= k < self.nodes@[slot].neighbors(layer).len() && self.slots@.contains_key(
                    #[trigger] self.nodes@[slot].neighbors(layer)[k],
                ) ==> visited[self.slots@[self.nodes@[slot].neighbors(layer)[k]] as int],
        ensures
            self.expanded_ok(expanded.update(slot, true), visited, layer),
    {
        let done = expanded.update(slot, true);
        assert forall|s: int, k: int|
            0 <= s < done.len() && done[s] && 0 <= k < self.nodes@[s].neighbors(layer).len()
                && self.slots@.contains_key(
                #[trigger] self.nodes@[s].neighbors(layer)[k],
            ) implies visited[self.slots@[self.nodes@[s].neighbors(layer)[k]] as int] by {
            if s != slot {
                assert(expanded[s]);
            }
        }
    }

    /// A node that has just become a candidate is kept.
    proof fn lemma_kept_visit<D: Fn(&Vec<u32>, &Vec<u32>, DistanceMetric) -> u32>(
        &self,
        candidates: Seq<SearchCandidate>,
        seen: Seq<bool>,
        slot: int,
        pos: int,
        query: Seq<u32>,
        dist: &D,
        wanted: int,
    )
        requires
            self.seeds_kept(candidates, seen, query, dist, wanted),
            0 <= slot < seen.len(),
            0 <= pos < candidates.len(),
            candidates[pos].id == self.nodes@[slot].id,
        ensures
            self.seeds_kept(candidates, seen.update(slot, true), query, dist, wanted),
    {
        let marked = seen.update(slot, true);
        assert forall|s: int| 0 <= s < marked.len() && #[trigger] marked[s] implies self.seed_kept(
            candidates,
            s,
            query,
            dist,
            wanted,
        ) by {
            if s != slot {
                assert(seen[s]);
            }
        }
    }

    /// A node that is met when the candidates are full, and is not nearer
    /// than the farthest of them, is kept as beaten.
    proof fn lemma_kept_rejected<D: Fn(&Vec<u32>, &Vec<u32>, DistanceMetric) -> u32>(
        &self,
        candidates: Seq<SearchCandidate>,
        seen: Seq<bool>,
        slot: int,
        distance: u32,
        query: Seq<u32>,
        dist: &D,
        wanted: int,
    )
        requires
            self.seeds_kept(candidates, seen, query, dist, wanted),
            nearest_first(candidates),
            0 <= slot < seen.len(),
            candidates.len() >= wanted,
            candidates.len() == 0 || !closer(distance, candidates.last().distance),
            distance == kernel_value(
                dist,
                query,
                self.nodes@[slot].vector@,
                self.distance_metric,
            ),
        ensures
            self.seeds_kept(candidates, seen.update(slot, true), query, dist, wanted),
    {
        let marked = seen.update(slot, true);
        assert(beaten(candidates, distance)) by {
            assert forall|k: int| 0 <= k < candidates.len() implies !closer(
                distance,
                (#[trigger] candidates[k]).distance,
            ) by {
                if k < candidates.len() - 1 {
                    assert(!closer(candidates[candidates.len() - 1].distance, candidates[k].distance));
                }
            }
        }
        assert forall|s: int| 0 <= s < marked.len() && #[trigger] marked[s] implies self.seed_kept(
            candidates,
            s,
            query,
            dist,
            wanted,
        ) by {
            if s != slot {
                assert(seen[s]);
            }
        }
    }

    /// The node in slot `s` is among the candidates.
    spec fn seed_held(&self, candidates: Seq<SearchCandidate>, s: int) -> bool {
        exists|k: int| 0 <= k < candidates.len() && (#[trigger] candidates[k]).id == self.nodes@[s].id
    }

    /// Every seed is among the candidates.
    spec fn seeds_held(&self, candidates: Seq<SearchCandidate>, seeds: Seq<bool>) -> bool {
        forall|s: int| 0 <= s < seeds.len() && #[trigger] seeds[s] ==> self.seed_held(candidates, s)
    }

    /// The node in slot `s` is among the candidates, or `wanted` candidates
    /// are held and none of them is farther from the query.
    spec fn seed_kept<D: Fn(&Vec<u32>, &Vec<u32>, DistanceMetric) -> u32>(
        &self,
        candidates: Seq<SearchCandidate>,
        s: int,
        query: Seq<u32>,
        dist: &D,
        wanted: int,
    ) -> bool {
        held_or_beaten(
            candidates,
            self.nodes@[s].id,
            kernel_value(dist, query, self.nodes@[s].vector@, self.distance_metric),
            wanted,
        ) || (candidates.len() > wanted && beaten(
            candidates,
            kernel_value(dist, query, self.nodes@[s].vector@, self.distance_metric),
        ))
    }

    spec fn seeds_kept<D: Fn(&Vec<u32>, &Vec<u32>, DistanceMetric) -> u32>(
        &self,
        candidates: Seq<SearchCandidate>,
        seeds: Seq<bool>,
        query: Seq<u32>,
        dist: &D,
        wanted: int,
    ) -> bool {
        forall|s: int|
            0 <= s < seeds.len() && #[trigger] seeds[s] ==> self.seed_kept(
                candidates,
                s,
                query,
                dist,
                wanted,
            )
    }

    proof fn lemma_seed_held(
        &self,
        before: Seq<SearchCandidate>,
        pos: int,
        item: SearchCandidate,
        seeds: Seq<bool>,
        slot: int,
    )
        requires
            self.seeds_held(before, seeds),
            0 <= pos <= before.len(),
            0 <= slot < seeds.len(),
            item.id == self.nodes@[slot].id,
        ensures
            self.seeds_held(before.insert(pos, item), seeds.update(slot, true)),
    {
        let after = before.insert(pos, item);
        let grown = seeds.update(slot, true);
        assert forall|s: int| 0 <= s < grown.len() && #[trigger] grown[s] implies self.seed_held(
            after,
            s,
        ) by {
            if s == slot {
                assert(after[pos] == item);
            } else {
                assert(seeds[s]);
                assert(self.seed_held(before, s));
                let k = choose|k: int|
                    0 <= k < before.len() && (#[trigger] before[k]).id == self.nodes@[s].id;
                let w = if k < pos { k } else { k + 1 };
                assert(after[w] == before[k]);
            }
        }
    }

    proof fn lemma_kept_added<D: Fn(&Vec<u32>, &Vec<u32>, DistanceMetric) -> u32>(
        &self,
        before: Seq<SearchCandidate>,
        pos: int,
        item: SearchCandidate,
        seeds: Seq<bool>,
        query: Seq<u32>,
        dist: &D,
        wanted: int,
    )
        requires
            self.seeds_kept(before, seeds, query, dist, wanted),
            nearest_first(before),
            0 <= pos <= before.len(),
            before.len() < wanted || (before.len() > 0 && closer(
                item.distance,
                before.last().distance,
            )),
        ensures
            self.seeds_kept(before.insert(pos, item), seeds, query, dist, wanted),
    {
        let after = before.insert(pos, item);
        assert forall|s: int| 0 <= s < seeds.len() && #[trigger] seeds[s] implies self.seed_kept(
            after,
            s,
            query,
            dist,
            wanted,
        ) by {
            assert(self.seed_kept(before, s, query, dist, wanted));
            let own = kernel_value(dist, query, self.nodes@[s].vector@, self.distance_metric);
            if exists|k: int| 0 <= k < before.len() && (#[trigger] before[k]).id == self.nodes@[s].id {
                let k = choose|k: int|
                    0 <= k < before.len() && (#[trigger] before[k]).id == self.nodes@[s].id;
                let w = if k < pos { k } else { k + 1 };
                assert(after[w] == before[k]);
            } else {
                assert(beaten(before, own));
                assert(before.len() >= wanted);
                assert(!closer(own, before[before.len() - 1].distance));
                assert forall|k: int| 0 <= k < after.len() implies !closer(
                    own,
                    (#[trigger] after[k]).distance,
                ) by {
                    if k < pos {
                        assert(after[k] == before[k]);
                    } else if k > pos {
                        assert(after[k] == before[k - 1]);
                    }
                }
                assert(beaten(after, own));
            }
        }
    }

    proof fn lemma_kept_dropped<D: Fn(&Vec<u32>, &Vec<u32>, DistanceMetric) -> u32>(
        &self,
        full: Seq<SearchCandidate>,
        visited: Seq<bool>,
        seeds: Seq<bool>,
        query: Seq<u32>,
        dist: &D,
        wanted: int,
    )
        requires
            self.consistent(),
            seeds.len() == self.nodes@.len(),
            self.candidates_ok(full, visited, query, dist),
            self.seeds_kept(full, seeds, query, dist, wanted),
            full.len() > wanted,
            full.len() > 0,
        ensures
            self.seeds_kept(full.drop_last(), seeds, query, dist, wanted),
    {
        let rest = full.drop_last();
        let last = full.len() - 1;
        assert forall|s: int| 0 <= s < seeds.len() && #[trigger] seeds[s] implies self.seed_kept(
            rest,
            s,
            query,
            dist,
            wanted,
        ) by {
            assert(self.seed_kept(full, s, query, dist, wanted));
            let own = kernel_value(dist, query, self.nodes@[s].vector@, self.distance_metric);
            if exists|k: int| 0 <= k < full.len() && (#[trigger] full[k]).id == self.nodes@[s].id {
                let k = choose|k: int|
                    0 <= k < full.len() && (#[trigger] full[k]).id == self.nodes@[s].id;
                if k < last {
                    assert(rest[k] == full[k]);
                } else {
                    assert(self.slots@[self.nodes@[s].id] == s);
                    assert(full[last].distance == own);
                    assert forall|w: int| 0 <= w < rest.len() implies !closer(
                        own,
                        (#[trigger] rest[w]).distance,
                    ) by {
                        assert(rest[w] == full[w]);
                        assert(!closer(full[last].distance, full[w].distance));
                    }
                    assert(beaten(rest, own));
                }
            } else {
                assert(beaten(full, own));
                assert forall|w: int| 0 <= w < rest.len() implies !closer(
                    own,
                    (#[trigger] rest[w]).distance,
                ) by {
                    assert(rest[w] == full[w]);
                }
                assert(beaten(rest, own));
            }
        }
    }

    proof fn lemma_candidate_added<D: Fn(&Vec<u32>, &Vec<u32>, DistanceMetric) -> u32>(
        &self,
        before: Seq<SearchCandidate>,
        pos: int,
        item: SearchCandidate,
        visited: Seq<bool>,
        slot: int,
        query: Seq<u32>,
        dist: &D,
    )
        requires
            self.consistent(),
            visited.len() == self.nodes@.len(),
            self.candidates_ok(before, visited, query, dist),
            0 <= pos <= before.len(),
            nearest_first(before.insert(pos, item)),
            self.slots@.contains_key(item.id),
            self.slots@[item.id] == slot,
            !visited[slot],
            item.distance == kernel_value(
                dist,
                query,
                self.nodes@[slot].vector@,
                self.distance_metric,
            ),
        ensures
            self.candidates_ok(before.insert(pos, item), visited.update(slot, true), query, dist),
    {
        let after = before.insert(pos, item);
        let seen = visited.update(slot, true);
        assert forall|k: int| 0 <= k < after.len() implies {
            let c = #[trigger] after[k];
            &&& self.slots@.contains_key(c.id)
            &&& seen[self.slots@[c.id] as int]
            &&& c.distance == kernel_value(
                dist,
                query,
                self.nodes@[self.slots@[c.id] as int].vector@,
                self.distance_metric,
            )
        } by {
            if k < pos {
                assert(after[k] == before[k]);
            } else if k > pos {
                assert(after[k] == before[k - 1]);
            }
        }
        assert forall|i: int, j: int| 0 <= i < j < after.len() implies after[i].id != after[j].id by {
            let bi = if i < pos { i } else { i - 1 };
            let bj = if j < pos { j } else { j - 1 };
            if i == pos {
                assert(after[j] == before[bj]);
            } else if j == pos {
                assert(after[i] == before[bi]);
            } else {
                assert(after[i] == before[bi]);
                assert(after[j] == before[bj]);
            }
        }
    }

    proof fn lemma_candidates_survive_visit<D: Fn(&Vec<u32>, &Vec<u32>, DistanceMetric) -> u32>(
        &self,
        candidates: Seq<SearchCandidate>,
        visited: Seq<bool>,
        slot: int,
        query: Seq<u32>,
        dist: &D,
    )
        requires
            self.consistent(),
            visited.len() == self.nodes@.len(),
            0 <= slot < visited.len(),
            self.candidates_ok(candidates, visited, query, dist),
        ensures
            self.candidates_ok(candidates, visited.update(slot, true), query, dist),
    {
    }

    proof fn lemma_worst_dropped<D: Fn(&Vec<u32>, &Vec<u32>, DistanceMetric) -> u32>(
        &self,
        full: Seq<SearchCandidate>,
        visited: Seq<bool>,
        query: Seq<u32>,
        dist: &D,
    )
        requires
            full.len() > 0,
            self.candidates_ok(full, visited, query, dist),
        ensures
            self.candidates_ok(full.drop_last(), visited, query, dist),
    {
        let rest = full.drop_last();
        assert forall|k: int| 0 <= k < rest.len() implies {
            let c = #[trigger] rest[k];
            &&& self.slots@.contains_key(c.id)
            &&& visited[self.slots@[c.id] as int]
            &&& c.distance == kernel_value(
                dist,
                query,
                self.nodes@[self.slots@[c.id] as int].vector@,
                self.distance_metric,
            )
        } by {
            assert(rest[k] == full[k]);
        }
    }

    /// Greedy walk towards `query`: from `start`, one search for the single
    /// nearest node at each of the layers `top`, `top - 1`, .., `floor + 1`,
    /// each search starting where the last one ended.
    pub(super) fn descend<D: Fn(&Vec<u32>, &Vec<u32>, DistanceMetric) -> u32>(
        &self,
        query: &Vec<u32>,
        start: VectorId,
        top: usize,
        floor: usize,
        dist: &D,
    ) -> (current: Vec<VectorId>)
        requires
            self.consistent(),
            self.uniform(),
            is_kernel(dist),
            query@.len() == self.spec_dimension(),
            self.graph().contains_key(start),
        ensures
            current@.len() == 1,
            self.graph().contains_key(current@[0]),
            !closer(
                kernel_value(dist, query@, self.graph()[start].vector@, self.spec_metric()),
                kernel_value(dist, query@, self.graph()[current@[0]].vector@, self.spec_metric()),
            ),
            edges_layered(self.graph()) && self.graph()[start].connections@.len() > top
                ==> self.graph()[current@[0]].connections@.len() > floor
                || self.graph()[current@[0]].connections@.len() > top,
    {
        let mut current: Vec<VectorId> = Vec::new();
        current.push(start);
        let mut layer = top;
        while layer > floor
            invariant
                self.consistent(),
                self.uniform(),
                is_kernel(dist),
                query@.len() == self.spec_dimension(),
                self.graph().contains_key(start),
                current@.len() == 1,
                self.graph().contains_key(current@[0]),
                layer <= top,
                layer == top || layer >= floor,
                edges_layered(self.graph()) && self.graph()[start].connections@.len() > top
                    ==> self.graph()[current@[0]].connections@.len() > layer,
                !closer(
                    kernel_value(dist, query@, self.graph()[start].vector@, self.spec_metric()),
                    kernel_value(
                        dist,
                        query@,
                        self.graph()[current@[0]].vector@,
                        self.spec_metric(),
                    ),
                ),
            decreases layer,
        {
            let found = self.scan_layer(query, &current, 1, layer, dist);
            assert(self.graph().contains_key(current@[0]));
            assert(found@.len() == 1);
            let ghost previous = current@[0];
            let mut next: Vec<VectorId> = Vec::new();
            next.push(found[0].id);
            current = next;
            layer -= 1;
        }
        current
    }

    /// What a search for `query` with at most `limit` answers may return:
    /// distinct live nodes, each with its distance to the query and its
    /// metadata, nearest first; none from an empty index; and from any
    /// other, with `limit > 0`, at least one, the first of them no farther
    /// from the query than the entry point. No step along an edge of the
    /// base layer improves the answers: every live neighbour of an answer
    /// at layer 0 is an answer too, unless `limit` answers are given and
    /// none of them is farther from the query.
    pub open spec fn answers<D: Fn(&Vec<u32>, &Vec<u32>, DistanceMetric) -> u32>(
        &self,
        query: Seq<u32>,
        limit: int,
        found: Seq<SearchResult>,
        dist: &D,
    ) -> bool {
        &&& found.len() <= limit
        &&& forall|k: int|
            0 <= k < found.len() ==> {
                let r = #[trigger] found[k];
                &&& self.graph().contains_key(r.id)
                &&& r.distance == kernel_value(
                    dist,
                    query,
                    self.graph()[r.id].vector@,
                    self.spec_metric(),
                )
                &&& metadata_view(r.metadata) == metadata_view(self.graph()[r.id].metadata)
            }
        &&& forall|i: int, j: int|
            #![trigger found[i], found[j]]
            0 <= i < j < found.len() ==> found[i].id != found[j].id && !closer(
                found[j].distance,
                found[i].distance,
            )
        &&& match self.entry() {
            None => found.len() == 0,
            Some(e) => limit > 0 ==> found.len() > 0 && !closer(
                kernel_value(dist, query, self.graph()[e].vector@, self.spec_metric()),
                found[0].distance,
            ),
        }
        &&& forall|k: int, j: int|
            0 <= k < found.len() && 0 <= j < self.graph()[found[k].id].neighbors(0).len()
                && self.graph().contains_key(#[trigger] self.graph()[found[k].id].neighbors(0)[j])
                ==> answered_or_beaten(
                found,
                self.graph()[found[k].id].neighbors(0)[j],
                kernel_value(
                    dist,
                    query,
                    self.graph()[self.graph()[found[k].id].neighbors(0)[j]].vector@,
                    self.spec_metric(),
                ),
                limit,
            )
    }

    /// Width of the search of the base layer: `ef`, or the configured
    /// `ef_search` where none is given, and at least `limit`.
    pub open spec fn beam_width(&self, limit: int, ef: Option<usize>) -> int {
        let wanted = match ef {
            Some(width) => width as int,
            None => self.spec_config().ef_search as int,
        };
        if wanted >= limit {
            wanted
        } else {
            limit
        }
    }

    /// The answers are the first `limit` of what a search of the base
    /// layer holds: a search of the width that `beam_width` gives, from a
    /// live node that is no farther from the query than the entry point
    /// (the end of the greedy walk).
    pub open spec fn beamed<D: Fn(&Vec<u32>, &Vec<u32>, DistanceMetric) -> u32>(
        &self,
        query: Seq<u32>,
        limit: int,
        ef: Option<usize>,
        found: Seq<SearchResult>,
        dist: &D,
    ) -> bool {
        match self.entry() {
            None => found.len() == 0,
            Some(e) => exists|start: VectorId, held: Seq<SearchCandidate>|
                #![trigger self.scanned(query, seq![start], self.beam_width(limit, ef), 0, held, dist)]
                {
                    &&& self.graph().contains_key(start)
                    &&& !closer(
                        kernel_value(dist, query, self.graph()[e].vector@, self.spec_metric()),
                        kernel_value(dist, query, self.graph()[start].vector@, self.spec_metric()),
                    )
                    &&& self.scanned(query, seq![start], self.beam_width(limit, ef), 0, held, dist)
                    &&& found.len() == if held.len() <= limit {
                        held.len() as int
                    } else {
                        limit
                    }
                    &&& forall|k: int|
                        0 <= k < found.len() ==> (#[trigger] found[k]).id == held[k].id
                            && found[k].distance == held[k].distance
                },
        }
    }

    /// The nearest neighbours of `query`: a greedy walk from the entry
    /// point down to layer 1, then a search of layer 0 with beam
    /// `max(ef, limit)`, `ef` defaulting to the configured `ef_search`, of
    /// which the `limit` nearest are returned.
    pub fn search<D: Fn(&Vec<u32>, &Vec<u32>, DistanceMetric) -> u32>(
        &self,
        query: &Vec<u32>,
        limit: usize,
        ef: Option<usize>,
        dist: &D,
    ) -> (result: Result<Vec<SearchResult>, VectorDbError>)
        requires
            self.wf(),
            is_kernel(dist),
        ensures
            query@.len() != self.spec_dimension() ==> (result matches Err(e) && e
                == dimension_mismatch(self.spec_dimension(), query@.len() as usize)),
            query@.len() == self.spec_dimension() ==> (result matches Ok(found) && self.answers(
                query@,
                limit as int,
                found@,
                dist,
            ) && self.beamed(query@, limit as int, ef, found@, dist)),
    {
        if query.len() != self.dimension {
            return Err(
                VectorDbError::InvalidDimension { expected: self.dimension, actual: query.len() },
            );
        }
        let entry_id = match self.entry_point {
            Some(id) => id,
            None => { return Ok(Vec::new()); },
        };
        proof {
            self.lemma_wf_uniform(Set::empty());
        }
        let entry_slot = self.slot_of(entry_id).unwrap();
        let entry_layer = self.nodes[entry_slot].layer;
        let ef_search = match ef {
            Some(ef) => ef,
            None => self.config.ef_search,
        };
        let current = self.descend(query, entry_id, entry_layer, 0, dist);
        let beam = if ef_search >= limit {
            ef_search
        } else {
            limit
        };
        let candidates = self.scan_layer(query, &current, beam, 0, dist);
        assert(self.graph().contains_key(current@[0]));
        assert(current@ =~= seq![current@[0]]);
        assert(beam == self.beam_width(limit as int, ef));
        let mut results: Vec<SearchResult> = Vec::new();
        let mut k: usize = 0;
        while k < candidates.len() && k < limit
            invariant
                self.consistent(),
                k <= candidates@.len(),
                k <= limit,
                results@.len() == k,
                forall|i: int|
                    0 <= i < candidates@.len() ==> self.slots@.contains_key(
                        #[trigger] candidates@[i].id,
                    ),
                forall|i: int|
                    0 <= i < k ==> {
                        let r = #[trigger] results@[i];
                        &&& r.id == candidates@[i].id
                        &&& r.distance == candidates@[i].distance
                        &&& metadata_view(r.metadata) == metadata_view(
                            self.graph()[r.id].metadata,
                        )
                    },
            decreases candidates@.len() - k,
        {
            let candidate = candidates[k];
            let slot = self.slot_of(candidate.id).unwrap();
            results.push(
                SearchResult {
                    id: candidate.id,
                    distance: candidate.distance,
                    metadata: copy_metadata(&self.nodes[slot].metadata),
                },
            );
            k += 1;
        }
        proof {
            let found = results@;
            assert forall|k: int, j: int|
                0 <= k < found.len() && 0 <= j < self.graph()[found[k].id].neighbors(0).len()
                    && self.graph().contains_key(
                    #[trigger] self.graph()[found[k].id].neighbors(0)[j],
                ) implies answered_or_beaten(
                found,
                self.graph()[found[k].id].neighbors(0)[j],
                kernel_value(
                    dist,
                    query@,
                    self.graph()[self.graph()[found[k].id].neighbors(0)[j]].vector@,
                    self.spec_metric(),
                ),
                limit as int,
            ) by {
                let n = self.graph()[found[k].id].neighbors(0)[j];
                let own = kernel_value(
                    dist,
                    query@,
                    self.graph()[n].vector@,
                    self.spec_metric(),
                );
                assert(found[k].id == candidates@[k].id);
                assert(self.graph()[candidates@[k].id].neighbors(0)[j] == n);
                assert(held_or_beaten(candidates@, n, own, beam as int));
                if exists|i: int| 0 <= i < candidates@.len() && (#[trigger] candidates@[i]).id == n {
                    let i = choose|i: int|
                        0 <= i < candidates@.len() && (#[trigger] candidates@[i]).id == n;
                    if i < found.len() {
                        assert(found[i].id == n);
                    } else {
                        assert(candidates@[i].distance == own);
                        assert forall|w: int| 0 <= w < found.len() implies !closer(
                            own,
                            (#[trigger] found[w]).distance,
                        ) by {
                            assert(found[w].distance == candidates@[w].distance);
                            assert(!closer(candidates@[i].distance, candidates@[w].distance));
                        }
                    }
                } else {
                    assert(beaten(candidates@, own));
                    assert forall|w: int| 0 <= w < found.len() implies !closer(
                        own,
                        (#[trigger] found[w]).distance,
                    ) by {
                        assert(found[w].distance == candidates@[w].distance);
                    }
                }
            }
        }
        Ok(results)
    }
}

} // verus!
