//! Laws of the index, proved from the contracts of its operations.

use vstd::prelude::*;
use crate::hnsw::search::answered_or_beaten;
use crate::hnsw::insert::linked;
use crate::hnsw::{edges_layered, layer_cap, HnswIndex, SearchResult};
use crate::ordering::closer;
use crate::node::HnswNode;
use crate::types::{DistanceMetric, MetadataEntry, VectorId};

verus! {

/// Every edge between live nodes has its reverse at the same layer.
pub open spec fn symmetric(graph: Map<VectorId, HnswNode>) -> bool {
    forall|a: VectorId, l: int, k: int|
        graph.contains_key(a) && 0 <= l < graph[a].connections@.len() && 0 <= k
            < graph[a].connections@[l]@.len() && graph.contains_key(
            #[trigger] graph[a].connections@[l]@[k],
        ) ==> graph[graph[a].connections@[l]@[k]].neighbors(l).contains(a)
}

/// No live node has a higher top layer than the entry point.
pub open spec fn entry_is_top(graph: Map<VectorId, HnswNode>, entry: Option<VectorId>) -> bool {
    match entry {
        Some(e) => forall|x: VectorId| #[trigger]
            graph.contains_key(x) ==> graph[x].layer <= graph[e].layer,
        None => true,
    }
}

/// Degree cap: in a well-formed index no node has more than `2M`
/// neighbours at layer 0 or more than `M` at a higher layer.
pub proof fn lemma_degree_cap(index: &HnswIndex, id: VectorId, layer: int)
    requires
        index.wf(),
        index.graph().contains_key(id),
        0 <= layer,
    ensures
        index.graph()[id].neighbors(layer).len() <= layer_cap(index.spec_config(), layer),
        layer == 0 ==> index.graph()[id].neighbors(layer).len() <= 2
            * index.spec_config().max_connections,
        layer > 0 ==> index.graph()[id].neighbors(layer).len()
            <= index.spec_config().max_connections,
{
    index.lemma_wf_graph();
    let node = index.graph()[id];
    if layer <= node.layer {
        assert(node.neighbors(layer).len() <= layer_cap(index.spec_config(), layer));
    }
}

/// A graph in which every edge has its reverse leads, at each layer, only
/// to nodes that have the layer.
pub proof fn lemma_symmetric_is_layered(graph: Map<VectorId, HnswNode>)
    requires
        symmetric(graph),
    ensures
        edges_layered(graph),
{
    assert forall|a: VectorId, l: int, k: int|
        graph.contains_key(a) && 0 <= l < graph[a].connections@.len() && 0 <= k
            < graph[a].connections@[l]@.len() && graph.contains_key(
            #[trigger] graph[a].connections@[l]@[k],
        ) implies graph[graph[a].connections@[l]@[k]].connections@.len() > l by {
        let b = graph[a].connections@[l]@[k];
        assert(graph[b].neighbors(l).contains(a));
    }
}

/// Symmetry on delete: taking a node out of a symmetric graph leaves a
/// symmetric graph.
pub proof fn lemma_delete_keeps_symmetry(before: &HnswIndex, after: &HnswIndex, id: VectorId)
    requires
        before.deleted(after, id),
        symmetric(before.graph()),
    ensures
        symmetric(after.graph()),
{
    let g = before.graph();
    let h = after.graph();
    assert forall|a: VectorId, l: int, k: int|
        h.contains_key(a) && 0 <= l < h[a].connections@.len() && 0 <= k
            < h[a].connections@[l]@.len() && h.contains_key(
            #[trigger] h[a].connections@[l]@[k],
        ) implies h[h[a].connections@[l]@[k]].neighbors(l).contains(a) by {
        let b = h[a].connections@[l]@[k];
        assert(h.contains_key(a) && h.contains_key(b));
        let was = g[a].neighbors(l);
        assert(h[a].neighbors(l) == was.remove_value(id));
        was.index_of_first_ensures(id);
        let w: int = match was.index_of_first(id) {
            Some(at) => if k < at {
                k
            } else {
                k + 1
            },
            None => k,
        };
        assert(was[w] == b);
        assert(g[a].connections@[l]@[w] == b);
        assert(g[b].neighbors(l).contains(a));
        assert(l < g[b].connections@.len());
        let back = g[b].neighbors(l);
        assert(h[b].neighbors(l) == back.remove_value(id));
        back.index_of_first_ensures(id);
        let p = choose|p: int| 0 <= p < back.len() && back[p] == a;
        match back.index_of_first(id) {
            Some(at) => {
                let q = if p < at { p } else { p - 1 };
                assert(back.remove(at)[q] == a);
            },
            None => {},
        }
    }
}

/// Symmetry on insert: storing a node under an id that was not live, in a
/// symmetric graph, leaves the graph symmetric. The new edges go both
/// ways, and where a full list drops a neighbour for the new node, the
/// neighbour drops its edge to the list's owner.
pub proof fn lemma_insert_keeps_symmetry(
    before: &HnswIndex,
    after: &HnswIndex,
    id: VectorId,
    vector: Seq<u32>,
    metadata: Option<Seq<MetadataEntry>>,
    layer: int,
)
    requires
        before.wf(),
        symmetric(before.graph()),
        !before.graph().contains_key(id),
        before.inserted(after, id, vector, metadata, layer),
        after.wf(),
    ensures
        symmetric(after.graph()),
{
    let g = before.graph();
    let h = after.graph();
    before.lemma_wf_graph();
    after.lemma_wf_graph();
    assert(h.contains_key(id));
    assert forall|a: VectorId, l: int, k: int|
        h.contains_key(a) && 0 <= l < h[a].connections@.len() && 0 <= k
            < h[a].connections@[l]@.len() && h.contains_key(
            #[trigger] h[a].connections@[l]@[k],
        ) implies h[h[a].connections@[l]@[k]].neighbors(l).contains(a) by {
        let b = h[a].connections@[l]@[k];
        let chosen = h[id].neighbors(l);
        assert(linked(g, h, chosen, id, l));
        assert(h[a].neighbors(l)[k] == b);
        assert(h[a].neighbors(l).contains(b));
        if a == id {
            assert(chosen.contains(b));
            assert(g.contains_key(b));
            assert(h[b].neighbors(l).contains(id));
        } else if b == id {
            assert(g.contains_key(a));
            assert(chosen.contains(a));
        } else {
            assert(g.contains_key(a));
            assert(g.contains_key(b));
            assert(g[a].neighbors(l).contains(b));
            let at = choose|at: int| 0 <= at < g[a].neighbors(l).len() && g[a].neighbors(l)[at] == b;
            assert(g[a].connections@[l]@[at] == b);
            assert(g[b].neighbors(l).contains(a));
        }
    }
}

/// No self-loops on insert: where no node lists itself and a node is
/// stored under an id that was not live, still none does.
pub proof fn lemma_insert_keeps_loop_free(
    before: &HnswIndex,
    after: &HnswIndex,
    id: VectorId,
    vector: Seq<u32>,
    metadata: Option<Seq<MetadataEntry>>,
    layer: int,
)
    requires
        before.wf(),
        forall|x: VectorId, l: int|
            before.graph().contains_key(x) ==> !(#[trigger] before.graph()[x].neighbors(l)).contains(
                x,
            ),
        !before.graph().contains_key(id),
        before.inserted(after, id, vector, metadata, layer),
        after.wf(),
    ensures
        forall|x: VectorId, l: int|
            after.graph().contains_key(x) ==> !(#[trigger] after.graph()[x].neighbors(l)).contains(x),
{
    let g = before.graph();
    let h = after.graph();
    assert forall|x: VectorId, l: int| h.contains_key(x) implies !(#[trigger] h[x].neighbors(
        l,
    )).contains(x) by {
        if h[x].neighbors(l).contains(x) {
            if x == id {
                let k = choose|k: int| 0 <= k < h[id].neighbors(l).len() && h[id].neighbors(l)[k] == id;
                assert(0 <= l <= layer) by {
                    after.lemma_wf_graph();
                }
                assert(g.contains_key(h[id].neighbors(l)[k]));
            } else {
                assert(g.contains_key(x));
                assert(0 <= l);
                assert(linked(g, h, h[id].neighbors(l), id, l));
                assert(g[x].neighbors(l).contains(x));
            }
        }
    }
}

/// Entry point on insert: where the entry point has the greatest top layer
/// and a node is stored under an id that was not live, it still has.
pub proof fn lemma_insert_keeps_entry_top(
    before: &HnswIndex,
    after: &HnswIndex,
    id: VectorId,
    vector: Seq<u32>,
    metadata: Option<Seq<MetadataEntry>>,
    layer: int,
)
    requires
        before.wf(),
        entry_is_top(before.graph(), before.entry()),
        !before.graph().contains_key(id),
        before.inserted(after, id, vector, metadata, layer),
    ensures
        entry_is_top(after.graph(), after.entry()),
{
    before.lemma_wf_graph();
    let g = before.graph();
    let h = after.graph();
    let e = after.entry().unwrap();
    assert forall|x: VectorId| #[trigger] h.contains_key(x) implies h[x].layer <= h[e].layer by {
        if x != id {
            assert(g.contains_key(x));
        }
        match before.entry() {
            Some(old_entry) => {
                assert(g.contains_key(old_entry));
            },
            None => {},
        }
    }
}

/// Entry point on delete: where the entry point has the greatest top layer
/// and a node is deleted, the entry point that is left still has.
pub proof fn lemma_delete_keeps_entry_top(before: &HnswIndex, after: &HnswIndex, id: VectorId)
    requires
        before.wf(),
        entry_is_top(before.graph(), before.entry()),
        before.deleted(after, id),
    ensures
        entry_is_top(after.graph(), after.entry()),
{
    before.lemma_wf_graph();
    let g = before.graph();
    let h = after.graph();
    match after.entry() {
        Some(e) => {
            assert forall|x: VectorId| #[trigger] h.contains_key(x) implies h[x].layer
                <= h[e].layer by {
                if before.entry() != Some(id) {
                    assert(g.contains_key(x));
                    assert(g.contains_key(e));
                    if !h.contains_key(e) {
                        assert(e == id);
                    }
                }
            }
        },
        None => {},
    }
}

/// Delete, then search: an id that was deleted is in no answer, whatever
/// the query.
pub proof fn lemma_deleted_is_not_found<D: Fn(&Vec<u32>, &Vec<u32>, DistanceMetric) -> u32>(
    before: &HnswIndex,
    after: &HnswIndex,
    id: VectorId,
    query: Seq<u32>,
    limit: int,
    found: Seq<SearchResult>,
    dist: &D,
)
    requires
        before.deleted(after, id),
        after.answers(query, limit, found, dist),
    ensures
        forall|k: int| 0 <= k < found.len() ==> (#[trigger] found[k]).id != id,
{
    assert forall|k: int| 0 <= k < found.len() implies (#[trigger] found[k]).id != id by {
        assert(after.graph().contains_key(found[k].id));
    }
}

/// The ids live after a run of inserts into an empty index are the ids
/// that were inserted.
pub proof fn lemma_live_ids_were_inserted(
    states: Seq<HnswIndex>,
    ids: Seq<VectorId>,
    vectors: Seq<Seq<u32>>,
    metadata: Seq<Option<Seq<MetadataEntry>>>,
    layers: Seq<int>,
)
    requires
        states.len() == ids.len() + 1,
        vectors.len() == ids.len(),
        metadata.len() == ids.len(),
        layers.len() == ids.len(),
        states[0].graph() == Map::<VectorId, HnswNode>::empty(),
        forall|i: int|
            0 <= i < ids.len() ==> (#[trigger] states[i]).inserted(
                &states[i + 1],
                ids[i],
                vectors[i],
                metadata[i],
                layers[i],
            ),
    ensures
        states.last().graph().dom() == ids.to_set(),
    decreases ids.len(),
{
    if ids.len() == 0 {
        assert(states.last().graph().dom() =~= ids.to_set());
    } else {
        let n = ids.len() - 1;
        lemma_live_ids_were_inserted(
            states.drop_last(),
            ids.drop_last(),
            vectors.drop_last(),
            metadata.drop_last(),
            layers.drop_last(),
        );
        assert(states.drop_last().last() == states[n]);
        assert(states[n].inserted(&states[n + 1], ids[n], vectors[n], metadata[n], layers[n]));
        assert(states.last() == states[n + 1]);
        assert(ids.drop_last().push(ids[n]) =~= ids);
        ids.drop_last().lemma_push_to_set_commute(ids[n]);
        assert(ids.to_set() =~= ids.drop_last().to_set().insert(ids[n]));
    }
}

/// Every answer of a search, after any run of inserts into an empty
/// index, has the id of a vector that was inserted.
pub proof fn lemma_answers_were_inserted<D: Fn(&Vec<u32>, &Vec<u32>, DistanceMetric) -> u32>(
    states: Seq<HnswIndex>,
    ids: Seq<VectorId>,
    vectors: Seq<Seq<u32>>,
    metadata: Seq<Option<Seq<MetadataEntry>>>,
    layers: Seq<int>,
    query: Seq<u32>,
    limit: int,
    found: Seq<SearchResult>,
    dist: &D,
)
    requires
        states.len() == ids.len() + 1,
        vectors.len() == ids.len(),
        metadata.len() == ids.len(),
        layers.len() == ids.len(),
        states[0].graph() == Map::<VectorId, HnswNode>::empty(),
        forall|i: int|
            0 <= i < ids.len() ==> (#[trigger] states[i]).inserted(
                &states[i + 1],
                ids[i],
                vectors[i],
                metadata[i],
                layers[i],
            ),
        states.last().answers(query, limit, found, dist),
    ensures
        forall|k: int| 0 <= k < found.len() ==> ids.contains((#[trigger] found[k]).id),
{
    lemma_live_ids_were_inserted(states, ids, vectors, metadata, layers);
    assert forall|k: int| 0 <= k < found.len() implies ids.contains((#[trigger] found[k]).id) by {
        assert(states.last().graph().contains_key(found[k].id));
        assert(ids.to_set().contains(found[k].id));
    }
}

/// Self-query in an index of one node: after a vector was stored in an
/// empty index, a search for it with `limit > 0` answers with exactly that
/// node, at the distance that the kernel gives the vector from itself.
pub proof fn lemma_single_node_self_query<D: Fn(&Vec<u32>, &Vec<u32>, DistanceMetric) -> u32>(
    before: &HnswIndex,
    after: &HnswIndex,
    id: VectorId,
    vector: Seq<u32>,
    metadata: Option<Seq<MetadataEntry>>,
    layer: int,
    limit: int,
    found: Seq<SearchResult>,
    dist: &D,
)
    requires
        before.graph() == Map::<VectorId, HnswNode>::empty(),
        before.entry() is None,
        before.inserted(after, id, vector, metadata, layer),
        after.answers(vector, limit, found, dist),
        limit > 0,
    ensures
        found.len() == 1,
        found[0].id == id,
        found[0].distance == crate::distance::kernel_value(
            dist,
            vector,
            vector,
            after.spec_metric(),
        ),
{
    assert(after.graph().dom() =~= set![id]);
    assert(found.len() > 0);
    assert(after.graph().contains_key(found[0].id));
    if found.len() > 1 {
        assert(after.graph().contains_key(found[1].id));
        assert(found[0].id != found[1].id);
    }
}

/// The first answer is a local minimum: neither an answer nor a live
/// neighbour of an answer in the base layer is nearer to the query.
pub proof fn lemma_first_answer_is_local_minimum<D: Fn(&Vec<u32>, &Vec<u32>, DistanceMetric) -> u32>(
    index: &HnswIndex,
    query: Seq<u32>,
    limit: int,
    found: Seq<SearchResult>,
    dist: &D,
    k: int,
    j: int,
)
    requires
        index.answers(query, limit, found, dist),
        0 <= k < found.len(),
        0 <= j < index.graph()[found[k].id].neighbors(0).len(),
        index.graph().contains_key(index.graph()[found[k].id].neighbors(0)[j]),
    ensures
        !closer(found[k].distance, found[0].distance),
        !closer(
            crate::distance::kernel_value(
                dist,
                query,
                index.graph()[index.graph()[found[k].id].neighbors(0)[j]].vector@,
                index.spec_metric(),
            ),
            found[0].distance,
        ),
{
    let n = index.graph()[found[k].id].neighbors(0)[j];
    let own = crate::distance::kernel_value(
        dist,
        query,
        index.graph()[n].vector@,
        index.spec_metric(),
    );
    if k > 0 {
        assert(!closer(found[k].distance, found[0].distance));
    }
    assert(answered_or_beaten(found, n, own, limit));
    if exists|i: int| 0 <= i < found.len() && (#[trigger] found[i]).id == n {
        let i = choose|i: int| 0 <= i < found.len() && (#[trigger] found[i]).id == n;
        assert(found[i].distance == own);
        if i > 0 {
            assert(!closer(found[i].distance, found[0].distance));
        }
    }
}

/// Self-query: where the node of `id` is an answer, or a base-layer
/// neighbour of an answer, the first answer is no farther from the query
/// than that node. So a search for a stored vector that reaches the
/// vector's neighbourhood answers at the vector's distance from itself, or
/// nearer.
pub proof fn lemma_self_query_is_not_beaten<D: Fn(&Vec<u32>, &Vec<u32>, DistanceMetric) -> u32>(
    index: &HnswIndex,
    id: VectorId,
    limit: int,
    found: Seq<SearchResult>,
    dist: &D,
)
    requires
        index.graph().contains_key(id),
        index.answers(index.graph()[id].vector@, limit, found, dist),
        found.len() > 0,
        (exists|k: int| 0 <= k < found.len() && (#[trigger] found[k]).id == id) || (exists|
            k: int,
            j: int,
        |
            0 <= k < found.len() && 0 <= j < index.graph()[found[k].id].neighbors(0).len()
                && #[trigger] index.graph()[found[k].id].neighbors(0)[j] == id),
    ensures
        !closer(
            crate::distance::kernel_value(
                dist,
                index.graph()[id].vector@,
                index.graph()[id].vector@,
                index.spec_metric(),
            ),
            found[0].distance,
        ),
{
    let query = index.graph()[id].vector@;
    if exists|k: int| 0 <= k < found.len() && (#[trigger] found[k]).id == id {
        let k = choose|k: int| 0 <= k < found.len() && (#[trigger] found[k]).id == id;
        if k > 0 {
            assert(!closer(found[k].distance, found[0].distance));
        }
    } else {
        let (k, j) = choose|k: int, j: int|
            0 <= k < found.len() && 0 <= j < index.graph()[found[k].id].neighbors(0).len()
                && #[trigger] index.graph()[found[k].id].neighbors(0)[j] == id;
        lemma_first_answer_is_local_minimum(index, query, limit, found, dist, k, j);
    }
}

} // verus!
