//! Hierarchical navigable small-world index.
//!
//! This module holds the index, its invariant and what can be read from
//! it; the operations stand in the modules below it.

use vstd::prelude::*;
use std::collections::HashMap;
use rand::rngs::StdRng;
use crate::node::{add_clamped, clamp, HnswNode, SearchCandidate};
use crate::random::{seeded_generator, system_generator};
use crate::types::{DistanceMetric, IndexConfig, MetadataEntry, VectorId};

pub mod delete;
pub mod insert;
pub mod search;
pub mod snapshot;

verus! {

broadcast use vstd::std_specs::hash::group_hash_axioms;

/// The proximity graph of one collection.
///
/// Nodes live in an arena; `slots` maps each live id to its place there.
pub struct HnswIndex {
    nodes: Vec<HnswNode>,
    slots: HashMap<VectorId, usize>,
    entry_point: Option<VectorId>,
    config: IndexConfig,
    distance_metric: DistanceMetric,
    dimension: usize,
    rng: StdRng,
}

/// Most neighbours a node may keep at `layer`: `2M` at layer 0, `M` above.
pub open spec fn layer_cap(config: IndexConfig, layer: int) -> int {
    if layer == 0 {
        2 * config.max_connections
    } else {
        config.max_connections as int
    }
}

/// No two candidates name the same node.
pub open spec fn distinct_ids(s: Seq<SearchCandidate>) -> bool {
    forall|i: int, j: int| 0 <= i < j < s.len() ==> s[i].id != s[j].id
}

/// Two nodes that agree in everything but their adjacency lists.
pub open spec fn same_payload(a: HnswNode, b: HnswNode) -> bool {
    &&& a.id == b.id
    &&& a.vector == b.vector
    &&& a.metadata == b.metadata
    &&& a.layer == b.layer
    &&& a.connections@.len() == b.connections@.len()
}

/// `now` is `was` with the first occurrence of `id` taken out of every
/// adjacency list.
pub open spec fn stripped(was: HnswNode, now: HnswNode, id: VectorId) -> bool {
    &&& same_payload(was, now)
    &&& forall|l: int|
        0 <= l < was.connections@.len() ==> (#[trigger] now.connections@[l])@
            == was.connections@[l]@.remove_value(id)
}

/// One answer of a search: a live node, its distance to the query (a
/// binary32 bit pattern) and its metadata.
#[derive(Debug, Clone)]
pub struct SearchResult {
    pub id: VectorId,
    pub distance: u32,
    pub metadata: Option<Vec<MetadataEntry>>,
}

/// Figures of an index.
#[derive(Debug, Clone, Copy, PartialEq, Eq, Structural)]
pub struct IndexStats {
    pub vector_count: usize,
    pub memory_usage: usize,
    pub dimension: usize,
    pub max_layer: usize,
    pub total_connections: usize,
}

/// Sum of the nodes' footprints.
pub open spec fn total_footprint(nodes: Seq<HnswNode>) -> nat
    decreases nodes.len(),
{
    if nodes.len() == 0 {
        0
    } else {
        total_footprint(nodes.drop_last()) + nodes.last().footprint()
    }
}

/// Number of edges, each counted at the node it leaves.
pub open spec fn total_links(nodes: Seq<HnswNode>) -> nat
    decreases nodes.len(),
{
    if nodes.len() == 0 {
        0
    } else {
        total_links(nodes.drop_last()) + nodes.last().links()
    }
}

/// Greatest top layer among the nodes, 0 where there is none.
pub open spec fn top_layer(nodes: Seq<HnswNode>) -> nat
    decreases nodes.len(),
{
    if nodes.len() == 0 {
        0
    } else if nodes.last().layer > top_layer(nodes.drop_last()) {
        nodes.last().layer as nat
    } else {
        top_layer(nodes.drop_last())
    }
}

/// What the index invariant says of the graph: every node is stored under
/// its own id, has a vector of the index's dimension and the layers
/// `0..=layer` with `layer <= max_layer`; every adjacency list respects its
/// layer's cap, repeats no id and names live nodes only; the entry point is
/// live, and absent exactly when the graph is empty; and `max_layer` is
/// below `usize::MAX`.
pub open spec fn graph_wf(
    graph: Map<VectorId, HnswNode>,
    entry: Option<VectorId>,
    config: IndexConfig,
    dimension: usize,
) -> bool {
    &&& forall|id: VectorId| #[trigger]
        graph.contains_key(id) ==> {
            let node = graph[id];
            &&& node.id == id
            &&& node.vector@.len() == dimension
            &&& node.layered()
            &&& node.layer <= config.max_layer
            &&& forall|l: int|
                0 <= l <= node.layer ==> {
                    let list = #[trigger] node.neighbors(l);
                    &&& list.len() <= layer_cap(config, l)
                    &&& list.no_duplicates()
                    &&& forall|k: int| 0 <= k < list.len() ==> graph.contains_key(#[trigger] list[k])
                }
        }
    &&& match entry {
        Some(e) => graph.contains_key(e),
        None => graph.dom() == Set::<VectorId>::empty(),
    }
    &&& config.max_layer < usize::MAX
}

/// Every edge at a layer leads to a node that has that layer.
pub open spec fn edges_layered(graph: Map<VectorId, HnswNode>) -> bool {
    forall|a: VectorId, l: int, k: int|
        graph.contains_key(a) && 0 <= l < graph[a].connections@.len() && 0 <= k
            < graph[a].connections@[l]@.len() && graph.contains_key(
            #[trigger] graph[a].connections@[l]@[k],
        ) ==> graph[graph[a].connections@[l]@[k]].connections@.len() > l
}

/// Every live node among `ids` has the layer `layer`.
pub open spec fn all_reach(graph: Map<VectorId, HnswNode>, ids: Seq<VectorId>, layer: int) -> bool {
    forall|e: int|
        0 <= e < ids.len() && graph.contains_key(#[trigger] ids[e])
            ==> graph[ids[e]].connections@.len() > layer
}

/// Every candidate has the layer `layer`.
pub open spec fn candidates_reach(
    graph: Map<VectorId, HnswNode>,
    candidates: Seq<SearchCandidate>,
    layer: int,
) -> bool {
    forall|k: int|
        0 <= k < candidates.len() ==> graph[(#[trigger] candidates[k]).id].connections@.len()
            > layer
}

/// The cap of `layer`, held to `usize::MAX`.
pub open spec fn usable_cap(config: IndexConfig, layer: int) -> int {
    if layer_cap(config, layer) <= usize::MAX {
        layer_cap(config, layer)
    } else {
        usize::MAX as int
    }
}

/// The most neighbours that a list at `layer` may hold, held to
/// `usize::MAX`.
pub fn cap_of(config: &IndexConfig, layer: usize) -> (cap: usize)
    ensures
        cap == usable_cap(*config, layer as int),
{
    if layer == 0 {
        if config.max_connections > usize::MAX / 2 {
            usize::MAX
        } else {
            config.max_connections * 2
        }
    } else {
        config.max_connections
    }
}

impl HnswIndex {
    /// The arena and the slot map describe the same set of nodes.
    spec fn consistent(&self) -> bool {
        &&& forall|i: int|
            0 <= i < self.nodes@.len() ==> self.slots@.contains_key(#[trigger] self.nodes@[i].id)
                && self.slots@[self.nodes@[i].id] == i
        &&& forall|id: VectorId| #[trigger]
            self.slots@.contains_key(id) ==> self.slots@[id] < self.nodes@.len()
                && self.nodes@[self.slots@[id] as int].id == id
    }

    /// The live nodes, by id.
    pub closed spec fn graph(&self) -> Map<VectorId, HnswNode> {
        Map::new(
            |id: VectorId| self.slots@.contains_key(id),
            |id: VectorId| self.nodes@[self.slots@[id] as int],
        )
    }

    /// The live nodes in the order in which the index keeps them.
    pub closed spec fn arena(&self) -> Seq<HnswNode> {
        self.nodes@
    }

    /// The node at which every search begins, if the index is not empty.
    pub closed spec fn entry(&self) -> Option<VectorId> {
        self.entry_point
    }

    pub closed spec fn spec_config(&self) -> IndexConfig {
        self.config
    }

    pub closed spec fn spec_metric(&self) -> DistanceMetric {
        self.distance_metric
    }

    pub closed spec fn spec_dimension(&self) -> usize {
        self.dimension
    }

    /// Every stored vector has the index's dimension.
    spec fn uniform(&self) -> bool {
        forall|i: int|
            0 <= i < self.nodes@.len() ==> (#[trigger] self.nodes@[i]).vector@.len()
                == self.dimension
    }

    /// An adjacency list at `layer` respects the layer's cap, repeats no
    /// id, and names only live nodes or members of `pending`.
    spec fn list_ok(&self, list: Seq<VectorId>, layer: int, pending: Set<VectorId>) -> bool {
        &&& list.len() <= layer_cap(self.config, layer)
        &&& list.no_duplicates()
        &&& forall|k: int|
            0 <= k < list.len() ==> self.slots@.contains_key(#[trigger] list[k])
                || pending.contains(list[k])
    }

    spec fn node_ok(&self, node: HnswNode, pending: Set<VectorId>) -> bool {
        &&& node.layered()
        &&& node.layer <= self.config.max_layer
        &&& node.vector@.len() == self.dimension
        &&& forall|l: int|
            0 <= l < node.connections@.len() ==> self.list_ok(
                (#[trigger] node.connections@[l])@,
                l,
                pending,
            )
    }

    /// Well-formedness while the ids in `pending` are about to be stored.
    spec fn wf_pending(&self, pending: Set<VectorId>) -> bool {
        &&& self.consistent()
        &&& self.config.max_layer < usize::MAX
        &&& forall|i: int|
            0 <= i < self.nodes@.len() ==> self.node_ok(#[trigger] self.nodes@[i], pending)
        &&& match self.entry_point {
            Some(e) => self.slots@.contains_key(e),
            None => self.nodes@.len() == 0,
        }
    }

    /// The index invariant: the arena and the slot map agree, every node
    /// owns the layers `0..=layer` with `layer` within the configured
    /// maximum, every stored vector has the index's dimension, every
    /// adjacency list respects its cap, repeats no id and names live nodes
    /// only, and the entry point is live and present exactly when the index
    /// is not empty.
    pub closed spec fn wf(&self) -> bool {
        self.wf_pending(Set::empty())
    }

    /// `after` differs from `self` at most in the state of the generator.
    pub open spec fn same_contents(&self, after: &HnswIndex) -> bool {
        &&& after.graph() == self.graph()
        &&& after.entry() == self.entry()
        &&& after.spec_config() == self.spec_config()
        &&& after.spec_metric() == self.spec_metric()
        &&& after.spec_dimension() == self.spec_dimension()
        &&& after.wf() == self.wf()
    }

    /// `after` holds the same nodes as `self`; only adjacency lists may
    /// differ.
    spec fn same_skeleton(&self, after: &HnswIndex) -> bool {
        &&& after.slots@ == self.slots@
        &&& after.nodes@.len() == self.nodes@.len()
        &&& after.entry_point == self.entry_point
        &&& after.config == self.config
        &&& after.distance_metric == self.distance_metric
        &&& after.dimension == self.dimension
        &&& forall|i: int|
            0 <= i < self.nodes@.len() ==> same_payload(
                self.nodes@[i],
                #[trigger] after.nodes@[i],
            )
    }

    /// An empty index whose layer draws follow the stream of `seed`.
    pub fn with_seed(
        config: IndexConfig,
        distance_metric: DistanceMetric,
        dimension: usize,
        seed: u64,
    ) -> (index: Self)
        requires
            config.max_layer < usize::MAX,
        ensures
            index.wf(),
            index.graph() == Map::<VectorId, HnswNode>::empty(),
            index.entry() is None,
            index.spec_config() == config,
            index.spec_metric() == distance_metric,
            index.spec_dimension() == dimension,
    {
        let index = HnswIndex {
            nodes: Vec::new(),
            slots: HashMap::new(),
            entry_point: None,
            config,
            distance_metric,
            dimension,
            rng: seeded_generator(seed),
        };
        assert(index.graph() =~= Map::<VectorId, HnswNode>::empty());
        index
    }

    /// An empty index whose layer draws are seeded by the operating system.
    pub fn new(config: IndexConfig, distance_metric: DistanceMetric, dimension: usize) -> (index:
        Self)
        requires
            config.max_layer < usize::MAX,
        ensures
            index.wf(),
            index.graph() == Map::<VectorId, HnswNode>::empty(),
            index.entry() is None,
            index.spec_config() == config,
            index.spec_metric() == distance_metric,
            index.spec_dimension() == dimension,
    {
        let rng = match system_generator() {
            Some(rng) => rng,
            None => seeded_generator(0),
        };
        let index = HnswIndex {
            nodes: Vec::new(),
            slots: HashMap::new(),
            entry_point: None,
            config,
            distance_metric,
            dimension,
            rng,
        };
        assert(index.graph() =~= Map::<VectorId, HnswNode>::empty());
        index
    }

    /// Number of live nodes.
    pub fn len(&self) -> (count: usize)
        ensures
            count == self.arena().len(),
    {
        self.nodes.len()
    }

    /// Whether `id` is live.
    pub fn contains(&self, id: &VectorId) -> (found: bool)
        requires
            self.wf(),
        ensures
            found == self.graph().contains_key(*id),
    {
        self.slot_of(*id).is_some()
    }

    /// The node of `id`.
    pub fn node(&self, id: &VectorId) -> (node: Option<&HnswNode>)
        requires
            self.wf(),
        ensures
            match node {
                Some(node) => self.graph().contains_key(*id) && *node == self.graph()[*id],
                None => !self.graph().contains_key(*id),
            },
    {
        match self.slot_of(*id) {
            Some(slot) => Some(&self.nodes[slot]),
            None => None,
        }
    }

    /// The ids of the live nodes, in the order of the arena.
    pub fn ids(&self) -> (ids: Vec<VectorId>)
        ensures
            ids@.len() == self.arena().len(),
            forall|i: int| 0 <= i < ids@.len() ==> #[trigger] ids@[i] == self.arena()[i].id,
    {
        let mut ids: Vec<VectorId> = Vec::new();
        let mut i: usize = 0;
        while i < self.nodes.len()
            invariant
                i <= self.nodes@.len(),
                ids@.len() == i,
                forall|k: int| 0 <= k < i ==> #[trigger] ids@[k] == self.nodes@[k].id,
            decreases self.nodes@.len() - i,
        {
            ids.push(self.nodes[i].id);
            i += 1;
        }
        ids
    }

    /// The node at which every search begins.
    pub fn entry_point(&self) -> (entry: Option<VectorId>)
        ensures
            entry == self.entry(),
    {
        self.entry_point
    }

    pub fn config(&self) -> (config: IndexConfig)
        ensures
            config == self.spec_config(),
    {
        self.config
    }

    pub fn distance_metric(&self) -> (metric: DistanceMetric)
        ensures
            metric == self.spec_metric(),
    {
        self.distance_metric
    }

    pub fn dimension(&self) -> (dimension: usize)
        ensures
            dimension == self.spec_dimension(),
    {
        self.dimension
    }

    /// Figures of the index: the number of nodes, the sum of their
    /// footprints, the dimension, the greatest top layer and the number of
    /// edges, the sums held to `usize::MAX`.
    pub fn stats(&self) -> (stats: IndexStats)
        ensures
            stats.vector_count == self.arena().len(),
            stats.memory_usage == clamp(total_footprint(self.arena()) as int),
            stats.dimension == self.spec_dimension(),
            stats.max_layer == top_layer(self.arena()),
            stats.total_connections == clamp(total_links(self.arena()) as int),
    {
        let mut memory_usage: usize = 0;
        let mut max_layer: usize = 0;
        let mut total_connections: usize = 0;
        let mut i: usize = 0;
        while i < self.nodes.len()
            invariant
                i <= self.nodes@.len(),
                memory_usage == clamp(total_footprint(self.nodes@.take(i as int)) as int),
                max_layer == top_layer(self.nodes@.take(i as int)),
                total_connections == clamp(total_links(self.nodes@.take(i as int)) as int),
            decreases self.nodes@.len() - i,
        {
            assert(self.nodes@.take(i + 1).drop_last() =~= self.nodes@.take(i as int));
            memory_usage = add_clamped(memory_usage, self.nodes[i].memory_usage());
            total_connections = add_clamped(total_connections, self.nodes[i].link_count());
            if self.nodes[i].layer > max_layer {
                max_layer = self.nodes[i].layer;
            }
            i += 1;
        }
        assert(self.nodes@.take(self.nodes@.len() as int) =~= self.nodes@);
        IndexStats {
            vector_count: self.nodes.len(),
            memory_usage,
            dimension: self.dimension,
            max_layer,
            total_connections,
        }
    }

    /// Place of `id` in the arena.
    fn slot_of(&self, id: VectorId) -> (slot: Option<usize>)
        requires
            self.consistent(),
        ensures
            match slot {
                Some(s) => self.slots@.contains_key(id) && self.slots@[id] == s && s
                    < self.nodes@.len() && self.nodes@[s as int].id == id,
                None => !self.slots@.contains_key(id),
            },
    {
        match self.slots.get(&id) {
            Some(s) => Some(*s),
            None => None,
        }
    }

    proof fn lemma_wf_uniform(&self, pending: Set<VectorId>)
        requires
            self.wf_pending(pending),
        ensures
            self.uniform(),
            self.consistent(),
    {
    }

    /// In a well-formed index no node exceeds `2M` neighbours at layer 0 or
    /// `M` at a higher layer, every edge leads to a live node, and the
    /// entry point is live.
    pub proof fn lemma_wf_graph(&self)
        requires
            self.wf(),
        ensures
            graph_wf(self.graph(), self.entry(), self.spec_config(), self.spec_dimension()),
    {
        assert forall|id: VectorId| #[trigger] self.graph().contains_key(id) implies {
            let node = self.graph()[id];
            &&& node.id == id
            &&& node.vector@.len() == self.spec_dimension()
            &&& node.layered()
            &&& node.layer <= self.spec_config().max_layer
            &&& forall|l: int|
                0 <= l <= node.layer ==> {
                    let list = #[trigger] node.neighbors(l);
                    &&& list.len() <= layer_cap(self.spec_config(), l)
                    &&& list.no_duplicates()
                    &&& forall|k: int|
                        0 <= k < list.len() ==> self.graph().contains_key(#[trigger] list[k])
                }
        } by {
            let node = self.nodes@[self.slots@[id] as int];
            assert(self.node_ok(node, Set::empty()));
            assert forall|l: int| 0 <= l <= node.layer implies {
                let list = #[trigger] node.neighbors(l);
                &&& list.len() <= layer_cap(self.spec_config(), l)
                &&& list.no_duplicates()
                &&& forall|k: int|
                    0 <= k < list.len() ==> self.graph().contains_key(#[trigger] list[k])
            } by {
                assert(self.list_ok(node.connections@[l]@, l, Set::empty()));
            }
        }
        if self.entry_point is None {
            assert(self.graph().dom() =~= Set::<VectorId>::empty()) by {
                assert forall|x: VectorId| !self.graph().dom().contains(x) by {
                    if self.slots@.contains_key(x) {
                        assert(self.slots@[x] < self.nodes@.len());
                    }
                }
            }
        }
    }

    /// The graph holds exactly the nodes of the arena, each under its id,
    /// and no id twice.
    pub proof fn lemma_arena_is_graph(&self)
        requires
            self.wf(),
        ensures
            forall|i: int|
                0 <= i < self.arena().len() ==> self.graph().contains_key(
                    (#[trigger] self.arena()[i]).id,
                ) && self.graph()[self.arena()[i].id] == self.arena()[i],
            forall|id: VectorId| #[trigger]
                self.graph().contains_key(id) ==> exists|i: int|
                    0 <= i < self.arena().len() && #[trigger] self.arena()[i] == self.graph()[id],
            forall|i: int, j: int|
                0 <= i < j < self.arena().len() ==> self.arena()[i].id != self.arena()[j].id,
    {
        assert forall|id: VectorId| #[trigger] self.graph().contains_key(id) implies exists|i: int|
            0 <= i < self.arena().len() && #[trigger] self.arena()[i] == self.graph()[id] by {
            let i = self.slots@[id] as int;
            assert(self.arena()[i] == self.graph()[id]);
        }
        assert forall|i: int, j: int| 0 <= i < j < self.arena().len() implies self.arena()[i].id
            != self.arena()[j].id by {
            assert(self.slots@[self.nodes@[i].id] == i);
            assert(self.slots@[self.nodes@[j].id] == j);
        }
    }

    proof fn lemma_skeleton_chain(a: &HnswIndex, b: &HnswIndex, c: &HnswIndex)
        requires
            a.same_skeleton(b),
            b.same_skeleton(c),
        ensures
            a.same_skeleton(c),
    {
        assert forall|i: int| 0 <= i < a.nodes@.len() implies same_payload(
            a.nodes@[i],
            #[trigger] c.nodes@[i],
        ) by {
            assert(same_payload(a.nodes@[i], b.nodes@[i]));
            assert(same_payload(b.nodes@[i], c.nodes@[i]));
        }
    }

    proof fn lemma_node_ok_transfers(&self, before: &HnswIndex, node: HnswNode, pending: Set<VectorId>)
        requires
            before.same_skeleton(self),
            before.node_ok(node, pending),
        ensures
            self.node_ok(node, pending),
    {
        assert forall|l: int| 0 <= l < node.connections@.len() implies self.list_ok(
            (#[trigger] node.connections@[l])@,
            l,
            pending,
        ) by {
            assert(before.list_ok(node.connections@[l]@, l, pending));
        }
    }

    proof fn lemma_pending_weakens(&self, fewer: Set<VectorId>, more: Set<VectorId>)
        requires
            self.wf_pending(fewer),
            fewer.subset_of(more),
        ensures
            self.wf_pending(more),
    {
        assert forall|i: int| 0 <= i < self.nodes@.len() implies self.node_ok(
            #[trigger] self.nodes@[i],
            more,
        ) by {
            let stored = self.nodes@[i];
            assert(self.node_ok(stored, fewer));
            assert forall|l: int| 0 <= l < stored.connections@.len() implies self.list_ok(
                (#[trigger] stored.connections@[l])@,
                l,
                more,
            ) by {
                assert(self.list_ok(stored.connections@[l]@, l, fewer));
            }
        }
    }
}

} // verus!
