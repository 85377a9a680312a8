//! Insert: drawing a layer, choosing neighbours, linking both ways.

use vstd::prelude::*;
use super::{all_reach, cap_of, layer_cap, same_payload, usable_cap, HnswIndex};
use crate::distance::{is_kernel, kernel_value};
use crate::error::{dimension_mismatch, VectorDbError};
use crate::node::{first_ids, list_contains, HnswNode, SearchCandidate};
use crate::ordering::{closer, is_closer};
use crate::random::next_word;
use crate::types::{
    copy_components, metadata_view, DistanceMetric, IndexConfig, MetadataEntry, VectorId,
};

verus! {

broadcast use vstd::std_specs::hash::group_hash_axioms;

/// Highest layer at which a new node of top layer `layer` is linked:
/// `min(layer, entry layer)`, and none (-1) in an empty index.
pub open spec fn top_linked(entry_layer: Option<int>, layer: int) -> int {
    match entry_layer {
        Some(top) => if layer <= top {
            layer
        } else {
            top
        },
        None => -1,
    }
}

/// Whether a word of the random stream lets a node climb one layer: the
/// words below 2^63, half of all.
pub open spec fn spec_climbs(word: u64) -> bool {
    word < 0x8000_0000_0000_0000
}

pub fn climbs(word: u64) -> (up: bool)
    ensures
        up == spec_climbs(word),
{
    word < 0x8000_0000_0000_0000
}

impl HnswIndex {
    /// Draws the top layer of a new node: starting at 0, one more layer for
    /// every word of the stream below 2^63, until a word is not or
    /// `max_layer` is reached.
    pub fn select_layer(&mut self) -> (layer: usize)
        ensures
            layer <= old(self).spec_config().max_layer,
            old(self).same_contents(final(self)),
    {
        let mut layer: usize = 0;
        loop
            invariant
                layer <= self.config.max_layer,
                self.nodes == old(self).nodes,
                self.slots == old(self).slots,
                self.entry_point == old(self).entry_point,
                self.config == old(self).config,
                self.distance_metric == old(self).distance_metric,
                self.dimension == old(self).dimension,
            decreases self.config.max_layer - layer,
        {
            let word = next_word(&mut self.rng);
            match next_layer(layer, word, self.config.max_layer) {
                Some(higher) => {
                    layer = higher;
                },
                None => {
                    break;
                },
            }
        }
        layer
    }

    /// The number of neighbours to pick and the most to keep at `layer`:
    /// `(M, 2M)` at layer 0 and `(M, M)` above, `2M` held to `usize::MAX`.
    pub fn get_m_values(&self, layer: usize) -> (m: (usize, usize))
        ensures
            m.0 == self.spec_config().max_connections,
            m.1 == usable_cap(self.spec_config(), layer as int),
    {
        (self.config.max_connections, cap_of(&self.config, layer))
    }

    /// The ids of the first `m` candidates.
    pub fn select_neighbors(&self, candidates: &Vec<SearchCandidate>, m: usize) -> (selected: Vec<
        VectorId,
    >)
        ensures
            selected@ == first_ids(candidates@, m as int),
    {
        let mut selected: Vec<VectorId> = Vec::new();
        let mut i: usize = 0;
        while i < candidates.len() && i < m
            invariant
                i <= candidates@.len(),
                i <= m,
                selected@ == first_ids(candidates@, i as int),
            decreases candidates@.len() - i,
        {
            selected.push(candidates[i].id);
            assert(first_ids(candidates@, i + 1) =~= first_ids(candidates@, i as int).push(
                candidates@[i as int].id,
            ));
            i += 1;
        }
        assert(first_ids(candidates@, i as int) =~= first_ids(candidates@, m as int));
        selected
    }

    /// How `after` relates to `self` once a node for `id` has been stored
    /// with top layer `layer`: the node is live with the given vector and
    /// metadata, every other node is still there with its vector, metadata
    /// and layer, and the entry point moved to `id` exactly if the index
    /// was empty or `layer` exceeds the old entry point's layer.
    ///
    /// The node's neighbours are nodes that were live; it has at most `M`
    /// of them at each layer up to `min(layer, entry layer)` and none
    /// above. For an `id` that was not live, `linked` says at every layer
    /// how the lists of the other nodes changed, and every neighbour of the
    /// node has the layer at which it is one.
    pub open spec fn inserted(
        &self,
        after: &HnswIndex,
        id: VectorId,
        vector: Seq<u32>,
        metadata: Option<Seq<MetadataEntry>>,
        layer: int,
    ) -> bool {
        &&& after.spec_config() == self.spec_config()
        &&& after.spec_metric() == self.spec_metric()
        &&& after.spec_dimension() == self.spec_dimension()
        &&& after.graph().dom() == self.graph().dom().insert(id)
        &&& after.graph()[id].id == id
        &&& after.graph()[id].vector@ == vector
        &&& metadata_view(after.graph()[id].metadata) == metadata
        &&& after.graph()[id].layer == layer
        &&& forall|x: VectorId|
            self.graph().contains_key(x) && x != id ==> same_payload(
                self.graph()[x],
                #[trigger] after.graph()[x],
            )
        &&& after.entry() == match self.entry() {
            None => Some(id),
            Some(e) => if layer > self.graph()[e].layer {
                Some(id)
            } else {
                Some(e)
            },
        }
        &&& forall|l: int, k: int|
            0 <= l <= layer && 0 <= k < after.graph()[id].neighbors(l).len()
                ==> self.graph().contains_key(#[trigger] after.graph()[id].neighbors(l)[k])
        &&& forall|l: int|
            0 <= l <= layer ==> (#[trigger] after.graph()[id].neighbors(l)).len() <= if l
                <= top_linked(self.entry_layer(), layer) {
                self.spec_config().max_connections as int
            } else {
                0
            }
        &&& !self.graph().contains_key(id) ==> forall|l: int|
            0 <= l ==> #[trigger] linked(
                self.graph(),
                after.graph(),
                after.graph()[id].neighbors(l),
                id,
                l,
            )
        &&& !self.graph().contains_key(id) ==> forall|l: int|
            0 <= l <= layer ==> all_reach(self.graph(), #[trigger] after.graph()[id].neighbors(l), l)
    }

    /// At every layer the neighbours of the node of `id` stand in the
    /// order of their distance to `vector`, nearest first, the distances
    /// taken to the nodes as they were.
    pub open spec fn neighbours_ranked<D: Fn(&Vec<u32>, &Vec<u32>, DistanceMetric) -> u32>(
        &self,
        after: &HnswIndex,
        id: VectorId,
        vector: Seq<u32>,
        dist: &D,
    ) -> bool {
        forall|l: int|
            0 <= l ==> self.nearest_first_to(#[trigger] after.graph()[id].neighbors(l), vector, dist)
    }

    /// Top layer of the entry point, if there is one.
    pub open spec fn entry_layer(&self) -> Option<int> {
        match self.entry() {
            Some(e) => Some(self.graph()[e].layer as int),
            None => None,
        }
    }

    /// `mid` holds the nodes of `self` with their vectors, and at layer `l`
    /// their adjacency lists.
    pub open spec fn same_at(&self, mid: &HnswIndex, l: int) -> bool {
        &&& mid.graph().dom() == self.graph().dom()
        &&& mid.spec_metric() == self.spec_metric()
        &&& mid.spec_dimension() == self.spec_dimension()
        &&& forall|x: VectorId| #[trigger]
            self.graph().contains_key(x) ==> mid.graph()[x].vector@ == self.graph()[x].vector@
                && mid.graph()[x].neighbors(l) == self.graph()[x].neighbors(l)
    }

    /// The nodes in `selected` were offered the new node `id` at layer `l`
    /// and those in `chosen` took it: `chosen` holds nodes of `selected`
    /// only, and a node of `selected` that is not in `chosen` turned the
    /// new node down for the reason that `turned_down` gives.
    pub open spec fn offered<D: Fn(&Vec<u32>, &Vec<u32>, DistanceMetric) -> u32>(
        &self,
        chosen: Seq<VectorId>,
        selected: Seq<VectorId>,
        id: VectorId,
        vector: Seq<u32>,
        l: int,
        dist: &D,
    ) -> bool {
        &&& forall|k: int| 0 <= k < chosen.len() ==> selected.contains(#[trigger] chosen[k])
        &&& forall|k: int|
            0 <= k < selected.len() ==> chosen.contains(#[trigger] selected[k]) || turned_down(
                self.graph(),
                selected[k],
                id,
                l,
                usable_cap(self.spec_config(), l),
                vector,
                self.spec_metric(),
                dist,
            )
    }

    /// How the neighbours `chosen` of the new node `id` were found at layer
    /// `l`: by a search of the layer for `vector` from `entries`, of the
    /// width that `construction_width` gives, on the nodes as `mid` holds
    /// them, which are the nodes as they were with their lists at the
    /// layer; the search held `found`, and the `M` nearest of these were
    /// offered the new node.
    pub open spec fn picked_step<D: Fn(&Vec<u32>, &Vec<u32>, DistanceMetric) -> u32>(
        &self,
        chosen: Seq<VectorId>,
        id: VectorId,
        vector: Seq<u32>,
        l: int,
        mid: HnswIndex,
        entries: Seq<VectorId>,
        found: Seq<SearchCandidate>,
        dist: &D,
    ) -> bool {
        &&& self.same_at(&mid, l)
        &&& mid.scanned(vector, entries, construction_width(self.spec_config(), l), l, found, dist)
        &&& self.offered(
            chosen,
            first_ids(found, self.spec_config().max_connections as int),
            id,
            vector,
            l,
            dist,
        )
    }

    /// The way of a new node down the layers: the searches start at
    /// `start`, where the greedy walk from the entry point ended, a live
    /// node no farther from `vector` than the entry point; the search of
    /// the highest layer at which the node is linked starts there, and the
    /// search of every layer below starts at the `M` nearest that the
    /// search of the layer above held. `founds` holds what the searches
    /// held, by layer.
    pub open spec fn way_down<D: Fn(&Vec<u32>, &Vec<u32>, DistanceMetric) -> u32>(
        &self,
        after: &HnswIndex,
        id: VectorId,
        vector: Seq<u32>,
        layer: int,
        start: VectorId,
        mids: Seq<HnswIndex>,
        founds: Seq<Seq<SearchCandidate>>,
        dist: &D,
    ) -> bool {
        let top = top_linked(self.entry_layer(), layer);
        &&& self.entry() is Some
        &&& mids.len() == top + 1
        &&& founds.len() == top + 1
        &&& self.graph().contains_key(start)
        &&& !closer(
            kernel_value(
                dist,
                vector,
                self.graph()[self.entry().unwrap()].vector@,
                self.spec_metric(),
            ),
            kernel_value(dist, vector, self.graph()[start].vector@, self.spec_metric()),
        )
        &&& forall|l: int|
            0 <= l <= top ==> #[trigger] self.picked_step(
                after.graph()[id].neighbors(l),
                id,
                vector,
                l,
                mids[l],
                search_entries(start, founds, l, self.spec_config().max_connections as int),
                founds[l],
                dist,
            )
    }

    /// How the neighbours of a node stored under an `id` that was not live
    /// were chosen, and what the nodes that took it gave up: where the
    /// index was not empty the node went down the layers as `way_down`
    /// says, and at every layer a list that dropped a neighbour for the
    /// new node dropped its farthest.
    pub open spec fn neighbours_chosen<D: Fn(&Vec<u32>, &Vec<u32>, DistanceMetric) -> u32>(
        &self,
        after: &HnswIndex,
        id: VectorId,
        vector: Seq<u32>,
        layer: int,
        dist: &D,
    ) -> bool {
        !self.graph().contains_key(id) ==> (forall|l: int|
            0 <= l ==> #[trigger] nearest_kept(
                self.graph(),
                after.graph(),
                after.graph()[id].neighbors(l),
                id,
                l,
                vector,
                self.spec_metric(),
                dist,
            )) && (self.entry() is Some ==> exists|
            start: VectorId,
            mids: Seq<HnswIndex>,
            founds: Seq<Seq<SearchCandidate>>,
        | #[trigger] self.way_down(after, id, vector, layer, start, mids, founds, dist))
    }

    /// Stores a vector under `id`, drawing the node's top layer.
    pub fn insert<D: Fn(&Vec<u32>, &Vec<u32>, DistanceMetric) -> u32>(
        &mut self,
        id: VectorId,
        vector: &Vec<u32>,
        metadata: Option<Vec<MetadataEntry>>,
        dist: &D,
    ) -> (result: Result<(), VectorDbError>)
        requires
            old(self).wf(),
            is_kernel(dist),
        ensures
            final(self).wf(),
            vector@.len() != old(self).spec_dimension() ==> old(self).same_contents(final(self))
                && result == Err::<(), VectorDbError>(
                dimension_mismatch(old(self).spec_dimension(), vector@.len() as usize),
            ),
            vector@.len() == old(self).spec_dimension() ==> result is Ok
                && old(self).neighbours_ranked(final(self), id, vector@, dist) && exists|layer: int|
                0 <= layer <= old(self).spec_config().max_layer && #[trigger] old(self).inserted(
                    final(self),
                    id,
                    vector@,
                    metadata_view(metadata),
                    layer,
                ) && old(self).neighbours_chosen(final(self), id, vector@, layer, dist),
    {
        if vector.len() != self.dimension {
            return Err(
                VectorDbError::InvalidDimension { expected: self.dimension, actual: vector.len() },
            );
        }
        let layer = self.select_layer();
        let ghost drawn = *self;
        let result = self.insert_at_layer(id, vector, metadata, layer, dist);
        proof {
            assert(drawn.inserted(self, id, vector@, metadata_view(metadata), layer as int));
            assert(old(self).inserted(self, id, vector@, metadata_view(metadata), layer as int));
            assert(drawn.neighbours_chosen(self, id, vector@, layer as int, dist));
            assert(old(self).neighbours_chosen(self, id, vector@, layer as int, dist)) by {
                if !old(self).graph().contains_key(id) {
                    assert forall|l: int| 0 <= l implies #[trigger] nearest_kept(
                        old(self).graph(),
                        self.graph(),
                        self.graph()[id].neighbors(l),
                        id,
                        l,
                        vector@,
                        old(self).spec_metric(),
                        dist,
                    ) by {
                        assert(nearest_kept(
                            drawn.graph(),
                            self.graph(),
                            self.graph()[id].neighbors(l),
                            id,
                            l,
                            vector@,
                            drawn.spec_metric(),
                            dist,
                        ));
                    }
                    if old(self).entry() is Some {
                        let (start, mids, founds) = choose|
                            start: VectorId,
                            mids: Seq<HnswIndex>,
                            founds: Seq<Seq<SearchCandidate>>,
                        | #[trigger]
                            drawn.way_down(self, id, vector@, layer as int, start, mids, founds, dist);
                        let top = top_linked(old(self).entry_layer(), layer as int);
                        let m = old(self).spec_config().max_connections as int;
                        assert forall|l: int| 0 <= l <= top implies #[trigger] old(self).picked_step(
                            self.graph()[id].neighbors(l),
                            id,
                            vector@,
                            l,
                            mids[l],
                            search_entries(start, founds, l, m),
                            founds[l],
                            dist,
                        ) by {
                            assert(drawn.picked_step(
                                self.graph()[id].neighbors(l),
                                id,
                                vector@,
                                l,
                                mids[l],
                                search_entries(start, founds, l, m),
                                founds[l],
                                dist,
                            ));
                        }
                        assert(old(self).way_down(
                            self,
                            id,
                            vector@,
                            layer as int,
                            start,
                            mids,
                            founds,
                            dist,
                        ));
                    }
                }
            }
        }
        result
    }

    /// Stores a node for `id` with top layer `layer` and connects it.
    ///
    /// The first node becomes the entry point. Otherwise the entry point's
    /// layers above `layer` are walked greedily, and at each layer from
    /// `min(layer, entry layer)` down to 0 the `M` nearest nodes that a
    /// search with beam `ef_construction` (at layer 0, at least `M`) finds
    /// are offered the node as a neighbour. A node with room in its list
    /// takes it; a node with a full list keeps its cap nearest, so that it
    /// takes the new node only in place of a neighbour that is farther
    /// away, and that neighbour loses its edge to the node. Edges are made
    /// and dropped in both directions. A node of a higher top layer than
    /// the entry point replaces it.
    pub fn insert_at_layer<D: Fn(&Vec<u32>, &Vec<u32>, DistanceMetric) -> u32>(
        &mut self,
        id: VectorId,
        vector: &Vec<u32>,
        metadata: Option<Vec<MetadataEntry>>,
        layer: usize,
        dist: &D,
    ) -> (result: Result<(), VectorDbError>)
        requires
            old(self).wf(),
            is_kernel(dist),
            layer <= old(self).spec_config().max_layer,
        ensures
            final(self).wf(),
            vector@.len() != old(self).spec_dimension() ==> old(self).same_contents(final(self))
                && result == Err::<(), VectorDbError>(
                dimension_mismatch(old(self).spec_dimension(), vector@.len() as usize),
            ),
            vector@.len() == old(self).spec_dimension() ==> result is Ok && old(self).inserted(
                final(self),
                id,
                vector@,
                metadata_view(metadata),
                layer as int,
            ) && old(self).neighbours_ranked(final(self), id, vector@, dist)
                && old(self).neighbours_chosen(final(self), id, vector@, layer as int, dist),
    {
        if vector.len() != self.dimension {
            return Err(
                VectorDbError::InvalidDimension { expected: self.dimension, actual: vector.len() },
            );
        }
        let mut node = HnswNode::new(id, copy_components(vector), metadata, layer);
        let ghost fresh = !self.slots@.contains_key(id);
        let entry_id = match self.entry_point {
            None => {
                self.entry_point = Some(id);
                self.put_node(node);
                proof {
                    assert(self.slots@.contains_key(id));
                    assert forall|i: int| 0 <= i < self.nodes@.len() implies self.node_ok(
                        #[trigger] self.nodes@[i],
                        Set::empty(),
                    ) by {
                        assert forall|l: int|
                            0 <= l < self.nodes@[i].connections@.len() implies self.list_ok(
                            (#[trigger] self.nodes@[i].connections@[l])@,
                            l,
                            Set::empty(),
                        ) by {
                            assert(node.neighbors(l) == Seq::<VectorId>::empty());
                        }
                    }
                    assert(old(self).graph().dom() =~= Set::<VectorId>::empty());
                    assert forall|l: int| 0 <= l implies #[trigger] linked(
                        old(self).graph(),
                        self.graph(),
                        self.graph()[id].neighbors(l),
                        id,
                        l,
                    ) by {
                        assert(self.graph()[id] == node);
                        assert(node.neighbors(l).len() == 0);
                        assert(node.neighbors(l) =~= Seq::<VectorId>::empty());
                    }
                    assert(top_linked(old(self).entry_layer(), layer as int) == -1);
                }
                return Ok(());
            },
            Some(entry_id) => entry_id,
        };
        let ghost origin = self.graph();
        proof {
            self.lemma_pending_weakens(Set::empty(), set![id]);
            if fresh {
                self.lemma_fresh_is_unlisted(id);
            }
        }
        let entry_slot = self.slot_of(entry_id).unwrap();
        let entry_layer = self.nodes[entry_slot].layer;
        let mut current = self.descend(vector, entry_id, entry_layer, layer, dist);
        proof {
            assert forall|l: int| 0 <= l < node.connections@.len() implies self.list_ok(
                (#[trigger] node.connections@[l])@,
                l,
                set![id],
            ) by {
                assert(node.neighbors(l) == Seq::<VectorId>::empty());
            }
        }

        let mut remaining: usize = if layer <= entry_layer {
            layer + 1
        } else {
            entry_layer + 1
        };
        let ghost top: int = remaining - 1;
        let ghost start = current@[0];
        let ghost mut mids: Seq<HnswIndex> = Seq::new((top + 1) as nat, |l: int| *self);
        let ghost mut founds: Seq<Seq<SearchCandidate>> = Seq::new(
            (top + 1) as nat,
            |l: int| Seq::<SearchCandidate>::empty(),
        );
        let ghost m = self.config.max_connections as int;
        proof {
            assert(current@ =~= seq![start]);
            assert forall|l: int| 0 <= l implies (#[trigger] node.neighbors(l)).len() == 0 by {
                if l <= layer {
                    assert(node.neighbors(l) == Seq::<VectorId>::empty());
                }
            }
            assert(self.graph()[entry_id] == self.nodes@[entry_slot as int]);
            assert(self.node_ok(self.nodes@[entry_slot as int], set![id]));
            assert forall|l: int| 0 <= l implies old(self).nearest_first_to(
                #[trigger] node.neighbors(l),
                vector@,
                dist,
            ) by {
                assert(node.neighbors(l).len() == 0);
            }
            if fresh {
                assert forall|l: int| 0 <= l implies #[trigger] linked(
                    origin,
                    self.graph(),
                    node.neighbors(l),
                    id,
                    l,
                ) by {
                    assert(node.neighbors(l) =~= Seq::<VectorId>::empty());
                    assert forall|x: VectorId| #[trigger] origin.contains_key(x) implies !origin[x].neighbors(
                        l,
                    ).contains(id) by {
                        let i = self.slots@[x] as int;
                        assert(self.unlisted_at(id, l));
                        if l < self.nodes@[i].connections@.len() {
                            assert(!self.nodes@[i].connections@[l]@.contains(id));
                        }
                    }
                    lemma_linked_start(origin, id, l);
                }
                assert forall|l: int| 0 <= l implies #[trigger] nearest_kept(
                    origin,
                    self.graph(),
                    node.neighbors(l),
                    id,
                    l,
                    vector@,
                    self.distance_metric,
                    dist,
                ) by {
                    assert(linked(origin, self.graph(), node.neighbors(l), id, l));
                    assert(node.neighbors(l) =~= Seq::<VectorId>::empty());
                }
            }
        }
        while remaining > 0
            invariant
                self.wf_pending(set![id]),
                old(self).same_skeleton(self),
                old(self).consistent(),
                old(self).wf_pending(Set::empty()),
                origin == old(self).graph(),
                self.node_ok(node, set![id]),
                node.id == id,
                node.layer == layer,
                node.layered(),
                node.vector@ == vector@,
                node.metadata == metadata,
                is_kernel(dist),
                vector@.len() == self.dimension,
                remaining <= layer + 1,
                fresh == !old(self).slots@.contains_key(id),
                forall|l: int| 0 <= l < remaining ==> node.neighbors(l).len() == 0,
                top == top_linked(old(self).entry_layer(), layer as int),
                remaining <= top + 1,
                forall|l: int| top < l ==> (#[trigger] node.neighbors(l)).len() == 0,
                forall|l: int|
                    0 <= l ==> (#[trigger] node.neighbors(l)).len() <= self.config.max_connections,
                forall|l: int, k: int|
                    0 <= l <= layer && 0 <= k < node.neighbors(l).len()
                        ==> old(self).slots@.contains_key(
                        #[trigger] node.neighbors(l)[k],
                    ),
                forall|l: int|
                    0 <= l ==> old(self).nearest_first_to(
                        #[trigger] node.neighbors(l),
                        vector@,
                        dist,
                    ),
                fresh ==> forall|l: int|
                    0 <= l ==> #[trigger] linked(origin, self.graph(), node.neighbors(l), id, l),
                forall|i: int, l: int|
                    0 <= i < old(self).nodes@.len() && 0 <= l < remaining
                        && l < old(self).nodes@[i].connections@.len()
                        ==> #[trigger] self.nodes@[i].connections@[l]
                        == old(self).nodes@[i].connections@[l],
                fresh ==> forall|l: int|
                    0 <= l ==> #[trigger] nearest_kept(
                        origin,
                        self.graph(),
                        node.neighbors(l),
                        id,
                        l,
                        vector@,
                        self.distance_metric,
                        dist,
                    ),
                m == old(self).spec_config().max_connections,
                old(self).entry() is Some,
                old(self).graph().contains_key(start),
                !closer(
                    kernel_value(
                        dist,
                        vector@,
                        old(self).graph()[old(self).entry().unwrap()].vector@,
                        old(self).spec_metric(),
                    ),
                    kernel_value(
                        dist,
                        vector@,
                        old(self).graph()[start].vector@,
                        old(self).spec_metric(),
                    ),
                ),
                mids.len() == top + 1,
                founds.len() == top + 1,
                current@ == search_entries(start, founds, remaining - 1, m),
                fresh ==> forall|l: int|
                    remaining <= l <= top ==> #[trigger] old(self).picked_step(
                        node.neighbors(l),
                        id,
                        vector@,
                        l,
                        mids[l],
                        search_entries(start, founds, l, m),
                        founds[l],
                        dist,
                    ),
            decreases remaining,
        {
            remaining -= 1;
            let ghost before = *self;
            let ghost unlinked = node;
            proof {
                assert(before.graph().dom() =~= origin.dom());
                if fresh {
                    assert(linked(
                        origin,
                        self.graph(),
                        node.neighbors(remaining as int),
                        id,
                        remaining as int,
                    ));
                    assert(node.neighbors(remaining as int) =~= Seq::<VectorId>::empty());
                }
            }
            proof {
                assert forall|x: VectorId| #[trigger] origin.contains_key(x) implies same_payload(
                    origin[x],
                    before.graph()[x],
                ) && origin[x].neighbors(remaining as int).len() <= layer_cap(
                    before.config,
                    remaining as int,
                ) by {
                    let i = old(self).slots@[x] as int;
                    assert(same_payload(old(self).nodes@[i], before.nodes@[i]));
                    assert(old(self).node_ok(old(self).nodes@[i], Set::empty()));
                    if remaining < old(self).nodes@[i].connections@.len() {
                        assert(old(self).list_ok(
                            old(self).nodes@[i].connections@[remaining as int]@,
                            remaining as int,
                            Set::empty(),
                        ));
                    }
                }
            }
            let (chosen, found) = self.connect_layer(
                &mut node,
                vector,
                &current,
                remaining,
                dist,
                Ghost(origin),
            );
            proof {
                Self::lemma_skeleton_chain(old(self), &before, self);
                assert forall|i: int, l: int|
                    0 <= i < old(self).nodes@.len() && 0 <= l < remaining
                        && l < old(self).nodes@[i].connections@.len() implies #[trigger] self.nodes@[i].connections@[l]
                    == old(self).nodes@[i].connections@[l] by {
                    assert(same_payload(old(self).nodes@[i], before.nodes@[i]));
                    assert(self.nodes@[i].connections@[l] == before.nodes@[i].connections@[l]);
                }
                if fresh {
                    assert(old(self).same_at(&before, remaining as int)) by {
                        assert(before.graph().dom() =~= old(self).graph().dom());
                        assert forall|x: VectorId| #[trigger]
                            old(self).graph().contains_key(x) implies before.graph()[x].vector@
                            == old(self).graph()[x].vector@ && before.graph()[x].neighbors(
                            remaining as int,
                        ) == old(self).graph()[x].neighbors(remaining as int) by {
                            let i = old(self).slots@[x] as int;
                            assert(same_payload(old(self).nodes@[i], before.nodes@[i]));
                            if remaining < old(self).nodes@[i].connections@.len() {
                                assert(before.nodes@[i].connections@[remaining as int]
                                    == old(self).nodes@[i].connections@[remaining as int]);
                            }
                        }
                    }
                    assert(before.scanned(
                        vector@,
                        current@,
                        construction_width(old(self).spec_config(), remaining as int),
                        remaining as int,
                        found@,
                        dist,
                    ));
                    assert(old(self).offered(
                        node.neighbors(remaining as int),
                        first_ids(found@, old(self).spec_config().max_connections as int),
                        id,
                        vector@,
                        remaining as int,
                        dist,
                    ));
                    let earlier = founds;
                    let held = mids;
                    let longer = founds.update(remaining as int, found@);
                    let states = mids.update(remaining as int, before);
                    assert forall|l: int| remaining <= l <= top implies #[trigger] old(self).picked_step(
                        node.neighbors(l),
                        id,
                        vector@,
                        l,
                        states[l],
                        search_entries(start, longer, l, m),
                        longer[l],
                        dist,
                    ) by {
                        if l != remaining {
                            assert(node.connections@[l] == unlinked.connections@[l]);
                            assert(node.neighbors(l) == unlinked.neighbors(l));
                            assert(longer[l] == earlier[l]);
                            assert(states[l] == held[l]);
                            if l != top {
                                assert(longer[l + 1] == earlier[l + 1]);
                            }
                            assert(old(self).picked_step(
                                unlinked.neighbors(l),
                                id,
                                vector@,
                                l,
                                held[l],
                                search_entries(start, earlier, l, m),
                                earlier[l],
                                dist,
                            ));
                        } else {
                            if l != top {
                                assert(longer[l + 1] == earlier[l + 1]);
                            }
                        }
                    }
                    assert forall|l: int| 0 <= l implies #[trigger] nearest_kept(
                        origin,
                        self.graph(),
                        node.neighbors(l),
                        id,
                        l,
                        vector@,
                        self.distance_metric,
                        dist,
                    ) by {
                        if l != remaining {
                            if l < node.connections@.len() {
                                assert(node.connections@[l] == unlinked.connections@[l]);
                            }
                            assert(node.neighbors(l) == unlinked.neighbors(l));
                            assert(nearest_kept(
                                origin,
                                before.graph(),
                                unlinked.neighbors(l),
                                id,
                                l,
                                vector@,
                                self.distance_metric,
                                dist,
                            ));
                            assert forall|x: VectorId| #[trigger] origin.contains_key(x) implies self.graph()[x].neighbors(
                                l,
                            ) == before.graph()[x].neighbors(l) by {
                                let i = before.slots@[x] as int;
                                assert(same_payload(before.nodes@[i], self.nodes@[i]));
                                if l < before.nodes@[i].connections@.len() {
                                    assert(self.nodes@[i].connections@[l]
                                        == before.nodes@[i].connections@[l]);
                                }
                            }
                            lemma_nearest_same_lists(
                                origin,
                                before.graph(),
                                self.graph(),
                                node.neighbors(l),
                                id,
                                l,
                                vector@,
                                self.distance_metric,
                                dist,
                            );
                        }
                    }
                }
                assert forall|l: int| 0 <= l < remaining implies node.neighbors(l).len() == 0 by {
                    assert(node.connections@[l] == unlinked.connections@[l]);
                    assert(unlinked.neighbors(l).len() == 0);
                }
                assert forall|l: int| 0 <= l implies (#[trigger] node.neighbors(l)).len()
                    <= self.config.max_connections by {
                    if l != remaining {
                        if l < node.connections@.len() {
                            assert(node.connections@[l] == unlinked.connections@[l]);
                        }
                        assert(node.neighbors(l) == unlinked.neighbors(l));
                    }
                }
                assert forall|l: int| top < l implies (#[trigger] node.neighbors(l)).len() == 0 by {
                    if l < node.connections@.len() {
                        assert(node.connections@[l] == unlinked.connections@[l]);
                    }
                    assert(node.neighbors(l) == unlinked.neighbors(l));
                }
                assert forall|l: int, k: int|
                    0 <= l <= layer && 0 <= k < node.neighbors(l).len() implies old(self).slots@.contains_key(
                    #[trigger] node.neighbors(l)[k],
                ) by {
                    if l != remaining {
                        assert(node.connections@[l] == unlinked.connections@[l]);
                        assert(node.neighbors(l) == unlinked.neighbors(l));
                    } else {
                        let member = node.neighbors(l)[k];
                        assert(chosen@.contains(member));
                        let w = choose|w: int| 0 <= w < chosen@.len() && chosen@[w] == member;
                        assert(before.slots@.contains_key(chosen@[w]));
                    }
                }
                assert forall|l: int| 0 <= l implies old(self).nearest_first_to(
                    #[trigger] node.neighbors(l),
                    vector@,
                    dist,
                ) by {
                    if l == remaining {
                        Self::lemma_ranked_transfers(
                            &before,
                            old(self),
                            node.neighbors(l),
                            vector@,
                            dist,
                        );
                    } else {
                        if l < node.connections@.len() {
                            assert(node.connections@[l] == unlinked.connections@[l]);
                        }
                        assert(node.neighbors(l) == unlinked.neighbors(l));
                    }
                }
                if fresh {
                    assert forall|l: int| 0 <= l implies #[trigger] linked(
                        origin,
                        self.graph(),
                        node.neighbors(l),
                        id,
                        l,
                    ) by {
                        if l != remaining {
                            if l < node.connections@.len() {
                                assert(node.connections@[l] == unlinked.connections@[l]);
                            }
                            assert(node.neighbors(l) == unlinked.neighbors(l));
                            assert(linked(origin, before.graph(), unlinked.neighbors(l), id, l));
                            assert forall|x: VectorId| #[trigger] origin.contains_key(x) implies self.graph()[x].neighbors(
                                l,
                            ) == before.graph()[x].neighbors(l) by {
                                let i = before.slots@[x] as int;
                                assert(same_payload(before.nodes@[i], self.nodes@[i]));
                                if l < before.nodes@[i].connections@.len() {
                                    assert(self.nodes@[i].connections@[l]
                                        == before.nodes@[i].connections@[l]);
                                }
                            }
                            lemma_linked_same_lists(
                                origin,
                                before.graph(),
                                self.graph(),
                                node.neighbors(l),
                                id,
                                l,
                            );
                        }
                    }
                }
            }
            proof {
                founds = founds.update(remaining as int, found@);
                mids = mids.update(remaining as int, before);
            }
            current = chosen;
        }
        let ghost looped = *self;
        if layer > entry_layer {
            self.entry_point = Some(id);
        }
        let ghost done = *self;
        self.put_node(node);
        proof {
            assert(done.graph() =~= looped.graph());
            assert forall|i: int| 0 <= i < self.nodes@.len() implies self.node_ok(
                #[trigger] self.nodes@[i],
                Set::empty(),
            ) by {
                let stored = self.nodes@[i];
                assert(done.node_ok(stored, set![id]));
                assert forall|l: int| 0 <= l < stored.connections@.len() implies self.list_ok(
                    (#[trigger] stored.connections@[l])@,
                    l,
                    Set::empty(),
                ) by {
                    assert(done.list_ok(stored.connections@[l]@, l, set![id]));
                }
            }
            assert(self.wf());
            assert forall|x: VectorId| old(self).graph().contains_key(x) && x != id implies same_payload(
                old(self).graph()[x],
                #[trigger] self.graph()[x],
            ) by {
                let i = old(self).slots@[x] as int;
                assert(same_payload(old(self).nodes@[i], done.nodes@[i]));
            }
            assert(self.graph().dom() =~= old(self).graph().dom().insert(id));
            assert(self.graph()[id] == node);
            assert forall|l: int| 0 <= l implies old(self).nearest_first_to(
                #[trigger] self.graph()[id].neighbors(l),
                vector@,
                dist,
            ) by {}
            if fresh {
                assert forall|l: int| 0 <= l implies #[trigger] linked(
                    origin,
                    self.graph(),
                    self.graph()[id].neighbors(l),
                    id,
                    l,
                ) by {
                    assert(linked(origin, done.graph(), node.neighbors(l), id, l));
                    assert forall|x: VectorId| #[trigger] origin.contains_key(x) implies self.graph()[x].neighbors(
                        l,
                    ) == done.graph()[x].neighbors(l) by {
                        assert(x != id);
                        assert(done.graph().contains_key(x));
                    }
                    lemma_linked_same_lists(origin, done.graph(), self.graph(), node.neighbors(l),
                        id, l);
                }
                assert forall|l: int| 0 <= l implies #[trigger] nearest_kept(
                    origin,
                    self.graph(),
                    self.graph()[id].neighbors(l),
                    id,
                    l,
                    vector@,
                    old(self).spec_metric(),
                    dist,
) by {
                    assert(nearest_kept(
                        origin,
                        done.graph(),
                        node.neighbors(l),
                        id,
                        l,
                        vector@,
                        looped.distance_metric,
                        dist,
                    ));
                    assert forall|x: VectorId| #[trigger] origin.contains_key(x) implies self.graph()[x].neighbors(
                        l,
                    ) == done.graph()[x].neighbors(l) by {
                        assert(x != id);
                        assert(done.graph().contains_key(x));
                    }
                    lemma_nearest_same_lists(
                        origin,
                        done.graph(),
                        self.graph(),
                        node.neighbors(l),
                        id,
                        l,
                        vector@,
                        old(self).spec_metric(),
                        dist,
                    );
                }
                assert forall|l: int| 0 <= l <= top implies #[trigger] old(self).picked_step(
                    self.graph()[id].neighbors(l),
                    id,
                    vector@,
                    l,
                    mids[l],
                    search_entries(start, founds, l, m),
                    founds[l],
                    dist,
                ) by {
                    assert(old(self).picked_step(
                        node.neighbors(l),
                        id,
                        vector@,
                        l,
                        mids[l],
                        search_entries(start, founds, l, m),
                        founds[l],
                        dist,
                    ));
                }
                assert(old(self).way_down(
                    self,
                    id,
                    vector@,
                    layer as int,
                    start,
                    mids,
                    founds,
                    dist,
                ));
                assert forall|l: int| 0 <= l <= layer implies all_reach(
                    origin,
                    #[trigger] self.graph()[id].neighbors(l),
                    l,
                ) by {
                    let list = self.graph()[id].neighbors(l);
                    assert(linked(origin, self.graph(), list, id, l));
                    assert forall|e: int|
                        0 <= e < list.len() && origin.contains_key(#[trigger] list[e]) implies origin[list[e]].connections@.len()
                        > l by {
                        let x = list[e];
                        assert(list.contains(x));
                        assert(self.graph()[x].neighbors(l).contains(id));
                        assert(same_payload(origin[x], self.graph()[x]));
                    }
                }
            }
        }
        Ok(())
    }

    /// Connects `node`, which is about to be stored, at one layer: a search
    /// from `current` for the nodes nearest to `vector`, of which the `M`
    /// nearest are offered the node as a neighbour. Those that take it
    /// become its neighbours. Returns the `M` nearest.
    fn connect_layer<D: Fn(&Vec<u32>, &Vec<u32>, DistanceMetric) -> u32>(
        &mut self,
        node: &mut HnswNode,
        vector: &Vec<u32>,
        current: &Vec<VectorId>,
        layer: usize,
        dist: &D,
        Ghost(origin): Ghost<Map<VectorId, HnswNode>>,
    ) -> (out: (Vec<VectorId>, Vec<SearchCandidate>))
        requires
            old(self).wf_pending(set![old(node).id]),
            old(self).node_ok(*old(node), set![old(node).id]),
            layer < old(node).connections@.len(),
            old(node).neighbors(layer as int).len() == 0,
            is_kernel(dist),
            vector@.len() == old(self).spec_dimension(),
            origin.dom() == old(self).graph().dom(),
            forall|x: VectorId| #[trigger]
                origin.contains_key(x) ==> same_payload(origin[x], old(self).graph()[x])
                    && origin[x].neighbors(layer as int).len() <= layer_cap(
                    old(self).config,
                    layer as int,
                ),
            !old(self).slots@.contains_key(old(node).id) ==> linked(
                origin,
                old(self).graph(),
                Seq::empty(),
                old(node).id,
                layer as int,
            ),
        ensures
            final(self).wf_pending(set![old(node).id]),
            old(self).same_skeleton(final(self)),
            final(self).node_ok(*final(node), set![old(node).id]),
            old(node).same_except_layer(final(node), layer as int),
            out.0@.no_duplicates(),
            out.0@.len() <= old(self).config.max_connections,
            final(node).neighbors(layer as int).len() <= out.0@.len(),
            old(self).nearest_first_to(out.0@, vector@, dist),
            old(self).nearest_first_to(final(node).neighbors(layer as int), vector@, dist),
            old(self).scanned(
                vector@,
                current@,
                construction_width(old(self).config, layer as int),
                layer as int,
                out.1@,
                dist,
            ),
            out.0@ == first_ids(out.1@, old(self).config.max_connections as int),
            forall|k: int|
                0 <= k < out.0@.len() ==> old(self).slots@.contains_key(#[trigger] out.0@[k]),
            forall|k: int|
                0 <= k < final(node).neighbors(layer as int).len() ==> out.0@.contains(
                    #[trigger] final(node).neighbors(layer as int)[k],
                ),
            !old(self).slots@.contains_key(old(node).id) ==> nearest_kept(
                origin,
                final(self).graph(),
                final(node).neighbors(layer as int),
                old(node).id,
                layer as int,
                vector@,
                old(self).distance_metric,
                dist,
            ),
            !old(self).slots@.contains_key(old(node).id) ==> forall|k: int|
                0 <= k < out.0@.len() ==> final(node).neighbors(layer as int).contains(
                    #[trigger] out.0@[k],
                ) || turned_down(
                    origin,
                    out.0@[k],
                    old(node).id,
                    layer as int,
                    usable_cap(old(self).config, layer as int),
                    vector@,
                    old(self).distance_metric,
                    dist,
                ),
            forall|i: int, l: int|
                0 <= i < old(self).nodes@.len() && 0 <= l < old(self).nodes@[i].connections@.len()
                    && l != layer ==> #[trigger] final(self).nodes@[i].connections@[l]
                        == old(self).nodes@[i].connections@[l],
            !old(self).slots@.contains_key(old(node).id) ==> linked(
                origin,
                final(self).graph(),
                final(node).neighbors(layer as int),
                old(node).id,
                layer as int,
            ),
    {
        let ghost id = node.id;
        let ghost fresh = !self.slots@.contains_key(id);
        let ef = if layer == 0 {
            if self.config.ef_construction >= self.config.max_connections {
                self.config.ef_construction
            } else {
                self.config.max_connections
            }
        } else {
            self.config.ef_construction
        };
        let found = self.scan_layer(vector, current, ef, layer, dist);
        let (m, _) = self.get_m_values(layer);
        let selected = self.select_neighbors(&found, m);
        proof {
            assert(selected@.no_duplicates());
            assert forall|a: int, b: int| 0 <= a < b < selected@.len() implies !closer(
                self.distance_to(selected@[b], vector@, dist),
                self.distance_to(selected@[a], vector@, dist),
            ) by {
                assert(selected@[a] == found@[a].id);
                assert(selected@[b] == found@[b].id);
                assert(self.graph().contains_key(found@[a].id));
                assert(self.graph().contains_key(found@[b].id));
                assert(!closer(found@[b].distance, found@[a].distance));
            }
            assert forall|k: int| 0 <= k < selected@.len() implies self.slots@.contains_key(
                #[trigger] selected@[k],
            ) by {
                assert(selected@[k] == found@[k].id);
            }
        }
        let ghost mut picks: Seq<int> = Seq::empty();
        let mut t: usize = 0;
        while t < selected.len()
            invariant
                self.wf_pending(set![id]),
                old(self).same_skeleton(self),
                old(self).consistent(),
                self.node_ok(*node, set![id]),
                old(node).same_except_layer(node, layer as int),
                node.id == id,
                is_kernel(dist),
                vector@.len() == self.dimension,
                t <= selected@.len(),
                selected@.len() <= m,
                m == self.config.max_connections,
                layer < node.connections@.len(),
                selected@.no_duplicates(),
                fresh == !old(self).slots@.contains_key(id),
                origin.dom() == old(self).graph().dom(),
                old(self).nearest_first_to(selected@, vector@, dist),
                old(self).nearest_first_to(node.neighbors(layer as int), vector@, dist),
                picks.len() == node.neighbors(layer as int).len(),
                picks.len() <= t,
                forall|k: int|
                    0 <= k < picks.len() ==> 0 <= #[trigger] picks[k] < t && node.neighbors(
                        layer as int,
                    )[k] == selected@[picks[k]],
                forall|k: int|
                    0 <= k < selected@.len() ==> self.slots@.contains_key(#[trigger] selected@[k]),
                forall|i: int, l: int|
                    0 <= i < old(self).nodes@.len()
                        && 0 <= l < old(self).nodes@[i].connections@.len() && l != layer
                        ==> #[trigger] self.nodes@[i].connections@[l]
                            == old(self).nodes@[i].connections@[l],
                fresh ==> linked(
                    origin,
                    self.graph(),
                    node.neighbors(layer as int),
                    id,
                    layer as int,
                ),
                forall|x: VectorId| #[trigger]
                    origin.contains_key(x) ==> same_payload(origin[x], old(self).graph()[x])
                        && origin[x].neighbors(layer as int).len() <= layer_cap(
                        old(self).config,
                        layer as int,
                    ),
                fresh ==> nearest_kept(
                    origin,
                    self.graph(),
                    node.neighbors(layer as int),
                    id,
                    layer as int,
                    vector@,
                    old(self).distance_metric,
                    dist,
                ),
                fresh ==> forall|k: int|
                    0 <= k < t ==> node.neighbors(layer as int).contains(#[trigger] selected@[k])
                        || turned_down(
                        origin,
                        selected@[k],
                        id,
                        layer as int,
                        usable_cap(old(self).config, layer as int),
                        vector@,
                        old(self).distance_metric,
                        dist,
                    ),
            decreases selected@.len() - t,
        {
            let neighbor_id = selected[t];
            let slot = self.slot_of(neighbor_id).unwrap();
            let ghost before = *self;
            let ghost listed = *node;
            proof {
                assert(!listed.neighbors(layer as int).contains(neighbor_id)) by {
                    if listed.neighbors(layer as int).contains(neighbor_id) {
                        let k = choose|k: int|
                            0 <= k < listed.neighbors(layer as int).len() && listed.neighbors(
                                layer as int,
                            )[k] == neighbor_id;
                        assert(selected@[picks[k]] == selected@[t as int]);
                    }
                }
            }
            let (kept, dropped) = self.link_back(slot, layer, node.id, vector, dist);
            proof {
                Self::lemma_skeleton_chain(old(self), &before, self);
                self.lemma_node_ok_transfers(&before, listed, set![id]);
                assert forall|i: int, l: int|
                    0 <= i < old(self).nodes@.len()
                        && 0 <= l < old(self).nodes@[i].connections@.len() && l
                        != layer implies #[trigger] self.nodes@[i].connections@[l]
                    == old(self).nodes@[i].connections@[l] by {
                    assert(same_payload(old(self).nodes@[i], before.nodes@[i]));
                    assert(before.nodes@[i].connections@[l] == old(self).nodes@[i].connections@[l]);
                }
                if fresh {
                    assert(before.graph().dom() =~= origin.dom());
                    assert(origin.contains_key(neighbor_id));
                    match dropped {
                        Some(d) => {
                            assert(before.graph()[neighbor_id] == before.nodes@[slot as int]);
                            before.lemma_listed_is_known(slot as int, layer as int, d, id);
                        },
                        None => {},
                    }
                    lemma_moved_keeps_linked(
                        origin,
                        before.graph(),
                        self.graph(),
                        listed.neighbors(layer as int),
                        id,
                        layer as int,
                        neighbor_id,
                        kept,
                        dropped,
                    );
                    old(self).lemma_step_measured(
                        &before,
                        origin,
                        slot as int,
                        layer as int,
                        id,
                        kept,
                        dropped,
                        listed.neighbors(layer as int),
                        vector@,
                        dist,
                    );
                    lemma_moved_keeps_nearest(
                        origin,
                        before.graph(),
                        self.graph(),
                        listed.neighbors(layer as int),
                        id,
                        layer as int,
                        neighbor_id,
                        kept,
                        dropped,
                        vector@,
                        old(self).distance_metric,
                        dist,
                    );
                }
            }
            if kept {
                node.add_connection(layer, neighbor_id);
                proof {
                    let was = listed.neighbors(layer as int);
                    let now = node.neighbors(layer as int);
                    assert(now == was.push(neighbor_id));
                    picks = picks.push(t as int);
                    assert forall|k: int| 0 <= k < picks.len() implies 0 <= #[trigger] picks[k] < t
                        + 1 && now[k] == selected@[picks[k]] by {
                        if k < was.len() {
                            assert(now[k] == was[k]);
                        }
                    }
                    assert forall|a: int, b: int|
                        #![trigger now[a], now[b]]
                        0 <= a < b < now.len() implies !closer(
                        old(self).distance_to(now[b], vector@, dist),
                        old(self).distance_to(now[a], vector@, dist),
                    ) by {
                        if b < was.len() {
                            assert(now[a] == was[a] && now[b] == was[b]);
                        } else {
                            assert(now[a] == was[a]);
                            assert(now[a] == selected@[picks[a]]);
                            assert(now[b] == selected@[t as int]);
                            let p = picks[a];
                            assert(!closer(
                                old(self).distance_to(selected@[t as int], vector@, dist),
                                old(self).distance_to(selected@[p], vector@, dist),
                            ));
                        }
                    }
                    assert forall|l: int| 0 <= l < node.connections@.len() implies self.list_ok(
                        (#[trigger] node.connections@[l])@,
                        l,
                        set![id],
                    ) by {
                        if l != layer {
                            assert(node.connections@[l] == listed.connections@[l]);
                            assert(self.list_ok(listed.connections@[l]@, l, set![id]));
                        } else {
                            assert(self.list_ok(listed.connections@[l]@, l, set![id]));
                            assert(now.len() <= t + 1);
                            assert forall|k: int| 0 <= k < now.len() implies self.slots@.contains_key(
                                #[trigger] now[k],
                            ) || set![id].contains(now[k]) by {
                                if k < was.len() {
                                    assert(now[k] == was[k]);
                                }
                            }
                        }
                    }
                }
                proof {
                    lemma_pushed_members(listed.neighbors(layer as int), neighbor_id);
                }
            } else {
                proof {
                    assert forall|k: int| 0 <= k < picks.len() implies 0 <= #[trigger] picks[k] < t
                        + 1 && node.neighbors(layer as int)[k] == selected@[picks[k]] by {}
                }
            }
            t += 1;
        }
        proof {
            Self::lemma_ranked_transfers(self, old(self), selected@, vector@, dist);
            assert forall|k: int|
                0 <= k < node.neighbors(layer as int).len() implies selected@.contains(
                #[trigger] node.neighbors(layer as int)[k],
            ) by {
                assert(node.neighbors(layer as int)[k] == selected@[picks[k]]);
            }
        }
        (selected, found)
    }

    /// What a step of linking measured, said of the nodes as they were
    /// before the insert: a neighbour dropped was the farthest, and a node
    /// that did not take the new node had no room for it.
    proof fn lemma_step_measured<D: Fn(&Vec<u32>, &Vec<u32>, DistanceMetric) -> u32>(
        &self,
        now: &HnswIndex,
        origin: Map<VectorId, HnswNode>,
        slot: int,
        layer: int,
        id: VectorId,
        kept: bool,
        dropped: Option<VectorId>,
        chosen: Seq<VectorId>,
        vector: Seq<u32>,
        dist: &D,
    )
        requires
            self.same_skeleton(now),
            self.consistent(),
            now.wf_pending(set![id]),
            !self.slots@.contains_key(id),
            origin.dom() == self.graph().dom(),
            forall|x: VectorId| #[trigger]
                origin.contains_key(x) ==> same_payload(origin[x], self.graph()[x])
                    && origin[x].neighbors(layer).len() <= layer_cap(self.config, layer),
            0 <= slot < now.nodes@.len(),
            0 <= layer,
            !chosen.contains(now.nodes@[slot].id),
            linked(origin, now.graph(), chosen, id, layer),
            !kept ==> now.turned_away(slot, layer, vector, dist) && !now.nodes@[slot].neighbors(
                layer,
            ).contains(id),
            dropped matches Some(d) ==> now.farthest_of(slot, layer, d, vector, dist)
                && now.nodes@[slot].neighbors(layer).contains(d) && d != id,
        ensures
            dropped matches Some(d) ==> forall|m: VectorId|
                now.graph()[now.nodes@[slot].id].neighbors(layer).contains(m) || m == id ==> !closer(
                    reach_of(origin, now.nodes@[slot].id, d, id, vector, self.distance_metric, dist),
                    #[trigger] reach_of(
                        origin,
                        now.nodes@[slot].id,
                        m,
                        id,
                        vector,
                        self.distance_metric,
                        dist,
                    ),
                ),
            !kept ==> turned_down(
                origin,
                now.nodes@[slot].id,
                id,
                layer,
                usable_cap(self.config, layer),
                vector,
                self.distance_metric,
                dist,
            ),
    {
        let x = now.nodes@[slot].id;
        let g = now.graph();
        assert(g.contains_key(x));
        assert(g[x] == now.nodes@[slot]);
        assert(same_payload(self.nodes@[slot], now.nodes@[slot]));
        assert(origin.contains_key(x));
        assert(same_payload(origin[x], self.graph()[x]));
        assert(self.graph()[x] == self.nodes@[slot]);
        let list = now.nodes@[slot].neighbors(layer);
        assert forall|m: VectorId| list.contains(m) && m != id implies origin.contains_key(m)
            && origin[m].vector@ == now.nodes@[now.slots@[m] as int].vector@ by {
            now.lemma_listed_is_known(slot, layer, m, id);
            let j = now.slots@[m] as int;
            assert(same_payload(self.nodes@[j], now.nodes@[j]));
            assert(same_payload(origin[m], self.graph()[m]));
        }
        match dropped {
            Some(d) => {
                assert forall|m: VectorId| list.contains(m) || m == id implies !closer(
                    reach_of(origin, x, d, id, vector, self.distance_metric, dist),
                    #[trigger] reach_of(origin, x, m, id, vector, self.distance_metric, dist),
                ) by {
                    assert(list.contains(d));
                }
            },
            None => {},
        }
        if !kept && layer < now.nodes@[slot].connections@.len() {
            let first = origin[x].neighbors(layer);
            assert(list == first || list.contains(id) || list.len() < first.len());
            assert(origin[x].connections@[layer].len() == first.len());
            assert(first.len() <= usable_cap(self.config, layer));
            assert(list == first);
            assert forall|m: VectorId| #[trigger] first.contains(m) implies !closer(
                reach_of(origin, x, id, id, vector, self.distance_metric, dist),
                reach_of(origin, x, m, id, vector, self.distance_metric, dist),
            ) by {
                assert(list.contains(m));
            }
        }
    }

    /// Offers the node in `slot` the new node `id`, whose vector is
    /// `vector`, as a neighbour at `layer`, and says whether the node took
    /// it and which neighbour it dropped for it.
    ///
    /// A node that has the layer takes `id` where its list has room. Where
    /// the list is full it keeps the nearest: `id` takes the place of the
    /// neighbour that is farthest from the node (the later one of two that
    /// are equally far) if `id` is nearer than that one, and the neighbour
    /// dropped loses its edge to the node; otherwise nothing changes.
    fn link_back<D: Fn(&Vec<u32>, &Vec<u32>, DistanceMetric) -> u32>(
        &mut self,
        slot: usize,
        layer: usize,
        id: VectorId,
        vector: &Vec<u32>,
        dist: &D,
    ) -> (outcome: (bool, Option<VectorId>))
        requires
            old(self).wf_pending(set![id]),
            is_kernel(dist),
            slot < old(self).nodes@.len(),
            vector@.len() == old(self).dimension,
        ensures
            final(self).wf_pending(set![id]),
            old(self).same_skeleton(final(self)),
            forall|i: int, l: int|
                0 <= i < old(self).nodes@.len() && 0 <= l < old(self).nodes@[i].connections@.len()
                    && l != layer ==> #[trigger] final(self).nodes@[i].connections@[l]
                        == old(self).nodes@[i].connections@[l],
            moved(
                old(self).graph(),
                final(self).graph(),
                layer as int,
                old(self).nodes@[slot as int].id,
                id,
                outcome.0,
                outcome.1,
            ),
            !outcome.0 ==> old(self).turned_away(slot as int, layer as int, vector@, dist),
            outcome.1 matches Some(d) ==> old(self).farthest_of(
                slot as int,
                layer as int,
                d,
                vector@,
                dist,
            ),
    {
        let ghost owner = self.nodes@[slot as int].id;
        let ghost was = self.nodes@[slot as int].neighbors(layer as int);
        proof {
            assert(self.node_ok(self.nodes@[slot as int], set![id]));
            assert(self.graph().contains_key(owner));
            assert(self.graph()[owner] == self.nodes@[slot as int]);
        }
        if layer >= self.nodes[slot].connections.len() {
            return (false, None);
        }
        proof {
            assert(self.list_ok(was, layer as int, set![id]));
        }
        if list_contains(&self.nodes[slot].connections[layer], id) {
            return (true, None);
        }
        let (_, cap) = self.get_m_values(layer);
        if self.nodes[slot].connections[layer].len() < cap {
            self.nodes[slot].add_connection(layer, id);
            proof {
                old(self).lemma_lists_moved(self, slot as int, None, layer as int, id, true, None);
            }
            return (true, None);
        }
        proof {
            self.lemma_wf_uniform(set![id]);
            assert forall|m: VectorId| was.contains(m) implies self.slots@.contains_key(m) by {
                self.lemma_listed_is_known(slot as int, layer as int, m, id);
            }
        }
        let worst = self.farthest_at(slot, layer, dist);
        let at = match worst {
            Some((at, far)) => {
                let own = dist(&self.nodes[slot].vector, vector, self.distance_metric);
                if !is_closer(own, far) {
                    proof {
                        assert forall|m: VectorId| #[trigger] was.contains(m) implies !closer(
                            own,
                            self.between(slot as int, m, dist),
                        ) by {
                            let k = choose|k: int| 0 <= k < was.len() && was[k] == m;
                            assert(self.slots@.contains_key(was[k]));
                            crate::ordering::lemma_closer_is_strict_order(
                                own,
                                far,
                                self.between(slot as int, m, dist),
                            );
                        }
                    }
                    return (false, None);
                }
                proof {
                    crate::ordering::lemma_closer_is_strict_order(own, far, own);
                    assert forall|m: VectorId| #[trigger] was.contains(m) implies !closer(
                        far,
                        self.between(slot as int, m, dist),
                    ) by {
                        let k = choose|k: int| 0 <= k < was.len() && was[k] == m;
                        assert(self.slots@.contains_key(was[k]));
                    }
                }
                at
            },
            None => {
                proof {
                    assert forall|m: VectorId| #[trigger] was.contains(m) implies false by {
                        let k = choose|k: int| 0 <= k < was.len() && was[k] == m;
                        assert(self.slots@.contains_key(was[k]));
                    }
                }
                return (false, None);
            },
        };
        let dropped = self.nodes[slot].connections[layer][at];
        let owner_id = self.nodes[slot].id;
        let removed = self.nodes[slot].remove_connection(layer, &dropped);
        let ghost lighter = self.nodes@[slot as int].neighbors(layer as int);
        self.nodes[slot].add_connection(layer, id);
        proof {
            assert(was[at as int] == dropped);
            assert(was.contains(dropped));
            lemma_removed_members(was, dropped);
            assert(lighter == was.remove_value(dropped));
            assert(!lighter.contains(id));
            assert(self.nodes@[slot as int].neighbors(layer as int) == lighter.push(id));
            assert(self.consistent());
        }
        let ghost middle = *self;
        let other = self.slot_of(dropped);
        match other {
            Some(place) => {
                if place != slot {
                    let ghost held = self.nodes@[place as int].neighbors(layer as int);
                    self.nodes[place].remove_connection(layer, &owner_id);
                    proof {
                        assert(held == old(self).nodes@[place as int].neighbors(layer as int));
                    }
                }
            },
            None => {},
        }
        proof {
            let second = match other {
                Some(place) => if place != slot {
                    Some(place as int)
                } else {
                    None
                },
                None => None,
            };
            assert(old(self).slots@.contains_key(dropped) || dropped == id);
            assert(dropped != id);
            old(self).lemma_lists_moved(
                self,
                slot as int,
                second,
                layer as int,
                id,
                true,
                Some(dropped),
            );
        }
        (true, Some(dropped))
    }

    /// The neighbour at `layer` of the node in `slot` that is farthest
    /// from it, the later one of two that are equally far, and its
    /// distance; none where the node has no neighbour there.
    fn farthest_at<D: Fn(&Vec<u32>, &Vec<u32>, DistanceMetric) -> u32>(
        &self,
        slot: usize,
        layer: usize,
        dist: &D,
    ) -> (worst: Option<(usize, u32)>)
        requires
            self.consistent(),
            self.uniform(),
            is_kernel(dist),
            slot < self.nodes@.len(),
            layer < self.nodes@[slot as int].connections@.len(),
        ensures
            match worst {
                Some((at, far)) => at < self.nodes@[slot as int].neighbors(layer as int).len()
                    && self.slots@.contains_key(
                    self.nodes@[slot as int].neighbors(layer as int)[at as int],
                ) && far == self.between(
                    slot as int,
                    self.nodes@[slot as int].neighbors(layer as int)[at as int],
                    dist,
                ) && forall|k: int|
                    0 <= k < self.nodes@[slot as int].neighbors(layer as int).len()
                        && self.slots@.contains_key(
                        #[trigger] self.nodes@[slot as int].neighbors(layer as int)[k],
                    ) ==> !closer(
                        far,
                        self.between(
                            slot as int,
                            self.nodes@[slot as int].neighbors(layer as int)[k],
                            dist,
                        ),
                    ),
                None => forall|k: int|
                    0 <= k < self.nodes@[slot as int].neighbors(layer as int).len()
                        ==> !self.slots@.contains_key(
                        #[trigger] self.nodes@[slot as int].neighbors(layer as int)[k],
                    ),
            },
    {
        let ghost list = self.nodes@[slot as int].neighbors(layer as int);
        let mut worst: Option<(usize, u32)> = None;
        let mut k: usize = 0;
        while k < self.nodes[slot].connections[layer].len()
            invariant
                self.consistent(),
                self.uniform(),
                is_kernel(dist),
                slot < self.nodes@.len(),
                layer < self.nodes@[slot as int].connections@.len(),
                list == self.nodes@[slot as int].neighbors(layer as int),
                k <= list.len(),
                match worst {
                    Some((at, far)) => at < k && self.slots@.contains_key(list[at as int]) && far
                        == self.between(slot as int, list[at as int], dist) && forall|j: int|
                        0 <= j < k && self.slots@.contains_key(#[trigger] list[j]) ==> !closer(
                            far,
                            self.between(slot as int, list[j], dist),
                        ),
                    None => forall|j: int|
                        0 <= j < k ==> !self.slots@.contains_key(#[trigger] list[j]),
                },
            decreases list.len() - k,
        {
            let member = self.nodes[slot].connections[layer][k];
            match self.slot_of(member) {
                Some(place) => {
                    let d = dist(
                        &self.nodes[slot].vector,
                        &self.nodes[place].vector,
                        self.distance_metric,
                    );
                    let further = match worst {
                        Some((_, far)) => !is_closer(d, far),
                        None => true,
                    };
                    if further {
                        proof {
                            match worst {
                                Some((at, far)) => {
                                    assert forall|j: int|
                                        0 <= j < k && self.slots@.contains_key(
                                            #[trigger] list[j],
                                        ) implies !closer(
                                        d,
                                        self.between(slot as int, list[j], dist),
                                    ) by {
                                        crate::ordering::lemma_closer_is_strict_order(
                                            d,
                                            far,
                                            self.between(slot as int, list[j], dist),
                                        );
                                    }
                                },
                                None => {},
                            }
                        }
                        worst = Some((k, d));
                    }
                },
                None => {},
            }
            k += 1;
        }
        worst
    }

    /// Why the node in `slot` does not take the new node: it has no layer
    /// `layer`, or its list is full and `id` is no nearer to it than any of
    /// its neighbours.
    spec fn turned_away<D: Fn(&Vec<u32>, &Vec<u32>, DistanceMetric) -> u32>(
        &self,
        slot: int,
        layer: int,
        vector: Seq<u32>,
        dist: &D,
    ) -> bool {
        self.nodes@[slot].connections@.len() <= layer || (self.nodes@[slot].neighbors(layer).len()
            >= usable_cap(self.config, layer) && forall|m: VectorId| #[trigger]
            self.nodes@[slot].neighbors(layer).contains(m) ==> !closer(
                kernel_value(dist, self.nodes@[slot].vector@, vector, self.distance_metric),
                self.between(slot, m, dist),
            ))
    }

    /// The neighbour `d` of the node in `slot` is no nearer to it than any
    /// other of its neighbours, or than the new node.
    spec fn farthest_of<D: Fn(&Vec<u32>, &Vec<u32>, DistanceMetric) -> u32>(
        &self,
        slot: int,
        layer: int,
        d: VectorId,
        vector: Seq<u32>,
        dist: &D,
    ) -> bool {
        &&& !closer(
            self.between(slot, d, dist),
            kernel_value(dist, self.nodes@[slot].vector@, vector, self.distance_metric),
        )
        &&& forall|m: VectorId| #[trigger]
            self.nodes@[slot].neighbors(layer).contains(m) ==> !closer(
                self.between(slot, d, dist),
                self.between(slot, m, dist),
            )
    }

    /// Distance from the node in `slot` to the live node `other`.
    spec fn between<D: Fn(&Vec<u32>, &Vec<u32>, DistanceMetric) -> u32>(
        &self,
        slot: int,
        other: VectorId,
        dist: &D,
    ) -> u32 {
        kernel_value(
            dist,
            self.nodes@[slot].vector@,
            self.nodes@[self.slots@[other] as int].vector@,
            self.distance_metric,
        )
    }

    /// Stores `node` under its id, in place of the node that had it.
    fn put_node(&mut self, node: HnswNode)
        requires
            old(self).consistent(),
        ensures
            final(self).consistent(),
            final(self).slots@.dom() == old(self).slots@.dom().insert(node.id),
            final(self).graph() == old(self).graph().insert(node.id, node),
            final(self).entry_point == old(self).entry_point,
            final(self).config == old(self).config,
            final(self).distance_metric == old(self).distance_metric,
            final(self).dimension == old(self).dimension,
            final(self).nodes@.len() >= 1,
            forall|i: int|
                0 <= i < final(self).nodes@.len() ==> #[trigger] final(self).nodes@[i] == node || (
                i < old(self).nodes@.len() && final(self).nodes@[i] == old(self).nodes@[i]),
    {
        let id = node.id;
        match self.slot_of(id) {
            Some(slot) => {
                self.nodes[slot] = node;
                assert(self.graph() =~= old(self).graph().insert(id, node));
            },
            None => {
                let slot = self.nodes.len();
                self.slots.insert(id, slot);
                self.nodes.push(node);
                assert(self.graph() =~= old(self).graph().insert(id, node));
            },
        }
    }

    /// Distance from `vector` to the node of `id`.
    pub open spec fn distance_to<D: Fn(&Vec<u32>, &Vec<u32>, DistanceMetric) -> u32>(
        &self,
        id: VectorId,
        vector: Seq<u32>,
        dist: &D,
    ) -> u32 {
        kernel_value(dist, vector, self.graph()[id].vector@, self.spec_metric())
    }

    /// The nodes of `ids` stand in the order of their distance to
    /// `vector`, nearest first.
    pub open spec fn nearest_first_to<D: Fn(&Vec<u32>, &Vec<u32>, DistanceMetric) -> u32>(
        &self,
        ids: Seq<VectorId>,
        vector: Seq<u32>,
        dist: &D,
    ) -> bool {
        forall|a: int, b: int|
            #![trigger ids[a], ids[b]]
            0 <= a < b < ids.len() ==> !closer(
                self.distance_to(ids[b], vector, dist),
                self.distance_to(ids[a], vector, dist),
            )
    }

    proof fn lemma_ranked_transfers<D: Fn(&Vec<u32>, &Vec<u32>, DistanceMetric) -> u32>(
        a: &HnswIndex,
        b: &HnswIndex,
        ids: Seq<VectorId>,
        vector: Seq<u32>,
        dist: &D,
    )
        requires
            b.same_skeleton(a),
            b.consistent(),
            a.nearest_first_to(ids, vector, dist),
            forall|k: int| 0 <= k < ids.len() ==> a.slots@.contains_key(#[trigger] ids[k]),
        ensures
            b.nearest_first_to(ids, vector, dist),
    {
        assert forall|x: int, y: int|
            #![trigger ids[x], ids[y]]
            0 <= x < y < ids.len() implies !closer(
            b.distance_to(ids[y], vector, dist),
            b.distance_to(ids[x], vector, dist),
        ) by {
            let i = b.slots@[ids[x]] as int;
            let j = b.slots@[ids[y]] as int;
            assert(a.slots@.contains_key(ids[x]));
            assert(a.slots@.contains_key(ids[y]));
            assert(same_payload(b.nodes@[i], a.nodes@[i]));
            assert(same_payload(b.nodes@[j], a.nodes@[j]));
        }
    }

    /// No list at `layer` names `id`.
    spec fn unlisted_at(&self, id: VectorId, layer: int) -> bool {
        forall|i: int|
            0 <= i < self.nodes@.len() && layer < self.nodes@[i].connections@.len() ==> !(
            #[trigger] self.nodes@[i].connections@[layer])@.contains(id)
    }


    /// In a well-formed index no list names an id that is not live.
    proof fn lemma_fresh_is_unlisted(&self, id: VectorId)
        requires
            self.wf(),
            !self.slots@.contains_key(id),
        ensures
            forall|l: int| 0 <= l ==> #[trigger] self.unlisted_at(id, l),
    {
        assert forall|l: int| 0 <= l implies #[trigger] self.unlisted_at(id, l) by {
            assert forall|i: int|
                0 <= i < self.nodes@.len() && l < self.nodes@[i].connections@.len() implies !(
            #[trigger] self.nodes@[i].connections@[l])@.contains(id) by {
                assert(self.node_ok(self.nodes@[i], Set::empty()));
                assert(self.list_ok(self.nodes@[i].connections@[l]@, l, Set::empty()));
            }
        }
    }

    /// An id that a list names, other than the pending one, is live.
    proof fn lemma_listed_is_known(&self, slot: int, layer: int, listed: VectorId, id: VectorId)
        requires
            self.wf_pending(set![id]),
            0 <= slot < self.nodes@.len(),
            self.nodes@[slot].neighbors(layer).contains(listed),
            listed != id,
        ensures
            self.graph().contains_key(listed),
    {
        assert(self.node_ok(self.nodes@[slot], set![id]));
        assert(self.list_ok(self.nodes@[slot].connections@[layer]@, layer, set![id]));
    }

    /// What a step of linking that changed the lists of the node in `slot`
    /// and of the neighbour it dropped, in `second`, leaves behind.
    proof fn lemma_lists_moved(
        &self,
        after: &HnswIndex,
        slot: int,
        second: Option<int>,
        layer: int,
        id: VectorId,
        kept: bool,
        dropped: Option<VectorId>,
    )
        requires
            self.wf_pending(set![id]),
            0 <= slot < self.nodes@.len(),
            0 <= layer < self.nodes@[slot].connections@.len(),
            kept,
            after.slots@ == self.slots@,
            after.nodes@.len() == self.nodes@.len(),
            after.entry_point == self.entry_point,
            after.config == self.config,
            after.distance_metric == self.distance_metric,
            after.dimension == self.dimension,
            forall|i: int|
                0 <= i < self.nodes@.len() ==> same_payload(
                    self.nodes@[i],
                    #[trigger] after.nodes@[i],
                ),
            forall|i: int, l: int|
                0 <= i < self.nodes@.len() && 0 <= l < self.nodes@[i].connections@.len() && (l
                    != layer || (i != slot && second != Some(i)))
                    ==> #[trigger] after.nodes@[i].connections@[l] == self.nodes@[i].connections@[l],
            !self.nodes@[slot].neighbors(layer).contains(id),
            match dropped {
                Some(d) => d != id && self.nodes@[slot].neighbors(layer).contains(d)
                    && after.nodes@[slot].neighbors(layer) == self.nodes@[slot].neighbors(
                    layer,
                ).remove_value(d).push(id) && match second {
                    Some(j) => self.slots@.contains_key(d) && self.slots@[d] == j && j != slot
                        && after.nodes@[j].neighbors(layer) == self.nodes@[j].neighbors(
                        layer,
                    ).remove_value(self.nodes@[slot].id),
                    None => d == self.nodes@[slot].id,
                },
                None => second is None && self.nodes@[slot].neighbors(layer).len() < layer_cap(
                    self.config,
                    layer,
                ) && after.nodes@[slot].neighbors(layer) == self.nodes@[slot].neighbors(
                    layer,
                ).push(id),
            },
        ensures
            after.wf_pending(set![id]),
            self.same_skeleton(after),
            moved(self.graph(), after.graph(), layer, self.nodes@[slot].id, id, kept, dropped),
    {
        let x = self.nodes@[slot].id;
        let was = self.nodes@[slot].neighbors(layer);
        assert(self.node_ok(self.nodes@[slot], set![id]));
        assert(self.list_ok(self.nodes@[slot].connections@[layer]@, layer, set![id]));
        lemma_pushed_members(was, id);
        match dropped {
            Some(d) => {
                lemma_removed_members(was, d);
                crate::hnsw::delete::lemma_remove_value(was, d);
                lemma_pushed_members(was.remove_value(d), id);
                was.index_of_first_ensures(d);
            },
            None => {},
        }
        match second {
            Some(j) => {
                assert(self.node_ok(self.nodes@[j], set![id]));
                if layer < self.nodes@[j].connections@.len() {
                    assert(self.list_ok(self.nodes@[j].connections@[layer]@, layer, set![id]));
                    lemma_removed_members(self.nodes@[j].neighbors(layer), x);
                    crate::hnsw::delete::lemma_remove_value(self.nodes@[j].neighbors(layer), x);
                }
            },
            None => {},
        }
        assert(after.consistent()) by {
            assert forall|i: int| 0 <= i < after.nodes@.len() implies after.slots@.contains_key(
                #[trigger] after.nodes@[i].id,
            ) && after.slots@[after.nodes@[i].id] == i by {
                assert(same_payload(self.nodes@[i], after.nodes@[i]));
            }
            assert forall|v: VectorId| #[trigger] after.slots@.contains_key(v) implies after.slots@[v]
                < after.nodes@.len() && after.nodes@[after.slots@[v] as int].id == v by {
                assert(same_payload(
                    self.nodes@[self.slots@[v] as int],
                    after.nodes@[self.slots@[v] as int],
                ));
            }
        }
        assert forall|i: int| 0 <= i < after.nodes@.len() implies after.node_ok(
            #[trigger] after.nodes@[i],
            set![id],
        ) by {
            let stored = after.nodes@[i];
            assert(same_payload(self.nodes@[i], stored));
            assert(self.node_ok(self.nodes@[i], set![id]));
            assert forall|l: int| 0 <= l < stored.connections@.len() implies after.list_ok(
                (#[trigger] stored.connections@[l])@,
                l,
                set![id],
            ) by {
                assert(self.list_ok(self.nodes@[i].connections@[l]@, l, set![id]));
                if l != layer || (i != slot && second != Some(i)) {
                    assert(stored.connections@[l] == self.nodes@[i].connections@[l]);
                } else {
                    assert(stored.neighbors(layer) == stored.connections@[l]@);
                    assert(self.nodes@[i].neighbors(layer) == self.nodes@[i].connections@[l]@);
                    let list = stored.connections@[l]@;
                    assert forall|k: int| 0 <= k < list.len() implies after.slots@.contains_key(
                        #[trigger] list[k],
                    ) || set![id].contains(list[k]) by {
                        assert(list.contains(list[k]));
                        if list[k] != id {
                            assert(self.nodes@[i].neighbors(layer).contains(list[k]));
                            self.lemma_listed_is_known(i, layer, list[k], id);
                        }
                    }
                }
            }
        }
        let c = self.graph();
        let h = after.graph();
        assert forall|y: VectorId| c.contains_key(y) implies (#[trigger] h[y].neighbors(layer))
            == if y == x {
            if !kept || c[x].neighbors(layer).contains(id) {
                c[x].neighbors(layer)
            } else {
                match dropped {
                    Some(d) => c[x].neighbors(layer).remove_value(d).push(id),
                    None => c[x].neighbors(layer).push(id),
                }
            }
        } else if dropped == Some(y) {
            c[y].neighbors(layer).remove_value(x)
        } else {
            c[y].neighbors(layer)
        } by {
            let i = self.slots@[y] as int;
            assert(h[y] == after.nodes@[i]);
            assert(c[y] == self.nodes@[i]);
            assert(same_payload(self.nodes@[i], after.nodes@[i]));
            if i != slot && second != Some(i) {
                if layer < self.nodes@[i].connections@.len() {
                    assert(after.nodes@[i].connections@[layer] == self.nodes@[i].connections@[layer]);
                }
                if dropped == Some(y) {
                    assert(self.slots@[x] == slot);
                }
            }
        }
        assert forall|y: VectorId, m: VectorId| c.contains_key(y) implies (
        #[trigger] h[y].neighbors(layer).contains(m) <==> if y == x {
            (kept && m == id) || (c[x].neighbors(layer).contains(m) && dropped != Some(m))
        } else if dropped == Some(y) {
            c[y].neighbors(layer).contains(m) && m != x
        } else {
            c[y].neighbors(layer).contains(m)
        }) by {
            let i = self.slots@[y] as int;
            assert(h[y] == after.nodes@[i]);
            assert(c[y] == self.nodes@[i]);
            assert(same_payload(self.nodes@[i], after.nodes@[i]));
            if i == slot {
            } else if second == Some(i) {
            } else {
                if layer < self.nodes@[i].connections@.len() {
                    assert(after.nodes@[i].connections@[layer] == self.nodes@[i].connections@[layer]);
                }
                assert(after.nodes@[i].neighbors(layer) == self.nodes@[i].neighbors(layer));
                if dropped == Some(y) {
                    assert(self.slots@[x] == slot);
                }
            }
        }
    }

}

/// How the adjacency lists at layer `l` stand when a node is being stored
/// under an `id` that was not live: `before` holds the nodes as they were,
/// `now` as they are, and `chosen` is the list of the new node at the
/// layer.
///
/// A list gains no id but `id`. A node lists `id` exactly if the new node
/// lists it: the new edges go both ways. An edge that stays keeps its
/// reverse, if it had one. And a list loses an id only to make room for
/// `id`: it then holds `id`, or the id that it lost is a neighbour of the
/// new node, whose list lost the reverse edge. Of the ids that a list
/// lost, at most one is no neighbour of the new node: a full list drops one
/// id for `id`, and no more. A list that does not hold `id` is as it was,
/// or shorter.
pub open spec fn linked(
    before: Map<VectorId, HnswNode>,
    now: Map<VectorId, HnswNode>,
    chosen: Seq<VectorId>,
    id: VectorId,
    l: int,
) -> bool {
    &&& forall|x: VectorId, m: VectorId|
        before.contains_key(x) && #[trigger] now[x].neighbors(l).contains(m) ==> m == id
            || before[x].neighbors(l).contains(m)
    &&& forall|x: VectorId|
        #![trigger now[x].neighbors(l).contains(id)]
        #![trigger chosen.contains(x)]
        before.contains_key(x) ==> (now[x].neighbors(l).contains(id) <==> chosen.contains(x))
    &&& forall|a: VectorId, b: VectorId|
        before.contains_key(a) && before.contains_key(b) && before[b].neighbors(l).contains(a)
            && #[trigger] now[a].neighbors(l).contains(b) ==> now[b].neighbors(l).contains(a)
    &&& forall|y: VectorId, z: VectorId|
        before.contains_key(y) && #[trigger] before[y].neighbors(l).contains(z)
            && !now[y].neighbors(l).contains(z) ==> now[y].neighbors(l).contains(id)
            || chosen.contains(z)
    &&& forall|y: VectorId, z: VectorId, w: VectorId|
        before.contains_key(y) && #[trigger] before[y].neighbors(l).contains(z)
            && #[trigger] before[y].neighbors(l).contains(w) && !now[y].neighbors(l).contains(z)
            && !now[y].neighbors(l).contains(w) && !chosen.contains(z) && !chosen.contains(w)
            ==> z == w
    &&& forall|y: VectorId|
        before.contains_key(y) ==> (#[trigger] now[y].neighbors(l)) == before[y].neighbors(l)
            || now[y].neighbors(l).contains(id) || now[y].neighbors(l).len()
            < before[y].neighbors(l).len()
}

/// Distance from the node `y` of the graph to `m`: to the new node `id`,
/// whose vector is `vector`, or to another node of the graph.
pub open spec fn reach_of<D: Fn(&Vec<u32>, &Vec<u32>, DistanceMetric) -> u32>(
    graph: Map<VectorId, HnswNode>,
    y: VectorId,
    m: VectorId,
    id: VectorId,
    vector: Seq<u32>,
    metric: DistanceMetric,
    dist: &D,
) -> u32 {
    kernel_value(
        dist,
        graph[y].vector@,
        if m == id {
            vector
        } else {
            graph[m].vector@
        },
        metric,
    )
}

/// A list that took the new node `id` in place of a neighbour kept its
/// nearest: the neighbour that it lost for `id` is no nearer to the list's
/// owner than any id that the list holds. (An id that a list lost and that
/// is among `chosen` was lost for another reason: the id's own list took
/// `id` in place of the owner.)
pub open spec fn nearest_kept<D: Fn(&Vec<u32>, &Vec<u32>, DistanceMetric) -> u32>(
    before: Map<VectorId, HnswNode>,
    now: Map<VectorId, HnswNode>,
    chosen: Seq<VectorId>,
    id: VectorId,
    l: int,
    vector: Seq<u32>,
    metric: DistanceMetric,
    dist: &D,
) -> bool {
    forall|y: VectorId, z: VectorId, m: VectorId|
        before.contains_key(y) && #[trigger] before[y].neighbors(l).contains(z)
            && !now[y].neighbors(l).contains(z) && !chosen.contains(z) && now[y].neighbors(
            l,
        ).contains(id) && #[trigger] now[y].neighbors(l).contains(m) ==> !closer(
            reach_of(before, y, z, id, vector, metric, dist),
            reach_of(before, y, m, id, vector, metric, dist),
        )
}

/// Why the node `x` did not take the new node `id` as a neighbour at layer
/// `l`: it has no such layer, or its list was full and `id` is no nearer
/// to it than any of its neighbours.
pub open spec fn turned_down<D: Fn(&Vec<u32>, &Vec<u32>, DistanceMetric) -> u32>(
    before: Map<VectorId, HnswNode>,
    x: VectorId,
    id: VectorId,
    l: int,
    cap: int,
    vector: Seq<u32>,
    metric: DistanceMetric,
    dist: &D,
) -> bool {
    before[x].connections@.len() <= l || (before[x].neighbors(l).len() >= cap && forall|
        m: VectorId,
    | #[trigger]
        before[x].neighbors(l).contains(m) ==> !closer(
            reach_of(before, x, id, id, vector, metric, dist),
            reach_of(before, x, m, id, vector, metric, dist),
        ))
}

/// Where the search of layer `l` starts: at `start` for the highest layer
/// that is searched, and below it at the `m` nearest that the search of
/// the layer above held.
pub open spec fn search_entries(
    start: VectorId,
    founds: Seq<Seq<SearchCandidate>>,
    l: int,
    m: int,
) -> Seq<VectorId> {
    if l + 1 >= founds.len() {
        seq![start]
    } else {
        first_ids(founds[l + 1], m)
    }
}

/// Width of the search for the neighbours of a new node at layer `l`:
/// `ef_construction`, and at layer 0 at least `M`.
pub open spec fn construction_width(config: IndexConfig, l: int) -> int {
    if l == 0 && config.ef_construction < config.max_connections {
        config.max_connections as int
    } else {
        config.ef_construction as int
    }
}

/// `nearest_kept` reads the lists of the old nodes at the layer, and
/// nothing else of `now`.
proof fn lemma_nearest_same_lists<D: Fn(&Vec<u32>, &Vec<u32>, DistanceMetric) -> u32>(
    before: Map<VectorId, HnswNode>,
    now: Map<VectorId, HnswNode>,
    other: Map<VectorId, HnswNode>,
    chosen: Seq<VectorId>,
    id: VectorId,
    l: int,
    vector: Seq<u32>,
    metric: DistanceMetric,
    dist: &D,
)
    requires
        nearest_kept(before, now, chosen, id, l, vector, metric, dist),
        forall|x: VectorId| #[trigger]
            before.contains_key(x) ==> other[x].neighbors(l) == now[x].neighbors(l),
    ensures
        nearest_kept(before, other, chosen, id, l, vector, metric, dist),
{
    assert forall|y: VectorId, z: VectorId, m: VectorId|
        before.contains_key(y) && #[trigger] before[y].neighbors(l).contains(z)
            && !other[y].neighbors(l).contains(z) && !chosen.contains(z) && other[y].neighbors(
            l,
        ).contains(id) && #[trigger] other[y].neighbors(l).contains(m) implies !closer(
        reach_of(before, y, z, id, vector, metric, dist),
        reach_of(before, y, m, id, vector, metric, dist),
    ) by {
        assert(now[y].neighbors(l).contains(m));
    }
}

/// A step of linking in which the neighbour dropped is the farthest keeps
/// the lists as `nearest_kept` asks.
proof fn lemma_moved_keeps_nearest<D: Fn(&Vec<u32>, &Vec<u32>, DistanceMetric) -> u32>(
    before: Map<VectorId, HnswNode>,
    was: Map<VectorId, HnswNode>,
    now: Map<VectorId, HnswNode>,
    chosen: Seq<VectorId>,
    id: VectorId,
    l: int,
    x: VectorId,
    kept: bool,
    dropped: Option<VectorId>,
    vector: Seq<u32>,
    metric: DistanceMetric,
    dist: &D,
)
    requires
        linked(before, was, chosen, id, l),
        nearest_kept(before, was, chosen, id, l, vector, metric, dist),
        moved(was, now, l, x, id, kept, dropped),
        before.dom() == was.dom(),
        !before.contains_key(id),
        before.contains_key(x),
        !chosen.contains(x),
        dropped matches Some(d) ==> forall|m: VectorId|
            was[x].neighbors(l).contains(m) || m == id ==> !closer(
                reach_of(before, x, d, id, vector, metric, dist),
                #[trigger] reach_of(before, x, m, id, vector, metric, dist),
            ),
    ensures
        nearest_kept(
            before,
            now,
            if kept {
                chosen.push(x)
            } else {
                chosen
            },
            id,
            l,
            vector,
            metric,
            dist,
        ),
{
    let after = if kept {
        chosen.push(x)
    } else {
        chosen
    };
    lemma_pushed_members(chosen, x);
    assert forall|y: VectorId, z: VectorId, m: VectorId|
        before.contains_key(y) && #[trigger] before[y].neighbors(l).contains(z)
            && !now[y].neighbors(l).contains(z) && !after.contains(z) && now[y].neighbors(
            l,
        ).contains(id) && #[trigger] now[y].neighbors(l).contains(m) implies !closer(
        reach_of(before, y, z, id, vector, metric, dist),
        reach_of(before, y, m, id, vector, metric, dist),
    ) by {
        assert(was.contains_key(y));
        assert(!chosen.contains(z));
        assert(now[y].neighbors(l).contains(z) <==> if y == x {
            (kept && z == id) || (was[x].neighbors(l).contains(z) && dropped != Some(z))
        } else if dropped == Some(y) {
            was[y].neighbors(l).contains(z) && z != x
        } else {
            was[y].neighbors(l).contains(z)
        });
        assert(now[y].neighbors(l).contains(id) <==> if y == x {
            (kept && id == id) || (was[x].neighbors(l).contains(id) && dropped != Some(id))
        } else if dropped == Some(y) {
            was[y].neighbors(l).contains(id) && id != x
        } else {
            was[y].neighbors(l).contains(id)
        });
        assert(was[x].neighbors(l).contains(id) <==> chosen.contains(x));
        if y == x {
            if was[x].neighbors(l).contains(z) {
                assert(dropped == Some(z));
            } else {
                assert(was[x].neighbors(l).contains(id) || chosen.contains(z));
            }
        } else {
            assert(was[y].neighbors(l).contains(m));
            assert(was[y].neighbors(l).contains(id));
            assert(!was[y].neighbors(l).contains(z)) by {
                if dropped == Some(y) && z == x {
                    assert(after.contains(x));
                }
            }
        }
    }
}

/// One step of linking at layer `l`: the new node `id` is offered to the
/// node `x` as a neighbour. Where `x` takes it (`kept`), its list gains
/// `id`, and where the list was full it first loses `dropped`, whose own
/// list loses `x`. No other list changes, and none where `x` does not take
/// it.
spec fn moved(
    was: Map<VectorId, HnswNode>,
    now: Map<VectorId, HnswNode>,
    l: int,
    x: VectorId,
    id: VectorId,
    kept: bool,
    dropped: Option<VectorId>,
) -> bool {
    &&& forall|y: VectorId, m: VectorId|
        was.contains_key(y) ==> (#[trigger] now[y].neighbors(l).contains(m) <==> if y == x {
            (kept && m == id) || (was[x].neighbors(l).contains(m) && dropped != Some(m))
        } else if dropped == Some(y) {
            was[y].neighbors(l).contains(m) && m != x
        } else {
            was[y].neighbors(l).contains(m)
        })
    &&& !kept ==> dropped is None && !was[x].neighbors(l).contains(id)
    &&& match dropped {
        Some(d) => kept && was[x].neighbors(l).contains(d) && d != id,
        None => true,
    }
    &&& forall|y: VectorId|
        was.contains_key(y) ==> (#[trigger] now[y].neighbors(l)) == if y == x {
            if !kept || was[x].neighbors(l).contains(id) {
                was[x].neighbors(l)
            } else {
                match dropped {
                    Some(d) => was[x].neighbors(l).remove_value(d).push(id),
                    None => was[x].neighbors(l).push(id),
                }
            }
        } else if dropped == Some(y) {
            was[y].neighbors(l).remove_value(x)
        } else {
            was[y].neighbors(l)
        }
}

/// What a list without repeats holds once a value is taken out.
proof fn lemma_removed_members(list: Seq<VectorId>, v: VectorId)
    requires
        list.no_duplicates(),
    ensures
        forall|m: VectorId| #[trigger]
            list.remove_value(v).contains(m) <==> list.contains(m) && m != v,
{
    crate::hnsw::delete::lemma_remove_value(list, v);
    list.index_of_first_ensures(v);
    let rest = list.remove_value(v);
    assert forall|m: VectorId| list.contains(m) && m != v implies #[trigger] rest.contains(m) by {
        let p = choose|p: int| 0 <= p < list.len() && list[p] == m;
        match list.index_of_first(v) {
            Some(at) => {
                let q = if p < at {
                    p
                } else {
                    p - 1
                };
                assert(rest[q] == m);
            },
            None => {},
        }
    }
    assert forall|m: VectorId| #[trigger] rest.contains(m) implies list.contains(m) && m != v by {
        let q = choose|q: int| 0 <= q < rest.len() && rest[q] == m;
        assert(list.contains(rest[q]));
    }
}

/// What a list holds once a value is put at its end.
proof fn lemma_pushed_members(list: Seq<VectorId>, v: VectorId)
    ensures
        forall|m: VectorId| #[trigger] list.push(v).contains(m) <==> list.contains(m) || m == v,
{
    let longer = list.push(v);
    assert forall|m: VectorId| list.contains(m) || m == v implies #[trigger] longer.contains(m) by {
        if list.contains(m) {
            let p = choose|p: int| 0 <= p < list.len() && list[p] == m;
            assert(longer[p] == m);
        } else {
            assert(longer[list.len() as int] == m);
        }
    }
    assert forall|m: VectorId| #[trigger] longer.contains(m) implies list.contains(m) || m == v by {
        let q = choose|q: int| 0 <= q < longer.len() && longer[q] == m;
        if q < list.len() {
            assert(list[q] == m);
        }
    }
}

/// At a layer where no list names `id` and the new node has no neighbour
/// yet, the lists stand as `linked` asks.
proof fn lemma_linked_start(graph: Map<VectorId, HnswNode>, id: VectorId, l: int)
    requires
        forall|x: VectorId| #[trigger]
            graph.contains_key(x) ==> !graph[x].neighbors(l).contains(id),
    ensures
        linked(graph, graph, Seq::empty(), id, l),
{
    let none = Seq::<VectorId>::empty();
    assert forall|x: VectorId|
        #![trigger graph[x].neighbors(l).contains(id)]
        #![trigger none.contains(x)]
        graph.contains_key(x) implies (graph[x].neighbors(l).contains(id) <==> none.contains(x)) by {}
}

/// `linked` reads the lists of the old nodes at the layer, and nothing
/// else.
proof fn lemma_linked_same_lists(
    before: Map<VectorId, HnswNode>,
    now: Map<VectorId, HnswNode>,
    other: Map<VectorId, HnswNode>,
    chosen: Seq<VectorId>,
    id: VectorId,
    l: int,
)
    requires
        linked(before, now, chosen, id, l),
        forall|x: VectorId| #[trigger]
            before.contains_key(x) ==> other[x].neighbors(l) == now[x].neighbors(l),
    ensures
        linked(before, other, chosen, id, l),
{
    assert forall|x: VectorId, m: VectorId|
        before.contains_key(x) && #[trigger] other[x].neighbors(l).contains(m) implies m == id
        || before[x].neighbors(l).contains(m) by {
        assert(now[x].neighbors(l).contains(m));
    }
    assert forall|x: VectorId|
        #![trigger other[x].neighbors(l).contains(id)]
        #![trigger chosen.contains(x)]
        before.contains_key(x) implies (other[x].neighbors(l).contains(id) <==> chosen.contains(
        x,
    )) by {
        assert(now[x].neighbors(l).contains(id) <==> chosen.contains(x));
    }
    assert forall|a: VectorId, b: VectorId|
        before.contains_key(a) && before.contains_key(b) && before[b].neighbors(l).contains(a)
            && #[trigger] other[a].neighbors(l).contains(b) implies other[b].neighbors(
        l,
    ).contains(a) by {
        assert(now[a].neighbors(l).contains(b));
    }
    assert forall|y: VectorId, z: VectorId|
        before.contains_key(y) && #[trigger] before[y].neighbors(l).contains(z)
            && !other[y].neighbors(l).contains(z) implies other[y].neighbors(l).contains(id)
        || chosen.contains(z) by {
        assert(!now[y].neighbors(l).contains(z));
    }
    assert forall|y: VectorId, z: VectorId, w: VectorId|
        before.contains_key(y) && #[trigger] before[y].neighbors(l).contains(z)
            && #[trigger] before[y].neighbors(l).contains(w) && !other[y].neighbors(l).contains(z)
            && !other[y].neighbors(l).contains(w) && !chosen.contains(z) && !chosen.contains(
            w,
        ) implies z == w by {
        assert(!now[y].neighbors(l).contains(z));
        assert(!now[y].neighbors(l).contains(w));
    }
    assert forall|y: VectorId| before.contains_key(y) implies (#[trigger] other[y].neighbors(l))
        == before[y].neighbors(l) || other[y].neighbors(l).contains(id) || other[y].neighbors(
        l,
    ).len() < before[y].neighbors(l).len() by {
        assert(now[y].neighbors(l) == before[y].neighbors(l) || now[y].neighbors(l).contains(id)
            || now[y].neighbors(l).len() < before[y].neighbors(l).len());
    }
}

/// A step of linking keeps the lists as `linked` asks.
proof fn lemma_moved_keeps_linked(
    before: Map<VectorId, HnswNode>,
    was: Map<VectorId, HnswNode>,
    now: Map<VectorId, HnswNode>,
    chosen: Seq<VectorId>,
    id: VectorId,
    l: int,
    x: VectorId,
    kept: bool,
    dropped: Option<VectorId>,
)
    requires
        linked(before, was, chosen, id, l),
        moved(was, now, l, x, id, kept, dropped),
        before.dom() == was.dom(),
        !before.contains_key(id),
        before.contains_key(x),
        !chosen.contains(x),
        dropped matches Some(d) ==> before.contains_key(d),
        forall|y: VectorId| #[trigger] was.contains_key(y) ==> was[y].neighbors(l).no_duplicates(),
    ensures
        linked(
            before,
            now,
            if kept {
                chosen.push(x)
            } else {
                chosen
            },
            id,
            l,
        ),
{
    let after = if kept {
        chosen.push(x)
    } else {
        chosen
    };
    lemma_pushed_members(chosen, x);
    assert forall|x2: VectorId, m: VectorId|
        before.contains_key(x2) && #[trigger] now[x2].neighbors(l).contains(m) implies m == id
        || before[x2].neighbors(l).contains(m) by {
        assert(was.contains_key(x2));
        if m != id {
            assert(was[x2].neighbors(l).contains(m));
        }
    }
    assert forall|y: VectorId|
        #![trigger now[y].neighbors(l).contains(id)]
        #![trigger after.contains(y)]
        before.contains_key(y) implies (now[y].neighbors(l).contains(id) <==> after.contains(y)) by {
        assert(was.contains_key(y));
        assert(was[y].neighbors(l).contains(id) <==> chosen.contains(y));
    }
    assert forall|a: VectorId, b: VectorId|
        before.contains_key(a) && before.contains_key(b) && before[b].neighbors(l).contains(a)
            && #[trigger] now[a].neighbors(l).contains(b) implies now[b].neighbors(l).contains(
        a,
    ) by {
        assert(was.contains_key(a) && was.contains_key(b));
        assert(was[a].neighbors(l).contains(b));
        assert(was[b].neighbors(l).contains(a));
        assert(now[b].neighbors(l).contains(a) <==> if b == x {
            (kept && a == id) || (was[x].neighbors(l).contains(a) && dropped != Some(a))
        } else if dropped == Some(b) {
            was[b].neighbors(l).contains(a) && a != x
        } else {
            was[b].neighbors(l).contains(a)
        });
    }
    assert forall|y: VectorId, z: VectorId|
        before.contains_key(y) && #[trigger] before[y].neighbors(l).contains(z)
            && !now[y].neighbors(l).contains(z) implies now[y].neighbors(l).contains(id)
        || after.contains(z) by {
        assert(was.contains_key(y));
        assert(now[y].neighbors(l).contains(z) <==> if y == x {
            (kept && z == id) || (was[x].neighbors(l).contains(z) && dropped != Some(z))
        } else if dropped == Some(y) {
            was[y].neighbors(l).contains(z) && z != x
        } else {
            was[y].neighbors(l).contains(z)
        });
        assert(now[y].neighbors(l).contains(id) <==> if y == x {
            (kept && id == id) || (was[x].neighbors(l).contains(id) && dropped != Some(id))
        } else if dropped == Some(y) {
            was[y].neighbors(l).contains(id) && id != x
        } else {
            was[y].neighbors(l).contains(id)
        });
        if !was[y].neighbors(l).contains(z) {
            assert(was[y].neighbors(l).contains(id) || chosen.contains(z));
        }
    }
    assert forall|y: VectorId, z: VectorId, w: VectorId|
        before.contains_key(y) && #[trigger] before[y].neighbors(l).contains(z)
            && #[trigger] before[y].neighbors(l).contains(w) && !now[y].neighbors(l).contains(z)
            && !now[y].neighbors(l).contains(w) && !after.contains(z) && !after.contains(
            w,
        ) implies z == w by {
        assert(was.contains_key(y));
        assert(!chosen.contains(z) && !chosen.contains(w));
        assert(was[x].neighbors(l).contains(id) <==> chosen.contains(x));
        assert(now[y].neighbors(l).contains(z) <==> if y == x {
            (kept && z == id) || (was[x].neighbors(l).contains(z) && dropped != Some(z))
        } else if dropped == Some(y) {
            was[y].neighbors(l).contains(z) && z != x
        } else {
            was[y].neighbors(l).contains(z)
        });
        assert(now[y].neighbors(l).contains(w) <==> if y == x {
            (kept && w == id) || (was[x].neighbors(l).contains(w) && dropped != Some(w))
        } else if dropped == Some(y) {
            was[y].neighbors(l).contains(w) && w != x
        } else {
            was[y].neighbors(l).contains(w)
        });
        if y == x {
            if !was[x].neighbors(l).contains(z) {
                assert(was[x].neighbors(l).contains(id) || chosen.contains(z));
            }
            if !was[x].neighbors(l).contains(w) {
                assert(was[x].neighbors(l).contains(id) || chosen.contains(w));
            }
        } else {
            assert(!was[y].neighbors(l).contains(z)) by {
                if dropped == Some(y) && z == x {
                    assert(after.contains(x));
                }
            }
            assert(!was[y].neighbors(l).contains(w)) by {
                if dropped == Some(y) && w == x {
                    assert(after.contains(x));
                }
            }
        }
    }
    assert forall|y: VectorId| before.contains_key(y) implies (#[trigger] now[y].neighbors(l))
        == before[y].neighbors(l) || now[y].neighbors(l).contains(id) || now[y].neighbors(l).len()
        < before[y].neighbors(l).len() by {
        assert(was.contains_key(y));
        let old_list = was[y].neighbors(l);
        assert(old_list == before[y].neighbors(l) || old_list.contains(id) || old_list.len()
            < before[y].neighbors(l).len());
        assert(now[y].neighbors(l).contains(id) <==> if y == x {
            (kept && id == id) || (was[x].neighbors(l).contains(id) && dropped != Some(id))
        } else if dropped == Some(y) {
            was[y].neighbors(l).contains(id) && id != x
        } else {
            was[y].neighbors(l).contains(id)
        });
        if y != x && dropped == Some(y) {
            crate::hnsw::delete::lemma_remove_value(old_list, x);
            if old_list.contains(x) {
                old_list.index_of_first_ensures(x);
            } else {
                old_list.index_of_first_ensures(x);
                assert(old_list.remove_value(x) == old_list);
            }
        }
    }
}

/// Where a draw stands after one more word of the stream: one layer higher
/// where the word lets the node climb and `max_layer` is not reached, and
/// at its end where not.
pub open spec fn spec_next_layer(layer: usize, word: u64, max_layer: usize) -> Option<usize> {
    if spec_climbs(word) && layer < max_layer {
        Some((layer + 1) as usize)
    } else {
        None
    }
}

pub fn next_layer(layer: usize, word: u64, max_layer: usize) -> (next: Option<usize>)
    ensures
        next == spec_next_layer(layer, word, max_layer),
{
    if climbs(word) && layer < max_layer {
        Some(layer + 1)
    } else {
        None
    }
}

} // verus!
