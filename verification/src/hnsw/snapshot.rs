//! Taking an index apart and putting it together again.
//!
//! A snapshot holds everything an index holds, as plain values, so that it
//! can be stored. An index is restored only from a snapshot that satisfies
//! the index invariant.

use vstd::prelude::*;
use std::collections::HashMap;
use super::{cap_of, layer_cap, HnswIndex};
use crate::error::VectorDbError;
use crate::node::HnswNode;
use crate::types::{copy_components, copy_metadata, metadata_view, DistanceMetric, IndexConfig, VectorId};

verus! {

broadcast use vstd::std_specs::hash::group_hash_axioms;

/// The contents of an index.
#[derive(Debug, Clone)]
pub struct IndexSnapshot {
    pub nodes: Vec<HnswNode>,
    pub entry_point: Option<VectorId>,
    pub config: IndexConfig,
    pub distance_metric: DistanceMetric,
    pub dimension: usize,
}

/// Two nodes of the same value.
pub open spec fn same_node(a: HnswNode, b: HnswNode) -> bool {
    &&& a.id == b.id
    &&& a.vector@ == b.vector@
    &&& metadata_view(a.metadata) == metadata_view(b.metadata)
    &&& a.layer == b.layer
    &&& a.connections@.len() == b.connections@.len()
    &&& forall|l: int| 0 <= l < a.connections@.len() ==> (#[trigger] a.connections@[l])@
        == b.connections@[l]@
}

/// Whether some node has the id.
pub open spec fn names_node(nodes: Seq<HnswNode>, id: VectorId) -> bool {
    exists|j: int| 0 <= j < nodes.len() && (#[trigger] nodes[j]).id == id
}

/// An adjacency list that respects the cap, repeats no id and names nodes
/// only.
pub open spec fn list_sound(nodes: Seq<HnswNode>, list: Seq<VectorId>, cap: int) -> bool {
    &&& list.len() <= cap
    &&& list.no_duplicates()
    &&& forall|k: int| 0 <= k < list.len() ==> names_node(nodes, #[trigger] list[k])
}

/// A node of the right dimension with the layers `0..=layer`, `layer`
/// within the maximum, and sound adjacency lists.
pub open spec fn node_sound(
    nodes: Seq<HnswNode>,
    node: HnswNode,
    config: IndexConfig,
    dimension: usize,
) -> bool {
    &&& node.layered()
    &&& node.layer <= config.max_layer
    &&& node.vector@.len() == dimension
    &&& forall|l: int|
        0 <= l < node.connections@.len() ==> list_sound(
            nodes,
            (#[trigger] node.connections@[l])@,
            layer_cap(config, l),
        )
}

/// The index invariant, said of the contents of a snapshot: no id twice,
/// every node sound, the entry point a node, and absent exactly when there
/// is no node.
pub open spec fn snapshot_sound(
    nodes: Seq<HnswNode>,
    entry: Option<VectorId>,
    config: IndexConfig,
    dimension: usize,
) -> bool {
    &&& config.max_layer < usize::MAX
    &&& forall|i: int, j: int| 0 <= i < j < nodes.len()
        ==> (#[trigger] nodes[i]).id != (#[trigger] nodes[j]).id
    &&& forall|i: int| 0 <= i < nodes.len() ==> node_sound(nodes, #[trigger] nodes[i], config, dimension)
    &&& match entry {
        Some(e) => names_node(nodes, e),
        None => nodes.len() == 0,
    }
}

/// Two snapshots of the same contents.
pub open spec fn same_snapshot(a: IndexSnapshot, b: IndexSnapshot) -> bool {
    &&& a.nodes@.len() == b.nodes@.len()
    &&& forall|i: int| 0 <= i < a.nodes@.len() ==> same_node(#[trigger] a.nodes@[i], b.nodes@[i])
    &&& a.entry_point == b.entry_point
    &&& a.config == b.config
    &&& a.distance_metric == b.distance_metric
    &&& a.dimension == b.dimension
}

/// `decode` reads what `encode` wrote as the snapshot that was written.
pub open spec fn is_snapshot_codec<
    E: Fn(&IndexSnapshot) -> Vec<u8>,
    Dc: Fn(&Vec<u8>) -> Option<IndexSnapshot>,
>(encode: &E, decode: &Dc) -> bool {
    forall|snapshot: IndexSnapshot, written: Vec<u8>, data: Vec<u8>, back: Option<IndexSnapshot>|
        #[trigger] call_ensures(*encode, (&snapshot,), written) && written@ == data@
            && #[trigger] call_ensures(*decode, (&data,), back) ==> (match back {
            Some(read) => same_snapshot(snapshot, read),
            None => false,
        })
}

/// Soundness speaks of the contents only: it passes from a snapshot to one
/// of the same contents.
pub proof fn lemma_sound_by_contents(a: IndexSnapshot, b: IndexSnapshot)
    requires
        same_snapshot(a, b),
        snapshot_sound(a.nodes@, a.entry_point, a.config, a.dimension),
    ensures
        snapshot_sound(b.nodes@, b.entry_point, b.config, b.dimension),
{
    let m = a.nodes@;
    let n = b.nodes@;
    assert forall|id: VectorId| names_node(m, id) implies names_node(n, id) by {
        let j = choose|j: int| 0 <= j < m.len() && (#[trigger] m[j]).id == id;
        assert(same_node(m[j], n[j]));
        assert(n[j].id == id);
    }
    assert forall|i: int, j: int| 0 <= i < j < n.len() implies (#[trigger] n[i]).id != (
    #[trigger] n[j]).id by {
        assert(same_node(m[i], n[i]));
        assert(same_node(m[j], n[j]));
    }
    assert forall|i: int| 0 <= i < n.len() implies node_sound(
        n,
        #[trigger] n[i],
        b.config,
        b.dimension,
    ) by {
        assert(same_node(m[i], n[i]));
        assert(node_sound(m, m[i], a.config, a.dimension));
        assert forall|l: int| 0 <= l < n[i].connections@.len() implies list_sound(
            n,
            (#[trigger] n[i].connections@[l])@,
            layer_cap(b.config, l),
        ) by {
            let list = m[i].connections@[l]@;
            assert(list_sound(m, list, layer_cap(a.config, l)));
            assert(n[i].connections@[l]@ == list);
            assert forall|k: int| 0 <= k < list.len() implies names_node(n, #[trigger] list[k]) by {
                assert(names_node(m, list[k]));
            }
        }
    }
}

/// A copy of a node.
pub fn copy_node(node: &HnswNode) -> (copy: HnswNode)
    ensures
        same_node(*node, copy),
{
    let mut connections: Vec<Vec<VectorId>> = Vec::new();
    let mut l: usize = 0;
    while l < node.connections.len()
        invariant
            l <= node.connections@.len(),
            connections@.len() == l,
            forall|k: int| 0 <= k < l ==> (#[trigger] connections@[k])@ == node.connections@[k]@,
        decreases node.connections@.len() - l,
    {
        let list = &node.connections[l];
        let mut copy: Vec<VectorId> = Vec::new();
        let mut k: usize = 0;
        while k < list.len()
            invariant
                k <= list@.len(),
                copy@ == list@.take(k as int),
            decreases list@.len() - k,
        {
            copy.push(list[k]);
            assert(list@.take(k + 1) =~= list@.take(k as int).push(list@[k as int]));
            k += 1;
        }
        assert(list@.take(list@.len() as int) =~= list@);
        connections.push(copy);
        l += 1;
    }
    HnswNode {
        id: node.id,
        vector: copy_components(&node.vector),
        metadata: copy_metadata(&node.metadata),
        layer: node.layer,
        connections,
    }
}

/// Whether no id occurs twice in the list.
fn no_repeats(list: &Vec<VectorId>) -> (distinct: bool)
    ensures
        distinct == list@.no_duplicates(),
{
    let mut j: usize = 0;
    while j < list.len()
        invariant
            j <= list@.len(),
            forall|a: int, b: int| 0 <= a < b < j ==> list@[a] != list@[b],
        decreases list@.len() - j,
    {
        let mut a: usize = 0;
        while a < j
            invariant
                a <= j,
                j < list@.len(),
                forall|c: int| 0 <= c < a ==> list@[c] != list@[j as int],
            decreases j - a,
        {
            if list[a] == list[j] {
                return false;
            }
            a += 1;
        }
        j += 1;
    }
    true
}

impl HnswIndex {
    /// The contents of the index.
    pub fn snapshot(&self) -> (snapshot: IndexSnapshot)
        ensures
            self.pictured(snapshot),
            self.wf() ==> snapshot_sound(
                snapshot.nodes@,
                snapshot.entry_point,
                snapshot.config,
                snapshot.dimension,
            ),
    {
        let mut nodes: Vec<HnswNode> = Vec::new();
        let mut i: usize = 0;
        while i < self.nodes.len()
            invariant
                i <= self.nodes@.len(),
                nodes@.len() == i,
                forall|k: int| 0 <= k < i ==> same_node(self.nodes@[k], #[trigger] nodes@[k]),
            decreases self.nodes@.len() - i,
        {
            nodes.push(copy_node(&self.nodes[i]));
            i += 1;
        }
        let snapshot = IndexSnapshot {
            nodes,
            entry_point: self.entry_point,
            config: self.config,
            distance_metric: self.distance_metric,
            dimension: self.dimension,
        };
        proof {
            if self.wf() {
                self.lemma_snapshot_is_sound(snapshot);
            }
        }
        snapshot
    }

    /// The index as bytes: the encoding of its snapshot.
    pub fn serialize<E: Fn(&IndexSnapshot) -> Vec<u8>>(&self, encode: &E) -> (bytes: Vec<u8>)
        requires
            forall|snapshot: &IndexSnapshot| #[trigger] call_requires(*encode, (snapshot,)),
        ensures
            self.encoded_as(encode, bytes),
    {
        let snapshot = self.snapshot();
        let bytes = encode(&snapshot);
        proof {
            assert(self.pictured(snapshot));
            assert(call_ensures(*encode, (&snapshot,), bytes));
        }
        bytes
    }

    /// `bytes` are an encoding of a snapshot of the index.
    pub open spec fn encoded_as<E: Fn(&IndexSnapshot) -> Vec<u8>>(
        &self,
        encode: &E,
        bytes: Vec<u8>,
    ) -> bool {
        exists|snapshot: IndexSnapshot|
            #[trigger] call_ensures(*encode, (&snapshot,), bytes) && self.pictured(snapshot)
    }

    /// `snapshot` holds the contents of the index.
    pub open spec fn pictured(&self, snapshot: IndexSnapshot) -> bool {
        &&& snapshot.nodes@.len() == self.arena().len()
        &&& forall|i: int|
            0 <= i < self.arena().len() ==> same_node(self.arena()[i], #[trigger] snapshot.nodes@[i])
        &&& snapshot.entry_point == self.entry()
        &&& snapshot.config == self.spec_config()
        &&& snapshot.distance_metric == self.spec_metric()
        &&& snapshot.dimension == self.spec_dimension()
    }

    /// A snapshot of a well-formed index satisfies the index invariant, so
    /// `restore` accepts it.
    pub proof fn lemma_snapshot_is_sound(&self, snapshot: IndexSnapshot)
        requires
            self.wf(),
            self.pictured(snapshot),
        ensures
            snapshot_sound(
                snapshot.nodes@,
                snapshot.entry_point,
                snapshot.config,
                snapshot.dimension,
            ),
    {
        let nodes = snapshot.nodes@;
        assert forall|i: int, j: int| 0 <= i < j < nodes.len() implies (#[trigger] nodes[i]).id != (
        #[trigger] nodes[j]).id by {
            assert(same_node(self.nodes@[i], nodes[i]));
            assert(same_node(self.nodes@[j], nodes[j]));
            assert(self.slots@[self.nodes@[i].id] == i);
            assert(self.slots@[self.nodes@[j].id] == j);
        }
        assert forall|i: int| 0 <= i < nodes.len() implies node_sound(
            nodes,
            #[trigger] nodes[i],
            snapshot.config,
            snapshot.dimension,
        ) by {
            let was = self.nodes@[i];
            assert(same_node(was, nodes[i]));
            assert(self.node_ok(was, Set::empty()));
            assert forall|l: int| 0 <= l < nodes[i].connections@.len() implies list_sound(
                nodes,
                (#[trigger] nodes[i].connections@[l])@,
                layer_cap(snapshot.config, l),
            ) by {
                let list = was.connections@[l]@;
                assert(self.list_ok(list, l, Set::empty()));
                assert(nodes[i].connections@[l]@ == list);
                assert forall|k: int| 0 <= k < list.len() implies names_node(
                    nodes,
                    #[trigger] list[k],
                ) by {
                    let t = self.slots@[list[k]] as int;
                    assert(same_node(self.nodes@[t], nodes[t]));
                    assert(nodes[t].id == list[k]);
                }
            }
        }
        match snapshot.entry_point {
            Some(e) => {
                let t = self.slots@[e] as int;
                assert(same_node(self.nodes@[t], nodes[t]));
                assert(nodes[t].id == e);
            },
            None => {},
        }
    }

    /// `snapshot` is in the index, node for node.
    pub open spec fn holds(&self, snapshot: IndexSnapshot) -> bool {
        &&& self.arena() == snapshot.nodes@
        &&& self.entry() == snapshot.entry_point
        &&& self.spec_config() == snapshot.config
        &&& self.spec_metric() == snapshot.distance_metric
        &&& self.spec_dimension() == snapshot.dimension
    }

    /// What reading `data` does to the index: a sound snapshot that
    /// `decode` finds in the bytes is what `after` holds; where `decode`
    /// finds none, or one that is not sound, the index is as before and
    /// the error says which.
    pub open spec fn read_back<Dc: Fn(&Vec<u8>) -> Option<IndexSnapshot>>(
        &self,
        decode: &Dc,
        data: &Vec<u8>,
        after: &HnswIndex,
        result: Result<(), VectorDbError>,
    ) -> bool {
        match result {
            Ok(()) => exists|snapshot: IndexSnapshot|
                #[trigger] call_ensures(*decode, (data,), Some(snapshot)) && snapshot_sound(
                    snapshot.nodes@,
                    snapshot.entry_point,
                    snapshot.config,
                    snapshot.dimension,
                ) && after.holds(snapshot),
            Err(error) => self.same_contents(after) && (error.is_serialization("malformed index"@)
                && call_ensures(*decode, (data,), None) || error.is_index_error(
                "snapshot violates the index invariant"@,
            ) && exists|snapshot: IndexSnapshot|
                #[trigger] call_ensures(*decode, (data,), Some(snapshot)) && !snapshot_sound(
                    snapshot.nodes@,
                    snapshot.entry_point,
                    snapshot.config,
                    snapshot.dimension,
                )),
        }
    }

    /// `other` has the contents of `self`, node for node.
    pub open spec fn mirrors(&self, other: &HnswIndex) -> bool {
        &&& other.arena().len() == self.arena().len()
        &&& forall|i: int|
            0 <= i < self.arena().len() ==> same_node(#[trigger] self.arena()[i], other.arena()[i])
        &&& other.entry() == self.entry()
        &&& other.spec_config() == self.spec_config()
        &&& other.spec_metric() == self.spec_metric()
        &&& other.spec_dimension() == self.spec_dimension()
    }

    /// Round trip: where `decode` reads what `encode` wrote, an index that
    /// reads the bytes of a well-formed index takes them and then has the
    /// contents of that index.
    pub proof fn lemma_index_roundtrip<
        E: Fn(&IndexSnapshot) -> Vec<u8>,
        Dc: Fn(&Vec<u8>) -> Option<IndexSnapshot>,
    >(
        &self,
        encode: &E,
        decode: &Dc,
        bytes: Vec<u8>,
        before: HnswIndex,
        after: HnswIndex,
        result: Result<(), VectorDbError>,
    )
        requires
            self.wf(),
            is_snapshot_codec(encode, decode),
            self.encoded_as(encode, bytes),
            before.read_back(decode, &bytes, &after, result),
        ensures
            result is Ok,
            self.mirrors(&after),
    {
        let written = choose|snapshot: IndexSnapshot|
            #[trigger] call_ensures(*encode, (&snapshot,), bytes) && self.pictured(snapshot);
        self.lemma_snapshot_is_sound(written);
        match result {
            Ok(()) => {
                let read = choose|snapshot: IndexSnapshot|
                    #[trigger] call_ensures(*decode, (&bytes,), Some(snapshot)) && snapshot_sound(
                        snapshot.nodes@,
                        snapshot.entry_point,
                        snapshot.config,
                        snapshot.dimension,
                    ) && after.holds(snapshot);
                assert(same_snapshot(written, read));
                assert forall|i: int| 0 <= i < self.arena().len() implies same_node(
                    #[trigger] self.arena()[i],
                    after.arena()[i],
                ) by {
                    assert(same_node(self.arena()[i], written.nodes@[i]));
                    assert(same_node(written.nodes@[i], read.nodes@[i]));
                }
            },
            Err(error) => {
                if call_ensures(*decode, (&bytes,), None) {
                    assert(false);
                } else {
                    let read = choose|snapshot: IndexSnapshot|
                        #[trigger] call_ensures(*decode, (&bytes,), Some(snapshot))
                            && !snapshot_sound(
                            snapshot.nodes@,
                            snapshot.entry_point,
                            snapshot.config,
                            snapshot.dimension,
                        );
                    assert(same_snapshot(written, read));
                    lemma_sound_by_contents(written, read);
                    assert(false);
                }
            },
        }
    }

    /// Replaces the contents of the index by those that the bytes hold.
    /// Bytes that hold no snapshot, and a snapshot that violates the index
    /// invariant, are refused, and the index stays as it is.
    pub fn deserialize<Dc: Fn(&Vec<u8>) -> Option<IndexSnapshot>>(
        &mut self,
        data: &Vec<u8>,
        decode: &Dc,
    ) -> (result: Result<(), VectorDbError>)
        requires
            old(self).wf(),
            forall|bytes: &Vec<u8>| #[trigger] call_requires(*decode, (bytes,)),
        ensures
            final(self).wf(),
            old(self).read_back(decode, data, final(self), result),
    {
        match decode(data) {
            Some(snapshot) => {
                let ghost held = snapshot;
                let result = self.restore(snapshot);
                proof {
                    assert(call_ensures(*decode, (data,), Some(held)));
                }
                result
            },
            None => Err(VectorDbError::Serialization("malformed index".to_string())),
        }
    }

    /// Replaces the contents of the index by those of the snapshot, if they
    /// satisfy the index invariant. Otherwise the index stays as it is and
    /// the violation is reported.
    pub fn restore(&mut self, snapshot: IndexSnapshot) -> (result: Result<(), VectorDbError>)
        requires
            old(self).wf(),
        ensures
            final(self).wf(),
            match result {
                Ok(()) => snapshot_sound(
                    snapshot.nodes@,
                    snapshot.entry_point,
                    snapshot.config,
                    snapshot.dimension,
                ) && final(self).arena() == snapshot.nodes@ && final(self).entry()
                    == snapshot.entry_point && final(self).spec_config() == snapshot.config
                    && final(self).spec_metric() == snapshot.distance_metric
                        && final(self).spec_dimension() == snapshot.dimension,
                Err(error) => !snapshot_sound(
                    snapshot.nodes@,
                    snapshot.entry_point,
                    snapshot.config,
                    snapshot.dimension,
                ) && error.is_index_error("snapshot violates the index invariant"@)
                    && old(self).same_contents(final(self)),
            },
    {
        match index_slots(&snapshot) {
            Some(slots) => {
                self.nodes = snapshot.nodes;
                self.slots = slots;
                self.entry_point = snapshot.entry_point;
                self.config = snapshot.config;
                self.distance_metric = snapshot.distance_metric;
                self.dimension = snapshot.dimension;
                proof {
                    assert forall|i: int| 0 <= i < self.nodes@.len() implies self.node_ok(
                        #[trigger] self.nodes@[i],
                        Set::empty(),
                    ) by {
                        let node = self.nodes@[i];
                        assert(node_sound(self.nodes@, node, self.config, self.dimension));
                        assert forall|l: int| 0 <= l < node.connections@.len() implies self.list_ok(
                            (#[trigger] node.connections@[l])@,
                            l,
                            Set::empty(),
                        ) by {
                            let list = node.connections@[l]@;
                            assert(list_sound(self.nodes@, list, layer_cap(self.config, l)));
                            assert forall|k: int| 0 <= k < list.len() implies self.slots@.contains_key(
                                #[trigger] list[k],
                            ) by {
                                assert(names_node(self.nodes@, list[k]));
                            }
                        }
                    }
                }
                Ok(())
            },
            None => Err(
                VectorDbError::IndexError {
                    message: "snapshot violates the index invariant".to_string(),
                },
            ),
        }
    }
}

/// The places of the snapshot's nodes by id, if the snapshot satisfies the
/// index invariant.
fn index_slots(snapshot: &IndexSnapshot) -> (slots: Option<HashMap<VectorId, usize>>)
    ensures
        match slots {
            Some(slots) => snapshot_sound(
                snapshot.nodes@,
                snapshot.entry_point,
                snapshot.config,
                snapshot.dimension,
            ) && places(snapshot.nodes@, slots@),
            None => !snapshot_sound(
                snapshot.nodes@,
                snapshot.entry_point,
                snapshot.config,
                snapshot.dimension,
            ),
        },
{
    let nodes = &snapshot.nodes;
    if snapshot.config.max_layer == usize::MAX {
        return None;
    }
    let mut slots: HashMap<VectorId, usize> = HashMap::new();
    let mut i: usize = 0;
    while i < nodes.len()
        invariant
            i <= nodes@.len(),
            *nodes == snapshot.nodes,
            snapshot.config.max_layer < usize::MAX,
            places(nodes@.take(i as int), slots@),
            forall|a: int, b: int| 0 <= a < b < i
                ==> (#[trigger] nodes@[a]).id != (#[trigger] nodes@[b]).id,
        decreases nodes@.len() - i,
    {
        let id = nodes[i].id;
        if slots.contains_key(&id) {
            proof {
                let a = slots@[id] as int;
                assert(nodes@.take(i as int)[a].id == id);
                assert(nodes@[a].id == nodes@[i as int].id);
                assert(!snapshot_sound(
                    snapshot.nodes@,
                    snapshot.entry_point,
                    snapshot.config,
                    snapshot.dimension,
                ));
            }
            return None;
        }
        let ghost before = slots@;
        slots.insert(id, i);
        proof {
            let shorter = nodes@.take(i as int);
            let longer = nodes@.take(i + 1);
            assert forall|a: int, b: int| 0 <= a < b < i + 1 implies (#[trigger] nodes@[a]).id != (
            #[trigger] nodes@[b]).id by {
                if b == i {
                    assert(shorter[a] == nodes@[a]);
                    assert(before.contains_key(shorter[a].id));
                }
            }
            assert forall|k: int| 0 <= k < longer.len() implies slots@.contains_key(
                (#[trigger] longer[k]).id,
            ) && slots@[longer[k].id] == k by {
                if k < i {
                    assert(longer[k] == shorter[k]);
                    assert(before.contains_key(shorter[k].id));
                }
            }
            assert forall|x: VectorId| #[trigger] slots@.contains_key(x) implies slots@[x] < longer.len()
                && longer[slots@[x] as int].id == x by {
                if x != id {
                    assert(before.contains_key(x));
                    assert(longer[before[x] as int] == shorter[before[x] as int]);
                }
            }
        }
        i += 1;
    }
    assert(nodes@.take(nodes@.len() as int) =~= nodes@);
    assert(places(nodes@, slots@));
    match snapshot.entry_point {
        Some(e) => {
            if !slots.contains_key(&e) {
                proof {
                    if names_node(nodes@, e) {
                        let j = choose|j: int| 0 <= j < nodes@.len() && (#[trigger] nodes@[j]).id == e;
                        assert(slots@.contains_key(nodes@[j].id));
                    }
                }
                return None;
            }
            proof {
                assert(nodes@[slots@[e] as int].id == e);
            }
        },
        None => {
            if nodes.len() != 0 {
                return None;
            }
        },
    }
    let mut n: usize = 0;
    while n < nodes.len()
        invariant
            n <= nodes@.len(),
            *nodes == snapshot.nodes,
            places(nodes@, slots@),
            snapshot.config.max_layer < usize::MAX,
            forall|a: int, b: int|
                0 <= a < b < nodes@.len() ==> (#[trigger] nodes@[a]).id != (#[trigger] nodes@[b]).id,
            match snapshot.entry_point {
                Some(e) => names_node(nodes@, e),
                None => nodes@.len() == 0,
            },
            forall|k: int|
                0 <= k < n ==> node_sound(
                    nodes@,
                    #[trigger] nodes@[k],
                    snapshot.config,
                    snapshot.dimension,
                ),
        decreases nodes@.len() - n,
    {
        let node = &nodes[n];
        if node.layer > snapshot.config.max_layer || node.connections.len() != node.layer + 1
            || node.vector.len() != snapshot.dimension {
            assert(!node_sound(nodes@, nodes@[n as int], snapshot.config, snapshot.dimension));
            return None;
        }
        let mut l: usize = 0;
        while l < node.connections.len()
            invariant
                l <= node.connections@.len(),
                *nodes == snapshot.nodes,
                places(nodes@, slots@),
                n < nodes@.len(),
                *node == nodes@[n as int],
                node.layered(),
                node.layer <= snapshot.config.max_layer,
                node.vector@.len() == snapshot.dimension,
                forall|k: int|
                    0 <= k < l ==> list_sound(
                        nodes@,
                        (#[trigger] node.connections@[k])@,
                        layer_cap(snapshot.config, k),
                    ),
            decreases node.connections@.len() - l,
        {
            let list = &node.connections[l];
            if list.len() > cap_of(&snapshot.config, l) || !no_repeats(list) {
                assert(!list_sound(
                    nodes@,
                    node.connections@[l as int]@,
                    layer_cap(snapshot.config, l as int),
                ));
                assert(!node_sound(nodes@, nodes@[n as int], snapshot.config, snapshot.dimension));
                return None;
            }
            let mut k: usize = 0;
            while k < list.len()
                invariant
                    k <= list@.len(),
                    *nodes == snapshot.nodes,
                    places(nodes@, slots@),
                    l < node.connections@.len(),
                    *list == node.connections@[l as int],
                    n < nodes@.len(),
                    *node == nodes@[n as int],
                    forall|c: int| 0 <= c < k ==> names_node(nodes@, #[trigger] list@[c]),
                decreases list@.len() - k,
            {
                if !slots.contains_key(&list[k]) {
                    proof {
                        let x = list@[k as int];
                        if names_node(nodes@, x) {
                            let j = choose|j: int| 0 <= j < nodes@.len()
                                && (#[trigger] nodes@[j]).id == x;
                            assert(slots@.contains_key(nodes@[j].id));
                        }
                        assert(!list_sound(
                            nodes@,
                            node.connections@[l as int]@,
                            layer_cap(snapshot.config, l as int),
                        ));
                        assert(!node_sound(
                            nodes@,
                            nodes@[n as int],
                            snapshot.config,
                            snapshot.dimension,
                        ));
                    }
                    return None;
                }
                proof {
                    let x = list@[k as int];
                    assert(nodes@[slots@[x] as int].id == x);
                }
                k += 1;
            }
            l += 1;
        }
        n += 1;
    }
    Some(slots)
}

/// `slots` gives every node's place by its id, and nothing else.
pub open spec fn places(nodes: Seq<HnswNode>, slots: Map<VectorId, usize>) -> bool {
    &&& forall|i: int|
        0 <= i < nodes.len() ==> slots.contains_key((#[trigger] nodes[i]).id) && slots[nodes[i].id]
            == i
    &&& forall|id: VectorId| #[trigger]
        slots.contains_key(id) ==> slots[id] < nodes.len() && nodes[slots[id] as int].id == id
}

} // verus!
