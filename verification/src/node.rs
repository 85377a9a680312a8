//! One node of the proximity graph.

use vstd::prelude::*;
use vstd::utf8::encode_utf8;
use crate::ordering::{closer, is_closer};
use crate::types::{MetadataEntry, MetadataValue, VectorId};

verus! {

/// Bytes of one vector component.
pub const COMPONENT_BYTES: usize = 4;

/// Bytes of one vector id.
pub const ID_BYTES: usize = 16;

/// Bytes reckoned for a metadata value that is not a string.
pub const OTHER_VALUE_BYTES: usize = 32;

/// `n` held to the range of `usize`.
pub open spec fn clamp(n: int) -> usize {
    if n > usize::MAX {
        usize::MAX
    } else if n < 0 {
        0
    } else {
        n as usize
    }
}

/// Sum held to `usize::MAX`.
pub fn add_clamped(a: usize, b: usize) -> (sum: usize)
    ensures
        sum == clamp(a + b),
{
    if a > usize::MAX - b {
        usize::MAX
    } else {
        a + b
    }
}

/// Product held to `usize::MAX`.
pub fn mul_clamped(a: usize, b: usize) -> (product: usize)
    ensures
        product == clamp(a * b),
{
    if a == 0 || b == 0 {
        assert(a * b == 0) by (nonlinear_arith)
            requires
                a == 0 || b == 0,
        ;
        0
    } else if a > usize::MAX / b {
        assert(a * b > usize::MAX) by (nonlinear_arith)
            requires
                b > 0,
                a > usize::MAX / b,
        ;
        usize::MAX
    } else {
        assert(a * b <= usize::MAX) by (nonlinear_arith)
            requires
                b > 0,
                a <= usize::MAX / b,
        ;
        a * b
    }
}

/// Bytes of the ids in the adjacency lists.
pub open spec fn lists_bytes(connections: Seq<Vec<VectorId>>) -> nat
    decreases connections.len(),
{
    if connections.len() == 0 {
        0
    } else {
        lists_bytes(connections.drop_last()) + ID_BYTES as nat * connections.last()@.len()
    }
}

/// Number of ids in the adjacency lists.
pub open spec fn lists_links(connections: Seq<Vec<VectorId>>) -> nat
    decreases connections.len(),
{
    if connections.len() == 0 {
        0
    } else {
        lists_links(connections.drop_last()) + connections.last()@.len()
    }
}

/// Bytes of one metadata entry: its key, and its value if that is a
/// string, `OTHER_VALUE_BYTES` if it is not.
pub open spec fn entry_bytes(entry: MetadataEntry) -> nat {
    encode_utf8(entry.key@).len() + match entry.value {
        MetadataValue::Text(text) => encode_utf8(text@).len(),
        MetadataValue::Json(_) => OTHER_VALUE_BYTES as nat,
    }
}

/// Bytes of the metadata entries.
pub open spec fn entries_bytes(entries: Seq<MetadataEntry>) -> nat
    decreases entries.len(),
{
    if entries.len() == 0 {
        0
    } else {
        entries_bytes(entries.drop_last()) + entry_bytes(entries.last())
    }
}

/// A stored vector with its top layer and one adjacency list per layer
/// `0..=layer`.
#[derive(Debug, Clone)]
pub struct HnswNode {
    pub id: VectorId,
    pub vector: Vec<u32>,
    pub metadata: Option<Vec<MetadataEntry>>,
    pub layer: usize,
    pub connections: Vec<Vec<VectorId>>,
}

impl HnswNode {
    /// Adjacency list at `layer`; empty above the node's layers.
    pub open spec fn neighbors(&self, layer: int) -> Seq<VectorId> {
        if 0 <= layer < self.connections@.len() {
            self.connections@[layer]@
        } else {
            Seq::empty()
        }
    }

    /// The node owns exactly the layers `0..=layer`.
    pub open spec fn layered(&self) -> bool {
        self.connections@.len() == self.layer + 1
    }

    /// `after` is `self` with at most the adjacency list at `layer` replaced.
    pub open spec fn same_except_layer(&self, after: &HnswNode, layer: int) -> bool {
        &&& after.id == self.id
        &&& after.vector == self.vector
        &&& after.metadata == self.metadata
        &&& after.layer == self.layer
        &&& after.connections@.len() == self.connections@.len()
        &&& forall|l: int|
            0 <= l < self.connections@.len() && l != layer ==> after.connections@[l]
                == self.connections@[l]
    }

    pub fn new(
        id: VectorId,
        vector: Vec<u32>,
        metadata: Option<Vec<MetadataEntry>>,
        max_layer: usize,
    ) -> (node: Self)
        requires
            max_layer < usize::MAX,
        ensures
            node.id == id,
            node.vector == vector,
            node.metadata == metadata,
            node.layer == max_layer,
            node.layered(),
            forall|l: int| 0 <= l <= max_layer ==> node.neighbors(l) == Seq::<VectorId>::empty(),
    {
        let mut connections: Vec<Vec<VectorId>> = Vec::new();
        let mut l: usize = 0;
        while l <= max_layer
            invariant
                max_layer < usize::MAX,
                l <= max_layer + 1,
                connections@.len() == l,
                forall|k: int| 0 <= k < l ==> (#[trigger] connections@[k])@ == Seq::<VectorId>::empty(),
            decreases max_layer + 1 - l,
        {
            connections.push(Vec::new());
            l += 1;
        }
        HnswNode { id, vector, metadata, layer: max_layer, connections }
    }

    /// Adds `neighbor_id` at `layer` unless it is already listed there or
    /// the node has no such layer.
    pub fn add_connection(&mut self, layer: usize, neighbor_id: VectorId)
        ensures
            old(self).same_except_layer(final(self), layer as int),
            final(self).neighbors(layer as int) == if layer < old(self).connections@.len()
                && !old(self).neighbors(layer as int).contains(neighbor_id) {
                old(self).neighbors(layer as int).push(neighbor_id)
            } else {
                old(self).neighbors(layer as int)
            },
    {
        if layer < self.connections.len() {
            if !list_contains(&self.connections[layer], neighbor_id) {
                self.connections[layer].push(neighbor_id);
            }
        }
    }

    /// Removes the first occurrence of `neighbor_id` at `layer` and says
    /// whether there was one.
    pub fn remove_connection(&mut self, layer: usize, neighbor_id: &VectorId) -> (removed: bool)
        ensures
            old(self).same_except_layer(final(self), layer as int),
            removed == old(self).neighbors(layer as int).contains(*neighbor_id),
            final(self).neighbors(layer as int) == old(self).neighbors(layer as int).remove_value(
                *neighbor_id,
            ),
            !removed ==> final(self).neighbors(layer as int) == old(self).neighbors(layer as int),
            removed ==> final(self).neighbors(layer as int).len() + 1 == old(self).neighbors(
                layer as int,
            ).len(),
    {
        if layer < self.connections.len() {
            let mut i: usize = 0;
            while i < self.connections[layer].len()
                invariant
                    *self == *old(self),
                    layer < self.connections@.len(),
                    i <= self.connections@[layer as int]@.len(),
                    forall|k: int| 0 <= k < i ==> self.connections@[layer as int]@[k] != *neighbor_id,
                decreases self.connections@[layer as int]@.len() - i,
            {
                if self.connections[layer][i] == *neighbor_id {
                    proof {
                        let list = self.connections@[layer as int]@;
                        list.index_of_first_ensures(*neighbor_id);
                        assert(list[i as int] == *neighbor_id);
                    }
                    self.connections[layer].remove(i);
                    return true;
                }
                i += 1;
            }
            proof {
                let list = self.connections@[layer as int]@;
                list.index_of_first_ensures(*neighbor_id);
            }
            false
        } else {
            proof {
                Seq::<VectorId>::empty().index_of_first_ensures(*neighbor_id);
            }
            false
        }
    }

    /// The adjacency list at `layer`.
    pub fn get_connections(&self, layer: usize) -> (list: &[VectorId])
        ensures
            list@ == self.neighbors(layer as int),
    {
        if layer < self.connections.len() {
            self.connections[layer].as_slice()
        } else {
            &[]
        }
    }

    /// Keeps, of the neighbours at `layer`, the `max_connections` nearest
    /// by `get_distance`, nearest first; neighbours without a distance are
    /// dropped. A list of at most `max_connections` ids is left as it is.
    pub fn prune_connections<F: Fn(&VectorId) -> Option<u32>>(
        &mut self,
        layer: usize,
        max_connections: usize,
        get_distance: F,
    )
        requires
            is_measure(&get_distance),
        ensures
            old(self).same_except_layer(final(self), layer as int),
            final(self).neighbors(layer as int) == if old(self).neighbors(layer as int).len()
                <= max_connections {
                old(self).neighbors(layer as int)
            } else {
                first_ids(
                    ranked(old(self).neighbors(layer as int), &get_distance),
                    max_connections as int,
                )
            },
    {
        if layer >= self.connections.len() || self.connections[layer].len() <= max_connections {
            return ;
        }
        let mut sorted: Vec<SearchCandidate> = Vec::new();
        let mut i: usize = 0;
        let ghost list = self.connections@[layer as int]@;
        assert(list.take(0) =~= Seq::<VectorId>::empty());
        while i < self.connections[layer].len()
            invariant
                *self == *old(self),
                layer < self.connections@.len(),
                list == self.connections@[layer as int]@,
                is_measure(&get_distance),
                i <= list.len(),
                sorted@ == ranked(list.take(i as int), &get_distance),
                nearest_first(sorted@),
            decreases list.len() - i,
        {
            let id = self.connections[layer][i];
            proof {
                assert(list.take(i + 1).drop_last() =~= list.take(i as int));
                assert(list.take(i + 1).last() == id);
            }
            match get_distance(&id) {
                Some(distance) => {
                    insert_by_rank(&mut sorted, SearchCandidate { id, distance });
                },
                None => {},
            }
            i += 1;
        }
        assert(list.take(list.len() as int) =~= list);
        let mut kept: Vec<VectorId> = Vec::new();
        let mut k: usize = 0;
        while k < sorted.len() && k < max_connections
            invariant
                k <= sorted@.len(),
                k <= max_connections,
                kept@ == first_ids(sorted@, k as int),
            decreases sorted@.len() - k,
        {
            kept.push(sorted[k].id);
            assert(first_ids(sorted@, k + 1) =~= first_ids(sorted@, k as int).push(
                sorted@[k as int].id,
            ));
            k += 1;
        }
        assert(first_ids(sorted@, k as int) =~= first_ids(sorted@, max_connections as int));
        self.connections[layer] = kept;
    }

    /// Estimate of the bytes the node occupies: the record itself, its
    /// components, the ids in its adjacency lists and its metadata.
    pub open spec fn footprint(&self) -> nat {
        vstd::layout::size_of::<HnswNode>() + COMPONENT_BYTES as nat * self.vector@.len()
            + lists_bytes(self.connections@) + match self.metadata {
            Some(entries) => entries_bytes(entries@),
            None => 0,
        }
    }

    /// Number of edges that leave the node, over all layers.
    pub open spec fn links(&self) -> nat {
        lists_links(self.connections@)
    }

    /// The footprint, held to `usize::MAX`.
    pub fn memory_usage(&self) -> (bytes: usize)
        ensures
            bytes == clamp(self.footprint() as int),
    {
        let mut bytes: usize = add_clamped(
            core::mem::size_of::<HnswNode>(),
            mul_clamped(COMPONENT_BYTES, self.vector.len()),
        );
        let ghost base = vstd::layout::size_of::<HnswNode>() + COMPONENT_BYTES as nat
            * self.vector@.len();
        assert(bytes == clamp(base as int));
        let mut l: usize = 0;
        while l < self.connections.len()
            invariant
                l <= self.connections@.len(),
                bytes == clamp((base + lists_bytes(self.connections@.take(l as int))) as int),
            decreases self.connections@.len() - l,
        {
            assert(self.connections@.take(l + 1).drop_last() =~= self.connections@.take(l as int));
            bytes = add_clamped(bytes, mul_clamped(ID_BYTES, self.connections[l].len()));
            l += 1;
        }
        assert(self.connections@.take(self.connections@.len() as int) =~= self.connections@);
        let ghost listed = base + lists_bytes(self.connections@);
        match &self.metadata {
            None => {},
            Some(entries) => {
                let mut e: usize = 0;
                while e < entries.len()
                    invariant
                        e <= entries@.len(),
                        bytes == clamp((listed + entries_bytes(entries@.take(e as int))) as int),
                    decreases entries@.len() - e,
                {
                    assert(entries@.take(e + 1).drop_last() =~= entries@.take(e as int));
                    let value_bytes = match &entries[e].value {
                        MetadataValue::Text(text) => text.as_str().as_bytes().len(),
                        MetadataValue::Json(_) => OTHER_VALUE_BYTES,
                    };
                    bytes = add_clamped(
                        bytes,
                        add_clamped(entries[e].key.as_str().as_bytes().len(), value_bytes),
                    );
                    e += 1;
                }
                assert(entries@.take(entries@.len() as int) =~= entries@);
            },
        }
        bytes
    }

    /// Number of edges that leave the node, held to `usize::MAX`.
    pub fn link_count(&self) -> (count: usize)
        ensures
            count == clamp(self.links() as int),
    {
        let mut count: usize = 0;
        let mut l: usize = 0;
        while l < self.connections.len()
            invariant
                l <= self.connections@.len(),
                count == clamp(lists_links(self.connections@.take(l as int)) as int),
            decreases self.connections@.len() - l,
        {
            assert(self.connections@.take(l + 1).drop_last() =~= self.connections@.take(l as int));
            count = add_clamped(count, self.connections[l].len());
            l += 1;
        }
        assert(self.connections@.take(self.connections@.len() as int) =~= self.connections@);
        count
    }

    /// Number of neighbours at `layer`.
    pub fn connection_count(&self, layer: usize) -> (count: usize)
        ensures
            count == self.neighbors(layer as int).len(),
    {
        if layer < self.connections.len() {
            self.connections[layer].len()
        } else {
            0
        }
    }
}

/// A node met during a search, with its distance to the query (a binary32
/// bit pattern).
#[derive(Debug, Clone, Copy, PartialEq, Eq, Structural)]
pub struct SearchCandidate {
    pub id: VectorId,
    pub distance: u32,
}

/// A node waiting to be expanded, with its distance to the query.
#[derive(Debug, Clone, Copy, PartialEq, Eq, Structural)]
pub struct NearestCandidate {
    pub id: VectorId,
    pub distance: u32,
}

/// Candidates in order of rank, nearest first.
pub open spec fn nearest_first(s: Seq<SearchCandidate>) -> bool {
    forall|i: int, j: int| 0 <= i < j < s.len() ==> !closer(s[j].distance, s[i].distance)
}

/// The ids of the first `m` candidates, or of all where there are fewer.
pub open spec fn first_ids(candidates: Seq<SearchCandidate>, m: int) -> Seq<VectorId> {
    Seq::new(
        (if m < candidates.len() { if m < 0 { 0 } else { m } } else { candidates.len() as int }) as nat,
        |k: int| candidates[k].id,
    )
}

/// Place at which `item` enters a ranked list: before the first candidate
/// that it is closer than, behind all others.
pub open spec fn rank_position(sorted: Seq<SearchCandidate>, item: SearchCandidate) -> int
    decreases sorted.len(),
{
    if sorted.len() == 0 {
        0
    } else if closer(item.distance, sorted.first().distance) {
        0
    } else {
        1 + rank_position(sorted.drop_first(), item)
    }
}

/// The ranked list with `item` entered.
pub open spec fn rank_insert(sorted: Seq<SearchCandidate>, item: SearchCandidate) -> Seq<
    SearchCandidate,
> {
    sorted.insert(rank_position(sorted, item), item)
}

pub proof fn lemma_rank_position(sorted: Seq<SearchCandidate>, item: SearchCandidate, pos: int)
    requires
        0 <= pos <= sorted.len(),
        forall|k: int| 0 <= k < pos ==> !closer(item.distance, (#[trigger] sorted[k]).distance),
        pos < sorted.len() ==> closer(item.distance, sorted[pos].distance),
    ensures
        pos == rank_position(sorted, item),
    decreases sorted.len(),
{
    if sorted.len() > 0 && pos > 0 {
        let tail = sorted.drop_first();
        assert forall|k: int| 0 <= k < pos - 1 implies !closer(
            item.distance,
            (#[trigger] tail[k]).distance,
        ) by {
            assert(tail[k] == sorted[k + 1]);
        }
        assert(!closer(item.distance, sorted[0].distance));
        if pos - 1 < tail.len() {
            assert(tail[pos - 1] == sorted[pos]);
        }
        lemma_rank_position(tail, item, pos - 1);
    }
}

/// Places `item` behind every candidate that ranks no later than it.
pub fn insert_by_rank(list: &mut Vec<SearchCandidate>, item: SearchCandidate) -> (pos: usize)
    requires
        nearest_first(old(list)@),
    ensures
        pos <= old(list)@.len(),
        final(list)@ == old(list)@.insert(pos as int, item),
        nearest_first(final(list)@),
        pos == rank_position(old(list)@, item),
        pos == 0 ==> old(list)@.len() == 0 || closer(item.distance, old(list)@[0].distance),
{
    let mut pos: usize = 0;
    while pos < list.len() && !is_closer(item.distance, list[pos].distance)
        invariant
            *list == *old(list),
            pos <= list@.len(),
            forall|k: int| 0 <= k < pos ==> !closer(item.distance, list@[k].distance),
        decreases list@.len() - pos,
    {
        pos += 1;
    }
    proof {
        lemma_rank_position(list@, item, pos as int);
    }
    list.insert(pos, item);
    assert forall|i: int, j: int| 0 <= i < j < list@.len() implies !closer(
        list@[j].distance,
        list@[i].distance,
    ) by {
        let before = old(list)@;
        if i == pos {
            // item first, then an old element at or behind `pos`
            assert(list@[j] == before[j - 1]);
            assert(closer(item.distance, before[pos as int].distance));
            assert(!closer(before[j - 1].distance, before[pos as int].distance));
        } else if j == pos {
            assert(list@[i] == before[i]);
        } else {
            let bi = if i < pos { i } else { i - 1 };
            let bj = if j < pos { j } else { j - 1 };
            assert(list@[i] == before[bi]);
            assert(list@[j] == before[bj]);
        }
    }
    pos
}

/// What `get_distance` says of `id`.
pub open spec fn measured<F: Fn(&VectorId) -> Option<u32>>(get_distance: &F, id: VectorId) -> Option<
    u32,
> {
    choose|d: Option<u32>| call_ensures(*get_distance, (&id,), d)
}

/// `get_distance` may be called on every id and is a function of the id.
pub open spec fn is_measure<F: Fn(&VectorId) -> Option<u32>>(get_distance: &F) -> bool {
    &&& forall|id: &VectorId| #[trigger] call_requires(*get_distance, (id,))
    &&& forall|id: &VectorId, d: Option<u32>| #[trigger]
        call_ensures(*get_distance, (id,), d) ==> d == measured(get_distance, *id)
}

/// The ids of `list` that have a distance, ranked by it, nearest first;
/// of two at the same rank the one that stood first in `list` stays first.
pub open spec fn ranked<F: Fn(&VectorId) -> Option<u32>>(list: Seq<VectorId>, get_distance: &F) -> Seq<
    SearchCandidate,
>
    decreases list.len(),
{
    if list.len() == 0 {
        Seq::empty()
    } else {
        let earlier = ranked(list.drop_last(), get_distance);
        match measured(get_distance, list.last()) {
            Some(distance) => rank_insert(earlier, SearchCandidate { id: list.last(), distance }),
            None => earlier,
        }
    }
}

/// A ranked list stays ranked when an item enters at its place.
pub proof fn lemma_ranked_is_sorted<F: Fn(&VectorId) -> Option<u32>>(
    list: Seq<VectorId>,
    get_distance: &F,
)
    ensures
        nearest_first(ranked(list, get_distance)),
        ranked(list, get_distance).len() <= list.len(),
        forall|k: int|
            0 <= k < ranked(list, get_distance).len() ==> list.contains(
                (#[trigger] ranked(list, get_distance)[k]).id,
            ),
    decreases list.len(),
{
    if list.len() > 0 {
        let shorter = list.drop_last();
        lemma_ranked_is_sorted(shorter, get_distance);
        let earlier = ranked(shorter, get_distance);
        assert forall|k: int| 0 <= k < earlier.len() implies list.contains(
            (#[trigger] earlier[k]).id,
        ) by {
            let w = choose|w: int| 0 <= w < shorter.len() && shorter[w] == earlier[k].id;
            assert(list[w] == earlier[k].id);
        }
        match measured(get_distance, list.last()) {
            Some(distance) => {
                let item = SearchCandidate { id: list.last(), distance };
                lemma_rank_insert_sorted(earlier, item);
                let pos = rank_position(earlier, item);
                let after = earlier.insert(pos, item);
                assert(list[list.len() - 1] == item.id);
                assert forall|k: int| 0 <= k < after.len() implies list.contains(
                    (#[trigger] after[k]).id,
                ) by {
                    if k < pos {
                        assert(after[k] == earlier[k]);
                    } else if k > pos {
                        assert(after[k] == earlier[k - 1]);
                    }
                }
            },
            None => {},
        }
    }
}

pub proof fn lemma_rank_insert_sorted(sorted: Seq<SearchCandidate>, item: SearchCandidate)
    requires
        nearest_first(sorted),
    ensures
        nearest_first(rank_insert(sorted, item)),
        0 <= rank_position(sorted, item) <= sorted.len(),
        forall|k: int|
            0 <= k < rank_position(sorted, item) ==> !closer(
                item.distance,
                (#[trigger] sorted[k]).distance,
            ),
        rank_position(sorted, item) < sorted.len() ==> closer(
            item.distance,
            sorted[rank_position(sorted, item)].distance,
        ),
    decreases sorted.len(),
{
    let pos = rank_position(sorted, item);
    if sorted.len() > 0 && !closer(item.distance, sorted.first().distance) {
        let tail = sorted.drop_first();
        assert(nearest_first(tail)) by {
            assert forall|i: int, j: int| 0 <= i < j < tail.len() implies !closer(
                tail[j].distance,
                tail[i].distance,
            ) by {
                assert(tail[i] == sorted[i + 1]);
                assert(tail[j] == sorted[j + 1]);
            }
        }
        lemma_rank_insert_sorted(tail, item);
        assert forall|k: int| 0 <= k < pos implies !closer(
            item.distance,
            (#[trigger] sorted[k]).distance,
        ) by {
            if k > 0 {
                assert(sorted[k] == tail[k - 1]);
            }
        }
        if pos < sorted.len() {
            assert(sorted[pos] == tail[pos - 1]);
        }
    }
    let after = sorted.insert(pos, item);
    assert forall|i: int, j: int| 0 <= i < j < after.len() implies !closer(
        after[j].distance,
        after[i].distance,
    ) by {
        if i == pos {
            assert(after[j] == sorted[j - 1]);
            assert(closer(item.distance, sorted[pos].distance));
            assert(!closer(sorted[j - 1].distance, sorted[pos].distance));
        } else if j == pos {
            assert(after[i] == sorted[i]);
        } else {
            let bi = if i < pos { i } else { i - 1 };
            let bj = if j < pos { j } else { j - 1 };
            assert(after[i] == sorted[bi]);
            assert(after[j] == sorted[bj]);
        }
    }
}

/// Whether `id` occurs in `list`.
pub fn list_contains(list: &Vec<VectorId>, id: VectorId) -> (found: bool)
    ensures
        found == list@.contains(id),
{
    let mut i: usize = 0;
    while i < list.len()
        invariant
            i <= list@.len(),
            forall|k: int| 0 <= k < i ==> list@[k] != id,
        decreases list@.len() - i,
    {
        if list[i] == id {
            return true;
        }
        i += 1;
    }
    false
}

} // verus!
