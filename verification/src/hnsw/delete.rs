//! Delete: dropping a node and every edge to it.

use vstd::prelude::*;
use super::{same_payload, stripped, HnswIndex};
use crate::error::VectorDbError;
use crate::types::VectorId;

verus! {

broadcast use vstd::std_specs::hash::group_hash_axioms;

/// Taking the one occurrence of `id` out of a list without repeats leaves
/// a list without repeats that holds every other element and not `id`.
pub proof fn lemma_remove_value(list: Seq<VectorId>, id: VectorId)
    requires
        list.no_duplicates(),
    ensures
        list.remove_value(id).no_duplicates(),
        list.remove_value(id).len() <= list.len(),
        !list.remove_value(id).contains(id),
        forall|k: int|
            0 <= k < list.remove_value(id).len() ==> list.contains(
                #[trigger] list.remove_value(id)[k],
            ),
{
    list.index_of_first_ensures(id);
    let rest = list.remove_value(id);
    match list.index_of_first(id) {
        Some(at) => {
            assert forall|k: int| 0 <= k < rest.len() implies list.contains(#[trigger] rest[k])
                && rest[k] != id by {
                let w = if k < at { k } else { k + 1 };
                assert(rest[k] == list[w]);
            }
            assert forall|i: int, j: int| 0 <= i < j < rest.len() implies rest[i] != rest[j] by {
                let wi = if i < at { i } else { i + 1 };
                let wj = if j < at { j } else { j + 1 };
                assert(rest[i] == list[wi]);
                assert(rest[j] == list[wj]);
            }
        },
        None => {},
    }
}

impl HnswIndex {
    /// How `after` relates to `self` once `id` has been deleted: the node
    /// is gone, every other node is still there with its vector, metadata
    /// and layer, and no adjacency list names `id` any more. An entry point
    /// other than `id` stays; in place of `id` comes a node of the greatest
    /// top layer, or none where no node is left.
    pub open spec fn deleted(&self, after: &HnswIndex, id: VectorId) -> bool {
        &&& after.spec_config() == self.spec_config()
        &&& after.spec_metric() == self.spec_metric()
        &&& after.spec_dimension() == self.spec_dimension()
        &&& after.graph().dom() == self.graph().dom().remove(id)
        &&& forall|x: VectorId| #[trigger]
            after.graph().contains_key(x) ==> same_payload(self.graph()[x], after.graph()[x])
                && forall|l: int|
                0 <= l < self.graph()[x].connections@.len() ==> #[trigger] after.graph()[x].neighbors(
                    l,
                ) == self.graph()[x].neighbors(l).remove_value(id)
        &&& self.entry() != Some(id) ==> after.entry() == self.entry()
        &&& self.entry() == Some(id) ==> match after.entry() {
            None => after.graph().dom() == Set::<VectorId>::empty(),
            Some(e) => after.graph().contains_key(e) && forall|x: VectorId| #[trigger]
                after.graph().contains_key(x) ==> after.graph()[x].layer <= after.graph()[e].layer,
        }
    }

    /// Removes the node of `id` and every edge to it, and says whether
    /// there was such a node.
    pub fn delete(&mut self, id: &VectorId) -> (result: Result<bool, VectorDbError>)
        requires
            old(self).wf(),
        ensures
            final(self).wf(),
            (result matches Ok(removed) && removed == old(self).graph().contains_key(*id)),
            old(self).deleted(final(self), *id),
    {
        let slot = match self.slot_of(*id) {
            Some(slot) => slot,
            None => {
                proof {
                    old(self).lemma_absent_is_unlisted(*id);
                    assert(self.graph().dom() =~= old(self).graph().dom().remove(*id));
                }
                return Ok(false);
            },
        };
        self.nodes.swap_remove(slot);
        self.slots.remove(id);
        if slot < self.nodes.len() {
            let moved = self.nodes[slot].id;
            self.slots.insert(moved, slot);
        }
        let ghost trimmed = *self;
        proof {
            assert(self.consistent());
            assert(self.slots@.dom() =~= old(self).slots@.dom().remove(*id));
            assert forall|x: VectorId| #[trigger] self.slots@.contains_key(x) implies self.nodes@[self.slots@[x] as int]
                == old(self).nodes@[old(self).slots@[x] as int] by {}
        }
        let mut i: usize = 0;
        while i < self.nodes.len()
            invariant
                self.slots == trimmed.slots,
                self.entry_point == trimmed.entry_point,
                self.config == trimmed.config,
                self.distance_metric == trimmed.distance_metric,
                self.dimension == trimmed.dimension,
                self.nodes@.len() == trimmed.nodes@.len(),
                i <= self.nodes@.len(),
                forall|j: int|
                    0 <= j < i ==> stripped(trimmed.nodes@[j], #[trigger] self.nodes@[j], *id),
                forall|j: int|
                    i <= j < self.nodes@.len() ==> #[trigger] self.nodes@[j] == trimmed.nodes@[j],
            decreases self.nodes@.len() - i,
        {
            let layers = self.nodes[i].connections.len();
            let mut l: usize = 0;
            while l < layers
                invariant
                    self.slots == trimmed.slots,
                    self.entry_point == trimmed.entry_point,
                    self.config == trimmed.config,
                    self.distance_metric == trimmed.distance_metric,
                    self.dimension == trimmed.dimension,
                    self.nodes@.len() == trimmed.nodes@.len(),
                    i < self.nodes@.len(),
                    layers == trimmed.nodes@[i as int].connections@.len(),
                    l <= layers,
                    forall|j: int|
                        0 <= j < i ==> stripped(trimmed.nodes@[j], #[trigger] self.nodes@[j], *id),
                    forall|j: int|
                        i < j < self.nodes@.len() ==> #[trigger] self.nodes@[j]
                            == trimmed.nodes@[j],
                    same_payload(trimmed.nodes@[i as int], self.nodes@[i as int]),
                    forall|k: int|
                        0 <= k < l ==> (#[trigger] self.nodes@[i as int].connections@[k])@
                            == trimmed.nodes@[i as int].connections@[k]@.remove_value(*id),
                    forall|k: int|
                        l <= k < layers ==> #[trigger] self.nodes@[i as int].connections@[k]
                            == trimmed.nodes@[i as int].connections@[k],
                decreases layers - l,
            {
                self.nodes[i].remove_connection(l, id);
                l += 1;
            }
            i += 1;
        }
        if self.entry_point == Some(*id) {
            if self.nodes.len() == 0 {
                self.entry_point = None;
            } else {
                let mut best: usize = 0;
                let mut j: usize = 1;
                while j < self.nodes.len()
                    invariant
                        best < self.nodes@.len(),
                        1 <= j <= self.nodes@.len(),
                        forall|k: int|
                            0 <= k < j ==> (#[trigger] self.nodes@[k]).layer
                                <= self.nodes@[best as int].layer,
                    decreases self.nodes@.len() - j,
                {
                    if self.nodes[j].layer > self.nodes[best].layer {
                        best = j;
                    }
                    j += 1;
                }
                self.entry_point = Some(self.nodes[best].id);
            }
        }
        proof {
            old(self).lemma_deleted(&trimmed, self, *id);
        }
        Ok(true)
    }

    /// In a well-formed index no list names an id that is not live.
    proof fn lemma_absent_is_unlisted(&self, id: VectorId)
        requires
            self.wf(),
            !self.slots@.contains_key(id),
        ensures
            forall|x: VectorId| #[trigger]
                self.graph().contains_key(x) ==> forall|l: int|
                    0 <= l < self.graph()[x].connections@.len()
                        ==> #[trigger] self.graph()[x].neighbors(l) == self.graph()[x].neighbors(
                        l,
                    ).remove_value(id),
            self.entry() != Some(id),
    {
        assert forall|x: VectorId| #[trigger] self.graph().contains_key(x) implies forall|l: int|
            0 <= l < self.graph()[x].connections@.len() ==> #[trigger] self.graph()[x].neighbors(l)
                == self.graph()[x].neighbors(l).remove_value(id) by {
            let node = self.nodes@[self.slots@[x] as int];
            assert(self.node_ok(node, Set::empty()));
            assert forall|l: int| 0 <= l < node.connections@.len() implies #[trigger] node.neighbors(
                l,
            ) == node.neighbors(l).remove_value(id) by {
                let list = node.connections@[l]@;
                assert(self.list_ok(list, l, Set::empty()));
                list.index_of_first_ensures(id);
            }
        }
    }

    proof fn lemma_deleted(&self, trimmed: &HnswIndex, after: &HnswIndex, id: VectorId)
        requires
            self.wf(),
            self.slots@.contains_key(id),
            trimmed.consistent(),
            trimmed.slots@.dom() == self.slots@.dom().remove(id),
            forall|x: VectorId| #[trigger]
                trimmed.slots@.contains_key(x) ==> trimmed.nodes@[trimmed.slots@[x] as int]
                    == self.nodes@[self.slots@[x] as int],
            trimmed.config == self.config,
            trimmed.distance_metric == self.distance_metric,
            trimmed.dimension == self.dimension,
            trimmed.entry_point == self.entry_point,
            after.slots == trimmed.slots,
            after.config == trimmed.config,
            after.distance_metric == trimmed.distance_metric,
            after.dimension == trimmed.dimension,
            after.nodes@.len() == trimmed.nodes@.len(),
            forall|j: int|
                0 <= j < after.nodes@.len() ==> stripped(
                    trimmed.nodes@[j],
                    #[trigger] after.nodes@[j],
                    id,
                ),
            self.entry_point != Some(id) ==> after.entry_point == self.entry_point,
            self.entry_point == Some(id) ==> match after.entry_point {
                None => after.nodes@.len() == 0,
                Some(e) => exists|b: int|
                    0 <= b < after.nodes@.len() && after.nodes@[b].id == e && forall|k: int|
                        0 <= k < after.nodes@.len() ==> (#[trigger] after.nodes@[k]).layer
                            <= after.nodes@[b].layer,
            },
        ensures
            after.wf(),
            self.deleted(after, id),
    {
        assert(after.consistent()) by {
            assert forall|i: int| 0 <= i < after.nodes@.len() implies after.slots@.contains_key(
                #[trigger] after.nodes@[i].id,
            ) && after.slots@[after.nodes@[i].id] == i by {
                assert(stripped(trimmed.nodes@[i], after.nodes@[i], id));
                assert(trimmed.slots@.contains_key(trimmed.nodes@[i].id));
            }
            assert forall|x: VectorId| #[trigger] after.slots@.contains_key(x) implies after.slots@[x]
                < after.nodes@.len() && after.nodes@[after.slots@[x] as int].id == x by {
                let i = trimmed.slots@[x] as int;
                assert(stripped(trimmed.nodes@[i], after.nodes@[i], id));
            }
        }
        assert forall|i: int| 0 <= i < after.nodes@.len() implies after.node_ok(
            #[trigger] after.nodes@[i],
            Set::empty(),
        ) by {
            let was = trimmed.nodes@[i];
            let now = after.nodes@[i];
            assert(stripped(was, now, id));
            assert(trimmed.slots@.contains_key(was.id));
            let o = self.slots@[was.id] as int;
            assert(self.nodes@[o] == was);
            assert(self.node_ok(self.nodes@[o], Set::empty()));
            assert forall|l: int| 0 <= l < now.connections@.len() implies after.list_ok(
                (#[trigger] now.connections@[l])@,
                l,
                Set::empty(),
            ) by {
                let list = was.connections@[l]@;
                assert(self.list_ok(list, l, Set::empty()));
                lemma_remove_value(list, id);
                let rest = list.remove_value(id);
                assert(now.connections@[l]@ == rest);
                assert forall|k: int| 0 <= k < rest.len() implies after.slots@.contains_key(
                    #[trigger] rest[k],
                ) by {
                    assert(list.contains(rest[k]));
                    let w = choose|w: int| 0 <= w < list.len() && list[w] == rest[k];
                    assert(self.slots@.contains_key(list[w]));
                }
            }
        }
        match after.entry_point {
            Some(e) => {
                if self.entry_point == Some(id) {
                    let b = choose|b: int|
                        0 <= b < after.nodes@.len() && after.nodes@[b].id == e && forall|k: int|
                            0 <= k < after.nodes@.len() ==> (#[trigger] after.nodes@[k]).layer
                                <= after.nodes@[b].layer;
                    assert(after.slots@.contains_key(after.nodes@[b].id));
                    assert forall|x: VectorId| #[trigger]
                        after.graph().contains_key(x) implies after.graph()[x].layer
                        <= after.graph()[e].layer by {
                        let k = after.slots@[x] as int;
                        assert(after.nodes@[k].layer <= after.nodes@[b].layer);
                    }
                } else {
                    assert(self.slots@.contains_key(e));
                }
            },
            None => {
                if self.entry_point == Some(id) {
                    assert(after.graph().dom() =~= Set::<VectorId>::empty()) by {
                        assert forall|x: VectorId| !after.graph().dom().contains(x) by {
                            if after.slots@.contains_key(x) {
                                assert(after.slots@[x] < after.nodes@.len());
                            }
                        }
                    }
                }
            },
        }
        assert(after.wf());
        assert(after.graph().dom() =~= self.graph().dom().remove(id));
        assert forall|x: VectorId| #[trigger] after.graph().contains_key(x) implies same_payload(
            self.graph()[x],
            after.graph()[x],
        ) && forall|l: int|
            0 <= l < self.graph()[x].connections@.len() ==> #[trigger] after.graph()[x].neighbors(l)
                == self.graph()[x].neighbors(l).remove_value(id) by {
            let i = trimmed.slots@[x] as int;
            assert(stripped(trimmed.nodes@[i], after.nodes@[i], id));
            assert(trimmed.nodes@[i] == self.nodes@[self.slots@[x] as int]);
        }
    }
}

} // verus!
