//! What every vector index offers.

use vstd::prelude::*;
use crate::distance::is_kernel;
use crate::error::{dimension_mismatch, VectorDbError};
use crate::hnsw::{HnswIndex, IndexStats, SearchResult};
use crate::types::{DistanceMetric, MetadataEntry, VectorId};

verus! {

/// An index of vectors by id that answers nearest-neighbour searches.
pub trait VectorIndex {
    /// The invariant of the index.
    spec fn sound(&self) -> bool;

    /// The ids that the index holds.
    spec fn live(&self) -> Set<VectorId>;

    /// The number of components of every vector.
    spec fn width(&self) -> usize;

    /// Stores a vector under `id`, in place of any that was there. A vector
    /// of another width is refused.
    fn insert<D: Fn(&Vec<u32>, &Vec<u32>, DistanceMetric) -> u32>(
        &mut self,
        id: VectorId,
        vector: &Vec<u32>,
        metadata: Option<Vec<MetadataEntry>>,
        dist: &D,
    ) -> (result: Result<(), VectorDbError>)
        requires
            old(self).sound(),
            is_kernel(dist),
        ensures
            final(self).sound(),
            final(self).width() == old(self).width(),
            vector@.len() == old(self).width() ==> result is Ok && final(self).live()
                == old(self).live().insert(id),
            vector@.len() != old(self).width() ==> final(self).live() == old(self).live()
                && result == Err::<(), VectorDbError>(
                dimension_mismatch(old(self).width(), vector@.len() as usize),
            ),
    ;

    /// At most `limit` of the ids held, those found nearest to `query`. A
    /// query of another width is refused.
    fn search<D: Fn(&Vec<u32>, &Vec<u32>, DistanceMetric) -> u32>(
        &self,
        query: &Vec<u32>,
        limit: usize,
        ef: Option<usize>,
        dist: &D,
    ) -> (result: Result<Vec<SearchResult>, VectorDbError>)
        requires
            self.sound(),
            is_kernel(dist),
        ensures
            query@.len() == self.width() ==> (result matches Ok(found) && found@.len() <= limit
                && forall|k: int|
                0 <= k < found@.len() ==> self.live().contains((#[trigger] found@[k]).id)),
            query@.len() != self.width() ==> (result matches Err(error) && error
                == dimension_mismatch(self.width(), query@.len() as usize)),
    ;

    /// Drops the vector of `id` and says whether there was one.
    fn delete(&mut self, id: &VectorId) -> (result: Result<bool, VectorDbError>)
        requires
            old(self).sound(),
        ensures
            final(self).sound(),
            final(self).width() == old(self).width(),
            (result matches Ok(removed) && removed == old(self).live().contains(*id)),
            final(self).live() == old(self).live().remove(*id),
    ;

    /// Replaces the vector of `id`: a delete, then an insert. Where the
    /// vector has another width, the delete stands and the insert is
    /// refused.
    fn update<D: Fn(&Vec<u32>, &Vec<u32>, DistanceMetric) -> u32>(
        &mut self,
        id: VectorId,
        vector: &Vec<u32>,
        metadata: Option<Vec<MetadataEntry>>,
        dist: &D,
    ) -> (result: Result<(), VectorDbError>)
        requires
            old(self).sound(),
            is_kernel(dist),
        ensures
            final(self).sound(),
            final(self).width() == old(self).width(),
            vector@.len() == old(self).width() ==> result is Ok && final(self).live()
                == old(self).live().insert(id),
            vector@.len() != old(self).width() ==> final(self).live() == old(self).live().remove(
                id,
            ) && result == Err::<(), VectorDbError>(
                dimension_mismatch(old(self).width(), vector@.len() as usize),
            ),
    {
        match self.delete(&id) {
            Ok(_) => {},
            Err(error) => {
                return Err(error);
            },
        }
        let result = self.insert(id, vector, metadata, dist);
        proof {
            assert(old(self).live().remove(id).insert(id) =~= old(self).live().insert(id));
        }
        result
    }

    /// Figures of the index.
    fn stats(&self) -> (stats: IndexStats)
        requires
            self.sound(),
        ensures
            stats.dimension == self.width(),
    ;
}

impl VectorIndex for HnswIndex {
    open spec fn sound(&self) -> bool {
        self.wf()
    }

    open spec fn live(&self) -> Set<VectorId> {
        self.graph().dom()
    }

    open spec fn width(&self) -> usize {
        self.spec_dimension()
    }

    fn insert<D: Fn(&Vec<u32>, &Vec<u32>, DistanceMetric) -> u32>(
        &mut self,
        id: VectorId,
        vector: &Vec<u32>,
        metadata: Option<Vec<MetadataEntry>>,
        dist: &D,
    ) -> (result: Result<(), VectorDbError>) {
        HnswIndex::insert(self, id, vector, metadata, dist)
    }

    fn search<D: Fn(&Vec<u32>, &Vec<u32>, DistanceMetric) -> u32>(
        &self,
        query: &Vec<u32>,
        limit: usize,
        ef: Option<usize>,
        dist: &D,
    ) -> (result: Result<Vec<SearchResult>, VectorDbError>) {
        HnswIndex::search(self, query, limit, ef, dist)
    }

    fn delete(&mut self, id: &VectorId) -> (result: Result<bool, VectorDbError>) {
        HnswIndex::delete(self, id)
    }

    fn stats(&self) -> (stats: IndexStats) {
        HnswIndex::stats(self)
    }
}

} // verus!
