//! The vector store: one storage engine and one index per collection,
//! kept consistent with each other.

use vstd::prelude::*;
use crate::distance::is_kernel;
use crate::error::{dimension_mismatch, VectorDbError};
use crate::hnsw::{total_footprint, HnswIndex, SearchResult};
use crate::names::{text_of, NameSet};
use crate::node::{add_clamped, clamp, HnswNode};
use crate::recovery::validated;
use crate::registry::Registry;
use crate::storage::{fitting_prefix, replay_misfit, replayed, StorageEngine};
use crate::types::{
    copy_metadata, metadata_view, vectors_view, CollectionConfig, CollectionStats, DistanceMetric,
    QueryRequest, QueryResult, Vector, VectorId, VectorView,
};
use crate::wal::{OperationView, WALOperation, WriteAheadLog};

verus! {

/// Figures of the whole store.
#[derive(Debug, Clone, Copy, PartialEq, Eq, Structural)]
pub struct ServerStats {
    pub total_vectors: u64,
    pub total_collections: u32,
    pub memory_usage: u64,
    pub disk_usage: u64,
    pub uptime_seconds: u64,
}

/// The store.
pub struct VectorStore {
    storage: StorageEngine,
    indexes: Registry<HnswIndex>,
}

/// The answers of a query as answers of a search.
pub open spec fn as_search_results(results: Seq<QueryResult>) -> Seq<SearchResult> {
    results.map_values(
        |r: QueryResult| SearchResult { id: r.id, distance: r.distance, metadata: r.metadata },
    )
}

/// How an index changes when the vectors are inserted one after the other.
pub open spec fn batch_inserted(before: HnswIndex, after: HnswIndex, vectors: Seq<VectorView>) -> bool
    decreases vectors.len(),
{
    if vectors.len() == 0 {
        before.same_contents(&after)
    } else {
        exists|middle: HnswIndex, layer: int|
            batch_inserted(before, middle, vectors.drop_last()) && 0 <= layer
                <= middle.spec_config().max_layer && #[trigger] middle.inserted(
                &after,
                vectors.last().id,
                vectors.last().data,
                vectors.last().metadata,
                layer,
            )
    }
}

/// Whether every vector has `dimension` components.
pub open spec fn all_fit(vectors: Seq<VectorView>, dimension: usize) -> bool {
    forall|i: int| 0 <= i < vectors.len() ==> (#[trigger] vectors[i]).data.len() == dimension
}

/// Number of components of the first vector that has not `dimension`.
pub open spec fn first_misfit(vectors: Seq<VectorView>, dimension: usize) -> usize
    decreases vectors.len(),
{
    if vectors.len() == 0 {
        0
    } else if vectors.first().data.len() != dimension {
        vectors.first().data.len() as usize
    } else {
        first_misfit(vectors.drop_first(), dimension)
    }
}

/// Why the store refuses an operation.
pub enum Refusal {
    /// The collection is not there.
    NotFound(Seq<char>),
    /// The collection is there already.
    AlreadyExists(Seq<char>),
    /// A vector has `actual` components where `expected` are due.
    Dimension { expected: usize, actual: usize },
    /// The configuration cannot be served.
    Config(Seq<char>),
}

/// Whether `error` reports `refusal`.
pub open spec fn reports(error: VectorDbError, refusal: Refusal) -> bool {
    match refusal {
        Refusal::NotFound(name) => error.is_not_found(name),
        Refusal::AlreadyExists(name) => error.is_already_exists(name),
        Refusal::Dimension { expected, actual } => error.is_dimension_mismatch(expected, actual),
        Refusal::Config(text) => error.is_config_error(text),
    }
}

/// Some collection asks for a `max_layer` of `usize::MAX`, of which no
/// node could hold the layers.
pub open spec fn unservable(registry: Map<Seq<char>, crate::storage::CollectionView>) -> bool {
    exists|name: Seq<char>| #[trigger]
        registry.contains_key(name) && registry[name].config.index_config.max_layer == usize::MAX
}

/// `n` held to the range of `u64`.
pub open spec fn clamp64(n: int) -> u64 {
    if n > u64::MAX {
        u64::MAX
    } else if n < 0 {
        0
    } else {
        n as u64
    }
}

/// `n` held to the range of `u32`.
pub open spec fn clamp32(n: int) -> u32 {
    if n > u32::MAX {
        u32::MAX
    } else if n < 0 {
        0
    } else {
        n as u32
    }
}

/// Sum held to `u64::MAX`.
pub fn add_clamped64(a: u64, b: u64) -> (sum: u64)
    ensures
        sum == clamp64(a + b),
{
    if a > u64::MAX - b {
        u64::MAX
    } else {
        a + b
    }
}

/// Number of nodes in the indexes.
pub open spec fn total_vectors_of(indexes: Seq<HnswIndex>) -> nat
    decreases indexes.len(),
{
    if indexes.len() == 0 {
        0
    } else {
        total_vectors_of(indexes.drop_last()) + indexes.last().arena().len()
    }
}

/// Sum of what the indexes report as their memory usage.
pub open spec fn total_memory_of(indexes: Seq<HnswIndex>) -> nat
    decreases indexes.len(),
{
    if indexes.len() == 0 {
        0
    } else {
        total_memory_of(indexes.drop_last()) + clamp(
            total_footprint(indexes.last().arena()) as int,
        ) as nat
    }
}

/// Where every vector fits, the fitting prefix is the whole list.
pub proof fn lemma_all_fit(vectors: Seq<VectorView>, dimension: usize)
    ensures
        all_fit(vectors, dimension) <==> fitting_prefix(vectors, dimension) == vectors.len(),
    decreases vectors.len(),
{
    crate::storage::lemma_fitting_prefix(vectors, dimension);
    if vectors.len() > 0 {
        let tail = vectors.drop_first();
        lemma_all_fit(tail, dimension);
        crate::storage::lemma_fitting_prefix(tail, dimension);
        if vectors.first().data.len() == dimension {
            if all_fit(tail, dimension) {
                assert forall|i: int| 0 <= i < vectors.len() implies (#[trigger] vectors[i]).data.len()
                    == dimension by {
                    if i > 0 {
                        assert(vectors[i] == tail[i - 1]);
                    }
                }
            } else {
                let w = choose|w: int|
                    0 <= w < tail.len() && (#[trigger] tail[w]).data.len() != dimension;
                assert(vectors[w + 1] == tail[w]);
            }
        }
    }
}

/// Whether every vector has `dimension` components, and if not, the error
/// of the first that has not.
pub fn check_batch(vectors: &Vec<Vector>, dimension: usize) -> (result: Result<(), VectorDbError>)
    ensures
        match result {
            Ok(()) => all_fit(vectors_view(vectors@), dimension),
            Err(error) => !all_fit(vectors_view(vectors@), dimension)
                && error.is_dimension_mismatch(
                dimension,
                first_misfit(vectors_view(vectors@), dimension),
            ),
        },
{
    let ghost views = vectors_view(vectors@);
    let mut i: usize = 0;
    assert(views.skip(0) =~= views);
    while i < vectors.len()
        invariant
            i <= vectors@.len(),
            views == vectors_view(vectors@),
            forall|k: int| 0 <= k < i ==> (#[trigger] views[k]).data.len() == dimension,
            first_misfit(views, dimension) == first_misfit(views.skip(i as int), dimension),
        decreases vectors@.len() - i,
    {
        proof {
            assert(views.skip(i as int).first() == views[i as int]);
            assert(views[i as int] == vectors@[i as int]@);
            assert(views.skip(i as int).drop_first() =~= views.skip(i + 1));
        }
        if vectors[i].data.len() != dimension {
            return Err(
                VectorDbError::InvalidDimension { expected: dimension, actual: vectors[i].data.len() },
            );
        }
        i += 1;
    }
    Ok(())
}

/// Inserts the vectors into the index, one after the other.
fn insert_all<D: Fn(&Vec<u32>, &Vec<u32>, DistanceMetric) -> u32>(
    index: &mut HnswIndex,
    vectors: &Vec<Vector>,
    dist: &D,
) -> (result: Result<(), VectorDbError>)
    requires
        old(index).wf(),
        is_kernel(dist),
        all_fit(vectors_view(vectors@), old(index).spec_dimension()),
    ensures
        final(index).wf(),
        result is Ok,
        final(index).spec_dimension() == old(index).spec_dimension(),
        final(index).spec_metric() == old(index).spec_metric(),
        final(index).spec_config() == old(index).spec_config(),
        batch_inserted(*old(index), *final(index), vectors_view(vectors@)),
{
    let ghost views = vectors_view(vectors@);
    let mut i: usize = 0;
    assert(views.take(0).len() == 0);
    while i < vectors.len()
        invariant
            index.wf(),
            is_kernel(dist),
            i <= vectors@.len(),
            views == vectors_view(vectors@),
            all_fit(views, index.spec_dimension()),
            index.spec_dimension() == old(index).spec_dimension(),
            index.spec_metric() == old(index).spec_metric(),
            index.spec_config() == old(index).spec_config(),
            batch_inserted(*old(index), *index, views.take(i as int)),
        decreases vectors@.len() - i,
    {
        let ghost middle = *index;
        let vector = &vectors[i];
        assert(views[i as int] == vector@);
        let inserted = index.insert(vector.id, &vector.data, copy_metadata(&vector.metadata), dist);
        proof {
            let longer = views.take(i + 1);
            assert(longer.drop_last() =~= views.take(i as int));
            assert(longer.last() == vector@);
            let layer = choose|layer: int|
                0 <= layer <= middle.spec_config().max_layer && #[trigger] middle.inserted(
                    index,
                    vector.id,
                    vector.data@,
                    metadata_view(vector.metadata),
                    layer,
                );
            assert(middle.inserted(
                index,
                longer.last().id,
                longer.last().data,
                longer.last().metadata,
                layer,
            ));
        }
        i += 1;
    }
    assert(views.take(vectors@.len() as int) =~= views);
    Ok(())
}

impl VectorStore {
    /// The storage engine.
    pub closed spec fn engine(&self) -> StorageEngine {
        self.storage
    }

    /// The indexes by collection name.
    pub closed spec fn indexes(&self) -> Map<Seq<char>, HnswIndex> {
        self.indexes@
    }

    /// The indexes in the order in which the store keeps them.
    pub closed spec fn index_list(&self) -> Seq<HnswIndex> {
        self.indexes.values()
    }

    /// The storage engine is well-formed, and every collection has one
    /// index, well-formed and of the collection's dimension, metric and
    /// index parameters.
    pub closed spec fn wf(&self) -> bool {
        &&& self.storage.wf()
        &&& self.indexes.wf()
        &&& self.indexes@.dom() == self.storage.registry().dom()
        &&& forall|name: Seq<char>| #[trigger]
            self.indexes@.contains_key(name) ==> self.index_fits(name)
    }

    /// The index of `name` is well-formed and configured as the collection.
    pub open spec fn index_fits(&self, name: Seq<char>) -> bool {
        let index = self.indexes()[name];
        let config = self.engine().registry()[name].config;
        &&& index.wf()
        &&& index.spec_dimension() == config.dimension
        &&& index.spec_metric() == config.distance_metric
        &&& index.spec_config() == config.index_config
    }

    /// In a well-formed store the collections that have an index are those
    /// of the storage engine, and every index fits its collection.
    pub proof fn lemma_wf(&self)
        requires
            self.wf(),
        ensures
            self.engine().wf(),
            self.indexes().dom() == self.engine().registry().dom(),
            forall|name: Seq<char>| #[trigger]
                self.indexes().contains_key(name) ==> self.index_fits(name),
    {
    }

    /// `after` holds what `self` holds.
    pub open spec fn unchanged(&self, after: &VectorStore) -> bool {
        &&& self.engine().unchanged(&after.engine())
        &&& after.indexes() == self.indexes()
    }

    /// The store over `data_dir`, recovered from `wal`: the storage engine
    /// replays the log, and every collection gets an empty index.
    pub fn new(data_dir: &str, wal: WriteAheadLog, existing: NameSet) -> (result: Result<
        Self,
        VectorDbError,
    >)
        ensures
            match result {
                Ok(store) => store.wf() && store.engine().log() == wal.operations()
                    && store.engine().registry() == replayed(
                    Map::empty(),
                    validated(wal.operations(), existing@),
                ) && replay_misfit(Map::empty(), validated(wal.operations(), existing@)) is None
                    && !unservable(store.engine().registry()) && forall|name: Seq<char>| #[trigger]
                    store.indexes().contains_key(name) ==> store.indexes()[name].graph()
                        == Map::<VectorId, HnswNode>::empty(),
                Err(error) => match replay_misfit(
                    Map::empty(),
                    validated(wal.operations(), existing@),
                ) {
                    Some((expected, actual)) => error == dimension_mismatch(expected, actual),
                    None => error.is_config_error("max_layer is out of range"@) && unservable(
                        replayed(Map::empty(), validated(wal.operations(), existing@)),
                    ),
                },
            },
    {
        let storage = match StorageEngine::new(data_dir, wal, existing) {
            Ok(storage) => storage,
            Err(error) => {
                return Err(error);
            },
        };
        let mut store = VectorStore { storage, indexes: Registry::new() };
        match store.rebuild_indexes() {
            Ok(()) => Ok(store),
            Err(error) => Err(error),
        }
    }

    /// Gives every collection of the storage engine an empty index.
    fn rebuild_indexes(&mut self) -> (result: Result<(), VectorDbError>)
        requires
            old(self).storage.wf(),
            old(self).indexes.wf(),
            old(self).indexes@ == Map::<Seq<char>, HnswIndex>::empty(),
        ensures
            final(self).storage == old(self).storage,
            match result {
                Ok(()) => final(self).wf() && !unservable(old(self).storage.registry())
                    && forall|name: Seq<char>| #[trigger]
                    final(self).indexes().contains_key(name)
                        ==> final(self).indexes()[name].graph() == Map::<VectorId,
                        HnswNode>::empty(),
                Err(error) => error.is_config_error("max_layer is out of range"@) && unservable(
                    old(self).storage.registry(),
                ),
            },
    {
        let names = self.storage.list_collections();
        let mut i: usize = 0;
        while i < names.len()
            invariant
                self.storage == old(self).storage,
                self.storage.wf(),
                self.indexes.wf(),
                i <= names@.len(),
                forall|k: int|
                    0 <= k < names@.len() ==> self.storage.registry().contains_key(
                        (#[trigger] names@[k])@,
                    ),
                forall|name: Seq<char>|
                    self.storage.registry().contains_key(name) ==> exists|k: int|
                        0 <= k < names@.len() && (#[trigger] names@[k])@ == name,
                forall|name: Seq<char>|
                    self.indexes@.contains_key(name) <==> exists|k: int|
                        0 <= k < i && (#[trigger] names@[k])@ == name,
                forall|name: Seq<char>| #[trigger]
                    self.indexes@.contains_key(name) ==> self.index_fits(name)
                        && self.indexes@[name].graph() == Map::<VectorId, HnswNode>::empty(),
            decreases names@.len() - i,
        {
            let name = &names[i];
            let config = self.storage.get_collection_config(name.as_str()).unwrap();
            if config.index_config.max_layer == usize::MAX {
                assert(self.storage.registry().contains_key(name@));
                return Err(
                    VectorDbError::ConfigError {
                        message: "max_layer is out of range".to_string(),
                    },
                );
            }
            let index = HnswIndex::new(
                config.index_config,
                config.distance_metric,
                config.dimension,
            );
            let ghost before = self.indexes@;
            self.indexes.insert(name.as_str(), index);
            proof {
                assert forall|n: Seq<char>|
                    self.indexes@.contains_key(n) <==> exists|k: int|
                        0 <= k < i + 1 && (#[trigger] names@[k])@ == n by {
                    if before.contains_key(n) {
                        let k = choose|k: int| 0 <= k < i && (#[trigger] names@[k])@ == n;
                        assert(names@[k]@ == n);
                    }
                    if exists|k: int| 0 <= k < i + 1 && (#[trigger] names@[k])@ == n {
                        let k = choose|k: int| 0 <= k < i + 1 && (#[trigger] names@[k])@ == n;
                        if k < i {
                            assert(before.contains_key(n));
                        }
                    }
                }
            }
            i += 1;
        }
        proof {
            assert(!unservable(self.storage.registry())) by {
                if unservable(self.storage.registry()) {
                    let n = choose|n: Seq<char>| #[trigger]
                        self.storage.registry().contains_key(n)
                            && self.storage.registry()[n].config.index_config.max_layer
                            == usize::MAX;
                    let k = choose|k: int| 0 <= k < names@.len() && (#[trigger] names@[k])@ == n;
                    assert(self.indexes@.contains_key(names@[k]@));
                    assert(self.index_fits(n));
                    self.indexes@[n].lemma_wf_graph();
                }
            }
            assert(self.indexes@.dom() =~= self.storage.registry().dom()) by {
                assert forall|n: Seq<char>|
                    self.indexes@.dom().contains(n) <==> self.storage.registry().dom().contains(
                        n,
                    ) by {
                    if self.indexes@.contains_key(n) {
                        let k = choose|k: int| 0 <= k < i && (#[trigger] names@[k])@ == n;
                        assert(self.storage.registry().contains_key(names@[k]@));
                    }
                }
            }
        }
        Ok(())
    }

    /// Creates a collection: the storage engine logs and registers it, and
    /// it gets an empty index. A name that is taken is refused, and so is a
    /// `max_layer` of `usize::MAX`, of which a node could not hold the
    /// layers. Where the entry cannot be logged the failure is reported and
    /// nothing changes.
    pub fn create_collection(&mut self, config: &CollectionConfig) -> (result: Result<
        (),
        VectorDbError,
    >)
        requires
            old(self).wf(),
        ensures
            final(self).wf(),
            match result {
                Ok(()) => config.index_config.max_layer < usize::MAX
                    && !old(self).engine().registry().contains_key(config@.name)
                    && old(self).engine().logged(
                    &final(self).engine(),
                    OperationView::CreateCollection(config@),
                ) && final(self).indexes().dom() == old(self).indexes().dom().insert(
                    config@.name,
                ) && final(self).indexes()[config@.name].graph() == Map::<
                    VectorId,
                    HnswNode,
                >::empty() && forall|name: Seq<char>|
                    name != config@.name && old(self).indexes().contains_key(name)
                        ==> final(self).indexes()[name] == old(self).indexes()[name],
                Err(error) => old(self).unchanged(final(self)) && if config.index_config.max_layer
                    == usize::MAX {
                    error.is_config_error("max_layer is out of range"@)
                } else if old(self).engine().registry().contains_key(config@.name) {
                    error.is_already_exists(config@.name)
                } else {
                    error.is_unlogged()
                },
            },
    {
        if config.index_config.max_layer == usize::MAX {
            return Err(
                VectorDbError::ConfigError { message: "max_layer is out of range".to_string() },
            );
        }
        match self.storage.create_collection(config) {
            Ok(()) => {},
            Err(error) => {
                return Err(error);
            },
        }
        let index = HnswIndex::new(config.index_config, config.distance_metric, config.dimension);
        self.indexes.insert(config.name.as_str(), index);
        proof {
            assert(self.indexes@.dom() =~= self.storage.registry().dom());
            assert forall|name: Seq<char>| #[trigger]
                self.indexes@.contains_key(name) implies self.index_fits(name) by {
                if name != config@.name {
                    assert(old(self).index_fits(name));
                }
            }
        }
        Ok(())
    }

    /// Deletes a collection and its index. An unknown name is refused.
    /// Where the entry cannot be logged the failure is reported and nothing
    /// changes.
    pub fn delete_collection(&mut self, name: &str) -> (result: Result<(), VectorDbError>)
        requires
            old(self).wf(),
        ensures
            final(self).wf(),
            match result {
                Ok(()) => old(self).engine().registry().contains_key(name@)
                    && old(self).engine().logged(&final(self).engine(),
                    OperationView::DeleteCollection(name@))
                    && final(self).indexes() == old(self).indexes().remove(name@),
                Err(error) => old(self).unchanged(final(self))
                    && if old(self).engine().registry().contains_key(name@) {
                    error.is_unlogged()
                } else {
                    error.is_not_found(name@)
                },
            },
    {
        match self.storage.delete_collection(name) {
            Ok(()) => {},
            Err(error) => {
                return Err(error);
            },
        }
        self.indexes.remove(name);
        proof {
            assert(self.indexes@.dom() =~= self.storage.registry().dom());
            assert forall|n: Seq<char>| #[trigger] self.indexes@.contains_key(n) implies self.index_fits(
                n,
            ) by {
                assert(old(self).index_fits(n));
            }
        }
        Ok(())
    }

    /// Why the store refuses `operation`, or `None` if it accepts it: a
    /// collection is created only under a free name and with a `max_layer`
    /// below `usize::MAX`; anything else needs its collection, and a vector
    /// needs the collection's dimension. A batch without vectors is always
    /// accepted.
    pub open spec fn refusal(&self, operation: OperationView) -> Option<Refusal> {
        let registry = self.engine().registry();
        match operation {
            OperationView::CreateCollection(config) => if config.index_config.max_layer
                == usize::MAX {
                Some(Refusal::Config("max_layer is out of range"@))
            } else if registry.contains_key(config.name) {
                Some(Refusal::AlreadyExists(config.name))
            } else {
                None
            },
            OperationView::DeleteCollection(name) => if registry.contains_key(name) {
                None
            } else {
                Some(Refusal::NotFound(name))
            },
            OperationView::InsertVector { collection, vector } => if !registry.contains_key(
                collection,
            ) {
                Some(Refusal::NotFound(collection))
            } else if vector.data.len() != registry[collection].config.dimension {
                Some(
                    Refusal::Dimension {
                        expected: registry[collection].config.dimension,
                        actual: vector.data.len() as usize,
                    },
                )
            } else {
                None
            },
            OperationView::BatchInsert { collection, vectors } => if vectors.len() == 0 {
                None
            } else if !registry.contains_key(collection) {
                Some(Refusal::NotFound(collection))
            } else if !all_fit(vectors, registry[collection].config.dimension) {
                Some(
                    Refusal::Dimension {
                        expected: registry[collection].config.dimension,
                        actual: first_misfit(vectors, registry[collection].config.dimension),
                    },
                )
            } else {
                None
            },
            OperationView::DeleteVector { collection, id } => if registry.contains_key(collection) {
                None
            } else {
                Some(Refusal::NotFound(collection))
            },
        }
    }

    /// What an accepted operation does: it is logged, the storage engine
    /// applies it, and the indexes follow.
    pub open spec fn effected(&self, after: &VectorStore, operation: OperationView) -> bool {
        match operation {
            OperationView::CreateCollection(config) => self.engine().logged(
                &after.engine(),
                operation,
            ) && after.indexes().dom() == self.indexes().dom().insert(config.name)
                && after.indexes()[config.name].graph() == Map::<VectorId, HnswNode>::empty()
                && forall|name: Seq<char>|
                name != config.name && self.indexes().contains_key(name)
                    ==> #[trigger] after.indexes()[name] == self.indexes()[name],
            OperationView::DeleteCollection(name) => self.engine().logged(
                &after.engine(),
                operation,
            ) && after.indexes() == self.indexes().remove(name),
            OperationView::InsertVector { collection, vector } => self.stored(
                after,
                collection,
                vector,
            ),
            OperationView::BatchInsert { collection, vectors } => if vectors.len() == 0 {
                self.unchanged(after)
            } else {
                self.engine().logged(&after.engine(), operation) && self.reindexed(
                    after,
                    collection,
                ) && batch_inserted(
                    self.indexes()[collection],
                    after.indexes()[collection],
                    vectors,
                )
            },
            OperationView::DeleteVector { collection, id } => self.removed(after, collection, id),
        }
    }

    /// Whether the store accepts `op`, and if not, why. The store does not
    /// change; `apply` on the same store succeeds exactly if this does.
    pub fn admits(&self, op: &WALOperation) -> (result: Result<(), VectorDbError>)
        requires
            self.wf(),
        ensures
            match result {
                Ok(()) => self.refusal(op@) is None,
                Err(error) => match self.refusal(op@) {
                    Some(refusal) => reports(error, refusal),
                    None => false,
                },
            },
    {
        match op {
            WALOperation::CreateCollection(config) => {
                if config.index_config.max_layer == usize::MAX {
                    return Err(
                        VectorDbError::ConfigError {
                            message: "max_layer is out of range".to_string(),
                        },
                    );
                }
                if self.storage.contains_collection(config.name.as_str()) {
                    return Err(
                        VectorDbError::CollectionAlreadyExists { name: config.name.clone() },
                    );
                }
                Ok(())
            },
            WALOperation::DeleteCollection(name) => {
                if !self.storage.contains_collection(name.as_str()) {
                    return Err(VectorDbError::CollectionNotFound { name: name.clone() });
                }
                Ok(())
            },
            WALOperation::InsertVector { collection, vector } => {
                match self.storage.get_collection_config(collection.as_str()) {
                    None => Err(VectorDbError::CollectionNotFound { name: collection.clone() }),
                    Some(config) => {
                        if vector.data.len() != config.dimension {
                            return Err(
                                VectorDbError::InvalidDimension {
                                    expected: config.dimension,
                                    actual: vector.data.len(),
                                },
                            );
                        }
                        Ok(())
                    },
                }
            },
            WALOperation::BatchInsert { collection, vectors } => {
                if vectors.len() == 0 {
                    return Ok(());
                }
                match self.storage.get_collection_config(collection.as_str()) {
                    None => Err(VectorDbError::CollectionNotFound { name: collection.clone() }),
                    Some(config) => check_batch(vectors, config.dimension),
                }
            },
            WALOperation::DeleteVector { collection, id } => {
                if !self.storage.contains_collection(collection.as_str()) {
                    return Err(VectorDbError::CollectionNotFound { name: collection.clone() });
                }
                Ok(())
            },
        }
    }

    /// Logs and applies `op`, if the store accepts it. Where the entry
    /// cannot be logged the failure is reported and nothing changes.
    pub fn apply<D: Fn(&Vec<u32>, &Vec<u32>, DistanceMetric) -> u32>(
        &mut self,
        op: &WALOperation,
        dist: &D,
    ) -> (result: Result<(), VectorDbError>)
        requires
            old(self).wf(),
            is_kernel(dist),
        ensures
            final(self).wf(),
            match result {
                Ok(()) => old(self).refusal(op@) is None && old(self).effected(final(self), op@),
                Err(error) => old(self).unchanged(final(self)) && match old(self).refusal(op@) {
                    Some(refusal) => reports(error, refusal),
                    None => error.is_unlogged(),
                },
            },
    {
        match op {
            WALOperation::CreateCollection(config) => self.create_collection(config),
            WALOperation::DeleteCollection(name) => self.delete_collection(name.as_str()),
            WALOperation::InsertVector { collection, vector } => self.insert(
                collection.as_str(),
                vector,
                dist,
            ),
            WALOperation::BatchInsert { collection, vectors } => self.batch_insert(
                collection.as_str(),
                vectors,
                dist,
            ),
            WALOperation::DeleteVector { collection, id } => {
                match self.delete(collection.as_str(), id) {
                    Ok(_) => Ok(()),
                    Err(error) => Err(error),
                }
            },
        }
    }

    /// `after` has the indexes of `self`, that of `collection` aside.
    pub open spec fn reindexed(&self, after: &VectorStore, collection: Seq<char>) -> bool {
        &&& after.indexes().dom() == self.indexes().dom()
        &&& forall|name: Seq<char>|
            name != collection && self.indexes().contains_key(name) ==> #[trigger] after.indexes()[name]
                == self.indexes()[name]
    }

    /// `after` is `self` with `vector` stored in `collection`: the insert
    /// is logged and the record appended, and the index holds a node for
    /// the vector.
    pub open spec fn stored(&self, after: &VectorStore, collection: Seq<char>,
        vector: VectorView) -> bool {
        &&& self.engine().logged(
            &after.engine(),
            (OperationView::InsertVector { collection, vector }),
        )
        &&& self.reindexed(after, collection)
        &&& exists|layer: int|
            0 <= layer <= self.indexes()[collection].spec_config().max_layer
                && #[trigger] self.indexes()[collection].inserted(
                &after.indexes()[collection],
                vector.id,
                vector.data,
                vector.metadata,
                layer,
            )
    }

    /// `after` is `self` with the vector of `id` deleted from
    /// `collection`: the deletion is logged, and the index holds no node
    /// of that id.
    pub open spec fn removed(&self, after: &VectorStore, collection: Seq<char>, id: VectorId) -> bool {
        &&& self.engine().logged(
            &after.engine(),
            (OperationView::DeleteVector { collection, id }),
        )
        &&& self.reindexed(after, collection)
        &&& self.indexes()[collection].deleted(&after.indexes()[collection], id)
    }

    /// Stores a vector: the storage engine logs the insert and appends the
    /// record, then the index takes the vector. An unknown collection and a
    /// vector of another dimension than the collection's are refused, and
    /// nothing is logged. Where the entry cannot be logged the failure is
    /// reported and nothing changes.
    pub fn insert<D: Fn(&Vec<u32>, &Vec<u32>, DistanceMetric) -> u32>(
        &mut self,
        collection: &str,
        vector: &Vector,
        dist: &D,
    ) -> (result: Result<(), VectorDbError>)
        requires
            old(self).wf(),
            is_kernel(dist),
        ensures
            final(self).wf(),
            !old(self).engine().registry().contains_key(collection@) ==> (result matches Err(error)
                && error.is_not_found(collection@)) && old(self).unchanged(final(self)),
            old(self).engine().registry().contains_key(collection@)
                && vector@.data.len() != old(self).engine().registry()[collection@].config.dimension ==> (result matches Err(error)
                && error.is_dimension_mismatch(
                old(self).engine().registry()[collection@].config.dimension,
                vector@.data.len() as usize,
            )) && old(self).unchanged(final(self)),
            old(self).engine().registry().contains_key(collection@) && vector@.data.len()
                == old(self).engine().registry()[collection@].config.dimension ==> (result is Ok
                && old(self).stored(final(self), collection@, vector@)) || (
            result matches Err(error) && error.is_unlogged() && old(self).unchanged(final(self))),
    {
        let config = match self.storage.get_collection_config(collection) {
            Some(config) => config,
            None => {
                return Err(VectorDbError::CollectionNotFound { name: text_of(collection) });
            },
        };
        if vector.data.len() != config.dimension {
            return Err(
                VectorDbError::InvalidDimension {
                    expected: config.dimension,
                    actual: vector.data.len(),
                },
            );
        }
        match self.storage.insert_vector(collection, vector) {
            Ok(()) => {},
            Err(error) => {
                return Err(error);
            },
        }
        assert(old(self).index_fits(collection@));
        let place = self.indexes.position(collection).unwrap();
        let ghost before = self.indexes;
        let index = self.indexes.item_mut(place);
        let result = index.insert(vector.id, &vector.data, copy_metadata(&vector.metadata), dist);
        proof {
            before.lemma_item_changed(&self.indexes, place as int);
            let was = before.values()[place as int];
            let now = self.indexes.values()[place as int];
            assert(old(self).indexes()[collection@] == was);
            assert(self.indexes()[collection@] == now);
            let layer = choose|layer: int|
                0 <= layer <= was.spec_config().max_layer && #[trigger] was.inserted(
                    &now,
                    vector.id,
                    vector.data@,
                    metadata_view(vector.metadata),
                    layer,
                );
            assert(old(self).indexes()[collection@].inserted(
                &self.indexes()[collection@],
                vector@.id,
                vector@.data,
                vector@.metadata,
                layer,
            ));
            assert(self.indexes@.dom() =~= old(self).indexes@.dom());
            assert(self.storage.registry().dom() =~= old(self).storage.registry().dom());
            assert forall|name: Seq<char>| #[trigger]
                self.indexes@.contains_key(name) implies self.index_fits(name) by {
                assert(old(self).index_fits(name));
            }
        }
        result
    }

    /// Stores vectors: after every one of them was found to fit, the
    /// storage engine logs the batch as one entry and appends the records,
    /// then the index takes the vectors in order. An empty batch does
    /// nothing, whatever the collection. An unknown collection, and a batch
    /// that holds a vector of another dimension than the collection's, are
    /// refused, the latter with the first such vector's error, and nothing
    /// is logged. Where the entry cannot be logged the failure is reported
    /// and nothing changes.
    pub fn batch_insert<D: Fn(&Vec<u32>, &Vec<u32>, DistanceMetric) -> u32>(
        &mut self,
        collection: &str,
        vectors: &Vec<Vector>,
        dist: &D,
    ) -> (result: Result<(), VectorDbError>)
        requires
            old(self).wf(),
            is_kernel(dist),
        ensures
            final(self).wf(),
            vectors@.len() == 0 ==> result is Ok && old(self).unchanged(final(self)),
            vectors@.len() > 0 && !old(self).engine().registry().contains_key(collection@) ==> (
            result matches Err(error) && error.is_not_found(collection@)) && old(self).unchanged(
                final(self),
            ),
            vectors@.len() > 0 && old(self).engine().registry().contains_key(collection@)
                && !all_fit(
                vectors_view(vectors@),
                old(self).engine().registry()[collection@].config.dimension,
            ) ==> (result matches Err(error) && error.is_dimension_mismatch(
                old(self).engine().registry()[collection@].config.dimension,
                first_misfit(
                    vectors_view(vectors@),
                    old(self).engine().registry()[collection@].config.dimension,
                ),
            )) && old(self).unchanged(final(self)),
            vectors@.len() > 0 && old(self).engine().registry().contains_key(collection@)
                && all_fit(
                vectors_view(vectors@),
                old(self).engine().registry()[collection@].config.dimension,
            ) ==> (result is Ok && old(self).engine().logged(
                &final(self).engine(),
                (OperationView::BatchInsert {
                    collection: collection@,
                    vectors: vectors_view(vectors@),
                }),
            ) && old(self).reindexed(final(self), collection@) && batch_inserted(
                old(self).indexes()[collection@],
                final(self).indexes()[collection@],
                vectors_view(vectors@),
            )) || (result matches Err(error) && error.is_unlogged() && old(self).unchanged(
                final(self),
            )),
    {
        if vectors.len() == 0 {
            return Ok(());
        }
        let config = match self.storage.get_collection_config(collection) {
            Some(config) => config,
            None => {
                return Err(VectorDbError::CollectionNotFound { name: text_of(collection) });
            },
        };
        let ghost views = vectors_view(vectors@);
        match check_batch(vectors, config.dimension) {
            Ok(()) => {},
            Err(error) => {
                return Err(error);
            },
        }
        proof {
            lemma_all_fit(views, config.dimension);
        }
        match self.storage.batch_insert(collection, vectors) {
            Ok(()) => {},
            Err(error) => {
                return Err(error);
            },
        }
        assert(old(self).index_fits(collection@));
        let place = self.indexes.position(collection).unwrap();
        let ghost before = self.indexes;
        let index = self.indexes.item_mut(place);
        let result = insert_all(index, vectors, dist);
        proof {
            before.lemma_item_changed(&self.indexes, place as int);
            assert(old(self).indexes()[collection@] == before.values()[place as int]);
            assert(self.indexes()[collection@] == self.indexes.values()[place as int]);
            assert(self.indexes@.dom() =~= old(self).indexes@.dom());
            assert(self.storage.registry().dom() =~= old(self).storage.registry().dom());
            assert forall|name: Seq<char>| #[trigger]
                self.indexes@.contains_key(name) implies self.index_fits(name) by {
                assert(old(self).index_fits(name));
            }
        }
        result
    }

    /// The nearest neighbours of the request's vector in its collection. An
    /// unknown collection and a vector of another dimension than the
    /// collection's are refused.
    pub fn query<D: Fn(&Vec<u32>, &Vec<u32>, DistanceMetric) -> u32>(
        &self,
        request: &QueryRequest,
        dist: &D,
    ) -> (result: Result<Vec<QueryResult>, VectorDbError>)
        requires
            self.wf(),
            is_kernel(dist),
        ensures
            !self.engine().registry().contains_key(request.collection@) ==> (result matches Err(
                error,
            ) && error.is_not_found(request.collection@)),
            self.engine().registry().contains_key(request.collection@) && request.vector@.len()
                != self.engine().registry()[request.collection@].config.dimension ==> (
            result matches Err(error) && error.is_dimension_mismatch(
                self.engine().registry()[request.collection@].config.dimension,
                request.vector@.len() as usize,
            )),
            self.engine().registry().contains_key(request.collection@) && request.vector@.len()
                == self.engine().registry()[request.collection@].config.dimension ==> (
            result matches Ok(found) && self.indexes()[request.collection@].answers(
                request.vector@,
                request.limit as int,
                as_search_results(found@),
                dist,
            ) && self.indexes()[request.collection@].beamed(
                request.vector@,
                request.limit as int,
                request.ef_search,
                as_search_results(found@),
                dist,
            )),
    {
        let config = match self.storage.get_collection_config(request.collection.as_str()) {
            Some(config) => config,
            None => {
                return Err(
                    VectorDbError::CollectionNotFound { name: request.collection.clone() },
                );
            },
        };
        if request.vector.len() != config.dimension {
            return Err(
                VectorDbError::InvalidDimension {
                    expected: config.dimension,
                    actual: request.vector.len(),
                },
            );
        }
        assert(self.index_fits(request.collection@));
        let index = match self.indexes.get(request.collection.as_str()) {
            Some(index) => index,
            None => {
                return Err(
                    VectorDbError::CollectionNotFound { name: request.collection.clone() },
                );
            },
        };
        let found = match index.search(&request.vector, request.limit, request.ef_search, dist) {
            Ok(found) => found,
            Err(error) => {
                return Err(error);
            },
        };
        let mut results: Vec<QueryResult> = Vec::new();
        let mut i: usize = 0;
        while i < found.len()
            invariant
                i <= found@.len(),
                results@.len() == i,
                forall|k: int|
                    0 <= k < i ==> {
                        let r = #[trigger] results@[k];
                        &&& r.id == found@[k].id
                        &&& r.distance == found@[k].distance
                        &&& metadata_view(r.metadata) == metadata_view(found@[k].metadata)
                    },
            decreases found@.len() - i,
        {
            results.push(
                QueryResult {
                    id: found[i].id,
                    distance: found[i].distance,
                    metadata: copy_metadata(&found[i].metadata),
                },
            );
            i += 1;
        }
        proof {
            let mapped = as_search_results(results@);
            let graph = index.graph();
            assert(mapped.len() == found@.len());
            assert(index.answers(request.vector@, request.limit as int, found@, dist));
            assert(index.beamed(
                request.vector@,
                request.limit as int,
                request.ef_search,
                found@,
                dist,
            ));
            match index.entry() {
                Some(e) => {
                    let width = index.beam_width(request.limit as int, request.ef_search);
                    let (start, held) = choose|
                        start: VectorId,
                        held: Seq<crate::node::SearchCandidate>,
                    |
                        #![trigger index.scanned(request.vector@, seq![start], width, 0, held, dist)]
                        {
                            &&& graph.contains_key(start)
                            &&& !crate::ordering::closer(
                                crate::distance::kernel_value(
                                    dist,
                                    request.vector@,
                                    graph[e].vector@,
                                    index.spec_metric(),
                                ),
                                crate::distance::kernel_value(
                                    dist,
                                    request.vector@,
                                    graph[start].vector@,
                                    index.spec_metric(),
                                ),
                            )
                            &&& index.scanned(request.vector@, seq![start], width, 0, held, dist)
                            &&& found@.len() == if held.len() <= request.limit as int {
                                held.len() as int
                            } else {
                                request.limit as int
                            }
                            &&& forall|k: int|
                                0 <= k < found@.len() ==> (#[trigger] found@[k]).id == held[k].id
                                    && found@[k].distance == held[k].distance
                        };
                    assert(index.scanned(request.vector@, seq![start], width, 0, held, dist));
                    assert forall|k: int| 0 <= k < mapped.len() implies (#[trigger] mapped[k]).id
                        == held[k].id && mapped[k].distance == held[k].distance by {
                        assert(mapped[k].id == results@[k].id);
                        assert(found@[k].id == held[k].id);
                    }
                    assert(index.beamed(
                        request.vector@,
                        request.limit as int,
                        request.ef_search,
                        mapped,
                        dist,
                    ));
                },
                None => {},
            }
            assert forall|k: int| 0 <= k < mapped.len() implies mapped[k].id == found@[k].id
                && mapped[k].distance == found@[k].distance && metadata_view(mapped[k].metadata)
                == metadata_view(found@[k].metadata) by {
                assert(mapped[k].id == results@[k].id);
            }
            assert forall|k: int| 0 <= k < mapped.len() implies {
                let r = #[trigger] mapped[k];
                &&& graph.contains_key(r.id)
                &&& r.distance == crate::distance::kernel_value(
                    dist,
                    request.vector@,
                    graph[r.id].vector@,
                    index.spec_metric(),
                )
                &&& metadata_view(r.metadata) == metadata_view(graph[r.id].metadata)
            } by {
                let f = found@[k];
                assert(graph.contains_key(f.id));
            }
            assert forall|i: int, j: int|
                #![trigger mapped[i], mapped[j]]
                0 <= i < j < mapped.len() implies mapped[i].id != mapped[j].id
                && !crate::ordering::closer(mapped[j].distance, mapped[i].distance) by {
                assert(found@[i].id != found@[j].id);
            }
            if mapped.len() > 0 {
                assert(mapped[0].distance == found@[0].distance);
            }
            assert forall|k: int, j: int|
                0 <= k < mapped.len() && 0 <= j < graph[mapped[k].id].neighbors(0).len()
                    && graph.contains_key(
                    #[trigger] graph[mapped[k].id].neighbors(0)[j],
                ) implies crate::hnsw::search::answered_or_beaten(
                mapped,
                graph[mapped[k].id].neighbors(0)[j],
                crate::distance::kernel_value(
                    dist,
                    request.vector@,
                    graph[graph[mapped[k].id].neighbors(0)[j]].vector@,
                    index.spec_metric(),
                ),
                request.limit as int,
            ) by {
                let n = graph[mapped[k].id].neighbors(0)[j];
                let own = crate::distance::kernel_value(
                    dist,
                    request.vector@,
                    graph[n].vector@,
                    index.spec_metric(),
                );
                assert(mapped[k].id == found@[k].id);
                assert(graph[found@[k].id].neighbors(0)[j] == n);
                assert(crate::hnsw::search::answered_or_beaten(
                    found@,
                    n,
                    own,
                    request.limit as int,
                ));
                if exists|i: int| 0 <= i < found@.len() && (#[trigger] found@[i]).id == n {
                    let i = choose|i: int| 0 <= i < found@.len() && (#[trigger] found@[i]).id == n;
                    assert(mapped[i].id == n);
                } else {
                    assert forall|i: int| 0 <= i < mapped.len() implies !crate::ordering::closer(
                        own,
                        (#[trigger] mapped[i]).distance,
                    ) by {
                        assert(mapped[i].distance == found@[i].distance);
                    }
                }
            }
            assert(index.answers(request.vector@, request.limit as int, mapped, dist));
        }
        Ok(results)
    }

    /// Deletes a vector: the storage engine logs the deletion, then the
    /// index drops the node. The answer is the storage engine's, which
    /// cannot delete a record and says `false`. An unknown collection is
    /// refused and nothing is logged. Where the entry cannot be logged the
    /// failure is reported and nothing changes.
    pub fn delete(&mut self, collection: &str, id: &VectorId) -> (result: Result<
        bool,
        VectorDbError,
    >)
        requires
            old(self).wf(),
        ensures
            final(self).wf(),
            match result {
                Ok(deleted) => !deleted && old(self).engine().registry().contains_key(collection@)
                    && old(self).removed(final(self), collection@, *id),
                Err(error) => old(self).unchanged(final(self))
                    && if old(self).engine().registry().contains_key(collection@) {
                    error.is_unlogged()
                } else {
                    error.is_not_found(collection@)
                },
            },
    {
        let storage_deleted = match self.storage.delete_vector(collection, id) {
            Ok(deleted) => deleted,
            Err(error) => {
                return Err(error);
            },
        };
        assert(old(self).index_fits(collection@));
        let place = self.indexes.position(collection).unwrap();
        let ghost before = self.indexes;
        let index = self.indexes.item_mut(place);
        let dropped = index.delete(id);
        proof {
            before.lemma_item_changed(&self.indexes, place as int);
            assert(self.indexes@.dom() =~= old(self).indexes@.dom());
            assert(self.storage.registry().dom() =~= old(self).storage.registry().dom());
            assert forall|name: Seq<char>| #[trigger]
                self.indexes@.contains_key(name) implies self.index_fits(name) by {
                assert(old(self).index_fits(name));
            }
        }
        Ok(storage_deleted)
    }

    /// Replaces a vector: a delete of its id, then an insert. The two are
    /// not one step: where the vector has another dimension than the
    /// collection's, the delete stands and the insert is refused, and where
    /// the entry of the insert cannot be logged, the delete stands too.
    pub fn update<D: Fn(&Vec<u32>, &Vec<u32>, DistanceMetric) -> u32>(
        &mut self,
        collection: &str,
        vector: &Vector,
        dist: &D,
    ) -> (result: Result<(), VectorDbError>)
        requires
            old(self).wf(),
            is_kernel(dist),
        ensures
            final(self).wf(),
            !old(self).engine().registry().contains_key(collection@) ==> (result matches Err(error)
                && error.is_not_found(collection@)) && old(self).unchanged(final(self)),
            old(self).engine().registry().contains_key(collection@)
                && vector@.data.len() != old(self).engine().registry()[collection@].config.dimension ==> (result matches Err(error)
                && error.is_dimension_mismatch(
                old(self).engine().registry()[collection@].config.dimension,
                vector@.data.len() as usize,
            ) && exists|middle: VectorStore|
                #[trigger] old(self).removed(&middle, collection@, vector.id) && middle.unchanged(
                    final(self),
                )) || (result matches Err(error) && error.is_unlogged() && old(self).unchanged(
                final(self),
            )),
            old(self).engine().registry().contains_key(collection@) && vector@.data.len()
                == old(self).engine().registry()[collection@].config.dimension ==> (result is Ok
                && exists|middle: VectorStore|
                #[trigger] old(self).removed(&middle, collection@, vector.id) && middle.stored(
                    final(self),
                    collection@,
                    vector@,
                )) || (result matches Err(error) && error.is_unlogged() && (old(self).unchanged(
                final(self),
            ) || old(self).removed(final(self), collection@, vector.id))),
    {
        match self.delete(collection, &vector.id) {
            Ok(_) => {},
            Err(error) => {
                return Err(error);
            },
        }
        let ghost middle = *self;
        self.insert(collection, vector, dist)
    }

    /// The figures of a collection: name and dimension from the storage
    /// engine, the number of vectors and the memory usage from the index.
    pub fn get_collection_stats(&self, name: &str) -> (stats: Option<CollectionStats>)
        requires
            self.wf(),
        ensures
            match stats {
                Some(stats) => self.engine().registry().contains_key(name@) && stats.name@ == name@
                    && stats.dimension == self.engine().registry()[name@].config.dimension
                    && stats.index_size == 0 && stats.vector_count
                    == self.indexes()[name@].arena().len() && stats.memory_usage == clamp(
                    total_footprint(self.indexes()[name@].arena()) as int,
                ),
                None => !self.engine().registry().contains_key(name@),
            },
    {
        match self.storage.get_collection_stats(name) {
            None => None,
            Some(stats) => {
                let mut stats = stats;
                match self.indexes.get(name) {
                    Some(index) => {
                        let index_stats = index.stats();
                        stats.vector_count = index_stats.vector_count;
                        stats.memory_usage = add_clamped(
                            stats.memory_usage,
                            index_stats.memory_usage,
                        );
                    },
                    None => {},
                }
                Some(stats)
            },
        }
    }

    /// The figures of the store: the number of collections, held to
    /// `u32::MAX`, and the sums of the indexes' vector counts and memory
    /// usages, held to `u64::MAX`. Disk usage and uptime are not tracked
    /// and read 0.
    pub fn get_server_stats(&self) -> (stats: ServerStats)
        requires
            self.wf(),
        ensures
            stats.total_collections == clamp32(self.index_list().len() as int),
            stats.total_vectors == clamp64(total_vectors_of(self.index_list()) as int),
            stats.memory_usage == clamp64(total_memory_of(self.index_list()) as int),
            stats.disk_usage == 0,
            stats.uptime_seconds == 0,
    {
        let count = self.indexes.len();
        let total_collections: u32 = if count > u32::MAX as usize {
            u32::MAX
        } else {
            count as u32
        };
        let mut total_vectors: u64 = 0;
        let mut memory_usage: u64 = 0;
        let mut i: usize = 0;
        while i < count
            invariant
                self.indexes.wf(),
                count == self.indexes.keys().len(),
                count == self.indexes.values().len(),
                i <= count,
                total_vectors == clamp64(
                    total_vectors_of(self.indexes.values().take(i as int)) as int,
                ),
                memory_usage == clamp64(total_memory_of(self.indexes.values().take(i as int)) as int),
            decreases count - i,
        {
            let index_stats = self.indexes.item_at(i).stats();
            proof {
                assert(self.indexes.values().take(i + 1).drop_last()
                    =~= self.indexes.values().take(i as int));
                assert(self.indexes.values().take(i + 1).last() == self.indexes.values()[i as int]);
            }
            total_vectors = add_clamped64(total_vectors, index_stats.vector_count as u64);
            memory_usage = add_clamped64(memory_usage, index_stats.memory_usage as u64);
            i += 1;
        }
        assert(self.indexes.values().take(count as int) =~= self.indexes.values());
        ServerStats {
            total_vectors,
            total_collections,
            memory_usage,
            disk_usage: 0,
            uptime_seconds: 0,
        }
    }

    /// The storage engine.
    pub fn storage(&self) -> (storage: &StorageEngine)
        ensures
            *storage == self.engine(),
    {
        &self.storage
    }

    /// The index of a collection.
    pub fn index(&self, name: &str) -> (index: Option<&HnswIndex>)
        requires
            self.wf(),
        ensures
            match index {
                Some(index) => self.indexes().contains_key(name@) && *index
                    == self.indexes()[name@],
                None => !self.indexes().contains_key(name@),
            },
    {
        self.indexes.get(name)
    }

    /// The names of the collections, each once, in the order in which the
    /// engine keeps them.
    pub fn list_collections(&self) -> (names: Vec<String>)
        requires
            self.wf(),
        ensures
            names@.len() == self.engine().names().len(),
            forall|i: int|
                0 <= i < names@.len() ==> (#[trigger] names@[i])@ == self.engine().names()[i]@,
            forall|i: int, j: int|
                0 <= i < j < names@.len() ==> (#[trigger] names@[i])@ != (#[trigger] names@[j])@,
            forall|i: int|
                0 <= i < names@.len() ==> self.engine().registry().contains_key(
                    (#[trigger] names@[i])@,
                ),
            forall|name: Seq<char>|
                self.engine().registry().contains_key(name) ==> exists|i: int|
                    0 <= i < names@.len() && (#[trigger] names@[i])@ == name,
    {
        self.storage.list_collections()
    }

    /// The configuration of a collection.
    pub fn get_collection_config(&self, name: &str) -> (config: Option<CollectionConfig>)
        requires
            self.wf(),
        ensures
            match config {
                Some(config) => self.engine().registry().contains_key(name@) && config@
                    == self.engine().registry()[name@].config,
                None => !self.engine().registry().contains_key(name@),
            },
    {
        self.storage.get_collection_config(name)
    }

    /// Looks a vector up in the storage engine, which keeps no records by
    /// id: a known collection answers `None`, an unknown one is refused.
    pub fn get(&self, collection: &str, id: &VectorId) -> (result: Result<
        Option<Vector>,
        VectorDbError,
    >)
        requires
            self.wf(),
        ensures
            match result {
                Ok(found) => self.engine().registry().contains_key(collection@) && found is None,
                Err(error) => !self.engine().registry().contains_key(collection@)
                    && error.is_not_found(collection@),
            },
    {
        self.storage.get_vector(collection, id)
    }
}

} // verus!
