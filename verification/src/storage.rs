//! The storage engine: the registry of collections and the write-ahead
//! log, every mutation logged before it is applied.
//!
//! The engine holds what is stored as values. Writing the log and the data
//! files to disk is the caller's work, in the order that the engine keeps:
//! the log first.

use vstd::prelude::*;
use crate::error::{dimension_mismatch, VectorDbError};
use crate::names::{text_of, NameSet};
use crate::recovery::{has_empty, judged, known_after, objection, validated, RecoveryManager};
use crate::registry::Registry;
use crate::types::{
    copy_config, copy_vector, copy_vectors, vectors_view, CollectionConfig, CollectionStats,
    ConfigView, Vector, VectorId, VectorView,
};
use crate::wal::{OperationView, WALOperation, WriteAheadLog};

verus! {

/// Storage of one collection: its configuration and the records appended
/// to its data file, oldest first.
pub struct CollectionStorage {
    config: CollectionConfig,
    records: Vec<Vector>,
}

/// Mathematical value of a `CollectionStorage`.
pub struct CollectionView {
    pub config: ConfigView,
    pub records: Seq<VectorView>,
}

impl View for CollectionStorage {
    type V = CollectionView;

    closed spec fn view(&self) -> CollectionView {
        CollectionView { config: self.config@, records: vectors_view(self.records@) }
    }
}

/// Number of vectors at the head of `vectors` that have `dimension`
/// components each.
pub open spec fn fitting_prefix(vectors: Seq<VectorView>, dimension: usize) -> int
    decreases vectors.len(),
{
    if vectors.len() == 0 {
        0
    } else if vectors.first().data.len() == dimension {
        1 + fitting_prefix(vectors.drop_first(), dimension)
    } else {
        0
    }
}

pub proof fn lemma_fitting_prefix(vectors: Seq<VectorView>, dimension: usize)
    ensures
        0 <= fitting_prefix(vectors, dimension) <= vectors.len(),
        forall|i: int|
            0 <= i < fitting_prefix(vectors, dimension) ==> (#[trigger] vectors[i]).data.len()
                == dimension,
        fitting_prefix(vectors, dimension) < vectors.len() ==> vectors[fitting_prefix(
            vectors,
            dimension,
        )].data.len() != dimension,
    decreases vectors.len(),
{
    if vectors.len() > 0 && vectors.first().data.len() == dimension {
        lemma_fitting_prefix(vectors.drop_first(), dimension);
        assert forall|i: int| 0 <= i < fitting_prefix(vectors, dimension) implies (
        #[trigger] vectors[i]).data.len() == dimension by {
            if i > 0 {
                assert(vectors[i] == vectors.drop_first()[i - 1]);
            }
        }
        let k = fitting_prefix(vectors.drop_first(), dimension);
        if k + 1 < vectors.len() {
            assert(vectors[k + 1] == vectors.drop_first()[k]);
        }
    }
}

/// A collection as it is created: the configuration and no record.
pub open spec fn empty_collection(config: ConfigView) -> CollectionView {
    CollectionView { config, records: Seq::empty() }
}

/// A collection with more records.
pub open spec fn extended(collection: CollectionView, vectors: Seq<VectorView>) -> CollectionView {
    CollectionView { config: collection.config, records: collection.records + vectors }
}

/// The registry once `operation` has been applied: a created collection
/// takes the place of any of its name; a deleted one is gone; a vector of
/// the collection's dimension is appended to its records, and of a batch
/// the vectors before the first of another dimension; operations on
/// collections that are not there, and the deletion of a vector, change
/// nothing.
pub open spec fn applied(
    registry: Map<Seq<char>, CollectionView>,
    operation: OperationView,
) -> Map<Seq<char>, CollectionView> {
    match operation {
        OperationView::CreateCollection(config) => registry.insert(
            config.name,
            empty_collection(config),
        ),
        OperationView::DeleteCollection(name) => registry.remove(name),
        OperationView::InsertVector { collection, vector } => if registry.contains_key(collection)
            && vector.data.len() == registry[collection].config.dimension {
            registry.insert(collection, extended(registry[collection], seq![vector]))
        } else {
            registry
        },
        OperationView::BatchInsert { collection, vectors } => if registry.contains_key(
            collection,
        ) {
            registry.insert(
                collection,
                extended(
                    registry[collection],
                    vectors.take(fitting_prefix(vectors, registry[collection].config.dimension)),
                ),
            )
        } else {
            registry
        },
        OperationView::DeleteVector { collection, id } => registry,
    }
}

/// The dimensions `(expected, actual)` over which applying `operation`
/// fails, if it does: those of the first vector that does not fit its
/// collection.
pub open spec fn misfit(
    registry: Map<Seq<char>, CollectionView>,
    operation: OperationView,
) -> Option<(usize, usize)> {
    match operation {
        OperationView::InsertVector { collection, vector } => if registry.contains_key(collection)
            && vector.data.len() != registry[collection].config.dimension {
            Some((registry[collection].config.dimension, vector.data.len() as usize))
        } else {
            None
        },
        OperationView::BatchInsert { collection, vectors } => if registry.contains_key(collection)
            && fitting_prefix(vectors, registry[collection].config.dimension) < vectors.len() {
            Some(
                (
                    registry[collection].config.dimension,
                    vectors[fitting_prefix(
                        vectors,
                        registry[collection].config.dimension,
                    )].data.len() as usize,
                ),
            )
        } else {
            None
        },
        _ => None,
    }
}

/// The registry after the operations have been applied in order, up to the
/// first that fails.
pub open spec fn replayed(
    registry: Map<Seq<char>, CollectionView>,
    operations: Seq<OperationView>,
) -> Map<Seq<char>, CollectionView>
    decreases operations.len(),
{
    if operations.len() == 0 {
        registry
    } else if misfit(registry, operations.first()) is Some {
        applied(registry, operations.first())
    } else {
        replayed(applied(registry, operations.first()), operations.drop_first())
    }
}

/// The misfit at which a replay stops, if it does.
pub open spec fn replay_misfit(
    registry: Map<Seq<char>, CollectionView>,
    operations: Seq<OperationView>,
) -> Option<(usize, usize)>
    decreases operations.len(),
{
    if operations.len() == 0 {
        None
    } else if misfit(registry, operations.first()) is Some {
        misfit(registry, operations.first())
    } else {
        replay_misfit(applied(registry, operations.first()), operations.drop_first())
    }
}

impl CollectionStorage {
    /// Storage of a new collection.
    pub fn new(config: CollectionConfig) -> (storage: Self)
        ensures
            storage@ == empty_collection(config@),
    {
        let storage = CollectionStorage { config, records: Vec::new() };
        assert(storage@.records =~= Seq::<VectorView>::empty());
        storage
    }

    pub fn config(&self) -> (config: &CollectionConfig)
        ensures
            config@ == self@.config,
    {
        &self.config
    }

    /// Appends `vector` to the records if it has the collection's
    /// dimension.
    pub fn insert(&mut self, vector: &Vector) -> (result: Result<(), VectorDbError>)
        ensures
            vector@.data.len() == old(self)@.config.dimension ==> result is Ok && final(self)@
                == extended(old(self)@, seq![vector@]),
            vector@.data.len() != old(self)@.config.dimension ==> final(self)@ == old(self)@
                && result == Err::<(), VectorDbError>(
                dimension_mismatch(old(self)@.config.dimension, vector@.data.len() as usize),
            ),
    {
        if vector.data.len() != self.config.dimension {
            return Err(
                VectorDbError::InvalidDimension {
                    expected: self.config.dimension,
                    actual: vector.data.len(),
                },
            );
        }
        self.records.push(copy_vector(vector));
        assert(self@.records =~= old(self)@.records + seq![vector@]);
        Ok(())
    }

    /// Appends the vectors one by one and stops at the first that does not
    /// have the collection's dimension; those before it stay appended.
    pub fn batch_insert(&mut self, vectors: &Vec<Vector>) -> (result: Result<(), VectorDbError>)
        ensures
            final(self)@ == extended(
                old(self)@,
                vectors_view(vectors@).take(
                    fitting_prefix(vectors_view(vectors@), old(self)@.config.dimension),
                ),
            ),
            fitting_prefix(vectors_view(vectors@), old(self)@.config.dimension) == vectors@.len()
                ==> result is Ok,
            fitting_prefix(vectors_view(vectors@), old(self)@.config.dimension) < vectors@.len()
                ==> result == Err::<(), VectorDbError>(
                dimension_mismatch(
                    old(self)@.config.dimension,
                    vectors_view(vectors@)[fitting_prefix(
                        vectors_view(vectors@),
                        old(self)@.config.dimension,
                    )].data.len() as usize,
                ),
            ),
    {
        let ghost views = vectors_view(vectors@);
        let ghost dimension = self@.config.dimension;
        let mut i: usize = 0;
        assert(self@.records =~= old(self)@.records + views.take(0));
        assert(views.skip(0) =~= views);
        while i < vectors.len()
            invariant
                i <= vectors@.len(),
                views == vectors_view(vectors@),
                dimension == old(self)@.config.dimension,
                self@.config == old(self)@.config,
                self@.records == old(self)@.records + views.take(i as int),
                fitting_prefix(views, dimension) == i + fitting_prefix(
                    views.skip(i as int),
                    dimension,
                ),
            decreases vectors@.len() - i,
        {
            let ghost rest = views.skip(i as int);
            proof {
                assert(rest.first() == views[i as int]);
                assert(views[i as int] == vectors@[i as int]@);
                assert(rest.drop_first() =~= views.skip(i + 1));
                assert(views.take(i + 1) =~= views.take(i as int) + seq![views[i as int]]);
            }
            match self.insert(&vectors[i]) {
                Ok(()) => {},
                Err(error) => {
                    return Err(error);
                },
            }
            i += 1;
        }
        proof {
            assert(views.skip(vectors@.len() as int) =~= Seq::<VectorView>::empty());
        }
        Ok(())
    }

    /// Number of records.
    pub fn record_count(&self) -> (count: usize)
        ensures
            count == self@.records.len(),
    {
        self.records.len()
    }

    /// Looking a record up by id is not supported: the answer is `None`.
    pub fn get(&self, id: &VectorId) -> (found: Option<Vector>)
        ensures
            found is None,
    {
        None
    }

    /// Deleting a record is not supported: the answer is `false` and the
    /// records stay.
    pub fn delete(&mut self, id: &VectorId) -> (removed: bool)
        ensures
            !removed,
            final(self)@ == old(self)@,
    {
        false
    }
}

/// The engine.
pub struct StorageEngine {
    data_dir: String,
    collections: Registry<CollectionStorage>,
    wal: WriteAheadLog,
}

impl StorageEngine {
    /// The collections by name.
    pub closed spec fn registry(&self) -> Map<Seq<char>, CollectionView> {
        self.collections@.map_values(|c: CollectionStorage| c@)
    }

    /// The names of the collections, each once, in the order in which the
    /// engine keeps them.
    pub closed spec fn names(&self) -> Seq<String> {
        self.collections.keys()
    }

    /// The logged operations, oldest first.
    pub closed spec fn log(&self) -> Seq<OperationView> {
        self.wal.operations()
    }

    pub closed spec fn spec_data_dir(&self) -> Seq<char> {
        self.data_dir@
    }

    /// No two collections share a name, and each is registered under the
    /// name in its configuration.
    pub closed spec fn wf(&self) -> bool {
        &&& self.collections.wf()
        &&& forall|name: Seq<char>| #[trigger]
            self.collections@.contains_key(name) ==> self.collections@[name]@.config.name == name
    }

    /// `after` is `self` with `operation` logged and applied.
    pub open spec fn logged(&self, after: &StorageEngine, operation: OperationView) -> bool {
        &&& after.log() == self.log().push(operation)
        &&& after.registry() == applied(self.registry(), operation)
        &&& after.spec_data_dir() == self.spec_data_dir()
    }

    /// `after` holds what `self` holds.
    pub open spec fn unchanged(&self, after: &StorageEngine) -> bool {
        &&& after.log() == self.log()
        &&& after.registry() == self.registry()
        &&& after.spec_data_dir() == self.spec_data_dir()
    }

    /// What a recovery from a log of `operations` ends in, with the
    /// collections in `existing` found on disk: an engine that holds the
    /// log and what its valid operations replay to, or the error of the
    /// first vector that does not fit its collection.
    pub open spec fn recovers(
        result: Result<Self, VectorDbError>,
        data_dir: Seq<char>,
        operations: Seq<OperationView>,
        existing: Set<Seq<char>>,
    ) -> bool {
        match result {
            Ok(engine) => engine.wf() && engine.log() == operations && engine.spec_data_dir()
                == data_dir && engine.registry() == replayed(
                Map::empty(),
                validated(operations, existing),
            ) && replay_misfit(Map::empty(), validated(operations, existing)) is None,
            Err(error) => match replay_misfit(Map::empty(), validated(operations, existing)) {
                Some((expected, actual)) => error == dimension_mismatch(expected, actual),
                None => false,
            },
        }
    }

    /// The engine over `data_dir`, recovered from `wal`: the operations of
    /// the log that are valid, given the collections found on disk, are
    /// applied in order. A vector that does not fit its collection stops the
    /// recovery with its error.
    pub fn new(data_dir: &str, wal: WriteAheadLog, existing: NameSet) -> (result: Result<
        Self,
        VectorDbError,
    >)
        ensures
            Self::recovers(result, data_dir@, wal.operations(), existing@),
    {
        let recovery = RecoveryManager::new(data_dir);
        let operations = recovery.recover_from_wal(&wal, existing);
        let mut engine = StorageEngine {
            data_dir: text_of(data_dir),
            collections: Registry::new(),
            wal,
        };
        assert(engine.registry() =~= Map::<Seq<char>, CollectionView>::empty());
        match engine.recover(operations) {
            Ok(()) => Ok(engine),
            Err(error) => Err(error),
        }
    }

    /// Whether a collection of that name is registered.
    pub fn contains_collection(&self, name: &str) -> (found: bool)
        requires
            self.wf(),
        ensures
            found == self.registry().contains_key(name@),
    {
        self.collections.contains(name)
    }

    /// Registers a new, empty collection, after logging its creation. A
    /// name that is taken is refused and nothing is logged; where the entry
    /// cannot be logged the failure is reported and nothing is registered.
    pub fn create_collection(&mut self, config: &CollectionConfig) -> (result: Result<
        (),
        VectorDbError,
    >)
        requires
            old(self).wf(),
        ensures
            final(self).wf(),
            match result {
                Ok(()) => !old(self).registry().contains_key(config@.name) && old(self).logged(
                    final(self),
                    OperationView::CreateCollection(config@),
                ),
                Err(error) => old(self).unchanged(final(self)) && if old(self).registry().contains_key(
                    config@.name,
                ) {
                    error.is_already_exists(config@.name)
                } else {
                    error.is_unlogged()
                },
            },
    {
        if self.collections.contains(config.name.as_str()) {
            return Err(VectorDbError::CollectionAlreadyExists { name: config.name.clone() });
        }
        let op = WALOperation::CreateCollection(copy_config(config));
        match self.wal.append(&op) {
            Ok(()) => {},
            Err(error) => {
                return Err(error);
            },
        }
        let applied = self.apply_operation(&op);
        Ok(())
    }

    /// Removes a collection, after logging its deletion. An unknown name is
    /// refused and nothing is logged; where the entry cannot be logged the
    /// failure is reported and the collection stays.
    pub fn delete_collection(&mut self, name: &str) -> (result: Result<(), VectorDbError>)
        requires
            old(self).wf(),
        ensures
            final(self).wf(),
            match result {
                Ok(()) => old(self).registry().contains_key(name@) && old(self).logged(
                    final(self),
                    OperationView::DeleteCollection(name@),
                ),
                Err(error) => old(self).unchanged(final(self)) && if old(self).registry().contains_key(
                    name@,
                ) {
                    error.is_unlogged()
                } else {
                    error.is_not_found(name@)
                },
            },
    {
        if !self.collections.contains(name) {
            return Err(VectorDbError::CollectionNotFound { name: text_of(name) });
        }
        let op = WALOperation::DeleteCollection(text_of(name));
        match self.wal.append(&op) {
            Ok(()) => {},
            Err(error) => {
                return Err(error);
            },
        }
        let applied = self.apply_operation(&op);
        Ok(())
    }

    /// Appends a vector to a collection, after logging the insert. An
    /// unknown collection is refused and nothing is logged; a vector of
    /// another dimension than the collection's is logged and then refused.
    /// Where the entry cannot be logged the failure is reported and
    /// nothing is appended.
    pub fn insert_vector(&mut self, collection: &str, vector: &Vector) -> (result: Result<
        (),
        VectorDbError,
    >)
        requires
            old(self).wf(),
        ensures
            final(self).wf(),
            !old(self).registry().contains_key(collection@) ==> (result matches Err(error)
                && error.is_not_found(collection@)) && old(self).unchanged(final(self)),
            old(self).registry().contains_key(collection@) ==> (result matches Err(error)
                && error.is_unlogged() && old(self).unchanged(final(self))) || (old(self).logged(
                final(self),
                (OperationView::InsertVector { collection: collection@, vector: vector@ }),
            ) && match misfit(
                old(self).registry(),
                (OperationView::InsertVector { collection: collection@, vector: vector@ }),
            ) {
                Some((expected, actual)) => result == Err::<(), VectorDbError>(
                    dimension_mismatch(expected, actual),
                ),
                None => result is Ok,
            }),
    {
        if !self.collections.contains(collection) {
            return Err(VectorDbError::CollectionNotFound { name: text_of(collection) });
        }
        let op = WALOperation::InsertVector {
            collection: text_of(collection),
            vector: copy_vector(vector),
        };
        match self.wal.append(&op) {
            Ok(()) => {},
            Err(error) => {
                return Err(error);
            },
        }
        self.apply_operation(&op)
    }

    /// Appends vectors to a collection, after logging the batch as one
    /// entry. An unknown collection is refused and nothing is logged; the
    /// first vector of another dimension than the collection's stops the
    /// batch with its error, and those before it stay appended. Where the
    /// entry cannot be logged the failure is reported and nothing is
    /// appended.
    pub fn batch_insert(&mut self, collection: &str, vectors: &Vec<Vector>) -> (result: Result<
        (),
        VectorDbError,
    >)
        requires
            old(self).wf(),
        ensures
            final(self).wf(),
            !old(self).registry().contains_key(collection@) ==> (result matches Err(error)
                && error.is_not_found(collection@)) && old(self).unchanged(final(self)),
            old(self).registry().contains_key(collection@) ==> (result matches Err(error)
                && error.is_unlogged() && old(self).unchanged(final(self))) || (old(self).logged(
                final(self),
                (OperationView::BatchInsert {
                    collection: collection@,
                    vectors: vectors_view(vectors@),
                }),
            ) && match misfit(
                old(self).registry(),
                (OperationView::BatchInsert {
                    collection: collection@,
                    vectors: vectors_view(vectors@),
                }),
            ) {
                Some((expected, actual)) => result == Err::<(), VectorDbError>(
                    dimension_mismatch(expected, actual),
                ),
                None => result is Ok,
            }),
    {
        if !self.collections.contains(collection) {
            return Err(VectorDbError::CollectionNotFound { name: text_of(collection) });
        }
        let op = WALOperation::BatchInsert {
            collection: text_of(collection),
            vectors: copy_vectors(vectors),
        };
        match self.wal.append(&op) {
            Ok(()) => {},
            Err(error) => {
                return Err(error);
            },
        }
        self.apply_operation(&op)
    }

    /// Looks a vector up. Records cannot be looked up by id, so a known
    /// collection answers `None`; an unknown one is refused.
    pub fn get_vector(&self, collection: &str, id: &VectorId) -> (result: Result<
        Option<Vector>,
        VectorDbError,
    >)
        requires
            self.wf(),
        ensures
            match result {
                Ok(found) => self.registry().contains_key(collection@) && found is None,
                Err(error) => !self.registry().contains_key(collection@) && error.is_not_found(
                    collection@,
                ),
            },
    {
        match self.collections.get(collection) {
            Some(storage) => Ok(storage.get(id)),
            None => Err(VectorDbError::CollectionNotFound { name: text_of(collection) }),
        }
    }

    /// Logs the deletion of a vector. Records cannot be deleted, so the
    /// answer for a known collection is `false`; an unknown one is refused
    /// and nothing is logged. Where the entry cannot be logged the failure
    /// is reported.
    pub fn delete_vector(&mut self, collection: &str, id: &VectorId) -> (result: Result<
        bool,
        VectorDbError,
    >)
        requires
            old(self).wf(),
        ensures
            final(self).wf(),
            match result {
                Ok(removed) => !removed && old(self).registry().contains_key(collection@)
                    && old(self).logged(
                    final(self),
                    (OperationView::DeleteVector { collection: collection@, id: *id }),
                ),
                Err(error) => old(self).unchanged(final(self)) && if old(self).registry().contains_key(
                    collection@,
                ) {
                    error.is_unlogged()
                } else {
                    error.is_not_found(collection@)
                },
            },
    {
        if !self.collections.contains(collection) {
            return Err(VectorDbError::CollectionNotFound { name: text_of(collection) });
        }
        let op = WALOperation::DeleteVector { collection: text_of(collection), id: *id };
        match self.wal.append(&op) {
            Ok(()) => {},
            Err(error) => {
                return Err(error);
            },
        }
        let applied = self.apply_operation(&op);
        Ok(false)
    }

    /// The names of the collections, each once, in the order in which the
    /// engine keeps them.
    pub fn list_collections(&self) -> (names: Vec<String>)
        requires
            self.wf(),
        ensures
            names@.len() == self.names().len(),
            forall|i: int| 0 <= i < names@.len() ==> (#[trigger] names@[i])@ == self.names()[i]@,
            forall|i: int, j: int|
                0 <= i < j < names@.len() ==> (#[trigger] names@[i])@ != (#[trigger] names@[j])@,
            forall|i: int|
                0 <= i < names@.len() ==> self.registry().contains_key((#[trigger] names@[i])@),
            forall|name: Seq<char>|
                self.registry().contains_key(name) ==> exists|i: int|
                    0 <= i < names@.len() && (#[trigger] names@[i])@ == name,
    {
        let names = self.collections.names();
        proof {
            assert forall|i: int| 0 <= i < names@.len() implies self.registry().contains_key(
                (#[trigger] names@[i])@,
            ) by {
                self.collections.lemma_place(i);
            }
            assert forall|name: Seq<char>| self.registry().contains_key(name) implies exists|
                i: int,
            |
                0 <= i < names@.len() && (#[trigger] names@[i])@ == name by {
                let p = crate::registry::place_of(self.collections.keys(), name);
                assert(names@[p]@ == name);
            }
        }
        names
    }

    /// The configuration of a collection.
    pub fn get_collection_config(&self, name: &str) -> (config: Option<CollectionConfig>)
        requires
            self.wf(),
        ensures
            match config {
                Some(config) => self.registry().contains_key(name@) && config@
                    == self.registry()[name@].config,
                None => !self.registry().contains_key(name@),
            },
    {
        match self.collections.get(name) {
            Some(storage) => Some(copy_config(storage.config())),
            None => None,
        }
    }

    /// The figures that the storage keeps of a collection: its name and
    /// dimension. Counts and sizes are not tracked and read 0.
    pub fn get_collection_stats(&self, name: &str) -> (stats: Option<CollectionStats>)
        requires
            self.wf(),
        ensures
            match stats {
                Some(stats) => self.registry().contains_key(name@) && stats.name@ == name@
                    && stats.vector_count == 0 && stats.dimension
                    == self.registry()[name@].config.dimension && stats.index_size == 0
                    && stats.memory_usage == 0,
                None => !self.registry().contains_key(name@),
            },
    {
        match self.collections.get(name) {
            Some(storage) => Some(
                CollectionStats {
                    name: text_of(name),
                    vector_count: 0,
                    dimension: storage.config().dimension,
                    index_size: 0,
                    memory_usage: 0,
                },
            ),
            None => None,
        }
    }

    /// The storage of a collection.
    pub fn collection(&self, name: &str) -> (storage: Option<&CollectionStorage>)
        requires
            self.wf(),
        ensures
            match storage {
                Some(storage) => self.registry().contains_key(name@) && storage@
                    == self.registry()[name@],
                None => !self.registry().contains_key(name@),
            },
    {
        self.collections.get(name)
    }

    /// The data directory.
    pub fn data_dir(&self) -> (dir: &String)
        ensures
            dir@ == self.spec_data_dir(),
    {
        &self.data_dir
    }

    /// The log.
    pub fn wal(&self) -> (wal: &WriteAheadLog)
        ensures
            wal.operations() == self.log(),
    {
        &self.wal
    }

    /// Applies the operations in order, up to the first that fails.
    fn recover(&mut self, operations: Vec<WALOperation>) -> (result: Result<(), VectorDbError>)
        requires
            old(self).wf(),
        ensures
            final(self).wf(),
            final(self).log() == old(self).log(),
            final(self).spec_data_dir() == old(self).spec_data_dir(),
            final(self).registry() == replayed(
                old(self).registry(),
                crate::wal::operations_view(operations@),
            ),
            match replay_misfit(old(self).registry(), crate::wal::operations_view(operations@)) {
                Some((expected, actual)) => result == Err::<(), VectorDbError>(
                    dimension_mismatch(expected, actual),
                ),
                None => result is Ok,
            },
    {
        let ghost views = crate::wal::operations_view(operations@);
        let mut i: usize = 0;
        assert(views.skip(0) =~= views);
        while i < operations.len()
            invariant
                self.wf(),
                i <= operations@.len(),
                views == crate::wal::operations_view(operations@),
                self.log() == old(self).log(),
                self.spec_data_dir() == old(self).spec_data_dir(),
                replayed(old(self).registry(), views) == replayed(
                    self.registry(),
                    views.skip(i as int),
                ),
                replay_misfit(old(self).registry(), views) == replay_misfit(
                    self.registry(),
                    views.skip(i as int),
                ),
            decreases operations@.len() - i,
        {
            proof {
                assert(views.skip(i as int).first() == operations@[i as int]@);
                assert(views.skip(i as int).drop_first() =~= views.skip(i + 1));
            }
            match self.apply_operation(&operations[i]) {
                Ok(()) => {},
                Err(error) => {
                    return Err(error);
                },
            }
            i += 1;
        }
        proof {
            assert(views.skip(operations@.len() as int) =~= Seq::<OperationView>::empty());
        }
        Ok(())
    }

    /// Applies one operation without logging it.
    pub fn apply_operation(&mut self, op: &WALOperation) -> (result: Result<(), VectorDbError>)
        requires
            old(self).wf(),
        ensures
            final(self).wf(),
            final(self).log() == old(self).log(),
            final(self).spec_data_dir() == old(self).spec_data_dir(),
            final(self).registry() == applied(old(self).registry(), op@),
            match misfit(old(self).registry(), op@) {
                Some((expected, actual)) => result == Err::<(), VectorDbError>(
                    dimension_mismatch(expected, actual),
                ),
                None => result is Ok,
            },
    {
        match op {
            WALOperation::CreateCollection(config) => {
                let storage = CollectionStorage::new(copy_config(config));
                self.collections.insert(config.name.as_str(), storage);
                assert(self.registry() =~= applied(old(self).registry(), op@));
                Ok(())
            },
            WALOperation::DeleteCollection(name) => {
                self.collections.remove(name.as_str());
                assert(self.registry() =~= applied(old(self).registry(), op@));
                Ok(())
            },
            WALOperation::InsertVector { collection, vector } => {
                match self.collections.position(collection.as_str()) {
                    Some(i) => {
                        let ghost before = self.collections;
                        let storage = self.collections.item_mut(i);
                        let result = storage.insert(vector);
                        proof {
                            before.lemma_item_changed(&self.collections, i as int);
                            assert(self.registry() =~= applied(old(self).registry(), op@));
                        }
                        result
                    },
                    None => {
                        assert(self.registry() =~= applied(old(self).registry(), op@));
                        Ok(())
                    },
                }
            },
            WALOperation::BatchInsert { collection, vectors } => {
                match self.collections.position(collection.as_str()) {
                    Some(i) => {
                        let ghost before = self.collections;
                        let storage = self.collections.item_mut(i);
                        let result = storage.batch_insert(vectors);
                        proof {
                            before.lemma_item_changed(&self.collections, i as int);
                            lemma_fitting_prefix(
                                vectors_view(vectors@),
                                before.values()[i as int]@.config.dimension,
                            );
                            assert(self.registry() =~= applied(old(self).registry(), op@));
                        }
                        result
                    },
                    None => {
                        assert(self.registry() =~= applied(old(self).registry(), op@));
                        Ok(())
                    },
                }
            },
            WALOperation::DeleteVector { collection, id } => {
                Ok(())
            },
        }
    }
}

/// Restart: an engine that started without a collection and carried out
/// what it logged is recovered from its log with the collections it held,
/// their configurations and their records, whatever is found on disk.
pub proof fn lemma_restart_holds_the_registry(
    engine: &StorageEngine,
    result: Result<StorageEngine, VectorDbError>,
    data_dir: Seq<char>,
    existing: Set<Seq<char>>,
)
    requires
        carried_log(Map::empty(), engine.log()),
        engine.registry() == replayed(Map::empty(), engine.log()),
        StorageEngine::recovers(result, data_dir, engine.log(), existing),
    ensures
        result matches Ok(again) && again.registry() == engine.registry() && again.log()
            == engine.log(),
{
    lemma_restart_restores(engine.log(), existing);
}

/// Recovery ends alike whenever it starts alike: two recoveries from logs
/// of the same operations, with the same collections found on disk, both
/// give an engine, and then the same collections with the same records
/// and the same log, or both fail, and then with the same error.
pub proof fn lemma_recoveries_agree(
    first: Result<StorageEngine, VectorDbError>,
    second: Result<StorageEngine, VectorDbError>,
    data_dir: Seq<char>,
    operations: Seq<OperationView>,
    existing: Set<Seq<char>>,
)
    requires
        StorageEngine::recovers(first, data_dir, operations, existing),
        StorageEngine::recovers(second, data_dir, operations, existing),
    ensures
        first is Ok <==> second is Ok,
        match (first, second) {
            (Ok(a), Ok(b)) => a.registry() == b.registry() && a.log() == b.log(),
            (Err(a), Err(b)) => a == b,
            _ => true,
        },
{
}

/// Recovery is a function of the log: two engines recovered from logs
/// of the same operations, with the same collections found on disk, hold
/// the same collections with the same records.
pub proof fn lemma_recovery_is_repeatable(
    first: &StorageEngine,
    second: &StorageEngine,
    operations: Seq<OperationView>,
    existing: Set<Seq<char>>,
)
    requires
        first.registry() == replayed(Map::empty(), validated(operations, existing)),
        second.registry() == replayed(Map::empty(), validated(operations, existing)),
    ensures
        first.registry() == second.registry(),
{
}

/// Whether an engine that holds `registry` carries the operation out: a
/// collection of at least one dimension under a free name, a deletion of a
/// collection that is there, vectors of the dimension of their collection.
pub open spec fn carried_out(
    registry: Map<Seq<char>, CollectionView>,
    operation: OperationView,
) -> bool {
    match operation {
        OperationView::CreateCollection(config) => !registry.contains_key(config.name)
            && config.dimension >= 1,
        OperationView::DeleteCollection(name) => registry.contains_key(name),
        OperationView::InsertVector { collection, vector } => registry.contains_key(collection)
            && vector.data.len() == registry[collection].config.dimension,
        OperationView::BatchInsert { collection, vectors } => registry.contains_key(collection)
            && fitting_prefix(vectors, registry[collection].config.dimension) == vectors.len(),
        OperationView::DeleteVector { collection, id } => registry.contains_key(collection),
    }
}

/// A log of operations that an engine carried out one after the other,
/// starting with `registry`.
pub open spec fn carried_log(
    registry: Map<Seq<char>, CollectionView>,
    operations: Seq<OperationView>,
) -> bool
    decreases operations.len(),
{
    operations.len() == 0 || (carried_out(registry, operations.first()) && carried_log(
        applied(registry, operations.first()),
        operations.drop_first(),
    ))
}

/// Every collection has at least one dimension.
pub open spec fn dimensioned(registry: Map<Seq<char>, CollectionView>) -> bool {
    forall|name: Seq<char>| #[trigger]
        registry.contains_key(name) ==> registry[name].config.dimension >= 1
}

/// A log that an engine carried out passes validation whole, from any
/// point at which the log has created the engine's collections and these
/// are known.
pub proof fn lemma_carried_log_is_valid(
    registry: Map<Seq<char>, CollectionView>,
    operations: Seq<OperationView>,
    known: Set<Seq<char>>,
    created: Set<Seq<char>>,
)
    requires
        carried_log(registry, operations),
        dimensioned(registry),
        registry.dom() == created,
        created.subset_of(known),
    ensures
        judged(operations, known, created) == operations,
        replay_misfit(registry, operations) is None,
    decreases operations.len(),
{
    if operations.len() > 0 {
        let head = operations.first();
        let tail = operations.drop_first();
        let next = applied(registry, head);
        match head {
            OperationView::BatchInsert { collection, vectors } => {
                lemma_fitting_prefix(vectors, registry[collection].config.dimension);
                assert(vectors.take(vectors.len() as int) =~= vectors);
                assert(!has_empty(vectors));
            },
            _ => {},
        }
        assert(objection(head, crate::recovery::judged_against(head, known, created)) is None);
        assert(misfit(registry, head) is None);
        assert(next.dom() =~= known_after(head, created));
        assert(dimensioned(next)) by {
            assert forall|name: Seq<char>| #[trigger] next.contains_key(name) implies next[name].config.dimension
                >= 1 by {
                if registry.contains_key(name) {
                    assert(registry[name].config.dimension >= 1);
                }
            }
        }
        assert(known_after(head, created).subset_of(known_after(head, known)));
        lemma_carried_log_is_valid(next, tail, known_after(head, known), known_after(head, created));
        assert(seq![head] + tail =~= operations);
    }
}

/// A log that was carried out stays one when the engine carries out one
/// more operation.
pub proof fn lemma_carried_push(
    registry: Map<Seq<char>, CollectionView>,
    operations: Seq<OperationView>,
    operation: OperationView,
)
    requires
        carried_log(registry, operations),
        carried_out(replayed(registry, operations), operation),
    ensures
        carried_log(registry, operations.push(operation)),
        replay_misfit(registry, operations) is None,
    decreases operations.len(),
{
    let longer = operations.push(operation);
    reveal_with_fuel(carried_log, 2);
    reveal_with_fuel(replayed, 2);
    reveal_with_fuel(replay_misfit, 2);
    if operations.len() == 0 {
        assert(longer.first() == operation);
        assert(longer.drop_first() =~= Seq::<OperationView>::empty());
    } else {
        let head = operations.first();
        assert(misfit(registry, head) is None) by {
            match head {
                OperationView::BatchInsert { collection, vectors } => {},
                _ => {},
            }
        }
        assert(longer.first() == head);
        assert(longer.drop_first() =~= operations.drop_first().push(operation));
        lemma_carried_push(applied(registry, head), operations.drop_first(), operation);
    }
}

/// Restart: the log that an engine wrote, starting without a collection,
/// is replayed whole whatever directories are found on disk, so that the
/// engine recovered from it holds the collections, with configuration and
/// records, that the log replays to.
pub proof fn lemma_restart_restores(operations: Seq<OperationView>, existing: Set<Seq<char>>)
    requires
        carried_log(Map::empty(), operations),
    ensures
        validated(operations, existing) == operations,
        replay_misfit(Map::empty(), validated(operations, existing)) is None,
{
    lemma_carried_log_is_valid(Map::empty(), operations, existing, Set::empty());
}

/// The log tells the state: where a registry is what its log replays to,
/// and an operation that applies without a misfit is logged and applied,
/// the new registry is what the new log replays to.
pub proof fn lemma_log_replays_to_registry(
    before: &StorageEngine,
    after: &StorageEngine,
    operation: OperationView,
)
    requires
        before.registry() == replayed(Map::empty(), before.log()),
        replay_misfit(Map::empty(), before.log()) is None,
        before.logged(after, operation),
    ensures
        after.registry() == replayed(Map::empty(), after.log()),
        replay_misfit(Map::empty(), after.log()) == misfit(before.registry(), operation),
{
    lemma_replay_push(Map::empty(), before.log(), operation);
}

/// Replaying one more operation applies it to what the others replay to.
pub proof fn lemma_replay_push(
    registry: Map<Seq<char>, CollectionView>,
    operations: Seq<OperationView>,
    operation: OperationView,
)
    requires
        replay_misfit(registry, operations) is None,
    ensures
        replayed(registry, operations.push(operation)) == applied(
            replayed(registry, operations),
            operation,
        ),
        replay_misfit(registry, operations.push(operation)) == misfit(
            replayed(registry, operations),
            operation,
        ),
    decreases operations.len(),
{
    let longer = operations.push(operation);
    reveal_with_fuel(replayed, 2);
    reveal_with_fuel(replay_misfit, 2);
    if operations.len() == 0 {
        assert(longer.first() == operation);
        assert(longer.drop_first() =~= Seq::<OperationView>::empty());
        assert(longer.drop_first().len() == 0);
    } else {
        assert(longer.first() == operations.first());
        assert(longer.drop_first() =~= operations.drop_first().push(operation));
        lemma_replay_push(applied(registry, operations.first()), operations.drop_first(), operation);
    }
}

} // verus!
